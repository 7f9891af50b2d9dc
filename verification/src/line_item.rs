//! Line items and their registry.

use crate::error::SplitError;
use crate::keys::random_key;
use crate::money::even_share;
use crate::money::held;
use crate::money::Amount;
use crate::money::Money;
use crate::seqs::lemma_filter_drops_one;
use crate::seqs::lemma_filter_keeps_all;
use crate::text::blank;
use crate::text::is_blank;
use vstd::prelude::*;

verus! {

/// What a line item is, as plain values: its key, its name, its price in
/// cents and the keys of the participants who share it.
pub struct LItemView {
    pub id: u128,
    pub name: Seq<char>,
    pub price: nat,
    pub members: Seq<u128>,
}

/// A priced purchase, shared evenly by some of the participants.
#[derive(Debug)]
pub struct LItem {
    id: u128,
    item_name: String,
    price: Money,
    participants: Vec<u128>,
}

impl View for LItem {
    type V = LItemView;

    closed spec fn view(&self) -> LItemView {
        LItemView {
            id: self.id,
            name: self.item_name@,
            price: self.price@,
            members: self.participants@,
        }
    }
}

/// The test that every key passes but `id`.
pub open spec fn other_key(id: u128) -> spec_fn(u128) -> bool {
    |k: u128| k != id
}

/// `members` with `who` among them: added at the end unless already there.
pub open spec fn with_member(members: Seq<u128>, who: u128) -> Seq<u128> {
    if members.contains(who) {
        members
    } else {
        members.push(who)
    }
}

/// `members` without `who`.
pub open spec fn without_member(members: Seq<u128>, who: u128) -> Seq<u128> {
    members.filter(other_key(who))
}

/// The members that result from enrolling `keys` one after the other: each
/// key once, at the place where it first occurs.
pub open spec fn enrolled(keys: Seq<u128>) -> Seq<u128>
    decreases keys.len(),
{
    if keys.len() == 0 {
        keys
    } else {
        with_member(enrolled(keys.drop_last()), keys.last())
    }
}

/// What one member of `item` owes for it, where that is defined: `None` for
/// an item that nobody shares, for which nothing is divided.
pub open spec fn item_share(item: LItemView) -> Option<nat> {
    if item.members.len() == 0 {
        None
    } else {
        even_share(item.price, item.members.len())
    }
}

/// Enrolling keys gives no key twice, and gives the keys that were enrolled.
pub proof fn lemma_enrolled(keys: Seq<u128>)
    ensures
        enrolled(keys).no_duplicates(),
        forall|k: u128| enrolled(keys).contains(k) <==> keys.contains(k),
    decreases keys.len(),
{
    if keys.len() > 0 {
        let front = keys.drop_last();
        lemma_enrolled(front);
        let before = enrolled(front);
        assert forall|k: u128| enrolled(keys).contains(k) <==> keys.contains(k) by {
            if keys.contains(k) {
                let i = choose|i: int| 0 <= i < keys.len() && keys[i] == k;
                if i < keys.len() - 1 {
                    assert(front[i] == k);
                    assert(front.contains(k));
                    assert(before.contains(k));
                    let j = choose|j: int| 0 <= j < before.len() && before[j] == k;
                    assert(enrolled(keys)[j] == k);
                } else if !before.contains(k) {
                    assert(enrolled(keys)[before.len() as int] == k);
                }
            }
            if enrolled(keys).contains(k) {
                let j = choose|j: int| 0 <= j < enrolled(keys).len() && enrolled(keys)[j] == k;
                if j < before.len() {
                    assert(before[j] == k);
                    assert(before.contains(k));
                    assert(front.contains(k));
                    let i = choose|i: int| 0 <= i < front.len() && front[i] == k;
                    assert(keys[i] == k);
                } else {
                    assert(keys[keys.len() - 1] == k);
                }
            }
        }
    }
}

/// Enrolling keys of which none occurs twice gives those keys.
pub proof fn lemma_enrolled_distinct(keys: Seq<u128>)
    requires
        keys.no_duplicates(),
    ensures
        enrolled(keys) == keys,
    decreases keys.len(),
{
    if keys.len() > 0 {
        let front = keys.drop_last();
        lemma_enrolled_distinct(front);
        if front.contains(keys.last()) {
            let i = choose|i: int| 0 <= i < front.len() && front[i] == keys.last();
            assert(keys[i] == keys[keys.len() - 1]);
        }
        assert(front.push(keys.last()) =~= keys);
    }
}

impl LItem {
    /// Whether no participant is entered twice.
    pub open spec fn wf(&self) -> bool {
        self@.members.no_duplicates()
    }

    /// A line item under the key `id` that nobody shares yet.
    pub fn with_id(id: u128, item_name: String, price: Money) -> (r: LItem)
        ensures
            r@ == (LItemView { id, name: item_name@, price: price@, members: Seq::empty() }),
            r.wf(),
    {
        LItem { id, item_name, price, participants: Vec::new() }
    }

    /// A line item under a key drawn at random that nobody shares yet.
    pub fn new(item_name: String, price: Money) -> (r: LItem)
        ensures
            r@ == (LItemView {
                id: r@.id,
                name: item_name@,
                price: price@,
                members: Seq::empty(),
            }),
            r.wf(),
    {
        LItem::with_id(random_key(), item_name, price)
    }

    /// The item's key.
    pub fn id(&self) -> (r: u128)
        ensures
            r == self@.id,
    {
        self.id
    }

    /// The item's name.
    pub fn name(&self) -> (r: &String)
        ensures
            r@ == self@.name,
    {
        &self.item_name
    }

    /// The item's price.
    pub fn price(&self) -> (r: Money)
        ensures
            r@ == self@.price,
    {
        self.price
    }

    /// The keys of the participants who share the item.
    pub fn participants(&self) -> (r: &Vec<u128>)
        ensures
            r@ == self@.members,
    {
        &self.participants
    }

    /// The place of the participant `who` among those who share the item.
    fn member_position(&self, who: u128) -> (r: Option<usize>)
        ensures
            match r {
                Some(i) => i < self@.members.len() && self@.members[i as int] == who,
                None => !self@.members.contains(who),
            },
    {
        let n = self.participants.len();
        let mut i: usize = 0;
        while i < n
            invariant
                n == self.participants@.len(),
                i <= n,
                forall|j: int| 0 <= j < i ==> self.participants@[j] != who,
            decreases n - i,
        {
            if self.participants[i] == who {
                return Some(i);
            }
            i = i + 1;
        }
        None
    }

    /// Whether the participant `who` shares the item.
    pub fn has_participant(&self, who: u128) -> (r: bool)
        ensures
            r == self@.members.contains(who),
    {
        self.member_position(who).is_some()
    }

    /// Gives the item another name.
    pub fn update_name(&mut self, updated_name: String)
        ensures
            final(self)@ == (LItemView { name: updated_name@, ..old(self)@ }),
    {
        self.item_name = updated_name;
    }

    /// Leaves the item shared by nobody.
    pub fn clear_participants(&mut self)
        ensures
            final(self)@ == (LItemView { members: Seq::empty(), ..old(self)@ }),
            final(self).wf(),
    {
        self.participants.clear();
    }

    /// Sets the price to the entered amount, rounded to the cent with a tie
    /// going up. An amount that is negative or out of range is turned down
    /// and the price stays.
    pub fn update_price(&mut self, updated_price: Amount) -> (r: Result<(), SplitError>)
        ensures
            match updated_price.as_money() {
                Ok(price) => r is Ok && final(self)@ == (LItemView {
                    price: price@,
                    ..old(self)@
                }),
                Err(e) => r == Err::<(), SplitError>(e) && final(self)@ == old(self)@,
            },
    {
        match Money::from_amount(updated_price) {
            Ok(price) => {
                self.price = price;
                Ok(())
            },
            Err(e) => Err(e),
        }
    }

    /// What each participant owes for the item: its price divided by the
    /// number of those who share it, rounded to the cent. `None` for an item
    /// that nobody shares, and where the share cannot be held.
    pub fn get_split_by_participants(&self) -> (r: Option<Money>)
        ensures
            r == held(item_share(self@)),
    {
        let count = self.participants.len();
        if count == 0 {
            None
        } else {
            self.price.split_evenly(count as u64)
        }
    }

    /// Enters the participant `who` among those who share the item, unless
    /// already there.
    pub fn add_participant(&mut self, who: u128)
        requires
            old(self).wf(),
        ensures
            final(self).wf(),
            final(self)@ == (LItemView {
                members: with_member(old(self)@.members, who),
                ..old(self)@
            }),
    {
        if !self.has_participant(who) {
            self.participants.push(who);
        }
    }

    /// Takes the participant `who` from those who share the item.
    pub fn remove_participant(&mut self, who: u128)
        requires
            old(self).wf(),
        ensures
            final(self).wf(),
            final(self)@ == (LItemView {
                members: without_member(old(self)@.members, who),
                ..old(self)@
            }),
    {
        match self.member_position(who) {
            Some(i) => {
                let _ = self.participants.remove(i);
                proof {
                    lemma_filter_drops_one(old(self)@.members, other_key(who), i as int);
                }
            },
            None => {
                proof {
                    lemma_filter_keeps_all(old(self)@.members, other_key(who));
                }
            },
        }
    }

    /// Lets the item be shared by the participants `keys` and nobody else; a
    /// key given twice counts once.
    pub fn set_participants(&mut self, keys: &Vec<u128>)
        ensures
            final(self).wf(),
            final(self)@ == (LItemView { members: enrolled(keys@), ..old(self)@ }),
    {
        self.clear_participants();
        let n = keys.len();
        let mut k: usize = 0;
        assert(keys@.take(0) =~= Seq::<u128>::empty());
        while k < n
            invariant
                n == keys@.len(),
                k <= n,
                self.wf(),
                self@ == (LItemView { members: enrolled(keys@.take(k as int)), ..old(self)@ }),
            decreases n - k,
        {
            assert(keys@.take(k + 1).drop_last() =~= keys@.take(k as int));
            self.add_participant(keys[k]);
            k = k + 1;
        }
        assert(keys@.take(n as int) =~= keys@);
    }
}

impl Clone for LItem {
    fn clone(&self) -> (r: LItem)
        ensures
            r@ == self@,
    {
        LItem {
            id: self.id,
            item_name: self.item_name.clone(),
            price: self.price,
            participants: self.participants.clone(),
        }
    }
}

/// What the line items `items` are, as plain values.
pub open spec fn item_views(items: Seq<LItem>) -> Seq<LItemView> {
    items.map_values(|it: LItem| it@)
}

/// Whether one of `items` has the key `id`.
pub open spec fn has_item(items: Seq<LItemView>, id: u128) -> bool {
    exists|i: int| 0 <= i < items.len() && (#[trigger] items[i]).id == id
}

/// The keys of `items`, in their order.
pub open spec fn item_keys(items: Seq<LItemView>) -> Seq<u128> {
    items.map_values(|it: LItemView| it.id)
}

/// The keys that items have are the keys of the registry.
pub proof fn lemma_item_keys(items: Seq<LItemView>)
    ensures
        forall|k: u128| has_item(items, k) <==> item_keys(items).contains(k),
{
    assert forall|k: u128| has_item(items, k) <==> item_keys(items).contains(k) by {
        if has_item(items, k) {
            let i = choose|i: int| 0 <= i < items.len() && (#[trigger] items[i]).id == k;
            assert(item_keys(items)[i] == k);
        }
        if item_keys(items).contains(k) {
            let i = choose|i: int| 0 <= i < item_keys(items).len() && item_keys(items)[i] == k;
            assert(items[i].id == k);
        }
    }
}

/// Whether no two of `items` share a key.
pub open spec fn distinct_item_keys(items: Seq<LItemView>) -> bool {
    forall|i: int, j: int|
        0 <= i < j < items.len() ==> (#[trigger] items[i]).id != (#[trigger] items[j]).id
}

/// What a registry of line items must hold at all times: no key twice, and
/// within an item no participant twice.
pub open spec fn valid_items(items: Seq<LItemView>) -> bool {
    &&& distinct_item_keys(items)
    &&& forall|i: int| 0 <= i < items.len() ==> (#[trigger] items[i]).members.no_duplicates()
}

/// The test that every item passes but the one under the key `id`.
pub open spec fn other_item(id: u128) -> spec_fn(LItemView) -> bool {
    |it: LItemView| it.id != id
}

/// `items` without the item under the key `id`.
pub open spec fn without_item(items: Seq<LItemView>, id: u128) -> Seq<LItemView> {
    items.filter(other_item(id))
}

/// `items` with the item under `id` renamed.
pub open spec fn item_renamed(items: Seq<LItemView>, id: u128, name: Seq<char>) -> Seq<LItemView> {
    items.map_values(
        |it: LItemView|
            if it.id == id {
                LItemView { name, ..it }
            } else {
                it
            },
    )
}

/// `items` with the price of the item under `id` set to `price` cents.
pub open spec fn item_priced(items: Seq<LItemView>, id: u128, price: nat) -> Seq<LItemView> {
    items.map_values(
        |it: LItemView|
            if it.id == id {
                LItemView { price, ..it }
            } else {
                it
            },
    )
}

/// `items` with the item under `id` shared by `members` and nobody else.
pub open spec fn item_shared_by(items: Seq<LItemView>, id: u128, members: Seq<u128>) -> Seq<
    LItemView,
> {
    items.map_values(
        |it: LItemView|
            if it.id == id {
                LItemView { members, ..it }
            } else {
                it
            },
    )
}

/// `items` with the participant `who` entered in the item under `id`.
pub open spec fn member_added(items: Seq<LItemView>, id: u128, who: u128) -> Seq<LItemView> {
    items.map_values(
        |it: LItemView|
            if it.id == id {
                LItemView { members: with_member(it.members, who), ..it }
            } else {
                it
            },
    )
}

/// `items` with the participant `who` taken from the item under `id`.
pub open spec fn member_removed(items: Seq<LItemView>, id: u128, who: u128) -> Seq<LItemView> {
    items.map_values(
        |it: LItemView|
            if it.id == id {
                LItemView { members: without_member(it.members, who), ..it }
            } else {
                it
            },
    )
}

/// `items` with the participant `who` taken from every item.
pub open spec fn member_dropped(items: Seq<LItemView>, who: u128) -> Seq<LItemView> {
    items.map_values(
        |it: LItemView| LItemView { members: without_member(it.members, who), ..it },
    )
}

/// The line items of a bill, in the order in which they were added. No two
/// share a key.
#[derive(Debug)]
pub struct LItems(Vec<LItem>);

impl View for LItems {
    type V = Seq<LItemView>;

    closed spec fn view(&self) -> Seq<LItemView> {
        item_views(self.0@)
    }
}

impl LItems {
    /// Whether the registry is in order.
    pub open spec fn wf(&self) -> bool {
        valid_items(self@)
    }

    /// A registry without line items.
    pub fn new() -> (r: LItems)
        ensures
            r@ == Seq::<LItemView>::empty(),
            r.wf(),
    {
        let r = LItems(Vec::new());
        assert(r@ =~= Seq::<LItemView>::empty());
        r
    }

    /// How many line items there are.
    pub fn len(&self) -> (r: usize)
        ensures
            r == self@.len(),
    {
        self.0.len()
    }

    /// The line item at place `i`.
    pub fn get(&self, i: usize) -> (r: &LItem)
        requires
            i < self@.len(),
        ensures
            r@ == self@[i as int],
    {
        &self.0[i]
    }

    /// The keys of the line items, in their order.
    pub fn keys(&self) -> (r: Vec<u128>)
        ensures
            r@ == item_keys(self@),
    {
        let mut out: Vec<u128> = Vec::new();
        let n = self.0.len();
        let mut i: usize = 0;
        while i < n
            invariant
                n == self.0@.len(),
                i <= n,
                out@.len() == i,
                forall|j: int| 0 <= j < i ==> out@[j] == (#[trigger] self.0@[j])@.id,
            decreases n - i,
        {
            out.push(self.0[i].id);
            i = i + 1;
        }
        assert(out@ =~= item_keys(self@));
        out
    }

    /// The first place at which a line item has the key `id`.
    pub fn position(&self, id: u128) -> (r: Option<usize>)
        ensures
            match r {
                Some(i) => i < self@.len() && self@[i as int].id == id && forall|j: int|
                    0 <= j < i ==> (#[trigger] self@[j]).id != id,
                None => !has_item(self@, id),
            },
    {
        let n = self.0.len();
        let mut i: usize = 0;
        while i < n
            invariant
                n == self.0@.len(),
                n == self@.len(),
                i <= n,
                forall|j: int| 0 <= j < i ==> (#[trigger] self@[j]).id != id,
            decreases n - i,
        {
            if self.0[i].id == id {
                return Some(i);
            }
            i = i + 1;
        }
        None
    }

    /// Whether a line item has the key `id`.
    pub fn contains(&self, id: u128) -> (r: bool)
        ensures
            r == has_item(self@, id),
    {
        self.position(id).is_some()
    }

    /// Puts a line item at the end, whatever the name. One whose key is
    /// taken is turned down.
    pub(crate) fn restore(&mut self, litem: LItem) -> (r: Result<(), SplitError>)
        requires
            old(self).wf(),
            litem.wf(),
        ensures
            final(self).wf(),
            r == if has_item(old(self)@, litem@.id) {
                Err::<(), SplitError>(SplitError::DuplicateKey)
            } else {
                Ok(())
            },
            final(self)@ == if r is Ok {
                old(self)@.push(litem@)
            } else {
                old(self)@
            },
    {
        if self.contains(litem.id) {
            return Err(SplitError::DuplicateKey);
        }
        self.0.push(litem);
        assert(self@ =~= old(self)@.push(litem@));
        Ok(())
    }

    /// Adds a line item at the end. One with a blank name is turned down, and
    /// so is one whose key is taken.
    pub fn add(&mut self, litem: LItem) -> (r: Result<(), SplitError>)
        requires
            old(self).wf(),
            litem.wf(),
        ensures
            final(self).wf(),
            r == if is_blank(litem@.name) {
                Err::<(), SplitError>(SplitError::EmptyName)
            } else if has_item(old(self)@, litem@.id) {
                Err(SplitError::DuplicateKey)
            } else {
                Ok(())
            },
            final(self)@ == if r is Ok {
                old(self)@.push(litem@)
            } else {
                old(self)@
            },
    {
        if blank(litem.item_name.as_str()) {
            return Err(SplitError::EmptyName);
        }
        self.restore(litem)
    }

    /// Removes the line item under the key `id`, if there is one.
    pub fn remove(&mut self, id: u128)
        requires
            old(self).wf(),
        ensures
            final(self).wf(),
            final(self)@ == without_item(old(self)@, id),
    {
        match self.position(id) {
            Some(i) => {
                let _ = self.0.remove(i);
                proof {
                    lemma_filter_drops_one(old(self)@, other_item(id), i as int);
                    assert(self@ =~= old(self)@.remove(i as int));
                }
            },
            None => {
                proof {
                    lemma_filter_keeps_all(old(self)@, other_item(id));
                }
            },
        }
    }

    /// Gives the line item under the key `id` another name. A key that no
    /// item has changes nothing.
    pub fn rename(&mut self, id: u128, new_name: String)
        requires
            old(self).wf(),
        ensures
            final(self).wf(),
            final(self)@ == item_renamed(old(self)@, id, new_name@),
    {
        match self.position(id) {
            Some(i) => {
                self.0[i].update_name(new_name);
            },
            None => {},
        }
        assert(self@ =~= item_renamed(old(self)@, id, new_name@));
    }

    /// Sets the price of the line item under the key `id` to the entered
    /// amount, rounded to the cent with a tie going up. An amount that is
    /// negative or out of range is turned down, whether or not an item has
    /// the key.
    pub fn set_price(&mut self, id: u128, price: Amount) -> (r: Result<(), SplitError>)
        requires
            old(self).wf(),
        ensures
            final(self).wf(),
            match price.as_money() {
                Ok(m) => r is Ok && final(self)@ == item_priced(old(self)@, id, m@),
                Err(e) => r == Err::<(), SplitError>(e) && final(self)@ == old(self)@,
            },
    {
        let rounded = match Money::from_amount(price) {
            Ok(m) => m,
            Err(e) => {
                return Err(e);
            },
        };
        match self.position(id) {
            Some(i) => {
                let _ = self.0[i].update_price(price);
            },
            None => {},
        }
        assert(self@ =~= item_priced(old(self)@, id, rounded@));
        Ok(())
    }

    /// Lets the line item under the key `id` be shared by the participants
    /// `keys` and nobody else; a key given twice counts once.
    pub fn set_participants(&mut self, id: u128, keys: &Vec<u128>)
        requires
            old(self).wf(),
        ensures
            final(self).wf(),
            final(self)@ == item_shared_by(old(self)@, id, enrolled(keys@)),
    {
        match self.position(id) {
            Some(i) => {
                self.0[i].set_participants(keys);
            },
            None => {},
        }
        assert(self@ =~= item_shared_by(old(self)@, id, enrolled(keys@)));
    }

    /// Enters the participant `who` in the line item under the key `id`.
    pub fn add_participant(&mut self, id: u128, who: u128)
        requires
            old(self).wf(),
        ensures
            final(self).wf(),
            final(self)@ == member_added(old(self)@, id, who),
    {
        match self.position(id) {
            Some(i) => {
                self.0[i].add_participant(who);
            },
            None => {},
        }
        assert(self@ =~= member_added(old(self)@, id, who));
    }

    /// Takes the participant `who` from the line item under the key `id`.
    pub fn remove_participant(&mut self, id: u128, who: u128)
        requires
            old(self).wf(),
        ensures
            final(self).wf(),
            final(self)@ == member_removed(old(self)@, id, who),
    {
        match self.position(id) {
            Some(i) => {
                self.0[i].remove_participant(who);
            },
            None => {},
        }
        assert(self@ =~= member_removed(old(self)@, id, who));
    }

    /// Takes the participant `who` from every line item.
    pub fn drop_participant(&mut self, who: u128)
        requires
            old(self).wf(),
        ensures
            final(self).wf(),
            final(self)@ == member_dropped(old(self)@, who),
    {
        let n = self.0.len();
        let mut i: usize = 0;
        while i < n
            invariant
                n == self.0@.len(),
                n == old(self).0@.len(),
                i <= n,
                old(self).wf(),
                forall|j: int|
                    0 <= j < i ==> (#[trigger] self.0@[j])@ == (LItemView {
                        members: without_member(old(self).0@[j]@.members, who),
                        ..old(self).0@[j]@
                    }) && self.0@[j].wf(),
                forall|j: int| i <= j < n ==> #[trigger] self.0@[j] == old(self).0@[j],
            decreases n - i,
        {
            assert(old(self)@[i as int] == self.0@[i as int]@);
            self.0[i].remove_participant(who);
            i = i + 1;
        }
        assert(self@ =~= member_dropped(old(self)@, who));
    }
}

impl Clone for LItems {
    fn clone(&self) -> (r: LItems)
        ensures
            r@ == self@,
    {
        let mut out: Vec<LItem> = Vec::new();
        let n = self.0.len();
        let mut i: usize = 0;
        while i < n
            invariant
                n == self.0@.len(),
                i <= n,
                out@.len() == i,
                forall|j: int| 0 <= j < i ==> (#[trigger] out@[j])@ == self.0@[j]@,
            decreases n - i,
        {
            out.push(self.0[i].clone());
            i = i + 1;
        }
        let r = LItems(out);
        assert(r@ =~= self@);
        r
    }
}

} // verus!
