//! The split calculator: who owes what.
//!
//! A line item is shared evenly by its members; each member's part is
//! rounded to the cent at once. A participant's parts add up item by item;
//! the sum is in whole cents, so rounding it after each addition changes
//! nothing. The tax is shared evenly, and rounded in the same way, by the
//! participants who are *involved*: those who belong to at least one item.
//! Who is not involved owes nothing.

use crate::line_item::item_share;
use crate::line_item::LItemView;
use crate::line_item::LItems;
use crate::money::even_share;
use crate::money::fits;
use crate::money::held;
use crate::money::Money;
use crate::participant::has_key;
use crate::participant::lemma_has_key_push;
use crate::participant::ParticipantView;
use crate::participant::Participants;
use std::collections::HashMap;
use vstd::prelude::*;

verus! {

broadcast use vstd::std_specs::hash::group_hash_axioms;

/// Whether the participant `who` belongs to at least one of `items`.
pub open spec fn involved(items: Seq<LItemView>, who: u128) -> bool {
    exists|i: int| 0 <= i < items.len() && (#[trigger] items[i]).members.contains(who)
}

/// How many of `ps` are involved in `items`.
pub open spec fn involved_count(ps: Seq<ParticipantView>, items: Seq<LItemView>) -> nat
    decreases ps.len(),
{
    if ps.len() == 0 {
        0
    } else {
        involved_count(ps.drop_last(), items) + if involved(items, ps.last().id) {
            1nat
        } else {
            0nat
        }
    }
}

/// What the participant `who` owes for `items`, tax apart: the sum of the
/// even shares of the items that `who` belongs to. `None` where one of those
/// shares is not defined.
pub open spec fn items_owed(items: Seq<LItemView>, who: u128) -> Option<nat>
    decreases items.len(),
{
    if items.len() == 0 {
        Some(0)
    } else if items.last().members.contains(who) {
        match (items_owed(items.drop_last(), who), item_share(items.last())) {
            (Some(before), Some(share)) => Some(before + share),
            _ => None,
        }
    } else {
        items_owed(items.drop_last(), who)
    }
}

/// What each involved participant owes of the tax: an even share of it where
/// there is tax, an item and somebody involved, else nothing.
pub open spec fn tax_share(ps: Seq<ParticipantView>, items: Seq<LItemView>, tax: nat) -> Option<
    nat,
> {
    if tax > 0 && items.len() > 0 && involved_count(ps, items) > 0 {
        even_share(tax, involved_count(ps, items))
    } else {
        Some(0)
    }
}

/// What the participant `who` owes in all, where each involved participant
/// owes `tax_each` of the tax.
pub open spec fn share_of(items: Seq<LItemView>, tax_each: nat, who: u128) -> Option<nat> {
    if involved(items, who) {
        match items_owed(items, who) {
            Some(owed) => Some(owed + tax_each),
            None => None,
        }
    } else {
        Some(0)
    }
}

/// Whether what each of `ps` owes is defined and can be held.
pub open spec fn shares_defined(ps: Seq<ParticipantView>, items: Seq<LItemView>, tax_each: nat) -> bool {
    forall|i: int| 0 <= i < ps.len() ==> held(share_of(items, tax_each, (#[trigger] ps[i]).id)) is Some
}

/// The sum of what each of `ps` owes.
pub open spec fn shares_total(ps: Seq<ParticipantView>, items: Seq<LItemView>, tax_each: nat) -> nat
    decreases ps.len(),
{
    if ps.len() == 0 {
        0
    } else {
        shares_total(ps.drop_last(), items, tax_each) + match share_of(
            items,
            tax_each,
            ps.last().id,
        ) {
            Some(share) => share,
            None => 0,
        }
    }
}

/// What each of `ps` owes, by key.
pub open spec fn shares_map(ps: Seq<ParticipantView>, items: Seq<LItemView>, tax_each: nat) -> Map<
    u128,
    nat,
> {
    Map::new(|k: u128| has_key(ps, k), |k: u128| share_of(items, tax_each, k)->0)
}

/// The outcome of a split: what each participant owes, in cents and by key,
/// and the sum of it.
pub struct Split {
    pub shares: Map<u128, nat>,
    pub total: nat,
}

/// The split of a bill. `None` where a share is not defined, or a share or
/// the total cannot be held in a `Money`.
pub open spec fn split(ps: Seq<ParticipantView>, items: Seq<LItemView>, tax: nat) -> Option<Split> {
    match tax_share(ps, items, tax) {
        Some(tax_each) => if shares_defined(ps, items, tax_each) && fits(
            shares_total(ps, items, tax_each) as int,
        ) {
            Some(
                Split {
                    shares: shares_map(ps, items, tax_each),
                    total: shares_total(ps, items, tax_each),
                },
            )
        } else {
            None
        },
        None => None,
    }
}

/// The amounts of `m` in cents.
pub open spec fn amounts(m: Map<u128, Money>) -> Map<u128, nat> {
    Map::new(|k: u128| m.contains_key(k), |k: u128| m[k]@)
}

/// Whether `a` and `b` have the same keys at the same places.
pub open spec fn same_keys(a: Seq<ParticipantView>, b: Seq<ParticipantView>) -> bool {
    &&& a.len() == b.len()
    &&& forall|i: int| 0 <= i < a.len() ==> (#[trigger] a[i]).id == b[i].id
}

/// Whether `a` and `b` have the same prices and members at the same places.
pub open spec fn same_amounts(a: Seq<LItemView>, b: Seq<LItemView>) -> bool {
    &&& a.len() == b.len()
    &&& forall|i: int|
        0 <= i < a.len() ==> (#[trigger] a[i]).price == b[i].price && a[i].members == b[i].members
}

/// Whether the participant `who` belongs to at least one of `items`.
pub fn is_involved(items: &LItems, who: u128) -> (r: bool)
    ensures
        r == involved(items@, who),
{
    let n = items.len();
    let mut i: usize = 0;
    while i < n
        invariant
            n == items@.len(),
            i <= n,
            forall|j: int| 0 <= j < i ==> !(#[trigger] items@[j]).members.contains(who),
        decreases n - i,
    {
        if items.get(i).has_participant(who) {
            return true;
        }
        i = i + 1;
    }
    false
}

/// How many of the participants are involved in the items.
pub fn count_involved(participants: &Participants, items: &LItems) -> (r: usize)
    ensures
        r == involved_count(participants@, items@),
{
    let n = participants.len();
    let mut count: usize = 0;
    let mut i: usize = 0;
    assert(participants@.take(0) =~= Seq::<ParticipantView>::empty());
    while i < n
        invariant
            n == participants@.len(),
            i <= n,
            count <= i,
            count == involved_count(participants@.take(i as int), items@),
        decreases n - i,
    {
        assert(participants@.take(i + 1).drop_last() =~= participants@.take(i as int));
        if is_involved(items, participants.get(i).id()) {
            count = count + 1;
        }
        i = i + 1;
    }
    assert(participants@.take(n as int) =~= participants@);
    count
}

/// What each involved participant owes of the tax.
pub fn tax_split(participants: &Participants, items: &LItems, tax: Money) -> (r: Option<Money>)
    ensures
        r == held(tax_share(participants@, items@, tax@)),
{
    if tax.cents == 0 || items.len() == 0 {
        return Some(Money::zero());
    }
    let count = count_involved(participants, items);
    if count == 0 {
        Some(Money::zero())
    } else {
        tax.split_evenly(count as u64)
    }
}

/// What the participant `who` owes for the items, tax apart.
pub fn owed_for_items(items: &LItems, who: u128) -> (r: Option<Money>)
    ensures
        r == held(items_owed(items@, who)),
{
    let n = items.len();
    let mut owed = Money::zero();
    let mut i: usize = 0;
    assert(items@.take(0) =~= Seq::<LItemView>::empty());
    while i < n
        invariant
            n == items@.len(),
            i <= n,
            items_owed(items@.take(i as int), who) == Some(owed@),
        decreases n - i,
    {
        assert(items@.take(i + 1).drop_last() =~= items@.take(i as int));
        let item = items.get(i);
        if item.has_participant(who) {
            let share = match item.get_split_by_participants() {
                Some(share) => share,
                None => {
                    proof {
                        lemma_items_owed_prefix(items@, i + 1, who);
                    }
                    return None;
                },
            };
            owed = match owed.checked_add(share) {
                Some(sum) => sum,
                None => {
                    proof {
                        lemma_items_owed_prefix(items@, i + 1, who);
                    }
                    return None;
                },
            };
        }
        i = i + 1;
    }
    assert(items@.take(n as int) =~= items@);
    Some(owed)
}

/// What the participant `who` owes in all, where each involved participant
/// owes `tax_each` of the tax.
pub fn share_for(items: &LItems, tax_each: Money, who: u128) -> (r: Option<Money>)
    ensures
        r == held(share_of(items@, tax_each@, who)),
{
    if is_involved(items, who) {
        match owed_for_items(items, who) {
            Some(owed) => owed.checked_add(tax_each),
            None => None,
        }
    } else {
        Some(Money::zero())
    }
}

/// Splits the bill: what each participant owes, by key, and the sum of it.
/// `None` where a share is not defined, or a share or the sum cannot be held.
pub fn compute_shares(participants: &Participants, items: &LItems, tax: Money) -> (r: Option<
    (HashMap<u128, Money>, Money),
>)
    ensures
        match split(participants@, items@, tax@) {
            Some(s) => r matches Some(out) && amounts(out.0@) == s.shares && out.1@ == s.total,
            None => r is None,
        },
{
    let tax_each = match tax_split(participants, items, tax) {
        Some(t) => t,
        None => {
            return None;
        },
    };
    let mut shares: HashMap<u128, Money> = HashMap::new();
    let mut total = Money::zero();
    let n = participants.len();
    let mut i: usize = 0;
    assert(participants@.take(0) =~= Seq::<ParticipantView>::empty());
    assert(amounts(shares@) =~= shares_map(participants@.take(0), items@, tax_each@));
    while i < n
        invariant
            n == participants@.len(),
            i <= n,
            tax_share(participants@, items@, tax@) == Some(tax_each@),
            forall|j: int|
                0 <= j < i ==> held(share_of(items@, tax_each@, (#[trigger] participants@[j]).id))
                    is Some,
            amounts(shares@) == shares_map(participants@.take(i as int), items@, tax_each@),
            total@ == shares_total(participants@.take(i as int), items@, tax_each@),
        decreases n - i,
    {
        let ghost before = participants@.take(i as int);
        let ghost after = participants@.take(i + 1);
        assert(after.drop_last() =~= before);
        let who = participants.get(i).id();
        let share = match share_for(items, tax_each, who) {
            Some(share) => share,
            None => {
                return None;
            },
        };
        total = match total.checked_add(share) {
            Some(sum) => sum,
            None => {
                proof {
                    lemma_shares_total_prefix(participants@, i + 1, items@, tax_each@);
                }
                return None;
            },
        };
        let ghost filled = shares@;
        shares.insert(who, share);
        proof {
            assert(after =~= before.push(participants@[i as int]));
            lemma_has_key_push(before, participants@[i as int]);
            assert forall|k: u128| amounts(shares@).contains_key(k) implies amounts(shares@)[k]
                == shares_map(after, items@, tax_each@)[k] by {
                if k != who {
                    assert(amounts(filled)[k] == shares_map(before, items@, tax_each@)[k]);
                }
            }
            assert forall|k: u128|
                amounts(shares@).contains_key(k) <==> shares_map(
                    after,
                    items@,
                    tax_each@,
                ).contains_key(k) by {
                assert(amounts(filled).contains_key(k) <==> shares_map(
                    before,
                    items@,
                    tax_each@,
                ).contains_key(k));
            }
            assert(amounts(shares@) =~= shares_map(after, items@, tax_each@));
        }
        i = i + 1;
    }
    assert(participants@.take(n as int) =~= participants@);
    Some((shares, total))
}

/// What is owed for the first `upto` items is defined where what is owed for
/// all is, and is no more.
pub proof fn lemma_items_owed_prefix(items: Seq<LItemView>, upto: int, who: u128)
    requires
        0 <= upto <= items.len(),
    ensures
        items_owed(items.take(upto), who) is None ==> items_owed(items, who) is None,
        items_owed(items, who) matches Some(all) ==> items_owed(items.take(upto), who)->0 <= all,
    decreases items.len() - upto,
{
    if upto == items.len() {
        assert(items.take(upto) =~= items);
    } else {
        assert(items.drop_last().take(upto) =~= items.take(upto));
        lemma_items_owed_prefix(items.drop_last(), upto, who);
    }
}

/// The first `upto` participants owe no more than all do.
pub proof fn lemma_shares_total_prefix(
    ps: Seq<ParticipantView>,
    upto: int,
    items: Seq<LItemView>,
    tax_each: nat,
)
    requires
        0 <= upto <= ps.len(),
    ensures
        shares_total(ps.take(upto), items, tax_each) <= shares_total(ps, items, tax_each),
    decreases ps.len() - upto,
{
    if upto == ps.len() {
        assert(ps.take(upto) =~= ps);
    } else {
        assert(ps.drop_last().take(upto) =~= ps.take(upto));
        lemma_shares_total_prefix(ps.drop_last(), upto, items, tax_each);
    }
}

/// Who has a key depends on the keys alone.
pub proof fn lemma_has_key_by_keys(a: Seq<ParticipantView>, b: Seq<ParticipantView>)
    requires
        same_keys(a, b),
    ensures
        forall|k: u128| has_key(a, k) == has_key(b, k),
{
    assert forall|k: u128| has_key(a, k) == has_key(b, k) by {
        if has_key(a, k) {
            let i = choose|i: int| 0 <= i < a.len() && (#[trigger] a[i]).id == k;
            assert(b[i].id == k);
        }
        if has_key(b, k) {
            let i = choose|i: int| 0 <= i < b.len() && (#[trigger] b[i]).id == k;
            assert(a[i].id == k);
        }
    }
}

/// Who is involved depends on the members of the items alone.
pub proof fn lemma_involved_by_members(a: Seq<LItemView>, b: Seq<LItemView>, who: u128)
    requires
        same_amounts(a, b),
    ensures
        involved(a, who) == involved(b, who),
{
    if involved(a, who) {
        let i = choose|i: int| 0 <= i < a.len() && (#[trigger] a[i]).members.contains(who);
        assert(b[i].members.contains(who));
    }
    if involved(b, who) {
        let i = choose|i: int| 0 <= i < b.len() && (#[trigger] b[i]).members.contains(who);
        assert(a[i].members.contains(who));
    }
}

/// What is owed for items depends on their prices and members alone.
pub proof fn lemma_items_owed_by_amounts(a: Seq<LItemView>, b: Seq<LItemView>, who: u128)
    requires
        same_amounts(a, b),
    ensures
        items_owed(a, who) == items_owed(b, who),
    decreases a.len(),
{
    if a.len() > 0 {
        assert(a.last().price == b.last().price && a.last().members == b.last().members);
        assert(same_amounts(a.drop_last(), b.drop_last())) by {
            assert forall|i: int| 0 <= i < a.drop_last().len() implies (
            #[trigger] a.drop_last()[i]).price == b.drop_last()[i].price && a.drop_last()[i].members
                == b.drop_last()[i].members by {
                assert(a[i].price == b[i].price && a[i].members == b[i].members);
            }
        }
        lemma_items_owed_by_amounts(a.drop_last(), b.drop_last(), who);
    }
}

/// How many are involved depends on the keys of the participants and the
/// members of the items alone.
pub proof fn lemma_involved_count_by_keys(
    a: Seq<ParticipantView>,
    b: Seq<ParticipantView>,
    items_a: Seq<LItemView>,
    items_b: Seq<LItemView>,
)
    requires
        same_keys(a, b),
        same_amounts(items_a, items_b),
    ensures
        involved_count(a, items_a) == involved_count(b, items_b),
    decreases a.len(),
{
    if a.len() > 0 {
        assert(a.last().id == b.last().id);
        assert(same_keys(a.drop_last(), b.drop_last())) by {
            assert forall|i: int| 0 <= i < a.drop_last().len() implies (
            #[trigger] a.drop_last()[i]).id == b.drop_last()[i].id by {
                assert(a[i].id == b[i].id);
            }
        }
        lemma_involved_count_by_keys(a.drop_last(), b.drop_last(), items_a, items_b);
        lemma_involved_by_members(items_a, items_b, a.last().id);
    }
}

/// What a participant owes depends on the prices and members of the items
/// alone.
pub proof fn lemma_share_of_by_amounts(
    a: Seq<LItemView>,
    b: Seq<LItemView>,
    tax_each: nat,
    who: u128,
)
    requires
        same_amounts(a, b),
    ensures
        share_of(a, tax_each, who) == share_of(b, tax_each, who),
{
    lemma_involved_by_members(a, b, who);
    lemma_items_owed_by_amounts(a, b, who);
}

/// The sum of what is owed depends on the keys of the participants and on
/// the prices and members of the items alone.
pub proof fn lemma_shares_total_by_keys(
    a: Seq<ParticipantView>,
    b: Seq<ParticipantView>,
    items_a: Seq<LItemView>,
    items_b: Seq<LItemView>,
    tax_each: nat,
)
    requires
        same_keys(a, b),
        same_amounts(items_a, items_b),
    ensures
        shares_total(a, items_a, tax_each) == shares_total(b, items_b, tax_each),
    decreases a.len(),
{
    if a.len() > 0 {
        assert(a.last().id == b.last().id);
        assert(same_keys(a.drop_last(), b.drop_last())) by {
            assert forall|i: int| 0 <= i < a.drop_last().len() implies (
            #[trigger] a.drop_last()[i]).id == b.drop_last()[i].id by {
                assert(a[i].id == b[i].id);
            }
        }
        lemma_shares_total_by_keys(a.drop_last(), b.drop_last(), items_a, items_b, tax_each);
        lemma_share_of_by_amounts(items_a, items_b, tax_each, a.last().id);
    }
}

/// The split depends on the keys of the participants and on the prices and
/// members of the items alone: names and marks do not enter it.
pub proof fn lemma_split_by_keys_and_amounts(
    a: Seq<ParticipantView>,
    b: Seq<ParticipantView>,
    items_a: Seq<LItemView>,
    items_b: Seq<LItemView>,
    tax: nat,
)
    requires
        same_keys(a, b),
        same_amounts(items_a, items_b),
    ensures
        split(a, items_a, tax) == split(b, items_b, tax),
{
    lemma_involved_count_by_keys(a, b, items_a, items_b);
    assert(tax_share(a, items_a, tax) == tax_share(b, items_b, tax));
    match tax_share(a, items_a, tax) {
        Some(tax_each) => {
            lemma_shares_total_by_keys(a, b, items_a, items_b, tax_each);
            lemma_has_key_by_keys(a, b);
            assert forall|k: u128| share_of(items_a, tax_each, k) == share_of(
                items_b,
                tax_each,
                k,
            ) by {
                lemma_share_of_by_amounts(items_a, items_b, tax_each, k);
            }
            assert(shares_map(a, items_a, tax_each) =~= shares_map(b, items_b, tax_each));
            assert(shares_defined(a, items_a, tax_each) == shares_defined(b, items_b, tax_each))
                by {
                if shares_defined(a, items_a, tax_each) {
                    assert forall|i: int| 0 <= i < b.len() implies held(
                        share_of(items_b, tax_each, (#[trigger] b[i]).id),
                    ) is Some by {
                        assert(a[i].id == b[i].id);
                    }
                }
                if shares_defined(b, items_b, tax_each) {
                    assert forall|i: int| 0 <= i < a.len() implies held(
                        share_of(items_a, tax_each, (#[trigger] a[i]).id),
                    ) is Some by {
                        assert(a[i].id == b[i].id);
                    }
                }
            }
        },
        None => {},
    }
}

/// A participant who belongs to no item can join without changing what the
/// others owe: the newcomer owes nothing and the total stays.
pub proof fn lemma_split_after_push(
    ps: Seq<ParticipantView>,
    p: ParticipantView,
    items: Seq<LItemView>,
    tax: nat,
)
    requires
        !involved(items, p.id),
        split(ps, items, tax) is Some,
    ensures
        split(ps.push(p), items, tax) == Some(
            Split {
                shares: split(ps, items, tax)->0.shares.insert(p.id, 0),
                total: split(ps, items, tax)->0.total,
            },
        ),
{
    let more = ps.push(p);
    assert(more.drop_last() =~= ps);
    assert(involved_count(more, items) == involved_count(ps, items));
    let tax_each = tax_share(ps, items, tax)->0;
    assert(shares_total(more, items, tax_each) == shares_total(ps, items, tax_each));
    assert forall|i: int| 0 <= i < more.len() implies held(
        share_of(items, tax_each, (#[trigger] more[i]).id),
    ) is Some by {
        if i < ps.len() {
            assert(more[i] == ps[i]);
        }
    }
    lemma_has_key_push(ps, p);
    assert(shares_map(more, items, tax_each) =~= shares_map(ps, items, tax_each).insert(p.id, 0));
}

} // verus!
