//! The ledger of one bill, as plain values, and what its operations make of
//! it.
//!
//! A ledger holds the two registries, the name of the event and the tax.
//! What each participant owes, the total and the summary are derived from
//! them. A ledger is in order where its registries are and the derived
//! values are those computed from what it holds.

use crate::calc::involved;
use crate::calc::lemma_has_key_by_keys;
use crate::calc::lemma_split_after_push;
use crate::calc::lemma_split_by_keys_and_amounts;
use crate::calc::same_amounts;
use crate::calc::same_keys;
use crate::calc::split;
use crate::calc::Split;
use crate::error::SplitError;
use crate::line_item::enrolled;
use crate::line_item::has_item;
use crate::line_item::lemma_enrolled;
use crate::line_item::member_dropped;
use crate::line_item::other_item;
use crate::line_item::other_key;
use crate::line_item::valid_items;
use crate::line_item::without_item;
use crate::line_item::LItemView;
use crate::money::Amount;
use crate::participant::at_most_one_payer;
use crate::participant::distinct_keys;
use crate::participant::has_key;
use crate::participant::joined;
use crate::participant::lemma_without_key;
use crate::participant::valid_participants;
use crate::participant::without_key;
use crate::participant::without_payer;
use crate::participant::ParticipantView;
use crate::seqs::lemma_filter_members;
use crate::summary::summary;
use crate::text::is_blank;
use crate::text::trimmed;
use vstd::prelude::*;

verus! {

/// What a ledger is, as plain values.
pub struct LedgerView {
    pub id: u128,
    pub event_name: Seq<char>,
    pub total_tax: nat,
    pub participants: Seq<ParticipantView>,
    pub items: Seq<LItemView>,
    pub shares: Map<u128, nat>,
    pub total_price: nat,
    pub summary: Seq<char>,
}

/// Whether every participant entered in one of `items` is one of `ps`.
pub open spec fn members_registered(ps: Seq<ParticipantView>, items: Seq<LItemView>) -> bool {
    forall|i: int, k: int|
        0 <= i < items.len() && 0 <= k < items[i].members.len() ==> has_key(
            ps,
            #[trigger] items[i].members[k],
        )
}

/// Whether the registries of `v` are in order.
pub open spec fn registries_valid(v: LedgerView) -> bool {
    &&& valid_participants(v.participants)
    &&& valid_items(v.items)
    &&& members_registered(v.participants, v.items)
}

/// `v` with its summary written anew from what it holds.
pub open spec fn rewritten(v: LedgerView) -> LedgerView {
    LedgerView {
        summary: summary(
            v.event_name,
            v.total_price,
            v.total_tax,
            v.participants,
            v.items,
            v.shares,
        ),
        ..v
    }
}

/// `v` with what each participant owes, the total and the summary computed
/// anew from the registries, the tax and the name of the event. `None` where
/// the split is not defined.
pub open spec fn derived(v: LedgerView) -> Option<LedgerView> {
    match split(v.participants, v.items, v.total_tax) {
        Some(s) => Some(rewritten(LedgerView { shares: s.shares, total_price: s.total, ..v })),
        None => None,
    }
}

/// What a ledger must hold at all times: its registries are in order, and
/// the shares, the total and the summary are those derived from them.
pub open spec fn valid_ledger(v: LedgerView) -> bool {
    registries_valid(v) && derived(v) == Some(v)
}

/// The outcome of trying to bring a ledger from `before` to `wanted`: the
/// ledger derived from `wanted` where there is one, and else a refusal that
/// leaves it at `before`.
pub open spec fn attempt(before: LedgerView, wanted: LedgerView) -> (
    Result<(), SplitError>,
    LedgerView,
) {
    match derived(wanted) {
        Some(after) => (Ok(()), after),
        None => (Err(SplitError::AmountOutOfRange), before),
    }
}

/// The ledger under the key `id` that holds nothing: no participants, no
/// items, no tax, an empty name; nobody owes anything.
pub open spec fn empty_ledger(id: u128) -> LedgerView {
    rewritten(
        LedgerView {
            id,
            event_name: Seq::empty(),
            total_tax: 0,
            participants: Seq::empty(),
            items: Seq::empty(),
            shares: Map::empty(),
            total_price: 0,
            summary: Seq::empty(),
        },
    )
}

/// The ledger `before` after the participant `p` has joined: the newcomer
/// owes nothing, and nobody else owes more or less.
pub open spec fn participant_joined(before: LedgerView, p: ParticipantView) -> LedgerView {
    rewritten(
        LedgerView {
            participants: joined(before.participants, p),
            shares: before.shares.insert(p.id, 0),
            ..before
        },
    )
}

/// The outcome of putting the participant `p` into the ledger `before`,
/// whatever the name: only a key that is taken is turned down.
pub open spec fn participant_restored(before: LedgerView, p: ParticipantView) -> (
    Result<(), SplitError>,
    LedgerView,
) {
    if has_key(before.participants, p.id) {
        (Err(SplitError::DuplicateKey), before)
    } else {
        (Ok(()), participant_joined(before, p))
    }
}

/// The outcome of adding the participant `p` to the ledger `before`.
pub open spec fn participant_added(before: LedgerView, p: ParticipantView) -> (
    Result<(), SplitError>,
    LedgerView,
) {
    if is_blank(p.name) {
        (Err(SplitError::EmptyName), before)
    } else {
        participant_restored(before, p)
    }
}

/// The outcome of adding to the ledger `before` a participant made of a key
/// and a name as entered.
pub open spec fn participant_entered(before: LedgerView, key: u128, name: Seq<char>) -> (
    Result<(), SplitError>,
    LedgerView,
) {
    if is_blank(name) {
        (Err(SplitError::EmptyName), before)
    } else if has_key(before.participants, key) {
        (Err(SplitError::DuplicateKey), before)
    } else {
        (
            Ok(()),
            participant_joined(
                before,
                ParticipantView { id: key, name: trimmed(name), payer: false, settled: false },
            ),
        )
    }
}

/// The test that the keys of `ps` pass and no others.
pub open spec fn registered_in(ps: Seq<ParticipantView>) -> spec_fn(u128) -> bool {
    |k: u128| has_key(ps, k)
}

/// Those of `keys` that are keys of `ps`, each once, at the place where it
/// first occurs: a key that nobody has is passed over.
pub open spec fn accepted_members(ps: Seq<ParticipantView>, keys: Seq<u128>) -> Seq<u128> {
    enrolled(keys.filter(registered_in(ps)))
}

/// The outcome of putting the line item `it` into the ledger `before`,
/// whatever the name: a key that is taken is turned down, and of those
/// entered as sharing the item only registered participants are kept.
pub open spec fn item_restored(before: LedgerView, it: LItemView) -> (
    Result<(), SplitError>,
    LedgerView,
) {
    if has_item(before.items, it.id) {
        (Err(SplitError::DuplicateKey), before)
    } else {
        attempt(
            before,
            LedgerView {
                items: before.items.push(
                    LItemView {
                        members: accepted_members(before.participants, it.members),
                        ..it
                    },
                ),
                ..before
            },
        )
    }
}

/// The outcome of adding the line item `it` to the ledger `before`.
pub open spec fn item_added(before: LedgerView, it: LItemView) -> (
    Result<(), SplitError>,
    LedgerView,
) {
    if is_blank(it.name) {
        (Err(SplitError::EmptyName), before)
    } else {
        item_restored(before, it)
    }
}

/// The outcome of adding to the ledger `before` a line item made of a key,
/// a name as entered, a price as entered and the keys of those who share it.
pub open spec fn item_entered(
    before: LedgerView,
    key: u128,
    name: Seq<char>,
    price: Amount,
    members: Seq<u128>,
) -> (Result<(), SplitError>, LedgerView) {
    if is_blank(name) {
        (Err(SplitError::EmptyName), before)
    } else {
        match price.as_money() {
            Ok(m) => item_added(
                before,
                LItemView { id: key, name: trimmed(name), price: m@, members },
            ),
            Err(e) => (Err(e), before),
        }
    }
}

/// The outcome of putting the participants `ps` into the ledger `v` one
/// after the other; the first that is turned down ends it.
pub open spec fn participants_restored(v: LedgerView, ps: Seq<ParticipantView>) -> (
    Result<(), SplitError>,
    LedgerView,
)
    decreases ps.len(),
{
    if ps.len() == 0 {
        (Ok(()), v)
    } else {
        let before = participants_restored(v, ps.drop_last());
        if before.0 is Ok {
            participant_restored(before.1, ps.last())
        } else {
            before
        }
    }
}

/// The outcome of putting the line items `items` into the ledger `v` one
/// after the other; the first that is turned down ends it.
pub open spec fn items_restored(v: LedgerView, items: Seq<LItemView>) -> (
    Result<(), SplitError>,
    LedgerView,
)
    decreases items.len(),
{
    if items.len() == 0 {
        (Ok(()), v)
    } else {
        let before = items_restored(v, items.drop_last());
        if before.0 is Ok {
            item_restored(before.1, items.last())
        } else {
            before
        }
    }
}

/// The outcome of building a ledger from its parts: starting from the empty
/// ledger with the name of the event, the participants are put in, then the
/// line items, then the tax is set. Names are taken as they are. What is
/// owed, the total and the summary are computed on the way and not taken
/// from anywhere.
pub open spec fn assembled(
    id: u128,
    event_name: Seq<char>,
    tax: nat,
    ps: Seq<ParticipantView>,
    items: Seq<LItemView>,
) -> (Result<(), SplitError>, LedgerView) {
    let named = rewritten(LedgerView { event_name, ..empty_ledger(id) });
    let peopled = participants_restored(named, ps);
    if peopled.0 is Err {
        peopled
    } else {
        let stocked = items_restored(peopled.1, items);
        if stocked.0 is Err {
            stocked
        } else {
            attempt(stocked.1, LedgerView { total_tax: tax, ..stocked.1 })
        }
    }
}

/// A participant whose key is not taken can join a ledger in order: no item
/// names the newcomer, and the ledger in which the newcomer owes nothing and
/// nobody else owes more or less is in order.
pub proof fn lemma_participant_joins(v: LedgerView, p: ParticipantView)
    requires
        valid_ledger(v),
        !has_key(v.participants, p.id),
    ensures
        !involved(v.items, p.id),
        valid_ledger(participant_joined(v, p)),
{
    assert(!involved(v.items, p.id)) by {
        if involved(v.items, p.id) {
            let i = choose|i: int|
                0 <= i < v.items.len() && (#[trigger] v.items[i]).members.contains(p.id);
            let k = choose|k: int|
                0 <= k < v.items[i].members.len() && v.items[i].members[k] == p.id;
            assert(has_key(v.participants, v.items[i].members[k]));
        }
    }
    let base = if p.payer {
        without_payer(v.participants)
    } else {
        v.participants
    };
    assert(same_keys(base, v.participants));
    assert(same_amounts(v.items, v.items));
    lemma_split_by_keys_and_amounts(base, v.participants, v.items, v.items, v.total_tax);
    lemma_split_after_push(base, p, v.items, v.total_tax);
    let more = joined(v.participants, p);
    assert(more == base.push(p));
    lemma_has_key_by_keys(base, v.participants);
    assert(distinct_keys(more)) by {
        assert forall|i: int, j: int| 0 <= i < j < more.len() implies (#[trigger] more[i]).id != (
        #[trigger] more[j]).id by {
            if j < base.len() {
                assert(v.participants[i].id != v.participants[j].id);
            } else {
                assert(base[i].id == v.participants[i].id);
            }
        }
    }
    assert(at_most_one_payer(more)) by {
        assert forall|i: int, j: int|
            0 <= i < more.len() && 0 <= j < more.len() && (#[trigger] more[i]).payer && (
            #[trigger] more[j]).payer implies i == j by {
            if p.payer {
                if i < base.len() {
                    assert(!base[i].payer);
                }
                if j < base.len() {
                    assert(!base[j].payer);
                }
            } else {
                assert(v.participants[i].payer && v.participants[j].payer);
            }
        }
    }
    assert(members_registered(more, v.items)) by {
        assert forall|i: int, k: int|
            0 <= i < v.items.len() && 0 <= k < v.items[i].members.len() implies has_key(
            more,
            #[trigger] v.items[i].members[k],
        ) by {
            let key = v.items[i].members[k];
            assert(has_key(v.participants, key));
            let at = choose|at: int| 0 <= at < base.len() && (#[trigger] base[at]).id == key;
            assert(more[at].id == key);
        }
    }
}

/// Where only names and marks of the participants differ from a ledger in
/// order, the shares and the total are still those of the split, and the
/// items name nobody who is not registered.
pub proof fn lemma_marks_changed(before: LedgerView, after: LedgerView)
    requires
        valid_ledger(before),
        same_keys(after.participants, before.participants),
        after == (LedgerView { participants: after.participants, ..before }),
    ensures
        split(after.participants, after.items, after.total_tax) == Some(
            Split { shares: after.shares, total: after.total_price },
        ),
        members_registered(after.participants, after.items),
{
    assert(same_amounts(after.items, after.items));
    lemma_split_by_keys_and_amounts(
        after.participants,
        before.participants,
        after.items,
        after.items,
        after.total_tax,
    );
    lemma_has_key_by_keys(after.participants, before.participants);
}

/// The accepted members are keys of registered participants, none twice.
pub proof fn lemma_accepted_members(ps: Seq<ParticipantView>, keys: Seq<u128>)
    ensures
        accepted_members(ps, keys).no_duplicates(),
        forall|k: int|
            0 <= k < accepted_members(ps, keys).len() ==> has_key(
                ps,
                #[trigger] accepted_members(ps, keys)[k],
            ),
{
    let passed = keys.filter(registered_in(ps));
    lemma_enrolled(passed);
    lemma_filter_members(keys, registered_in(ps));
    assert forall|k: int| 0 <= k < accepted_members(ps, keys).len() implies has_key(
        ps,
        #[trigger] accepted_members(ps, keys)[k],
    ) by {
        let key = accepted_members(ps, keys)[k];
        assert(enrolled(passed).contains(key));
        assert(passed.contains(key));
    }
}

/// Where a participant leaves and is taken from every item, the items name
/// nobody but those who stay, and nowhere the one who left.
pub proof fn lemma_registered_after_leaving(
    ps: Seq<ParticipantView>,
    items: Seq<LItemView>,
    id: u128,
)
    requires
        members_registered(ps, items),
    ensures
        members_registered(without_key(ps, id), member_dropped(items, id)),
        !has_key(without_key(ps, id), id),
        forall|i: int|
            0 <= i < member_dropped(items, id).len() ==> !(#[trigger] member_dropped(
                items,
                id,
            )[i]).members.contains(id),
{
    lemma_without_key(ps, id);
    let left = member_dropped(items, id);
    assert forall|i: int, k: int|
        0 <= i < left.len() && 0 <= k < left[i].members.len() implies has_key(
        without_key(ps, id),
        #[trigger] left[i].members[k],
    ) by {
        let key = left[i].members[k];
        lemma_filter_members(items[i].members, other_key(id));
        assert(left[i].members.contains(key));
        assert(items[i].members.contains(key));
        let at = choose|at: int| 0 <= at < items[i].members.len() && items[i].members[at] == key;
        assert(has_key(ps, items[i].members[at]));
    }
    assert forall|i: int| 0 <= i < left.len() implies !(#[trigger] left[i]).members.contains(
        id,
    ) by {
        lemma_filter_members(items[i].members, other_key(id));
    }
}

/// The items that are left when one is removed name nobody new.
pub proof fn lemma_registered_without_item(
    ps: Seq<ParticipantView>,
    items: Seq<LItemView>,
    id: u128,
)
    requires
        members_registered(ps, items),
    ensures
        members_registered(ps, without_item(items, id)),
{
    let left = without_item(items, id);
    lemma_filter_members(items, other_item(id));
    assert forall|i: int, k: int|
        0 <= i < left.len() && 0 <= k < left[i].members.len() implies has_key(
        ps,
        #[trigger] left[i].members[k],
    ) by {
        assert(left.contains(left[i]));
        assert(items.contains(left[i]));
        let at = choose|at: int| 0 <= at < items.len() && items[at] == left[i];
        assert(has_key(ps, items[at].members[k]));
    }
}

/// Where putting in the first `upto` participants is turned down, putting
/// in all of them is turned down in the same way.
pub proof fn lemma_participants_restored_prefix(v: LedgerView, ps: Seq<ParticipantView>, upto: int)
    requires
        0 <= upto <= ps.len(),
        participants_restored(v, ps.take(upto)).0 is Err,
    ensures
        participants_restored(v, ps).0 == participants_restored(v, ps.take(upto)).0,
    decreases ps.len() - upto,
{
    if upto == ps.len() {
        assert(ps.take(upto) =~= ps);
    } else {
        assert(ps.drop_last().take(upto) =~= ps.take(upto));
        lemma_participants_restored_prefix(v, ps.drop_last(), upto);
    }
}

/// Where putting in the first `upto` line items is turned down, putting in
/// all of them is turned down in the same way.
pub proof fn lemma_items_restored_prefix(v: LedgerView, items: Seq<LItemView>, upto: int)
    requires
        0 <= upto <= items.len(),
        items_restored(v, items.take(upto)).0 is Err,
    ensures
        items_restored(v, items).0 == items_restored(v, items.take(upto)).0,
    decreases items.len() - upto,
{
    if upto == items.len() {
        assert(items.take(upto) =~= items);
    } else {
        assert(items.drop_last().take(upto) =~= items.take(upto));
        lemma_items_restored_prefix(v, items.drop_last(), upto);
    }
}

} // verus!
