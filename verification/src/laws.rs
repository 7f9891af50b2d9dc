//! What holds of every ledger: laws that follow from the contracts, proved
//! once for all callers.

use crate::calc::involved;
use crate::calc::items_owed;
use crate::calc::share_of;
use crate::calc::shares_defined;
use crate::calc::shares_map;
use crate::calc::shares_total;
use crate::calc::tax_share;
use crate::line_item::member_dropped;
use crate::line_item::other_key;
use crate::line_item::LItemView;
use crate::money::held;
use crate::participant::at_most_one_payer;
use crate::participant::distinct_keys;
use crate::participant::has_key;
use crate::participant::is_payer_key;
use crate::participant::payer_toggled;
use crate::participant::valid_participants;
use crate::participant::ParticipantView;
use crate::seqs::lemma_filter_members;
use crate::calc::lemma_items_owed_prefix;
use crate::error::SplitError;
use crate::ledger::accepted_members;
use crate::ledger::assembled;
use crate::ledger::attempt;
use crate::ledger::derived;
use crate::ledger::empty_ledger;
use crate::ledger::items_restored;
use crate::ledger::participants_restored;
use crate::ledger::registered_in;
use crate::ledger::rewritten;
use crate::ledger::valid_ledger;
use crate::ledger::LedgerView;
use crate::line_item::has_item;
use crate::line_item::lemma_enrolled_distinct;
use crate::participant::joined;
use crate::participant::lemma_has_key_push;
use crate::participant::without_payer;
use crate::seqs::lemma_filter_keeps_all;
use vstd::prelude::*;

verus! {

/// The sum of the values of a map with finitely many keys.
pub open spec fn map_sum(m: Map<u128, nat>) -> nat
    decreases m.dom().len(),
    when m.dom().finite()
    via map_sum_decreases
{
    if m.dom().len() == 0 {
        0
    } else {
        let k = m.dom().choose();
        m[k] + map_sum(m.remove(k))
    }
}

#[via_fn]
proof fn map_sum_decreases(m: Map<u128, nat>) {
    if m.dom().len() != 0 {
        let k = m.dom().choose();
        assert(m.dom().contains(k));
        assert(m.remove(k).dom() =~= m.dom().remove(k));
    }
}

/// The sum of a map is the value under any one of its keys plus the sum of
/// the rest.
pub proof fn lemma_map_sum_remove(m: Map<u128, nat>, k: u128)
    requires
        m.dom().finite(),
        m.contains_key(k),
    ensures
        map_sum(m) == m[k] + map_sum(m.remove(k)),
    decreases m.dom().len(),
{
    let c = m.dom().choose();
    assert(m.dom().contains(c));
    assert(m.remove(c).dom() =~= m.dom().remove(c));
    assert(m.remove(k).dom() =~= m.dom().remove(k));
    if c != k {
        lemma_map_sum_remove(m.remove(c), k);
        lemma_map_sum_remove(m.remove(k), c);
        assert(m.remove(c).remove(k) =~= m.remove(k).remove(c));
    }
}

/// The keys of a registry are finitely many, and where no key occurs twice
/// the shares by key add up to the sum of the shares by participant.
proof fn lemma_shares_map_sum(
    ps: Seq<ParticipantView>,
    items: Seq<LItemView>,
    tax_each: nat,
)
    requires
        distinct_keys(ps),
        shares_defined(ps, items, tax_each),
    ensures
        shares_map(ps, items, tax_each).dom().finite(),
        map_sum(shares_map(ps, items, tax_each)) == shares_total(ps, items, tax_each),
    decreases ps.len(),
{
    let m = shares_map(ps, items, tax_each);
    if ps.len() == 0 {
        assert(m.dom() =~= Set::<u128>::empty());
    } else {
        let front = ps.drop_last();
        let last = ps.last();
        assert forall|i: int| 0 <= i < front.len() implies held(
            share_of(items, tax_each, (#[trigger] front[i]).id),
        ) is Some by {
            assert(front[i] == ps[i]);
        }
        assert(distinct_keys(front)) by {
            assert forall|i: int, j: int| 0 <= i < j < front.len() implies (#[trigger] front[i]).id
                != (#[trigger] front[j]).id by {
                assert(ps[i].id != ps[j].id);
            }
        }
        lemma_shares_map_sum(front, items, tax_each);
        let rest = shares_map(front, items, tax_each);
        assert(!has_key(front, last.id)) by {
            if has_key(front, last.id) {
                let i = choose|i: int| 0 <= i < front.len() && (#[trigger] front[i]).id == last.id;
                assert(ps[i].id != ps[ps.len() - 1].id);
            }
        }
        assert(front.push(last) =~= ps);
        lemma_has_key_push(front, last);
        assert(m.dom() =~= rest.dom().insert(last.id));
        assert(m.remove(last.id) =~= rest);
        lemma_map_sum_remove(m, last.id);
        assert(held(share_of(items, tax_each, ps[ps.len() - 1].id)) is Some);
    }
}

/// In a ledger in order, what the participants owe adds up to the total.
pub proof fn law_shares_add_up(v: LedgerView)
    requires
        valid_ledger(v),
    ensures
        v.shares.dom().finite(),
        map_sum(v.shares) == v.total_price,
{
    let tax_each = tax_share(v.participants, v.items, v.total_tax)->0;
    lemma_shares_map_sum(v.participants, v.items, tax_each);
}

/// In a ledger in order, every participant has a share, and nobody else.
pub proof fn law_shares_are_of_participants(v: LedgerView, k: u128)
    requires
        valid_ledger(v),
    ensures
        v.shares.contains_key(k) <==> has_key(v.participants, k),
{
}

/// In a ledger in order, a participant who belongs to no line item owes
/// nothing, whatever the tax.
pub proof fn law_uninvolved_owes_nothing(v: LedgerView, at: int)
    requires
        valid_ledger(v),
        0 <= at < v.participants.len(),
        !involved(v.items, v.participants[at].id),
    ensures
        v.shares.contains_key(v.participants[at].id),
        v.shares[v.participants[at].id] == 0,
{
}

/// The test that the items shared by the participant `who` pass.
pub open spec fn shared_by(who: u128) -> spec_fn(LItemView) -> bool {
    |it: LItemView| it.members.contains(who)
}

/// What a participant owes for the items depends on the items that the
/// participant belongs to and on no others.
pub proof fn law_foreign_items_do_not_count(items: Seq<LItemView>, who: u128)
    ensures
        items_owed(items, who) == items_owed(items.filter(shared_by(who)), who),
    decreases items.len(),
{
    reveal(Seq::filter);
    if items.len() > 0 {
        law_foreign_items_do_not_count(items.drop_last(), who);
        if items.last().members.contains(who) {
            let kept = items.drop_last().filter(shared_by(who)).push(items.last());
            assert(kept.drop_last() =~= items.drop_last().filter(shared_by(who)));
        }
    }
}

/// Where a participant leaves, an item that the leaver did not share stays
/// as it was.
pub proof fn law_leaving_keeps_foreign_items(items: Seq<LItemView>, gone: u128, at: int)
    requires
        0 <= at < items.len(),
        !items[at].members.contains(gone),
    ensures
        member_dropped(items, gone)[at] == items[at],
{
    lemma_filter_keeps_all(items[at].members, other_key(gone));
}

/// Where a participant leaves, one who shared no item with the leaver owes
/// for the items what was owed before, and is involved as before.
pub proof fn law_leaving_spares_others(items: Seq<LItemView>, gone: u128, who: u128)
    requires
        who != gone,
        forall|i: int|
            0 <= i < items.len() && (#[trigger] items[i]).members.contains(gone)
                ==> !items[i].members.contains(who),
    ensures
        items_owed(member_dropped(items, gone), who) == items_owed(items, who),
        involved(member_dropped(items, gone), who) == involved(items, who),
    decreases items.len(),
{
    let left = member_dropped(items, gone);
    assert forall|i: int| 0 <= i < items.len() implies (#[trigger] left[i]).members.contains(who)
        == items[i].members.contains(who) && (items[i].members.contains(who) ==> left[i]
        == items[i]) by {
        lemma_filter_members(items[i].members, other_key(gone));
        if items[i].members.contains(who) {
            lemma_filter_keeps_all(items[i].members, other_key(gone));
        }
    }
    if involved(items, who) {
        let i = choose|i: int| 0 <= i < items.len() && (#[trigger] items[i]).members.contains(who);
        assert(left[i].members.contains(who));
    }
    if involved(left, who) {
        let i = choose|i: int| 0 <= i < left.len() && (#[trigger] left[i]).members.contains(who);
        assert(items[i].members.contains(who));
    }
    if items.len() > 0 {
        assert(member_dropped(items.drop_last(), gone) =~= left.drop_last());
        assert forall|i: int|
            0 <= i < items.drop_last().len() && (#[trigger] items.drop_last()[i]).members.contains(
                gone,
            ) implies !items.drop_last()[i].members.contains(who) by {
            assert(items[i].members.contains(gone));
        }
        law_leaving_spares_others(items.drop_last(), gone, who);
        assert(left.last() == left[items.len() - 1]);
        assert(items.last() == items[items.len() - 1]);
    }
}

/// Computing anew what was just computed changes nothing.
pub proof fn law_recomputation_is_idempotent(v: LedgerView)
    ensures
        derived(v) matches Some(w) ==> derived(w) == Some(w),
        valid_ledger(v) ==> attempt(v, v) == (Ok::<(), SplitError>(()), v),
{
}

/// The registry after the payer marks of the participants under `ids` were
/// toggled one after the other.
pub open spec fn toggled_in_turn(ps: Seq<ParticipantView>, ids: Seq<u128>) -> Seq<ParticipantView>
    decreases ids.len(),
{
    if ids.len() == 0 {
        ps
    } else {
        payer_toggled(toggled_in_turn(ps, ids.drop_last()), ids.last())
    }
}

/// Toggling a payer mark leaves a registry in order: the keys stay, and at
/// most one participant is the payer.
pub proof fn law_toggle_keeps_one_payer(ps: Seq<ParticipantView>, id: u128)
    requires
        valid_participants(ps),
    ensures
        valid_participants(payer_toggled(ps, id)),
{
    let after = payer_toggled(ps, id);
    if is_payer_key(ps, id) {
    } else if has_key(ps, id) {
        let at = choose|at: int| 0 <= at < ps.len() && (#[trigger] ps[at]).id == id;
        assert forall|i: int, j: int|
            0 <= i < after.len() && 0 <= j < after.len() && (#[trigger] after[i]).payer && (
            #[trigger] after[j]).payer implies i == j by {
            assert(ps[i].id == id && ps[j].id == id);
            if i != j {
                if i < j {
                    assert(ps[i].id != ps[j].id);
                } else {
                    assert(ps[j].id != ps[i].id);
                }
            }
        }
    }
}

/// Whatever payer marks are toggled, and in whatever order, at most one
/// participant is the payer afterwards.
pub proof fn law_single_payer(ps: Seq<ParticipantView>, ids: Seq<u128>)
    requires
        valid_participants(ps),
    ensures
        valid_participants(toggled_in_turn(ps, ids)),
        at_most_one_payer(toggled_in_turn(ps, ids)),
    decreases ids.len(),
{
    if ids.len() > 0 {
        law_single_payer(ps, ids.drop_last());
        law_toggle_keeps_one_payer(toggled_in_turn(ps, ids.drop_last()), ids.last());
    }
}

/// What each of `ps` owes where nobody owes anything.
spec fn nothing_owed(ps: Seq<ParticipantView>) -> Map<u128, nat> {
    Map::new(|k: u128| has_key(ps, k), |k: u128| 0nat)
}

/// The ledger `v` with its first `upto` participants only, before any line
/// item or tax was entered.
spec fn peopled(v: LedgerView, upto: int) -> LedgerView {
    rewritten(
        LedgerView {
            total_tax: 0,
            participants: v.participants.take(upto),
            items: Seq::empty(),
            shares: nothing_owed(v.participants.take(upto)),
            total_price: 0,
            ..v
        },
    )
}

/// Putting the first `upto` participants of a ledger in order into the
/// empty ledger of its name gives the ledger with those participants only:
/// none is turned down.
proof fn lemma_participants_rebuilt(v: LedgerView, upto: int)
    requires
        valid_ledger(v),
        0 <= upto <= v.participants.len(),
    ensures
        participants_restored(peopled(v, 0), v.participants.take(upto)) == (
            Ok::<(), SplitError>(()),
            peopled(v, upto),
        ),
    decreases upto,
{
    let ps = v.participants;
    if upto == 0 {
        assert(ps.take(0) =~= Seq::<ParticipantView>::empty());
    } else {
        lemma_participants_rebuilt(v, upto - 1);
        let front = ps.take(upto - 1);
        let last = ps[upto - 1];
        assert(ps.take(upto).drop_last() =~= front);
        assert(ps.take(upto).last() == last);
        assert(!has_key(front, last.id)) by {
            if has_key(front, last.id) {
                let i = choose|i: int| 0 <= i < front.len() && (#[trigger] front[i]).id == last.id;
                assert(ps[i].id != ps[upto - 1].id);
            }
        }
        assert(joined(front, last) =~= ps.take(upto)) by {
            if last.payer {
                assert forall|i: int| 0 <= i < front.len() implies !(#[trigger] front[i]).payer by {
                    if front[i].payer {
                        assert(ps[i].payer && ps[upto - 1].payer);
                    }
                }
                assert(without_payer(front) =~= front);
            }
        }
        assert(front.push(last) =~= ps.take(upto));
        lemma_has_key_push(front, last);
        assert(nothing_owed(front).insert(last.id, 0) =~= nothing_owed(ps.take(upto)));
    }
}

/// Where what each participant owes for all items and the tax is defined
/// and can be held, so it is for the first `upto` items without tax, and it
/// is no more.
proof fn lemma_share_of_fewer_items(
    items: Seq<LItemView>,
    upto: int,
    tax_each: nat,
    who: u128,
)
    requires
        0 <= upto <= items.len(),
        held(share_of(items, tax_each, who)) is Some,
    ensures
        held(share_of(items.take(upto), 0, who)) is Some,
        share_of(items.take(upto), 0, who)->0 <= share_of(items, tax_each, who)->0,
{
    lemma_items_owed_prefix(items, upto, who);
    if involved(items.take(upto), who) {
        let i = choose|i: int|
            0 <= i < items.take(upto).len() && (#[trigger] items.take(upto)[i]).members.contains(
                who,
            );
        assert(items[i].members.contains(who));
    }
    if !involved(items.take(upto), who) {
    } else {
        assert(items_owed(items, who) is Some);
    }
}

/// Where the split of all items with the tax is defined, the shares for the
/// first `upto` items without tax are defined, and add up to no more.
proof fn lemma_totals_of_fewer_items(
    ps: Seq<ParticipantView>,
    items: Seq<LItemView>,
    upto: int,
    tax_each: nat,
)
    requires
        0 <= upto <= items.len(),
        shares_defined(ps, items, tax_each),
    ensures
        shares_defined(ps, items.take(upto), 0),
        shares_total(ps, items.take(upto), 0) <= shares_total(ps, items, tax_each),
    decreases ps.len(),
{
    assert forall|i: int| 0 <= i < ps.len() implies held(
        share_of(items.take(upto), 0, (#[trigger] ps[i]).id),
    ) is Some by {
        lemma_share_of_fewer_items(items, upto, tax_each, ps[i].id);
    }
    if ps.len() > 0 {
        let front = ps.drop_last();
        assert forall|i: int| 0 <= i < front.len() implies held(
            share_of(items, tax_each, (#[trigger] front[i]).id),
        ) is Some by {
            assert(front[i] == ps[i]);
        }
        lemma_totals_of_fewer_items(front, items, upto, tax_each);
        assert(held(share_of(items, tax_each, ps[ps.len() - 1].id)) is Some);
        lemma_share_of_fewer_items(items, upto, tax_each, ps.last().id);
    }
}

/// The ledger `v` with all its participants and its first `upto` line
/// items, before the tax was entered.
spec fn stocked(v: LedgerView, upto: int) -> LedgerView {
    derived(LedgerView { total_tax: 0, items: v.items.take(upto), ..v })->0
}

/// For a ledger in order, the split of its first `upto` items without tax
/// is defined.
proof fn lemma_fewer_items_split(v: LedgerView, upto: int)
    requires
        valid_ledger(v),
        0 <= upto <= v.items.len(),
    ensures
        derived(LedgerView { total_tax: 0, items: v.items.take(upto), ..v }) is Some,
{
    let tax_each = tax_share(v.participants, v.items, v.total_tax)->0;
    lemma_totals_of_fewer_items(v.participants, v.items, upto, tax_each);
}

/// Putting the first `upto` line items of a ledger in order into the ledger
/// with its participants only gives the ledger with those items: none is
/// turned down.
proof fn lemma_items_rebuilt(v: LedgerView, upto: int)
    requires
        valid_ledger(v),
        0 <= upto <= v.items.len(),
    ensures
        items_restored(peopled(v, v.participants.len() as int), v.items.take(upto)) == (
            Ok::<(), SplitError>(()),
            stocked(v, upto),
        ),
    decreases upto,
{
    let ps = v.participants;
    let items = v.items;
    let start = peopled(v, ps.len() as int);
    assert(ps.take(ps.len() as int) =~= ps);
    lemma_fewer_items_split(v, upto);
    if upto == 0 {
        assert(items.take(0) =~= Seq::<LItemView>::empty());
        let none = Seq::<LItemView>::empty();
        assert(tax_share(ps, none, 0) == Some(0nat));
        assert forall|k: u128| share_of(none, 0, k) == Some(0nat) by {}
        assert(shares_total(ps, none, 0) == 0) by {
            lemma_nothing_to_share(ps);
        }
        assert(shares_map(ps, none, 0) =~= nothing_owed(ps));
    } else {
        lemma_items_rebuilt(v, upto - 1);
        lemma_fewer_items_split(v, upto - 1);
        let front = items.take(upto - 1);
        let last = items[upto - 1];
        assert(items.take(upto).drop_last() =~= front);
        assert(items.take(upto).last() == last);
        assert(!has_item(front, last.id)) by {
            if has_item(front, last.id) {
                let i = choose|i: int| 0 <= i < front.len() && (#[trigger] front[i]).id == last.id;
                assert(items[i].id != items[upto - 1].id);
            }
        }
        assert(accepted_members(ps, last.members) == last.members) by {
            assert forall|k: int| 0 <= k < last.members.len() implies registered_in(ps)(
                #[trigger] last.members[k],
            ) by {
                assert(has_key(ps, items[upto - 1].members[k]));
            }
            lemma_filter_keeps_all(last.members, registered_in(ps));
            lemma_enrolled_distinct(last.members);
        }
        assert(front.push(last) =~= items.take(upto));
    }
}

/// Where there is nothing to share, the participants together owe nothing.
proof fn lemma_nothing_to_share(ps: Seq<ParticipantView>)
    ensures
        shares_total(ps, Seq::<LItemView>::empty(), 0) == 0,
    decreases ps.len(),
{
    if ps.len() > 0 {
        lemma_nothing_to_share(ps.drop_last());
    }
}

/// A ledger in order is rebuilt from its own parts: putting its
/// participants and its line items into an empty ledger of its name and
/// setting its tax turns nothing down and gives the same ledger.
pub proof fn law_parts_rebuild_the_ledger(v: LedgerView)
    requires
        valid_ledger(v),
    ensures
        assembled(v.id, v.event_name, v.total_tax, v.participants, v.items) == (
            Ok::<(), SplitError>(()),
            v,
        ),
{
    let ps = v.participants;
    lemma_participants_rebuilt(v, ps.len() as int);
    lemma_items_rebuilt(v, v.items.len() as int);
    assert(ps.take(ps.len() as int) =~= ps);
    assert(v.items.take(v.items.len() as int) =~= v.items);
    assert(ps.take(0) =~= Seq::<ParticipantView>::empty());
    assert(nothing_owed(ps.take(0)) =~= Map::<u128, nat>::empty());
    let named = rewritten(LedgerView { event_name: v.event_name, ..empty_ledger(v.id) });
    assert(peopled(v, 0) == named);
    assert(participants_restored(named, ps) == (
        Ok::<(), SplitError>(()),
        peopled(v, ps.len() as int),
    ));
    let before_tax = stocked(v, v.items.len() as int);
    assert(items_restored(peopled(v, ps.len() as int), v.items) == (
        Ok::<(), SplitError>(()),
        before_tax,
    ));
    lemma_fewer_items_split(v, v.items.len() as int);
    let with_tax = LedgerView { total_tax: v.total_tax, ..before_tax };
    assert(with_tax.participants == v.participants);
    assert(with_tax.items == v.items);
    assert(with_tax.id == v.id);
    assert(with_tax.event_name == v.event_name);
    assert(derived(with_tax) == derived(v));
    assert(attempt(before_tax, with_tax) == (Ok::<(), SplitError>(()), v));
}

} // verus!
