//! The ledger of one bill.
//!
//! Every operation that changes the ledger computes the shares, the total
//! and the summary anew before it returns, and an operation whose outcome
//! cannot be computed leaves the ledger as it was.

use crate::calc::amounts;
use crate::calc::compute_shares;
use crate::calc::count_involved;
use crate::calc::involved;
use crate::calc::involved_count;
use crate::calc::is_involved;
use crate::calc::lemma_split_by_keys_and_amounts;
use crate::calc::same_amounts;
use crate::calc::same_keys;
use crate::calc::split;
use crate::calc::tax_share;
use crate::calc::tax_split;
use crate::error::SplitError;
use crate::keys::first_free_key;
use crate::keys::random_key;
use crate::ledger::accepted_members;
use crate::ledger::assembled;
use crate::ledger::items_restored;
use crate::ledger::lemma_items_restored_prefix;
use crate::ledger::lemma_participants_restored_prefix;
use crate::ledger::participants_restored;
use crate::ledger::attempt;
use crate::ledger::empty_ledger;
use crate::ledger::item_added;
use crate::ledger::item_entered;
use crate::ledger::item_restored;
use crate::ledger::lemma_accepted_members;
use crate::ledger::lemma_marks_changed;
use crate::ledger::lemma_participant_joins;
use crate::ledger::lemma_registered_after_leaving;
use crate::ledger::lemma_registered_without_item;
use crate::ledger::members_registered;
use crate::ledger::participant_added;
use crate::ledger::participant_entered;
use crate::ledger::participant_joined;
use crate::ledger::participant_restored;
use crate::ledger::registered_in;
use crate::ledger::registries_valid;
use crate::ledger::rewritten;
use crate::ledger::valid_ledger;
use crate::ledger::LedgerView;
use crate::line_item::has_item;
use crate::line_item::item_priced;
use crate::line_item::item_views;
use crate::line_item::item_renamed;
use crate::line_item::item_shared_by;
use crate::line_item::lemma_enrolled_distinct;
use crate::line_item::lemma_item_keys;
use crate::line_item::member_added;
use crate::line_item::member_dropped;
use crate::line_item::member_removed;
use crate::line_item::other_key;
use crate::line_item::valid_items;
use crate::line_item::without_item;
use crate::line_item::LItem;
use crate::line_item::LItemView;
use crate::line_item::LItems;
use crate::money::Amount;
use crate::money::Money;
use crate::participant::has_key;
use crate::participant::lemma_keys_of;
use crate::participant::participant_views;
use crate::participant::payer_toggled;
use crate::participant::renamed;
use crate::participant::settled_as;
use crate::participant::settled_toggled;
use crate::participant::without_key;
use crate::participant::Participant;
use crate::participant::ParticipantView;
use crate::participant::Participants;
use crate::seqs::lemma_filter_keeps_all;
use crate::seqs::lemma_filter_members;
use crate::summary::format_summary;
use crate::text::blank;
use crate::text::is_blank;
use crate::text::lemma_trimmed_twice;
use crate::text::trim;
use crate::text::trimmed;
use std::collections::HashMap;
use vstd::prelude::*;

verus! {

broadcast use vstd::std_specs::hash::group_hash_axioms;

/// The ledger of one bill.
#[derive(Debug)]
pub struct SplitItem {
    id: u128,
    event_name: String,
    total_price: Money,
    total_tax: Money,
    participants: Participants,
    line_items: LItems,
    final_split: HashMap<u128, Money>,
    summary_text: String,
}

impl View for SplitItem {
    type V = LedgerView;

    closed spec fn view(&self) -> LedgerView {
        LedgerView {
            id: self.id,
            event_name: self.event_name@,
            total_tax: self.total_tax@,
            participants: self.participants@,
            items: self.line_items@,
            shares: amounts(self.final_split@),
            total_price: self.total_price@,
            summary: self.summary_text@,
        }
    }
}

impl SplitItem {
    /// Whether the ledger is in order.
    pub open spec fn wf(&self) -> bool {
        valid_ledger(self@)
    }

    /// An empty ledger under the key `id`: no participants, no items, no
    /// tax, an empty name.
    pub fn with_id(id: u128) -> (r: SplitItem)
        ensures
            r.wf(),
            r@ == empty_ledger(id),
    {
        let event_name = String::new();
        let participants = Participants::new();
        let line_items = LItems::new();
        let final_split: HashMap<u128, Money> = HashMap::new();
        let total = Money::zero();
        let summary_text = format_summary(
            event_name.as_str(),
            total,
            total,
            &participants,
            &line_items,
            &final_split,
        );
        let r = SplitItem {
            id,
            event_name,
            total_price: total,
            total_tax: total,
            participants,
            line_items,
            final_split,
            summary_text,
        };
        proof {
            let s = split(r@.participants, r@.items, r@.total_tax)->0;
            assert(r@.shares =~= s.shares);
            assert(r@.shares =~= Map::<u128, nat>::empty());
        }
        r
    }

    /// An empty ledger under a key drawn at random.
    pub fn new() -> (r: SplitItem)
        ensures
            r.wf(),
            r@ == empty_ledger(r@.id),
    {
        SplitItem::with_id(random_key())
    }

    /// Builds a ledger from its parts, as they were stored: the name of the
    /// event, the participants, the line items and the tax. The participants
    /// and the items are put in one after the other, with the names that
    /// they have, and the first to be turned down ends it. What is owed, the
    /// total and the summary are computed anew.
    pub fn from_parts(
        id: u128,
        event_name: String,
        total_tax: Money,
        participants: &Vec<Participant>,
        line_items: &Vec<LItem>,
    ) -> (r: Result<SplitItem, SplitError>)
        ensures
            match r {
                Ok(ledger) => ledger.wf() && assembled(
                    id,
                    event_name@,
                    total_tax@,
                    participant_views(participants@),
                    item_views(line_items@),
                ) == (Ok::<(), SplitError>(()), ledger@),
                Err(e) => assembled(
                    id,
                    event_name@,
                    total_tax@,
                    participant_views(participants@),
                    item_views(line_items@),
                ).0 == Err::<(), SplitError>(e),
            },
    {
        let ghost ps = participant_views(participants@);
        let ghost items = item_views(line_items@);
        let ghost named = rewritten(LedgerView { event_name: event_name@, ..empty_ledger(id) });
        let mut ledger = SplitItem::with_id(id);
        ledger.add_event_name(event_name);
        let n = participants.len();
        let mut i: usize = 0;
        assert(ps.take(0) =~= Seq::<ParticipantView>::empty());
        while i < n
            invariant
                n == participants@.len(),
                i <= n,
                ps == participant_views(participants@),
                items == item_views(line_items@),
                named == rewritten(LedgerView { event_name: event_name@, ..empty_ledger(id) }),
                ledger.wf(),
                participants_restored(named, ps.take(i as int)) == (
                    Ok::<(), SplitError>(()),
                    ledger@,
                ),
            decreases n - i,
        {
            assert(ps.take(i + 1).drop_last() =~= ps.take(i as int));
            match ledger.restore_participant(participants[i].clone()) {
                Ok(()) => {},
                Err(e) => {
                    proof {
                        lemma_participants_restored_prefix(named, ps, i + 1);
                    }
                    return Err(e);
                },
            }
            i = i + 1;
        }
        assert(ps.take(n as int) =~= ps);
        let ghost peopled = ledger@;
        let m = line_items.len();
        let mut k: usize = 0;
        assert(items.take(0) =~= Seq::<LItemView>::empty());
        while k < m
            invariant
                m == line_items@.len(),
                k <= m,
                ps == participant_views(participants@),
                items == item_views(line_items@),
                named == rewritten(LedgerView { event_name: event_name@, ..empty_ledger(id) }),
                participants_restored(named, ps) == (Ok::<(), SplitError>(()), peopled),
                ledger.wf(),
                items_restored(peopled, items.take(k as int)) == (
                    Ok::<(), SplitError>(()),
                    ledger@,
                ),
            decreases m - k,
        {
            assert(items.take(k + 1).drop_last() =~= items.take(k as int));
            match ledger.restore_line_item(line_items[k].clone()) {
                Ok(()) => {},
                Err(e) => {
                    proof {
                        lemma_items_restored_prefix(peopled, items, k + 1);
                    }
                    return Err(e);
                },
            }
            k = k + 1;
        }
        assert(items.take(m as int) =~= items);
        match ledger.replace_tax(total_tax) {
            Ok(()) => Ok(ledger),
            Err(e) => Err(e),
        }
    }

    /// The ledger's key.
    pub fn id(&self) -> (r: u128)
        ensures
            r == self@.id,
    {
        self.id
    }

    /// The name of the event.
    pub fn event_name(&self) -> (r: &String)
        ensures
            r@ == self@.event_name,
    {
        &self.event_name
    }

    /// The sum of what the participants owe.
    pub fn total_price(&self) -> (r: Money)
        ensures
            r@ == self@.total_price,
    {
        self.total_price
    }

    /// The tax on the bill.
    pub fn total_tax(&self) -> (r: Money)
        ensures
            r@ == self@.total_tax,
    {
        self.total_tax
    }

    /// The participants.
    pub fn participants(&self) -> (r: &Participants)
        ensures
            r@ == self@.participants,
    {
        &self.participants
    }

    /// The line items.
    pub fn line_items(&self) -> (r: &LItems)
        ensures
            r@ == self@.items,
    {
        &self.line_items
    }

    /// The summary, as it was written when the ledger last changed.
    pub fn summary_text(&self) -> (r: &String)
        ensures
            r@ == self@.summary,
    {
        &self.summary_text
    }

    /// What the participant under the key `id` owes; `None` for a key that
    /// nobody has.
    pub fn get_split_amount_by_id(&self, id: u128) -> (r: Option<Money>)
        ensures
            r is Some == self@.shares.contains_key(id),
            r matches Some(m) ==> m@ == self@.shares[id],
    {
        match self.final_split.get(&id) {
            Some(m) => Some(*m),
            None => None,
        }
    }

    /// How many participants belong to at least one line item.
    pub fn total_involved_participant_count(&self) -> (r: usize)
        ensures
            r == involved_count(self@.participants, self@.items),
    {
        count_involved(&self.participants, &self.line_items)
    }

    /// Whether the participant belongs to at least one line item.
    pub fn is_involved_in_any_orders(&self, part: &Participant) -> (r: bool)
        ensures
            r == involved(self@.items, part@.id),
    {
        is_involved(&self.line_items, part.id())
    }

    /// What each involved participant owes of the tax.
    pub fn tax_split(&self) -> (r: Money)
        requires
            self.wf(),
        ensures
            tax_share(self@.participants, self@.items, self@.total_tax) == Some(r@),
    {
        match tax_split(&self.participants, &self.line_items, self.total_tax) {
            Some(t) => t,
            // Not reached: in a ledger in order the tax has been shared out.
            None => Money::zero(),
        }
    }

    /// Writes the summary anew from what the ledger holds.
    pub fn update_summary_text(&mut self)
        ensures
            final(self)@ == rewritten(old(self)@),
    {
        self.summary_text = format_summary(
            self.event_name.as_str(),
            self.total_price,
            self.total_tax,
            &self.participants,
            &self.line_items,
            &self.final_split,
        );
    }

    /// Computes what each participant owes, the total and the summary anew.
    /// Where the split is not defined the ledger stays as it was.
    pub fn calculate_split(&mut self) -> (r: Result<(), SplitError>)
        ensures
            (r, final(self)@) == attempt(old(self)@, old(self)@),
            registries_valid(old(self)@) && r is Ok ==> final(self).wf(),
    {
        match compute_shares(&self.participants, &self.line_items, self.total_tax) {
            Some(out) => {
                self.install(out);
                Ok(())
            },
            None => Err(SplitError::AmountOutOfRange),
        }
    }

    /// Puts what was computed in place and writes the summary.
    fn install(&mut self, out: (HashMap<u128, Money>, Money))
        ensures
            final(self)@ == rewritten(
                LedgerView { shares: amounts(out.0@), total_price: out.1@, ..old(self)@ },
            ),
    {
        self.final_split = out.0;
        self.total_price = out.1;
        self.update_summary_text();
    }

    /// Puts `items` in the place of the line items, where the split can then
    /// be computed.
    fn replace_items(&mut self, items: LItems) -> (r: Result<(), SplitError>)
        requires
            old(self).wf(),
            valid_items(items@),
            members_registered(old(self)@.participants, items@),
        ensures
            final(self).wf(),
            (r, final(self)@) == attempt(
                old(self)@,
                LedgerView { items: items@, ..old(self)@ },
            ),
    {
        match compute_shares(&self.participants, &items, self.total_tax) {
            Some(out) => {
                self.line_items = items;
                self.install(out);
                Ok(())
            },
            None => Err(SplitError::AmountOutOfRange),
        }
    }

    /// Names the event.
    pub fn add_event_name(&mut self, event_name: String)
        requires
            old(self).wf(),
        ensures
            final(self).wf(),
            final(self)@ == rewritten(LedgerView { event_name: event_name@, ..old(self)@ }),
    {
        self.event_name = event_name;
        self.update_summary_text();
    }

    /// Puts `tax` in the place of the tax, where the split can then be
    /// computed.
    fn replace_tax(&mut self, tax: Money) -> (r: Result<(), SplitError>)
        requires
            old(self).wf(),
        ensures
            final(self).wf(),
            (r, final(self)@) == attempt(
                old(self)@,
                LedgerView { total_tax: tax@, ..old(self)@ },
            ),
    {
        match compute_shares(&self.participants, &self.line_items, tax) {
            Some(out) => {
                self.total_tax = tax;
                self.install(out);
                Ok(())
            },
            None => Err(SplitError::AmountOutOfRange),
        }
    }

    /// Sets the tax to the entered amount, rounded to the cent with a tie
    /// going up. An amount that is negative or out of range is turned down.
    pub fn add_total_tax(&mut self, tax: Amount) -> (r: Result<(), SplitError>)
        requires
            old(self).wf(),
        ensures
            final(self).wf(),
            (r, final(self)@) == match tax.as_money() {
                Ok(m) => attempt(old(self)@, LedgerView { total_tax: m@, ..old(self)@ }),
                Err(e) => (Err(e), old(self)@),
            },
    {
        match Money::from_amount(tax) {
            Ok(rounded) => self.replace_tax(rounded),
            Err(e) => Err(e),
        }
    }

    /// Puts a participant at the end, whatever the name. One whose key is
    /// taken is turned down.
    fn restore_participant(&mut self, participant: Participant) -> (r: Result<(), SplitError>)
        requires
            old(self).wf(),
        ensures
            final(self).wf(),
            (r, final(self)@) == participant_restored(old(self)@, participant@),
    {
        proof {
            if !has_key(self@.participants, participant@.id) {
                lemma_participant_joins(self@, participant@);
            }
        }
        let who = participant.id();
        match self.participants.restore(participant) {
            Ok(()) => {},
            Err(e) => {
                return Err(e);
            },
        }
        self.final_split.insert(who, Money::zero());
        assert(amounts(self.final_split@) =~= old(self)@.shares.insert(who, 0));
        self.update_summary_text();
        Ok(())
    }

    /// Adds a participant at the end. One with a blank name is turned down,
    /// and so is one whose key is taken. A payer who is added takes the mark
    /// from whoever had it. The newcomer owes nothing and nobody else owes
    /// more or less.
    pub fn add_participant(&mut self, participant: Participant) -> (r: Result<(), SplitError>)
        requires
            old(self).wf(),
        ensures
            final(self).wf(),
            (r, final(self)@) == participant_added(old(self)@, participant@),
    {
        if blank(participant.name().as_str()) {
            return Err(SplitError::EmptyName);
        }
        self.restore_participant(participant)
    }

    /// Adds a participant under the key `key` with the name `name`, trimmed
    /// of the whitespace at its ends.
    pub fn add_participant_keyed(&mut self, key: u128, name: &str) -> (r: Result<(), SplitError>)
        requires
            old(self).wf(),
        ensures
            final(self).wf(),
            (r, final(self)@) == participant_entered(old(self)@, key, name@),
    {
        proof {
            lemma_trimmed_twice(name@);
        }
        self.add_participant(Participant::with_id(key, trim(name)))
    }

    /// Adds a participant with the name `name`, trimmed of the whitespace at
    /// its ends, under a key of its own, and returns the key. The key is
    /// drawn at random; were it taken, the next free one is used. Only a
    /// blank name is turned down.
    pub fn add_participant_named(&mut self, name: &str) -> (r: Result<u128, SplitError>)
        requires
            old(self).wf(),
        ensures
            final(self).wf(),
            match r {
                Ok(key) => !is_blank(name@) && !has_key(old(self)@.participants, key) && final(self)@ == participant_joined(
                    old(self)@,
                    ParticipantView {
                        id: key,
                        name: trimmed(name@),
                        payer: false,
                        settled: false,
                    },
                ),
                Err(e) => is_blank(name@) && e == SplitError::EmptyName && final(self)@ == old(self)@,
            },
    {
        let key = first_free_key(&self.participants.keys(), random_key());
        proof {
            lemma_keys_of(self@.participants);
        }
        match self.add_participant_keyed(key, name) {
            Ok(()) => Ok(key),
            Err(e) => Err(e),
        }
    }

    /// Gives the participant under the key `id` another name. A key that
    /// nobody has changes nothing.
    pub fn rename_participant(&mut self, id: u128, new_name: String)
        requires
            old(self).wf(),
        ensures
            final(self).wf(),
            final(self)@ == rewritten(
                LedgerView {
                    participants: renamed(old(self)@.participants, id, new_name@),
                    ..old(self)@
                },
            ),
    {
        self.participants.rename(id, new_name);
        proof {
            lemma_marks_changed(old(self)@, self@);
        }
        self.update_summary_text();
    }

    /// Toggles the payer mark of the participant under the key `id`. One who
    /// was payer loses the mark and nobody gets it; one who was not becomes
    /// the only payer.
    pub fn toggle_payer(&mut self, id: u128)
        requires
            old(self).wf(),
        ensures
            final(self).wf(),
            final(self)@ == rewritten(
                LedgerView {
                    participants: payer_toggled(old(self)@.participants, id),
                    ..old(self)@
                },
            ),
    {
        self.participants.toggle_payer(id);
        proof {
            lemma_marks_changed(old(self)@, self@);
        }
        self.update_summary_text();
    }

    /// Flips the settled mark of the participant under the key `id`.
    pub fn toggle_settled(&mut self, id: u128)
        requires
            old(self).wf(),
        ensures
            final(self).wf(),
            final(self)@ == rewritten(
                LedgerView {
                    participants: settled_toggled(old(self)@.participants, id),
                    ..old(self)@
                },
            ),
    {
        self.participants.toggle_settled(id);
        proof {
            lemma_marks_changed(old(self)@, self@);
        }
        self.update_summary_text();
    }

    /// Records that the participant under the key `id` has settled. Says
    /// whether that was news: `false` where the participant had settled
    /// already, or nobody has the key.
    pub fn mark_as_paid(&mut self, id: u128) -> (changed: bool)
        requires
            old(self).wf(),
        ensures
            final(self).wf(),
            final(self)@ == rewritten(
                LedgerView {
                    participants: settled_as(old(self)@.participants, id, true),
                    ..old(self)@
                },
            ),
            changed == (final(self)@.participants != old(self)@.participants),
    {
        let changed = self.participants.set_settled(id, true);
        proof {
            lemma_marks_changed(old(self)@, self@);
        }
        self.update_summary_text();
        changed
    }

    /// Records that the participant under the key `id` has not settled. Says
    /// whether that was news.
    pub fn mark_as_unpaid(&mut self, id: u128) -> (changed: bool)
        requires
            old(self).wf(),
        ensures
            final(self).wf(),
            final(self)@ == rewritten(
                LedgerView {
                    participants: settled_as(old(self)@.participants, id, false),
                    ..old(self)@
                },
            ),
            changed == (final(self)@.participants != old(self)@.participants),
    {
        let changed = self.participants.set_settled(id, false);
        proof {
            lemma_marks_changed(old(self)@, self@);
        }
        self.update_summary_text();
        changed
    }

    /// Those of `keys` that are keys of participants, in their order.
    fn registered_keys(&self, keys: &Vec<u128>) -> (r: Vec<u128>)
        ensures
            r@ == keys@.filter(registered_in(self@.participants)),
    {
        let mut out: Vec<u128> = Vec::new();
        let n = keys.len();
        let mut i: usize = 0;
        proof {
            assert(keys@.take(0) =~= Seq::<u128>::empty());
            lemma_filter_keeps_all(Seq::<u128>::empty(), registered_in(self@.participants));
        }
        while i < n
            invariant
                n == keys@.len(),
                i <= n,
                out@ == keys@.take(i as int).filter(registered_in(self@.participants)),
            decreases n - i,
        {
            proof {
                assert(keys@.take(i + 1) =~= keys@.take(i as int).push(keys@[i as int]));
                keys@.take(i as int).lemma_filter_push(
                    keys@[i as int],
                    registered_in(self@.participants),
                );
            }
            if self.participants.contains(keys[i]) {
                out.push(keys[i]);
            }
            i = i + 1;
        }
        assert(keys@.take(n as int) =~= keys@);
        out
    }

    /// Removes the participant under the key `id` from the registry and
    /// from every line item.
    pub fn remove_participant(&mut self, id: u128) -> (r: Result<(), SplitError>)
        requires
            old(self).wf(),
        ensures
            final(self).wf(),
            (r, final(self)@) == attempt(
                old(self)@,
                LedgerView {
                    participants: without_key(old(self)@.participants, id),
                    items: member_dropped(old(self)@.items, id),
                    ..old(self)@
                },
            ),
            r is Ok ==> !has_key(final(self)@.participants, id),
            r is Ok ==> !final(self)@.shares.contains_key(id),
            r is Ok ==> forall|i: int|
                0 <= i < final(self)@.items.len() ==> !(#[trigger] final(self)@.items[i])
                    .members.contains(id),
    {
        let mut participants = self.participants.clone();
        participants.remove(id);
        let mut items = self.line_items.clone();
        items.drop_participant(id);
        proof {
            lemma_registered_after_leaving(old(self)@.participants, old(self)@.items, id);
        }
        match compute_shares(&participants, &items, self.total_tax) {
            Some(out) => {
                self.participants = participants;
                self.line_items = items;
                self.install(out);
                Ok(())
            },
            None => Err(SplitError::AmountOutOfRange),
        }
    }

    /// Puts a line item at the end, whatever the name. One whose key is
    /// taken is turned down. Of those entered as sharing it, only registered
    /// participants are kept.
    fn restore_line_item(&mut self, li: LItem) -> (r: Result<(), SplitError>)
        requires
            old(self).wf(),
        ensures
            final(self).wf(),
            (r, final(self)@) == item_restored(old(self)@, li@),
    {
        let ghost given = li@;
        let mut li = li;
        let keys = self.registered_keys(li.participants());
        li.set_participants(&keys);
        let mut items = self.line_items.clone();
        match items.restore(li) {
            Ok(()) => {},
            Err(e) => {
                return Err(e);
            },
        }
        proof {
            lemma_accepted_members(old(self)@.participants, given.members);
            assert forall|i: int, k: int|
                0 <= i < items@.len() && 0 <= k < items@[i].members.len() implies has_key(
                old(self)@.participants,
                #[trigger] items@[i].members[k],
            ) by {
                if i < old(self)@.items.len() {
                    assert(has_key(old(self)@.participants, old(self)@.items[i].members[k]));
                }
            }
        }
        self.replace_items(items)
    }

    /// Adds a line item at the end. One with a blank name is turned down,
    /// and so is one whose key is taken. Of those entered as sharing it,
    /// only registered participants are kept.
    pub fn add_line_item(&mut self, li: LItem) -> (r: Result<(), SplitError>)
        requires
            old(self).wf(),
        ensures
            final(self).wf(),
            (r, final(self)@) == item_added(old(self)@, li@),
    {
        if blank(li.name().as_str()) {
            return Err(SplitError::EmptyName);
        }
        self.restore_line_item(li)
    }

    /// Adds a line item under the key `key`: the name is trimmed of the
    /// whitespace at its ends, the price rounded to the cent with a tie going
    /// up. A blank name is turned down, then a price that is negative or out
    /// of range, then a key that is taken.
    pub fn add_line_item_keyed(
        &mut self,
        key: u128,
        name: &str,
        price: Amount,
        members: &Vec<u128>,
    ) -> (r: Result<(), SplitError>)
        requires
            old(self).wf(),
        ensures
            final(self).wf(),
            (r, final(self)@) == item_entered(old(self)@, key, name@, price, members@),
    {
        proof {
            lemma_trimmed_twice(name@);
        }
        if blank(name) {
            return Err(SplitError::EmptyName);
        }
        let rounded = match Money::from_amount(price) {
            Ok(m) => m,
            Err(e) => {
                return Err(e);
            },
        };
        let mut li = LItem::with_id(key, trim(name), rounded);
        let passed = self.registered_keys(members);
        li.set_participants(&passed);
        proof {
            let accepted = accepted_members(self@.participants, members@);
            lemma_accepted_members(self@.participants, members@);
            lemma_filter_keeps_all(accepted, registered_in(self@.participants));
            lemma_enrolled_distinct(accepted);
        }
        self.add_line_item(li)
    }

    /// Adds a line item under a key of its own and returns the key. The key
    /// is drawn at random; were it taken, the next free one is used.
    pub fn add_line_item_named(&mut self, name: &str, price: Amount, members: &Vec<u128>) -> (r:
        Result<u128, SplitError>)
        requires
            old(self).wf(),
        ensures
            final(self).wf(),
            match r {
                Ok(key) => !has_item(old(self)@.items, key) && item_entered(
                    old(self)@,
                    key,
                    name@,
                    price,
                    members@,
                ) == (Ok::<(), SplitError>(()), final(self)@),
                Err(e) => final(self)@ == old(self)@ && exists|key: u128|
                    !has_item(old(self)@.items, key) && item_entered(
                        old(self)@,
                        key,
                        name@,
                        price,
                        members@,
                    ) == (Err::<(), SplitError>(e), old(self)@),
            },
    {
        let key = first_free_key(&self.line_items.keys(), random_key());
        proof {
            lemma_item_keys(self@.items);
        }
        match self.add_line_item_keyed(key, name, price, members) {
            Ok(()) => Ok(key),
            Err(e) => {
                assert(!has_item(old(self)@.items, key) && item_entered(
                    old(self)@,
                    key,
                    name@,
                    price,
                    members@,
                ) == (Err::<(), SplitError>(e), old(self)@));
                Err(e)
            },
        }
    }

    /// Removes the line item under the key `id`, if there is one.
    pub fn remove_line_item(&mut self, id: u128) -> (r: Result<(), SplitError>)
        requires
            old(self).wf(),
        ensures
            final(self).wf(),
            (r, final(self)@) == attempt(
                old(self)@,
                LedgerView { items: without_item(old(self)@.items, id), ..old(self)@ },
            ),
    {
        let mut items = self.line_items.clone();
        items.remove(id);
        proof {
            lemma_registered_without_item(old(self)@.participants, old(self)@.items, id);
        }
        self.replace_items(items)
    }

    /// Gives the line item under the key `id` another name. A key that no
    /// item has changes nothing.
    pub fn rename_line_item(&mut self, id: u128, new_name: String)
        requires
            old(self).wf(),
        ensures
            final(self).wf(),
            final(self)@ == rewritten(
                LedgerView {
                    items: item_renamed(old(self)@.items, id, new_name@),
                    ..old(self)@
                },
            ),
    {
        self.line_items.rename(id, new_name);
        proof {
            assert(same_keys(self@.participants, self@.participants));
            assert(same_amounts(self@.items, old(self)@.items));
            lemma_split_by_keys_and_amounts(
                self@.participants,
                self@.participants,
                self@.items,
                old(self)@.items,
                self@.total_tax,
            );
        }
        self.update_summary_text();
    }

    /// Sets the price of the line item under the key `id` to the entered
    /// amount, rounded to the cent with a tie going up. An amount that is
    /// negative or out of range is turned down.
    pub fn set_price(&mut self, id: u128, price: Amount) -> (r: Result<(), SplitError>)
        requires
            old(self).wf(),
        ensures
            final(self).wf(),
            (r, final(self)@) == match price.as_money() {
                Ok(m) => attempt(
                    old(self)@,
                    LedgerView { items: item_priced(old(self)@.items, id, m@), ..old(self)@ },
                ),
                Err(e) => (Err(e), old(self)@),
            },
    {
        let mut items = self.line_items.clone();
        match items.set_price(id, price) {
            Ok(()) => {},
            Err(e) => {
                return Err(e);
            },
        }
        self.replace_items(items)
    }

    /// Lets the line item under the key `id` be shared by those of `keys`
    /// that are registered participants, and by nobody else.
    pub fn set_participants(&mut self, id: u128, keys: &Vec<u128>) -> (r: Result<(), SplitError>)
        requires
            old(self).wf(),
        ensures
            final(self).wf(),
            (r, final(self)@) == attempt(
                old(self)@,
                LedgerView {
                    items: item_shared_by(
                        old(self)@.items,
                        id,
                        accepted_members(old(self)@.participants, keys@),
                    ),
                    ..old(self)@
                },
            ),
    {
        let passed = self.registered_keys(keys);
        let mut items = self.line_items.clone();
        items.set_participants(id, &passed);
        proof {
            lemma_accepted_members(old(self)@.participants, keys@);
        }
        self.replace_items(items)
    }

    /// Enters the participant `who` in the line item under the key `id`. A
    /// key that no participant has changes nothing.
    pub fn add_item_participant(&mut self, id: u128, who: u128) -> (r: Result<(), SplitError>)
        requires
            old(self).wf(),
        ensures
            final(self).wf(),
            (r, final(self)@) == if has_key(old(self)@.participants, who) {
                attempt(
                    old(self)@,
                    LedgerView { items: member_added(old(self)@.items, id, who), ..old(self)@ },
                )
            } else {
                (Ok(()), old(self)@)
            },
    {
        if !self.participants.contains(who) {
            return Ok(());
        }
        let mut items = self.line_items.clone();
        items.add_participant(id, who);
        proof {
            let after = member_added(old(self)@.items, id, who);
            assert forall|i: int, k: int|
                0 <= i < after.len() && 0 <= k < after[i].members.len() implies has_key(
                old(self)@.participants,
                #[trigger] after[i].members[k],
            ) by {
                if k < old(self)@.items[i].members.len() {
                    assert(has_key(old(self)@.participants, old(self)@.items[i].members[k]));
                }
            }
        }
        self.replace_items(items)
    }

    /// Takes the participant `who` from the line item under the key `id`.
    pub fn remove_item_participant(&mut self, id: u128, who: u128) -> (r: Result<(), SplitError>)
        requires
            old(self).wf(),
        ensures
            final(self).wf(),
            (r, final(self)@) == attempt(
                old(self)@,
                LedgerView { items: member_removed(old(self)@.items, id, who), ..old(self)@ },
            ),
    {
        let mut items = self.line_items.clone();
        items.remove_participant(id, who);
        proof {
            let after = member_removed(old(self)@.items, id, who);
            assert forall|i: int, k: int|
                0 <= i < after.len() && 0 <= k < after[i].members.len() implies has_key(
                old(self)@.participants,
                #[trigger] after[i].members[k],
            ) by {
                let key = after[i].members[k];
                lemma_filter_members(old(self)@.items[i].members, other_key(who));
                assert(after[i].members.contains(key));
                assert(old(self)@.items[i].members.contains(key));
                let at = choose|at: int|
                    0 <= at < old(self)@.items[i].members.len() && old(self)@.items[i].members[at]
                        == key;
                assert(has_key(old(self)@.participants, old(self)@.items[i].members[at]));
            }
        }
        self.replace_items(items)
    }

    /// Whether the participant `who` shares the line item under the key
    /// `id`; `false` where no item has the key.
    pub fn is_item_participant(&self, id: u128, who: u128) -> (r: bool)
        requires
            self.wf(),
        ensures
            r == exists|i: int|
                0 <= i < self@.items.len() && (#[trigger] self@.items[i]).id == id
                    && self@.items[i].members.contains(who),
    {
        match self.line_items.position(id) {
            Some(i) => self.line_items.get(i).has_participant(who),
            None => false,
        }
    }
}

impl Clone for SplitItem {
    fn clone(&self) -> (r: SplitItem)
        ensures
            r@ == self@,
    {
        SplitItem {
            id: self.id,
            event_name: self.event_name.clone(),
            total_price: self.total_price,
            total_tax: self.total_tax,
            participants: self.participants.clone(),
            line_items: self.line_items.clone(),
            final_split: self.final_split.clone(),
            summary_text: self.summary_text.clone(),
        }
    }
}

} // verus!
