//! Participants and their registry.

use crate::error::SplitError;
use crate::keys::random_key;
use crate::seqs::lemma_filter_drops_one;
use crate::seqs::lemma_filter_keeps_all;
use crate::seqs::lemma_filter_members;
use crate::text::blank;
use crate::text::is_blank;
use vstd::prelude::*;

verus! {

/// What a participant is, as plain values.
pub struct ParticipantView {
    pub id: u128,
    pub name: Seq<char>,
    pub payer: bool,
    pub settled: bool,
}

/// A person sharing the bill.
#[derive(Debug)]
pub struct Participant {
    id: u128,
    name: String,
    payer: bool,
    settle_status: bool,
}

impl View for Participant {
    type V = ParticipantView;

    closed spec fn view(&self) -> ParticipantView {
        ParticipantView {
            id: self.id,
            name: self.name@,
            payer: self.payer,
            settled: self.settle_status,
        }
    }
}

impl Participant {
    /// A participant under the key `id`, neither payer nor settled.
    pub fn with_id(id: u128, name: String) -> (r: Participant)
        ensures
            r@ == (ParticipantView { id, name: name@, payer: false, settled: false }),
    {
        Participant { id, name, payer: false, settle_status: false }
    }

    /// A participant under a key drawn at random, neither payer nor settled.
    pub fn new(name: String) -> (r: Participant)
        ensures
            r@ == (ParticipantView { id: r@.id, name: name@, payer: false, settled: false }),
    {
        Participant::with_id(random_key(), name)
    }

    /// The participant's key.
    pub fn id(&self) -> (r: u128)
        ensures
            r == self@.id,
    {
        self.id
    }

    /// The participant's name.
    pub fn name(&self) -> (r: &String)
        ensures
            r@ == self@.name,
    {
        &self.name
    }

    /// Whether the participant fronted the payment.
    pub fn is_payer(&self) -> (r: bool)
        ensures
            r == self@.payer,
    {
        self.payer
    }

    /// Whether the participant has settled.
    pub fn is_settled(&self) -> (r: bool)
        ensures
            r == self@.settled,
    {
        self.settle_status
    }

    /// Gives the participant another name.
    pub fn update_name(&mut self, new_name: String)
        ensures
            final(self)@ == (ParticipantView { name: new_name@, ..old(self)@ }),
    {
        self.name = new_name;
    }

    /// Makes a payer of one who is not, and the other way round.
    pub fn mark_as_payer(&mut self)
        ensures
            final(self)@ == (ParticipantView { payer: !old(self)@.payer, ..old(self)@ }),
    {
        self.payer = !self.payer;
    }

    /// Records that the participant has settled. Says whether that was news:
    /// `false` where the participant had settled already.
    pub fn mark_as_paid(&mut self) -> (changed: bool)
        ensures
            final(self)@ == (ParticipantView { settled: true, ..old(self)@ }),
            changed == !old(self)@.settled,
    {
        let changed = !self.settle_status;
        self.settle_status = true;
        changed
    }

    /// Records that the participant has not settled. Says whether that was
    /// news: `false` where the participant had not settled before either.
    pub fn mark_as_unpaid(&mut self) -> (changed: bool)
        ensures
            final(self)@ == (ParticipantView { settled: false, ..old(self)@ }),
            changed == old(self)@.settled,
    {
        let changed = self.settle_status;
        self.settle_status = false;
        changed
    }
}

impl Clone for Participant {
    fn clone(&self) -> (r: Participant)
        ensures
            r@ == self@,
    {
        Participant {
            id: self.id,
            name: self.name.clone(),
            payer: self.payer,
            settle_status: self.settle_status,
        }
    }
}

/// What the participants `ps` are, as plain values.
pub open spec fn participant_views(ps: Seq<Participant>) -> Seq<ParticipantView> {
    ps.map_values(|p: Participant| p@)
}

/// Whether one of `ps` has the key `id`.
pub open spec fn has_key(ps: Seq<ParticipantView>, id: u128) -> bool {
    exists|i: int| 0 <= i < ps.len() && (#[trigger] ps[i]).id == id
}

/// The keys of `ps`, in their order.
pub open spec fn keys_of(ps: Seq<ParticipantView>) -> Seq<u128> {
    ps.map_values(|p: ParticipantView| p.id)
}

/// Whether no two of `ps` share a key.
pub open spec fn distinct_keys(ps: Seq<ParticipantView>) -> bool {
    forall|i: int, j: int|
        0 <= i < j < ps.len() ==> (#[trigger] ps[i]).id != (#[trigger] ps[j]).id
}

/// Whether at most one of `ps` is marked as payer.
pub open spec fn at_most_one_payer(ps: Seq<ParticipantView>) -> bool {
    forall|i: int, j: int|
        0 <= i < ps.len() && 0 <= j < ps.len() && (#[trigger] ps[i]).payer && (
        #[trigger] ps[j]).payer ==> i == j
}

/// What a registry must hold at all times.
pub open spec fn valid_participants(ps: Seq<ParticipantView>) -> bool {
    distinct_keys(ps) && at_most_one_payer(ps)
}

/// `ps` with nobody marked as payer.
pub open spec fn without_payer(ps: Seq<ParticipantView>) -> Seq<ParticipantView> {
    ps.map_values(|q: ParticipantView| ParticipantView { payer: false, ..q })
}

/// `ps` after `p` has joined: a payer who joins takes the mark from whoever
/// had it.
pub open spec fn joined(ps: Seq<ParticipantView>, p: ParticipantView) -> Seq<ParticipantView> {
    if p.payer {
        without_payer(ps).push(p)
    } else {
        ps.push(p)
    }
}

/// The test that every participant passes but the one under the key `id`.
pub open spec fn other_than(id: u128) -> spec_fn(ParticipantView) -> bool {
    |q: ParticipantView| q.id != id
}

/// `ps` without the participant under the key `id`.
pub open spec fn without_key(ps: Seq<ParticipantView>, id: u128) -> Seq<ParticipantView> {
    ps.filter(other_than(id))
}

/// `ps` with the participant under `id` renamed.
pub open spec fn renamed(ps: Seq<ParticipantView>, id: u128, name: Seq<char>) -> Seq<
    ParticipantView,
> {
    ps.map_values(
        |q: ParticipantView|
            if q.id == id {
                ParticipantView { name, ..q }
            } else {
                q
            },
    )
}

/// `ps` with the payer mark taken from everybody but the participant under
/// `id`.
pub open spec fn only_payer(ps: Seq<ParticipantView>, id: u128) -> Seq<ParticipantView> {
    ps.map_values(|q: ParticipantView| ParticipantView { payer: q.payer && q.id == id, ..q })
}

/// Whether the participant under `id` is one of `ps` and marked as payer.
pub open spec fn is_payer_key(ps: Seq<ParticipantView>, id: u128) -> bool {
    exists|i: int| 0 <= i < ps.len() && (#[trigger] ps[i]).id == id && ps[i].payer
}

/// `ps` after the payer mark of the participant under `id` was toggled. One
/// who was payer loses the mark and nobody gets it. One who was not becomes
/// the only payer. A key that nobody has changes nothing.
pub open spec fn payer_toggled(ps: Seq<ParticipantView>, id: u128) -> Seq<ParticipantView> {
    if is_payer_key(ps, id) {
        ps.map_values(
            |q: ParticipantView|
                if q.id == id {
                    ParticipantView { payer: false, ..q }
                } else {
                    q
                },
        )
    } else if has_key(ps, id) {
        ps.map_values(|q: ParticipantView| ParticipantView { payer: q.id == id, ..q })
    } else {
        ps
    }
}

/// `ps` with the participant under `id` marked as settled or not.
pub open spec fn settled_as(ps: Seq<ParticipantView>, id: u128, settled: bool) -> Seq<
    ParticipantView,
> {
    ps.map_values(
        |q: ParticipantView|
            if q.id == id {
                ParticipantView { settled, ..q }
            } else {
                q
            },
    )
}

/// `ps` with the settled mark of the participant under `id` flipped.
pub open spec fn settled_toggled(ps: Seq<ParticipantView>, id: u128) -> Seq<ParticipantView> {
    ps.map_values(
        |q: ParticipantView|
            if q.id == id {
                ParticipantView { settled: !q.settled, ..q }
            } else {
                q
            },
    )
}

/// After a participant has been appended, the keys that are taken are those
/// taken before and the newcomer's.
pub proof fn lemma_has_key_push(ps: Seq<ParticipantView>, p: ParticipantView)
    ensures
        forall|k: u128| has_key(ps.push(p), k) <==> has_key(ps, k) || k == p.id,
{
    let more = ps.push(p);
    assert forall|k: u128| has_key(more, k) <==> has_key(ps, k) || k == p.id by {
        if has_key(ps, k) {
            let i = choose|i: int| 0 <= i < ps.len() && (#[trigger] ps[i]).id == k;
            assert(more[i].id == k);
        }
        if k == p.id {
            assert(more[ps.len() as int].id == k);
        }
        if has_key(more, k) {
            let i = choose|i: int| 0 <= i < more.len() && (#[trigger] more[i]).id == k;
            if i < ps.len() {
                assert(ps[i].id == k);
            }
        }
    }
}

/// The keys that participants have are the keys of the registry.
pub proof fn lemma_keys_of(ps: Seq<ParticipantView>)
    ensures
        forall|k: u128| has_key(ps, k) <==> keys_of(ps).contains(k),
{
    assert forall|k: u128| has_key(ps, k) <==> keys_of(ps).contains(k) by {
        if has_key(ps, k) {
            let i = choose|i: int| 0 <= i < ps.len() && (#[trigger] ps[i]).id == k;
            assert(keys_of(ps)[i] == k);
        }
        if keys_of(ps).contains(k) {
            let i = choose|i: int| 0 <= i < keys_of(ps).len() && keys_of(ps)[i] == k;
            assert(ps[i].id == k);
        }
    }
}

/// The participant under `id` is among those left after another key was
/// removed, and nobody else is.
pub proof fn lemma_without_key(ps: Seq<ParticipantView>, id: u128)
    ensures
        forall|k: u128| has_key(without_key(ps, id), k) <==> has_key(ps, k) && k != id,
{
    lemma_filter_members(ps, other_than(id));
    let rest = without_key(ps, id);
    assert forall|k: u128| has_key(rest, k) <==> has_key(ps, k) && k != id by {
        if has_key(rest, k) {
            let j = choose|j: int| 0 <= j < rest.len() && (#[trigger] rest[j]).id == k;
            assert(rest.contains(rest[j]));
            assert(ps.contains(rest[j]));
            let i = choose|i: int| 0 <= i < ps.len() && ps[i] == rest[j];
            assert(ps[i].id == k);
        }
        if has_key(ps, k) && k != id {
            let i = choose|i: int| 0 <= i < ps.len() && (#[trigger] ps[i]).id == k;
            assert(ps.contains(ps[i]));
            assert(rest.contains(ps[i]));
            let j = choose|j: int| 0 <= j < rest.len() && rest[j] == ps[i];
            assert(rest[j].id == k);
        }
    }
}

/// The participants of a bill, in the order in which they were added. No two
/// share a key, and at most one is the payer.
#[derive(Debug)]
pub struct Participants(Vec<Participant>);

impl View for Participants {
    type V = Seq<ParticipantView>;

    closed spec fn view(&self) -> Seq<ParticipantView> {
        participant_views(self.0@)
    }
}

impl Participants {
    /// Whether the registry is in order.
    pub open spec fn wf(&self) -> bool {
        valid_participants(self@)
    }

    /// A registry without participants.
    pub fn new() -> (r: Participants)
        ensures
            r@ == Seq::<ParticipantView>::empty(),
            r.wf(),
    {
        let r = Participants(Vec::new());
        assert(r@ =~= Seq::<ParticipantView>::empty());
        r
    }

    /// How many participants there are.
    pub fn len(&self) -> (r: usize)
        ensures
            r == self@.len(),
    {
        self.0.len()
    }

    /// The participant at place `i`.
    pub fn get(&self, i: usize) -> (r: &Participant)
        requires
            i < self@.len(),
        ensures
            r@ == self@[i as int],
    {
        &self.0[i]
    }

    /// The keys of the participants, in their order.
    pub fn keys(&self) -> (r: Vec<u128>)
        ensures
            r@ == keys_of(self@),
    {
        let mut out: Vec<u128> = Vec::new();
        let n = self.0.len();
        let mut i: usize = 0;
        while i < n
            invariant
                n == self.0@.len(),
                i <= n,
                out@.len() == i,
                forall|j: int| 0 <= j < i ==> out@[j] == (#[trigger] self.0@[j])@.id,
            decreases n - i,
        {
            out.push(self.0[i].id);
            i = i + 1;
        }
        assert(out@ =~= keys_of(self@));
        out
    }

    /// The first place at which a participant has the key `id`.
    pub fn position(&self, id: u128) -> (r: Option<usize>)
        ensures
            match r {
                Some(i) => i < self@.len() && self@[i as int].id == id && forall|j: int|
                    0 <= j < i ==> (#[trigger] self@[j]).id != id,
                None => !has_key(self@, id),
            },
    {
        let n = self.0.len();
        let mut i: usize = 0;
        while i < n
            invariant
                n == self.0@.len(),
                n == self@.len(),
                i <= n,
                forall|j: int| 0 <= j < i ==> (#[trigger] self@[j]).id != id,
            decreases n - i,
        {
            if self.0[i].id == id {
                return Some(i);
            }
            i = i + 1;
        }
        None
    }

    /// Whether a participant has the key `id`.
    pub fn contains(&self, id: u128) -> (r: bool)
        ensures
            r == has_key(self@, id),
    {
        self.position(id).is_some()
    }

    /// Takes the payer mark from every participant.
    fn clear_payers(&mut self)
        ensures
            final(self)@ == without_payer(old(self)@),
    {
        let n = self.0.len();
        let mut i: usize = 0;
        while i < n
            invariant
                n == self.0@.len(),
                n == old(self).0@.len(),
                i <= n,
                forall|j: int|
                    0 <= j < i ==> (#[trigger] self.0@[j])@ == (ParticipantView {
                        payer: false,
                        ..old(self).0@[j]@
                    }),
                forall|j: int| i <= j < n ==> #[trigger] self.0@[j] == old(self).0@[j],
            decreases n - i,
        {
            if self.0[i].payer {
                self.0[i].mark_as_payer();
            }
            i = i + 1;
        }
        assert(self@ =~= without_payer(old(self)@));
    }

    /// Puts a participant at the end, whatever the name. One whose key is
    /// taken is turned down. A payer who is put in takes the mark from
    /// whoever had it.
    pub(crate) fn restore(&mut self, participant: Participant) -> (r: Result<(), SplitError>)
        requires
            old(self).wf(),
        ensures
            final(self).wf(),
            r == if has_key(old(self)@, participant@.id) {
                Err::<(), SplitError>(SplitError::DuplicateKey)
            } else {
                Ok(())
            },
            final(self)@ == if r is Ok {
                joined(old(self)@, participant@)
            } else {
                old(self)@
            },
    {
        if self.contains(participant.id) {
            return Err(SplitError::DuplicateKey);
        }
        if participant.payer {
            self.clear_payers();
        }
        let ghost before = self@;
        self.0.push(participant);
        assert(self@ =~= before.push(participant@));
        Ok(())
    }

    /// Adds a participant at the end. One with a blank name is turned down,
    /// and so is one whose key is taken. A payer who is added takes the mark
    /// from whoever had it.
    pub fn add(&mut self, participant: Participant) -> (r: Result<(), SplitError>)
        requires
            old(self).wf(),
        ensures
            final(self).wf(),
            r == if is_blank(participant@.name) {
                Err::<(), SplitError>(SplitError::EmptyName)
            } else if has_key(old(self)@, participant@.id) {
                Err(SplitError::DuplicateKey)
            } else {
                Ok(())
            },
            final(self)@ == if r is Ok {
                joined(old(self)@, participant@)
            } else {
                old(self)@
            },
    {
        if blank(participant.name.as_str()) {
            return Err(SplitError::EmptyName);
        }
        self.restore(participant)
    }

    /// Removes the participant under the key `id`, if there is one.
    pub fn remove(&mut self, id: u128)
        requires
            old(self).wf(),
        ensures
            final(self).wf(),
            final(self)@ == without_key(old(self)@, id),
    {
        match self.position(id) {
            Some(i) => {
                let _ = self.0.remove(i);
                proof {
                    lemma_filter_drops_one(old(self)@, other_than(id), i as int);
                    assert(self@ =~= old(self)@.remove(i as int));
                }
            },
            None => {
                proof {
                    lemma_filter_keeps_all(old(self)@, other_than(id));
                }
            },
        }
    }

    /// Gives the participant under the key `id` another name. A key that
    /// nobody has changes nothing.
    pub fn rename(&mut self, id: u128, new_name: String)
        requires
            old(self).wf(),
        ensures
            final(self).wf(),
            final(self)@ == renamed(old(self)@, id, new_name@),
    {
        match self.position(id) {
            Some(i) => {
                self.0[i].update_name(new_name);
            },
            None => {},
        }
        assert(self@ =~= renamed(old(self)@, id, new_name@));
    }

    /// Takes the payer mark from everybody but the participant under `id`.
    pub fn mark_only_one_payer(&mut self, id: u128)
        requires
            old(self).wf(),
        ensures
            final(self).wf(),
            final(self)@ == only_payer(old(self)@, id),
    {
        let n = self.0.len();
        let mut i: usize = 0;
        while i < n
            invariant
                n == self.0@.len(),
                n == old(self).0@.len(),
                i <= n,
                forall|j: int|
                    0 <= j < i ==> (#[trigger] self.0@[j])@ == (ParticipantView {
                        payer: old(self).0@[j]@.payer && old(self).0@[j]@.id == id,
                        ..old(self).0@[j]@
                    }),
                forall|j: int| i <= j < n ==> #[trigger] self.0@[j] == old(self).0@[j],
            decreases n - i,
        {
            if self.0[i].id != id && self.0[i].payer {
                self.0[i].mark_as_payer();
            }
            i = i + 1;
        }
        assert(self@ =~= only_payer(old(self)@, id));
    }

    /// Toggles the payer mark of the participant under `id`. One who was
    /// payer loses the mark; one who was not becomes the only payer.
    pub fn toggle_payer(&mut self, id: u128)
        requires
            old(self).wf(),
        ensures
            final(self).wf(),
            final(self)@ == payer_toggled(old(self)@, id),
    {
        match self.position(id) {
            Some(i) => {
                if self.0[i].payer {
                    self.0[i].mark_as_payer();
                    assert(is_payer_key(old(self)@, id));
                    assert(self@ =~= payer_toggled(old(self)@, id));
                } else {
                    self.clear_payers();
                    assert(self@.len() == self.0@.len());
                    let ghost cleared = self.0@;
                    assert(forall|j: int|
                        0 <= j < cleared.len() ==> (#[trigger] cleared[j])@ == without_payer(
                            old(self)@,
                        )[j]) by {
                        assert(self@ == without_payer(old(self)@));
                        assert forall|j: int| 0 <= j < cleared.len() implies (
                        #[trigger] cleared[j])@ == without_payer(old(self)@)[j] by {
                            assert(self@[j] == cleared[j]@);
                        }
                    }
                    self.0[i].mark_as_payer();
                    assert(forall|j: int|
                        0 <= j < cleared.len() && j != i ==> self.0@[j] == cleared[j]);
                    assert(has_key(old(self)@, id));
                    assert(!is_payer_key(old(self)@, id)) by {
                        if is_payer_key(old(self)@, id) {
                            let j = choose|j: int|
                                0 <= j < old(self)@.len() && (#[trigger] old(self)@[j]).id == id
                                    && old(self)@[j].payer;
                            assert(old(self)@[i as int].id == old(self)@[j].id);
                        }
                    }
                    assert forall|j: int| 0 <= j < self@.len() implies self@[j] == payer_toggled(
                        old(self)@,
                        id,
                    )[j] by {
                        assert(old(self)@[i as int].id == id);
                        if j != i {
                            assert(old(self)@[j].id != old(self)@[i as int].id);
                        }
                    }
                    assert(self@ =~= payer_toggled(old(self)@, id));
                }
            },
            None => {},
        }
    }

    /// Marks the participant under `id` as settled or not. Says whether that
    /// changed anything: `false` where the mark stood already, or nobody has
    /// the key.
    pub fn set_settled(&mut self, id: u128, settled: bool) -> (changed: bool)
        requires
            old(self).wf(),
        ensures
            final(self).wf(),
            final(self)@ == settled_as(old(self)@, id, settled),
            changed == (final(self)@ != old(self)@),
    {
        let changed = match self.position(id) {
            Some(i) => {
                if settled {
                    self.0[i].mark_as_paid()
                } else {
                    self.0[i].mark_as_unpaid()
                }
            },
            None => false,
        };
        assert(self@ =~= settled_as(old(self)@, id, settled));
        assert(!changed ==> self@ =~= old(self)@);
        changed
    }

    /// Flips the settled mark of the participant under `id`.
    pub fn toggle_settled(&mut self, id: u128)
        requires
            old(self).wf(),
        ensures
            final(self).wf(),
            final(self)@ == settled_toggled(old(self)@, id),
    {
        match self.position(id) {
            Some(i) => {
                if self.0[i].settle_status {
                    self.0[i].mark_as_unpaid();
                } else {
                    self.0[i].mark_as_paid();
                }
            },
            None => {},
        }
        assert(self@ =~= settled_toggled(old(self)@, id));
    }
}

impl Clone for Participants {
    fn clone(&self) -> (r: Participants)
        ensures
            r@ == self@,
    {
        let mut out: Vec<Participant> = Vec::new();
        let n = self.0.len();
        let mut i: usize = 0;
        while i < n
            invariant
                n == self.0@.len(),
                i <= n,
                out@.len() == i,
                forall|j: int| 0 <= j < i ==> (#[trigger] out@[j])@ == self.0@[j]@,
            decreases n - i,
        {
            out.push(self.0[i].clone());
            i = i + 1;
        }
        let r = Participants(out);
        assert(r@ =~= self@);
        r
    }
}

} // verus!
