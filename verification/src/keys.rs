//! Where the keys of participants, line items and ledgers come from.
//!
//! A key is a number of 128 bits. A new one is drawn at random; should it be
//! taken in the registry that it is meant for, the search goes on from there,
//! key by key, to the first that is free.

use uuid::Uuid;
use vstd::prelude::*;
use vstd::seq_lib::seq_to_set_is_finite;

verus! {

/// Calls `Uuid::new_v4` and hands back the 128 bits of what it made.
///
/// Trusted, and nothing is claimed: the value is drawn at random, so two
/// calls may give any two keys, equal ones included. The call ends the
/// program where the system has no random bytes to give.
#[verifier::external_body]
pub(crate) fn random_key() -> u128 {
    Uuid::new_v4().as_u128()
}

/// The key `steps` after `start`, where zero comes after the largest key.
pub open spec fn key_after(start: u128, steps: int) -> u128 {
    ((start + steps) % (u128::MAX + 1)) as u128
}

/// Whether `key` is the first key from `start` on that is not among `taken`.
pub open spec fn first_free(taken: Seq<u128>, start: u128, key: u128) -> bool {
    exists|steps: int|
        0 <= steps && key == key_after(start, steps) && !taken.contains(key) && forall|j: int|
            0 <= j < steps ==> taken.contains(#[trigger] key_after(start, j))
}

/// Where the `tries` keys from `start` on are all among finitely many taken
/// keys, there are at least `tries` of those.
pub proof fn lemma_keys_in_a_row(taken: Set<u128>, start: u128, tries: int)
    requires
        taken.finite(),
        0 <= tries <= 0x1_0000_0000_0000_0000,
        forall|j: int| 0 <= j < tries ==> taken.contains(#[trigger] key_after(start, j)),
    ensures
        tries <= taken.len(),
    decreases tries,
{
    if tries > 0 {
        let last = key_after(start, tries - 1);
        let rest = taken.remove(last);
        assert forall|j: int| 0 <= j < tries - 1 implies rest.contains(
            #[trigger] key_after(start, j),
        ) by {
            assert(taken.contains(key_after(start, j)));
            assert(key_after(start, j) != last);
        }
        lemma_keys_in_a_row(rest, start, tries - 1);
    }
}

/// Where the `tries` keys from `start` on are all among `taken`, there are
/// at least `tries` taken keys.
pub proof fn lemma_taken_in_a_row(taken: Seq<u128>, start: u128, tries: int)
    requires
        0 <= tries <= 0x1_0000_0000_0000_0000,
        forall|j: int| 0 <= j < tries ==> taken.contains(#[trigger] key_after(start, j)),
    ensures
        tries <= taken.len(),
{
    seq_to_set_is_finite(taken);
    taken.lemma_cardinality_of_set();
    lemma_keys_in_a_row(taken.to_set(), start, tries);
}

/// The first key from `start` on for which `taken` has no entry.
pub fn first_free_key(taken: &Vec<u128>, start: u128) -> (r: u128)
    ensures
        first_free(taken@, start, r),
{
    let n = taken.len();
    let mut candidate = start;
    let mut tries: usize = 0;
    while contains_key(taken, candidate)
        invariant
            n == taken@.len(),
            candidate == key_after(start, tries as int),
            forall|j: int| 0 <= j < tries ==> taken@.contains(#[trigger] key_after(start, j)),
            tries <= n,
        decreases n - tries,
    {
        proof {
            lemma_taken_in_a_row(taken@, start, tries + 1);
        }
        candidate = candidate.wrapping_add(1);
        tries = tries + 1;
    }
    candidate
}

/// Whether `key` is one of `keys`.
pub fn contains_key(keys: &Vec<u128>, key: u128) -> (r: bool)
    ensures
        r == keys@.contains(key),
{
    let n = keys.len();
    let mut i: usize = 0;
    while i < n
        invariant
            n == keys@.len(),
            i <= n,
            forall|j: int| 0 <= j < i ==> keys@[j] != key,
        decreases n - i,
    {
        if keys[i] == key {
            return true;
        }
        i = i + 1;
    }
    false
}

} // verus!
