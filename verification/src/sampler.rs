//! Sampling of unique, constraint-satisfying random orderings.
//!
//! Each call shuffles the track list in place until the order has no two
//! adjacent tracks with the same artist key and its fingerprint has not
//! been produced before in this run. Retries are bounded by a fixed
//! ceiling; reaching it is the designed, fatal signal that the reachable
//! ordering space has been drained.

use crate::artist::{
    all_same_artist, check_consecutive_tracks_from_same_artist, has_adjacent_same_artist,
    lemma_all_same_has_adjacent, lemma_same_multiset_same_keys, lemma_short_multiset_same_seq,
};
use crate::budget::{spec_effective_count, PermutationBudget};
use crate::fingerprint::{get_ordering_hash, ordering_fingerprint};
use crate::prepare::copy_bytes;
use rand::seq::SliceRandom;
use std::collections::HashSet;
use vstd::prelude::*;

verus! {

/// Maximum number of resample attempts before a run aborts.
pub const RETRY_CEILING: usize = 1000;

/// The errors a run can end with.
#[derive(Clone, Copy, Debug, PartialEq, Eq, Structural)]
pub enum OrderingError {
    /// The retry ceiling was reached without finding an ordering that is
    /// both constraint-valid and previously unseen. Fatal to the run.
    ExhaustedRetries,
}

/// Relies on rand's `SliceRandom::shuffle` with `thread_rng`: a
/// Fisher-Yates shuffle that rearranges the slice in place by swaps, so
/// the new order holds exactly the tracks of the old one. Nothing is
/// assumed about which order comes out.
#[verifier::external_body]
fn shuffle_tracks(files: &mut Vec<Vec<u8>>)
    ensures
        final (files).deep_view().to_multiset() == old(files).deep_view().to_multiset(),
        final (files)@.len() == old(files)@.len(),
{
    files.shuffle(&mut rand::thread_rng());
}

/// Reshuffle `files` until the order satisfies the adjacency constraint
/// and is new for this run, then record its fingerprint in `orderings`.
///
/// On success the tracks are a rearrangement of the old ones, no two
/// adjacent tracks share an artist key, and the order's fingerprint,
/// absent from `orderings` before, is the one entry added to it. After
/// the retry ceiling the run fails with `ExhaustedRetries`, leaving
/// `orderings` unchanged. A set of two or more tracks that all share one
/// artist key is guaranteed to fail; a single track (or none) whose
/// ordering is still unseen is guaranteed to succeed.
pub fn get_unique_file_ordering(files: &mut Vec<Vec<u8>>, orderings: &mut HashSet<u64>) -> (r:
    Result<(), OrderingError>)
    ensures
        final (files).deep_view().to_multiset() == old(files).deep_view().to_multiset(),
        final (files)@.len() == old(files)@.len(),
        r is Ok ==> !has_adjacent_same_artist(final (files).deep_view()),
        r is Ok ==> !old(orderings)@.contains(ordering_fingerprint(final (files).deep_view())),
        r is Ok ==> final (orderings)@ == old(orderings)@.insert(
            ordering_fingerprint(final (files).deep_view()),
        ),
        r is Ok && old(orderings)@.finite() ==> final (orderings)@.len() == old(orderings)@.len()
            + 1,
        r is Err ==> final (orderings)@ == old(orderings)@,
        r is Err ==> r == Err::<(), OrderingError>(OrderingError::ExhaustedRetries),
        old(files)@.len() >= 2 && all_same_artist(old(files).deep_view()) ==> r is Err,
        old(files)@.len() <= 1 && !old(orderings)@.contains(
            ordering_fingerprint(old(files).deep_view()),
        ) ==> r is Ok,
{
    let ghost odv = files.deep_view();
    let ghost orig_ms = odv.to_multiset();
    let ghost orig_len = files@.len();
    let ghost seen0 = orderings@;

    shuffle_tracks(files);
    let mut hash = get_ordering_hash(files);
    let mut tries: usize = 0;
    loop
        invariant
            files.deep_view().to_multiset() == orig_ms,
            files@.len() == orig_len,
            orderings@ == seen0,
            hash == ordering_fingerprint(files.deep_view()),
            tries <= RETRY_CEILING,
            odv == old(files).deep_view(),
            seen0 == old(orderings)@,
            odv.to_multiset() == orig_ms,
            odv.len() == orig_len,
        ensures
            files.deep_view().to_multiset() == orig_ms,
            files@.len() == orig_len,
            orderings@ == seen0,
            hash == ordering_fingerprint(files.deep_view()),
            !has_adjacent_same_artist(files.deep_view()),
            !seen0.contains(hash),
        decreases RETRY_CEILING - tries,
    {
        let bad = check_consecutive_tracks_from_same_artist(files.as_slice());
        let dup = orderings.contains(&hash);
        if !bad && !dup {
            break;
        }
        tries = tries + 1;
        if tries > RETRY_CEILING {
            proof {
                if odv.len() <= 1 && !seen0.contains(ordering_fingerprint(odv)) {
                    lemma_short_multiset_same_seq(odv, files.deep_view());
                    assert(!has_adjacent_same_artist(files.deep_view()));
                    assert(false);
                }
            }
            return Err(OrderingError::ExhaustedRetries);
        }
        shuffle_tracks(files);
        hash = get_ordering_hash(files);
    }
    proof {
        if odv.len() >= 2 && all_same_artist(odv) {
            lemma_same_multiset_same_keys(odv, files.deep_view());
            lemma_all_same_has_adjacent(files.deep_view());
            assert(false);
        }
    }
    orderings.insert(hash);
    Ok(())
}

/// One ordering, copied out of the working buffer.
fn copy_tracks(files: &Vec<Vec<u8>>) -> (r: Vec<Vec<u8>>)
    ensures
        r.deep_view() == files.deep_view(),
{
    let mut r: Vec<Vec<u8>> = Vec::new();
    let mut i: usize = 0;
    while i < files.len()
        invariant
            0 <= i <= files@.len(),
            r.deep_view() == files.deep_view().take(i as int),
        decreases files@.len() - i,
    {
        let t = copy_bytes(files[i].as_slice());
        proof {
            assert(t.deep_view() =~= files.deep_view()[i as int]);
        }
        let ghost prev = r.deep_view();
        r.push(t);
        proof {
            assert(r.deep_view() =~= prev.push(t.deep_view()));
            assert(r.deep_view() =~= files.deep_view().take(i + 1));
        }
        i = i + 1;
    }
    proof {
        assert(files.deep_view().take(files@.len() as int) =~= files.deep_view());
    }
    r
}

/// Produce the run's whole batch of orderings: consult the budget once,
/// then sample one new ordering per slot, accumulating fingerprints so
/// that no ordering repeats within the run.
///
/// On success the batch holds exactly the budgeted number of orderings;
/// each is a rearrangement of the input tracks with no two adjacent
/// tracks sharing an artist key, and the orderings' fingerprints are
/// pairwise distinct. A drained search space surfaces as
/// `ExhaustedRetries`.
pub fn generate_unique_orderings(files: &mut Vec<Vec<u8>>, requested_count: usize) -> (r: Result<
    Vec<Vec<Vec<u8>>>,
    OrderingError,
>)
    requires
        old(files)@.len() >= 1,
    ensures
        final (files).deep_view().to_multiset() == old(files).deep_view().to_multiset(),
        r matches Ok(list) ==> {
            &&& list.deep_view().len() == spec_effective_count(
                old(files)@.len() as nat,
                requested_count as nat,
            )
            &&& forall|i: int|
                0 <= i < list.deep_view().len() ==> (#[trigger] list.deep_view()[i]).to_multiset()
                    == old(files).deep_view().to_multiset()
            &&& forall|i: int|
                0 <= i < list.deep_view().len() ==> !has_adjacent_same_artist(
                    #[trigger] list.deep_view()[i],
                )
            &&& forall|i: int, j: int|
                0 <= i < j < list.deep_view().len() ==> #[trigger] ordering_fingerprint(
                    list.deep_view()[i],
                ) != #[trigger] ordering_fingerprint(list.deep_view()[j])
        },
        r matches Err(e) ==> e == OrderingError::ExhaustedRetries,
        spec_effective_count(old(files)@.len() as nat, requested_count as nat) == 0 ==> r is Ok,
        old(files)@.len() == 1 ==> r is Ok,
{
    let ghost odv = files.deep_view();
    let ghost orig_ms = odv.to_multiset();
    let ghost orig_len = files@.len();

    let budget = PermutationBudget::compute(files.len(), requested_count);
    let count = budget.effective_count;
    let mut seen: HashSet<u64> = HashSet::new();
    let mut out: Vec<Vec<Vec<u8>>> = Vec::new();
    let mut n: usize = 0;
    while n < count
        invariant
            0 <= n <= count,
            out@.len() == n,
            orig_ms == old(files).deep_view().to_multiset(),
            orig_len == old(files)@.len(),
            count == spec_effective_count(orig_len as nat, requested_count as nat),
            files.deep_view().to_multiset() == orig_ms,
            files@.len() == orig_len,
            n == 0 ==> seen@ == Set::<u64>::empty(),
            forall|i: int|
                0 <= i < n ==> (#[trigger] out.deep_view()[i]).to_multiset() == orig_ms,
            forall|i: int|
                0 <= i < n ==> !has_adjacent_same_artist(#[trigger] out.deep_view()[i]),
            forall|i: int|
                0 <= i < n ==> seen@.contains(
                    #[trigger] ordering_fingerprint(out.deep_view()[i]),
                ),
            forall|i: int, j: int|
                0 <= i < j < n ==> #[trigger] ordering_fingerprint(out.deep_view()[i])
                    != #[trigger] ordering_fingerprint(out.deep_view()[j]),
        decreases count - n,
    {
        match get_unique_file_ordering(files, &mut seen) {
            Ok(()) => {
                let copy = copy_tracks(files);
                let ghost prev = out.deep_view();
                out.push(copy);
                proof {
                    assert(out.deep_view() =~= prev.push(copy.deep_view()));
                }
                n = n + 1;
            },
            Err(e) => {
                proof {
                    if orig_len == 1 {
                        assert(crate::budget::factorial(1) == 1) by {
                            reveal_with_fuel(crate::budget::factorial, 2);
                        }
                        assert(count <= 1);
                        assert(n == 0);
                        assert(false);
                    }
                }
                return Err(e);
            },
        }
    }
    Ok(out)
}

} // verus!
