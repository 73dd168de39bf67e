//! Fingerprints of track orderings.
//!
//! A fingerprint is a deterministic, order-sensitive digest of the full
//! sequence of track names. Two orderings with the same fingerprint are
//! treated as identical for uniqueness purposes; the negligible risk of a
//! digest collision is accepted as a spurious "duplicate, retry".

use std::collections::hash_map::DefaultHasher;
use std::hash::Hasher;
use vstd::prelude::*;
use vstd::std_specs::hash::DefaultHasherAdditionalSpecFns;

verus! {

/// Fingerprint of an ordering: the digest of its track names, each taken
/// as one chunk, in order.
pub open spec fn ordering_fingerprint(tracks: Seq<Seq<u8>>) -> u64 {
    DefaultHasher::spec_finish(tracks)
}

/// Deterministic digest of the given track order, used to recognize
/// orderings that a run has already produced.
pub fn get_ordering_hash(files: &Vec<Vec<u8>>) -> (h: u64)
    ensures
        h == ordering_fingerprint(files.deep_view()),
{
    let mut hasher = DefaultHasher::new();
    let mut i: usize = 0;
    while i < files.len()
        invariant
            0 <= i <= files@.len(),
            hasher@ == files.deep_view().take(i as int),
        decreases files@.len() - i,
    {
        hasher.write(files[i].as_slice());
        proof {
            let dv = files.deep_view();
            assert(dv[i as int] =~= files@[i as int]@);
            assert(dv.take(i + 1) =~= dv.take(i as int).push(dv[i as int]));
        }
        i = i + 1;
    }
    proof {
        assert(files.deep_view().take(files@.len() as int) =~= files.deep_view());
    }
    hasher.finish()
}

} // verus!
