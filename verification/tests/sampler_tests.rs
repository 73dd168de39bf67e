use std::collections::HashSet;

use randomizer::artist::check_consecutive_tracks_from_same_artist;
use randomizer::budget::PermutationBudget;
use randomizer::fingerprint::get_ordering_hash;
use randomizer::sampler::{
    generate_unique_orderings, get_unique_file_ordering, OrderingError,
};

fn sorted(mut v: Vec<Vec<u8>>) -> Vec<Vec<u8>> {
    v.sort();
    v
}

#[test]
fn same_artist_pair_exhausts_retries() {
    // No ordering of two tracks by one artist can satisfy the adjacency
    // constraint, so the sampler must fail, leaving the history untouched.
    let mut files = vec![b"X - A".to_vec(), b"X - B".to_vec()];
    let mut seen: HashSet<u64> = HashSet::new();
    let r = get_unique_file_ordering(&mut files, &mut seen);
    assert_eq!(r, Err(OrderingError::ExhaustedRetries));
    assert!(seen.is_empty());
    // The tracks themselves are still all there.
    assert_eq!(
        sorted(files),
        vec![b"X - A".to_vec(), b"X - B".to_vec()]
    );
}

#[test]
fn same_stem_pair_exhausts_retries() {
    // Two files differing only in their extension are one artist: their
    // keys come from the stem, so no acceptable ordering exists.
    let mut files = vec![b"NoSeparator.mp3".to_vec(), b"NoSeparator.flac".to_vec()];
    let mut seen: HashSet<u64> = HashSet::new();
    let r = get_unique_file_ordering(&mut files, &mut seen);
    assert_eq!(r, Err(OrderingError::ExhaustedRetries));
    assert!(seen.is_empty());
}

#[test]
fn distinct_artists_terminate_and_accumulate_history() {
    let mut files = vec![b"A - 1".to_vec(), b"B - 1".to_vec(), b"C - 1".to_vec()];
    let original = sorted(files.clone());
    let mut seen: HashSet<u64> = HashSet::new();
    let mut hashes = Vec::new();
    for produced in 1..=3usize {
        let r = get_unique_file_ordering(&mut files, &mut seen);
        assert_eq!(r, Ok(()));
        // The history grows by exactly one entry per acceptance.
        assert_eq!(seen.len(), produced);
        assert!(!check_consecutive_tracks_from_same_artist(&files));
        assert_eq!(sorted(files.clone()), original);
        hashes.push(get_ordering_hash(&files));
    }
    // All accepted orderings are pairwise distinct.
    assert_ne!(hashes[0], hashes[1]);
    assert_ne!(hashes[0], hashes[2]);
    assert_ne!(hashes[1], hashes[2]);
}

#[test]
fn single_track_succeeds_once_then_exhausts() {
    let mut files = vec![b"Only - Track".to_vec()];
    let mut seen: HashSet<u64> = HashSet::new();
    assert_eq!(get_unique_file_ordering(&mut files, &mut seen), Ok(()));
    assert_eq!(seen.len(), 1);
    // The one possible ordering has been used up.
    assert_eq!(
        get_unique_file_ordering(&mut files, &mut seen),
        Err(OrderingError::ExhaustedRetries)
    );
    assert_eq!(seen.len(), 1);
}

#[test]
fn run_produces_budgeted_valid_distinct_orderings() {
    // Three tracks, two of them by one artist; ask for two orderings.
    let mut files = vec![b"B - T1".to_vec(), b"A - T1".to_vec(), b"A - T2".to_vec()];
    let original = sorted(files.clone());

    let budget = PermutationBudget::compute(files.len(), 2);
    assert_eq!(budget.effective_count, 2);
    assert!(!budget.was_truncated);

    let orderings = generate_unique_orderings(&mut files, 2).unwrap();
    assert_eq!(orderings.len(), 2);
    for ordering in &orderings {
        // No two adjacent tracks share an artist key; in particular the
        // two tracks of artist A never land next to each other.
        assert!(!check_consecutive_tracks_from_same_artist(ordering));
        assert_eq!(sorted(ordering.clone()), original);
    }
    assert_ne!(
        get_ordering_hash(&orderings[0]),
        get_ordering_hash(&orderings[1])
    );
}

#[test]
fn run_caps_ordering_count_for_tiny_sets() {
    let mut files = vec![b"Solo".to_vec()];
    let orderings = generate_unique_orderings(&mut files, 5).unwrap();
    assert_eq!(orderings.len(), 1);
    assert_eq!(orderings[0], vec![b"Solo".to_vec()]);
}

#[test]
fn requesting_nothing_yields_an_empty_run() {
    let mut files = vec![b"X - A".to_vec(), b"X - B".to_vec()];
    // Even over an unorderable set, a request for zero orderings succeeds.
    let orderings = generate_unique_orderings(&mut files, 0).unwrap();
    assert!(orderings.is_empty());
}

#[test]
fn run_fails_when_the_space_is_drained() {
    let mut files = vec![b"X - A".to_vec(), b"X - B".to_vec()];
    let r = generate_unique_orderings(&mut files, 1);
    assert_eq!(r, Err(OrderingError::ExhaustedRetries));
}

#[test]
fn fingerprint_is_order_sensitive() {
    let ab = vec![b"A - 1".to_vec(), b"B - 1".to_vec()];
    let ba = vec![b"B - 1".to_vec(), b"A - 1".to_vec()];
    assert_eq!(get_ordering_hash(&ab), get_ordering_hash(&ab.clone()));
    assert_ne!(get_ordering_hash(&ab), get_ordering_hash(&ba));
}
