use randomizer::artist::{artist_key_of, check_consecutive_tracks_from_same_artist, same_artist};

#[test]
fn artist_key_is_prefix_before_separator() {
    assert_eq!(artist_key_of(b"A - Song1"), b"A".to_vec());
    assert_eq!(artist_key_of(b"A - Song2"), b"A".to_vec());
    assert!(same_artist(b"A - Song1", b"A - Song2"));
}

#[test]
fn artist_key_without_separator_is_whole_name() {
    assert_eq!(artist_key_of(b"NoSeparator"), b"NoSeparator".to_vec());
}

#[test]
fn artist_key_uses_first_separator_only() {
    assert_eq!(artist_key_of(b"A - B - C"), b"A".to_vec());
}

#[test]
fn artist_key_is_derived_from_the_stem() {
    // The extension is stripped before the key is derived.
    assert_eq!(artist_key_of(b"NoSeparator.mp3"), b"NoSeparator".to_vec());
    assert_eq!(artist_key_of(b"A - Song.mp3"), b"A".to_vec());
    // Two names that differ only in their extension share a key.
    assert!(same_artist(b"X.mp3", b"X.wav"));
    assert!(same_artist(b"NoSeparator.mp3", b"NoSeparator.flac"));
    // Only the last dot separates the extension.
    assert_eq!(artist_key_of(b"A.B - Song.mp3"), b"A.B".to_vec());
    // A name that is nothing but a leading dot has no extension to strip.
    assert_eq!(artist_key_of(b".hidden"), b".hidden".to_vec());
}

#[test]
fn adjacent_same_stem_tracks_are_detected() {
    let tracks = vec![b"NoSeparator.mp3".to_vec(), b"NoSeparator.flac".to_vec()];
    assert!(check_consecutive_tracks_from_same_artist(&tracks));

    let tracks = vec![b"X.mp3".to_vec(), b"X.wav".to_vec()];
    assert!(check_consecutive_tracks_from_same_artist(&tracks));

    let tracks = vec![b"X.mp3".to_vec(), b"Y.mp3".to_vec()];
    assert!(!check_consecutive_tracks_from_same_artist(&tracks));
}

#[test]
fn artist_key_edge_cases() {
    // A separator at the very start yields an empty key.
    assert_eq!(artist_key_of(b" - Song"), b"".to_vec());
    // A lone dash without surrounding spaces is no separator.
    assert_eq!(artist_key_of(b"A-B"), b"A-B".to_vec());
    assert_eq!(artist_key_of(b""), b"".to_vec());
    // Keys are compared exactly, case included.
    assert!(!same_artist(b"a - Song", b"A - Song"));
}

#[test]
fn adjacent_tracks_of_same_artist_are_detected() {
    let tracks = vec![b"B - T1".to_vec(), b"A - T1".to_vec(), b"A - T2".to_vec()];
    assert!(check_consecutive_tracks_from_same_artist(&tracks));

    let tracks = vec![b"A - T1".to_vec(), b"B - T1".to_vec(), b"A - T2".to_vec()];
    assert!(!check_consecutive_tracks_from_same_artist(&tracks));
}

#[test]
fn short_orderings_have_no_adjacent_pair() {
    assert!(!check_consecutive_tracks_from_same_artist(&[]));
    assert!(!check_consecutive_tracks_from_same_artist(&[b"A - T1".to_vec()]));
}
