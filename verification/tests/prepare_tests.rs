use randomizer::prepare::prepare_track_list;

#[test]
fn audio_files_are_kept_sorted_and_deduplicated() {
    let tracks = vec![
        b"b.mp3".to_vec(),
        b"a.mp3".to_vec(),
        b"b.mp3".to_vec(),
        b"notes.txt".to_vec(),
        b"c.flac".to_vec(),
    ];
    let prepared = prepare_track_list(tracks);
    assert_eq!(
        prepared,
        vec![b"a.mp3".to_vec(), b"b.mp3".to_vec(), b"c.flac".to_vec()]
    );
}

#[test]
fn non_audio_input_yields_empty_list() {
    let tracks = vec![b"readme.md".to_vec(), b"cover.png".to_vec()];
    let prepared = prepare_track_list(tracks);
    assert!(prepared.is_empty());
    assert!(prepare_track_list(Vec::new()).is_empty());
}

#[test]
fn order_of_discovery_does_not_matter() {
    let a = prepare_track_list(vec![b"x.wav".to_vec(), b"y.wav".to_vec()]);
    let b = prepare_track_list(vec![b"y.wav".to_vec(), b"x.wav".to_vec()]);
    assert_eq!(a, b);
}
