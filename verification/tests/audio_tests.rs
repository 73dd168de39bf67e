use randomizer::audio::is_audio_file;

#[test]
fn supported_extensions_are_recognized() {
    assert!(is_audio_file(b"track.aif"));
    assert!(is_audio_file(b"track.aiff"));
    assert!(is_audio_file(b"track.flac"));
    assert!(is_audio_file(b"track.mp3"));
    assert!(is_audio_file(b"track.m4a"));
    assert!(is_audio_file(b"track.wav"));
}

#[test]
fn extension_case_is_ignored() {
    assert!(is_audio_file(b"track.MP3"));
    assert!(is_audio_file(b"track.Flac"));
    assert!(is_audio_file(b"track.WaV"));
}

#[test]
fn other_files_are_rejected() {
    assert!(!is_audio_file(b"notes.txt"));
    assert!(!is_audio_file(b"track.ogg"));
    assert!(!is_audio_file(b"archive.tar.gz"));
    assert!(!is_audio_file(b"noextension"));
    assert!(!is_audio_file(b""));
}

#[test]
fn hidden_and_dotted_names() {
    // A name that is nothing but a leading dot has no extension.
    assert!(!is_audio_file(b".flac"));
    // But a later dot still counts.
    assert!(is_audio_file(b".hidden.flac"));
    // A trailing dot is an empty extension.
    assert!(!is_audio_file(b"track."));
}

#[test]
fn only_the_last_dot_counts() {
    assert!(is_audio_file(b"A - Song.v2.mp3"));
    assert!(!is_audio_file(b"A - Song.mp3.bak"));
}
