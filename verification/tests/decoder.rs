use grepgrep::decoder::AudioDecoder;

#[test]
fn test_is_supported() {
    assert!(AudioDecoder::is_supported("test.mp3"));
    assert!(AudioDecoder::is_supported("test.FLAC"));
    assert!(AudioDecoder::is_supported("test.wav"));
    assert!(AudioDecoder::is_supported("test.ogg"));
    assert!(!AudioDecoder::is_supported("test.txt"));
}

#[test]
fn supported_formats_cover_aac_and_m4a_in_any_case() {
    assert!(AudioDecoder::is_supported("song.aac"));
    assert!(AudioDecoder::is_supported("song.M4a"));
    assert!(AudioDecoder::is_supported("/music/live.set.Ogg"));
    assert!(!AudioDecoder::is_supported("song.mp4"));
    assert!(!AudioDecoder::is_supported("song.mp33"));
}

#[test]
fn extension_comes_from_the_file_name_only() {
    // A dot that starts the file name does not begin an extension.
    assert!(!AudioDecoder::is_supported(".mp3"));
    assert!(!AudioDecoder::is_supported("dir/.wav"));
    // No file name at all.
    assert!(!AudioDecoder::is_supported(""));
    assert!(!AudioDecoder::is_supported("/"));
    assert!(!AudioDecoder::is_supported("music.mp3/.."));
    // Dots in directories do not count; trailing separators are ignored.
    assert!(!AudioDecoder::is_supported("music.mp3/readme"));
    assert!(AudioDecoder::is_supported("album/track.wav/"));
    assert!(AudioDecoder::is_supported("album/track.wav/."));
    assert!(!AudioDecoder::is_supported("track."));
}
