use pawse::lyrics::{compress_lyrics, decompress_lyrics};

#[test]
fn test_lyrics_compression_round_trips_unicode() {
    let text = "[00:01.00]Привет, мир\n[00:02.00]こんにちは\n[00:03.00]🎵";
    assert_eq!(decompress_lyrics(&compress_lyrics(text)).as_deref(), Some(text));
}

#[test]
fn test_lyrics_compression_shrinks_repetitive_text() {
    let chorus = "[00:30.00]We are the champions, my friend\n".repeat(40);
    let compressed = compress_lyrics(&chorus);
    assert!(compressed.len() * 3 < chorus.len());
    assert_eq!(decompress_lyrics(&compressed).as_deref(), Some(chorus.as_str()));
}

#[test]
fn test_decompress_garbage_is_none() {
    assert!(decompress_lyrics(b"not a zlib stream").is_none());
}

#[test]
fn empty_lyrics_round_trip() {
    assert_eq!(decompress_lyrics(&compress_lyrics("")).as_deref(), Some(""));
}
