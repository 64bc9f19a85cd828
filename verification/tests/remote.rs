use pawse::remote::{
    canonical, is_remote, local_file, location, locator, parse, suffix_for, Location, RemoteRef,
    SCHEME,
};

#[test]
fn locators_round_trip_and_keep_dots_in_the_key() {
    let path = locator(4, "a.b-7", "flac");
    assert!(is_remote(&path));
    assert_eq!(
        parse(&path),
        Some(RemoteRef {
            source_id: 4,
            key: "a.b-7".into(),
            suffix: "flac".into()
        })
    );
    assert_eq!(parse("/music/a.flac"), None);
}

#[test]
fn locators_written_before_the_rename_still_parse() {
    let old = "subsonic://4/abc.flac";
    assert!(is_remote(old));
    assert_eq!(parse(old), parse(&locator(4, "abc", "flac")));
    assert!(locator(4, "abc", "flac").starts_with(SCHEME));
}

#[test]
fn only_legacy_locators_are_rewritten() {
    assert_eq!(canonical("subsonic://4/a.b.flac"), Some(locator(4, "a.b", "flac")));
    assert_eq!(canonical(&locator(4, "a", "flac")), None);
    assert_eq!(canonical("/music/a.flac"), None);
    assert_eq!(canonical("subsonic://broken"), None);
}

#[test]
fn locations_tell_files_from_server_tracks_and_broken_locators() {
    assert_eq!(location("/music/a.flac"), Location::File("/music/a.flac"));
    assert_eq!(local_file("C:\\Music\\a.flac"), Some("C:\\Music\\a.flac"));
    assert!(matches!(location(&locator(1, "k", "mp3")), Location::Remote(_)));
    assert_eq!(local_file(&locator(1, "k", "mp3")), None);
    for broken in [
        "pawse-source://x/k.mp3",
        "pawse-source://1/k",
        "subsonic://1/.mp3",
        "pawse-source://1/k.",
    ] {
        assert_eq!(location(broken), Location::Invalid, "{broken}");
        assert_eq!(local_file(broken), None, "{broken}");
    }
}

#[test]
fn the_suffix_falls_back_to_the_content_type() {
    assert_eq!(suffix_for(Some("FLAC"), None), "flac");
    assert_eq!(suffix_for(None, Some("audio/ogg")), "ogg");
    assert_eq!(suffix_for(Some(""), Some("audio/mpeg")), "mp3");
    assert_eq!(suffix_for(Some("../x"), Some("audio/flac")), "flac");
    assert_eq!(suffix_for(Some("tar.gz"), None), "mp3");
}

#[test]
fn a_locator_spells_source_key_and_suffix() {
    assert_eq!(locator(-3, "k", "ogg"), "pawse-source://-3/k.ogg");
    assert_eq!(
        parse("pawse-source://-3/k.ogg"),
        Some(RemoteRef { source_id: -3, key: "k".into(), suffix: "ogg".into() })
    );
}

#[test]
fn a_canonical_locator_keeps_the_reference() {
    let legacy = "subsonic://12/x.y.mp3";
    let rewritten = canonical(legacy).unwrap();
    assert_eq!(parse(&rewritten), parse(legacy));
    assert_eq!(canonical(&rewritten), None);
}

#[test]
fn server_track_locators_move_to_the_neutral_scheme() {
    let stored = ["subsonic://3/song-1.flac", "/music/subsonic://odd.flac"];
    let mut paths: Vec<String> = stored
        .iter()
        .map(|p| canonical(p).unwrap_or_else(|| p.to_string()))
        .collect();
    paths.sort();
    assert_eq!(
        paths,
        vec!["/music/subsonic://odd.flac".to_string(), locator(3, "song-1", "flac")]
    );
}
