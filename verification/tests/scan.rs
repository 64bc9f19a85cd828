use pawse::adoption::WHOLE_FILE;
use pawse::catalog::LocalRoot;
use pawse::models::{NewTrack, ScanTrack};
use pawse::scan::{
    arrival_order, group_by_source, insert_action, new_track_row, place_action, remote_scan_track,
    retires_unplaced, scan_descriptor, scan_row, scan_start_offset, scan_title, InsertAction,
    PlaceAction, RemoteTrackRow,
};

fn scanned(path: &str, offset: Option<u64>) -> ScanTrack {
    ScanTrack { path: path.into(), start_offset_ms: offset, ..Default::default() }
}

fn roots() -> Vec<LocalRoot> {
    vec![
        LocalRoot { path: "/b".into(), source_id: 9, available: true },
        LocalRoot { path: "/a".into(), source_id: 4, available: true },
    ]
}

#[test]
fn an_untitled_scan_takes_its_title_from_the_file() {
    let t = scanned("/a/song.flac", None);
    assert_eq!(scan_title(&t), "song");
    let titled = ScanTrack { title: Some("Song".into()), ..t };
    assert_eq!(scan_title(&titled), "Song");
}

#[test]
fn a_scan_row_fills_in_the_disc_and_offset() {
    let mut t = scanned("/a/x.flac", None);
    t.track_number = Some(3);
    t.duration_ms = Some(1000);
    let row = scan_row(&t);
    assert_eq!(row.title, "x");
    assert_eq!(row.track_number, Some(3));
    assert_eq!(row.disc_number, 1);
    assert_eq!(row.duration_ms, Some(1000));
    assert_eq!(row.start_offset_ms, 0);
    assert_eq!(scan_start_offset(&scanned("/a/x", Some(7))), 7);
}

#[test]
fn a_new_track_row_uses_the_database_widths() {
    let t = NewTrack {
        path: "/m/u.flac".into(),
        track_number: Some(4),
        disc_number: None,
        start_offset_ms: Some(90_000),
        ..Default::default()
    };
    let row = new_track_row(&t);
    assert_eq!(row.title, "u");
    assert_eq!(row.track_number, Some(4));
    assert_eq!(row.disc_number, 1);
    assert_eq!(row.start_offset_ms, 90_000);
}

#[test]
fn a_scanned_file_is_described_with_its_folder_as_source() {
    let mut t = scanned("/a/x.flac", Some(30_000));
    t.artist_names = vec!["Main".into(), "Guest".into()];
    t.file_size = Some(500);
    t.is_cue = true;
    let d = scan_descriptor(&t, &roots());
    assert_eq!(d.artist, "Main");
    assert_eq!(d.artist_aliases, vec!["Guest".to_string()]);
    assert_eq!(d.files, vec![(500, 30_000)]);
    assert_eq!(d.sources, vec![4]);
    let whole = ScanTrack { is_cue: false, ..t };
    assert_eq!(scan_descriptor(&whole, &[]).files, vec![(500, WHOLE_FILE)]);
    assert_eq!(scan_descriptor(&whole, &[]).sources, vec![1]);
}

#[test]
fn what_a_scan_does_with_a_file() {
    assert_eq!(insert_action(true, Some((1, 2)), true, true), InsertAction::Skip);
    assert_eq!(insert_action(false, None, true, false), InsertAction::Buffer);
    assert_eq!(insert_action(false, None, false, false), InsertAction::Mint);
    assert_eq!(insert_action(false, Some((1, 2)), true, true), InsertAction::Remint { binding_id: 1 });
    assert_eq!(
        insert_action(false, Some((1, 2)), false, false),
        InsertAction::Refresh { binding_id: 1, item_id: 2 }
    );
}

#[test]
fn the_catalog_row_comes_from_the_first_folder_whatever_the_scan_order() {
    assert_eq!(place_action(None, 5), PlaceAction::Write);
    assert_eq!(place_action(Some(5), 3), PlaceAction::Rewrite);
    assert_eq!(place_action(Some(3), 5), PlaceAction::Keep);
    assert_eq!(place_action(Some(3), 3), PlaceAction::Keep);
}

#[test]
fn arrivals_settle_by_path_and_offset_once_each_grouped_by_folder() {
    let tracks = vec![
        scanned("/b/z.flac", None),
        scanned("/a/y.flac", Some(60)),
        scanned("/a/y.flac", Some(0)),
        scanned("/b/z.flac", Some(0)),
        scanned("/elsewhere/q.flac", None),
        scanned("/a/y.flac", Some(60)),
    ];
    let order = arrival_order(&tracks);
    assert_eq!(order, vec![2, 1, 0, 4]);
    let groups = group_by_source(&tracks, &roots(), &order);
    assert_eq!(groups, vec![(1, vec![4]), (4, vec![2, 1]), (9, vec![0])]);
}

fn server_song() -> RemoteTrackRow {
    RemoteTrackRow {
        source_id: 3,
        key: "tr-1".into(),
        title: "Song".into(),
        artist: Some("Band".into()),
        album: Some("Record".into()),
        album_artist: Some(String::new()),
        track_number: Some(4),
        disc_number: Some(1),
        year: Some(1999),
        genre: None,
        duration_ms: Some(-5),
        suffix: None,
        content_type: Some("audio/flac".into()),
        bitrate: Some(900),
        cover_hash: Some("abc".into()),
    }
}

#[test]
fn a_server_song_is_written_under_its_locator() {
    let t = remote_scan_track(&server_song());
    assert_eq!(t.path, pawse::remote::locator(3, "tr-1", "flac"));
    assert_eq!(t.title.as_deref(), Some("Song"));
    assert_eq!(t.artist_names, vec!["Band".to_string()]);
    assert!(t.album_artist_names.is_empty());
    assert!(t.genres.is_empty());
    assert_eq!(t.duration_ms, Some(0));
    assert_eq!(t.cover_hash.as_deref(), Some("abc"));
    assert_eq!(t.start_offset_ms, None);
    assert!(!t.is_cue);
    assert_eq!(t.file_size, None);
}

#[test]
fn an_unplaced_binding_under_an_offline_folder_is_kept() {
    let roots = [
        LocalRoot { path: "/music".into(), source_id: 1, available: false },
        LocalRoot { path: "/more".into(), source_id: 2, available: true },
    ];
    assert!(!retires_unplaced(&roots, "/music/a.flac"));
    assert!(retires_unplaced(&roots, "/more/b.flac"));
    assert!(retires_unplaced(&roots, "/elsewhere/c.flac"));
}

#[test]
fn test_track_title_fallback_from_path() {
    let track = NewTrack {
        path: "/music/Unknown Title.flac".into(),
        title: None,
        album_title: Some("Album".into()),
        artist_names: vec!["Artist".into()],
        track_number: None,
        disc_number: None,
        year: None,
        duration_ms: None,
        cover_art_id: None,
        start_offset_ms: None,
        bitrate: None,
    };
    assert_eq!(new_track_row(&track).title, "Unknown Title");
}
