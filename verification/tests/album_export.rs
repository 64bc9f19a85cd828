use std::collections::HashMap;

use pawse::album_export::{
    build_plan, component, cue_text, cue_time, export_after, export_begin, export_next,
    has_remote, numbered_name, AlbumExport, AlbumMeta, CueSpec, CueTrack, ExportAction, ExportEnd,
    ExportPlan, Entry,
};
use pawse::models::Track;
use pawse::remote;

fn track(id: i64, path: &str, title: &str, number: Option<i32>) -> Track {
    Track {
        id,
        path: path.into(),
        title: title.into(),
        album_id: Some(1),
        track_number: number,
        disc_number: 1,
        duration_ms: None,
        year: None,
        cover_art_id: None,
        start_offset_ms: 0,
        liked: false,
        bitrate: None,
        is_cue: false,
        available: true,
    }
}

fn meta() -> AlbumMeta {
    AlbumMeta {
        id: 1,
        title: "Absolution".into(),
        artist: "Muse".into(),
        year: Some(2003),
        genre: Some("Rock".into()),
        cover_art_id: None,
    }
}

fn file_name(path: &str) -> &str {
    path.rsplit('/').next().unwrap()
}

#[test]
fn names_are_safe_and_never_empty() {
    assert_eq!(component("AC/DC: Live?", "x"), "AC_DC_ Live_");
    assert_eq!(component("  ...  ", "Unknown"), "Unknown");
    assert_eq!(component("Album. ", "x"), "Album");
    assert_eq!(component("con", "x"), "con_");
    assert_eq!(component("Nul.flac", "x"), "Nul_.flac");
    assert_eq!(component("COM1", "x"), "COM1_");
    assert_eq!(component("COM0", "x"), "COM0");
    assert_eq!(component("Console", "x"), "Console");
    assert_eq!(component(&"я".repeat(300), "x").chars().count(), 100);
}

#[test]
fn only_server_tracks_are_planned_under_artist_and_year_album() {
    let a = remote::locator(3, "a", "flac");
    let b = remote::locator(3, "b", "mp3");
    let tracks = vec![
        track(1, &a, "Apocalypse Please", Some(1)),
        track(2, "/music/local.flac", "Local", Some(2)),
        track(3, &b, "Time Is Running Out", Some(3)),
    ];
    let sizes = vec![(a.clone(), 10u64), (b.clone(), 20u64)];
    let plan = build_plan(&meta(), &tracks, &HashMap::new(), &sizes);
    assert_eq!(plan.dir, "Muse/2003 - Absolution");
    let targets: Vec<String> = plan.entries.iter().map(|e| e.target.clone()).collect();
    assert_eq!(
        targets,
        vec![
            "Muse/2003 - Absolution/01 - Apocalypse Please.flac".to_string(),
            "Muse/2003 - Absolution/03 - Time Is Running Out.mp3".to_string(),
        ]
    );
    assert_eq!(plan.total(), 30);
}

#[test]
fn several_discs_prefix_the_disc_and_equal_names_do_not_collide() {
    let one = remote::locator(3, "1", "flac");
    let two = remote::locator(3, "2", "flac");
    let three = remote::locator(3, "3", "flac");
    let mut second = track(2, &two, "Intro", Some(1));
    second.disc_number = 2;
    let tracks = vec![track(1, &one, "Intro", Some(1)), second, track(3, &three, "Intro", Some(1))];
    let plan = build_plan(&meta(), &tracks, &HashMap::new(), &[]);
    let names: Vec<String> = plan.entries.iter().map(|e| file_name(&e.target).to_string()).collect();
    assert_eq!(names, vec!["1-01 - Intro.flac", "2-01 - Intro.flac", "1-01 - Intro (2).flac"]);
}

#[test]
fn cue_pieces_become_one_image_with_a_generated_sheet() {
    let image = remote::locator(7, "39", "flac");
    let mut second = track(11, &image, "Yes Please", Some(2));
    second.is_cue = true;
    second.start_offset_ms = 4 * 60_000 + 33 * 1000 + 8 * 1000 / 75;
    let mut first = track(10, &image, "Intro", Some(1));
    first.is_cue = true;
    let artists = HashMap::from([(11, vec!["Muse".to_string()])]);
    let plan = build_plan(&meta(), &[second, first], &artists, &[(image.clone(), 335)]);
    assert_eq!(plan.entries.len(), 1);
    let entry = &plan.entries[0];
    assert_eq!(entry.target, "Muse/2003 - Absolution/Muse - Absolution.flac");
    let text = cue_text(entry.cue.as_ref().unwrap(), "Muse - Absolution.flac");
    assert_eq!(
        text,
        "REM GENRE \"Rock\"\nREM DATE 2003\nPERFORMER \"Muse\"\nTITLE \"Absolution\"\n\
         FILE \"Muse - Absolution.flac\" WAVE\n  TRACK 01 AUDIO\n    TITLE \"Intro\"\n\
         \x20   INDEX 01 00:00:00\n  TRACK 02 AUDIO\n    TITLE \"Yes Please\"\n\
         \x20   PERFORMER \"Muse\"\n    INDEX 01 04:33:08\n"
    );
}

#[test]
fn cue_times_round_trip_the_frames_the_scan_turned_into_milliseconds() {
    for frames in 0..75u64 {
        let ms = 61_000 + frames * 1000 / 75;
        assert_eq!(cue_time(ms), format!("01:01:{frames:02}"));
    }
    assert_eq!(cue_time(999), "00:00:74");
}

#[test]
fn long_albums_count_minutes_past_ninety_nine() {
    assert_eq!(cue_time(100 * 60_000 + 5_000), "100:05:00");
}

#[test]
fn a_taken_name_moves_to_the_next_free_one() {
    assert_eq!(numbered_name("a", "flac", 1), "a.flac");
    assert_eq!(numbered_name("a", "flac", 2), "a (2).flac");
    assert_eq!(numbered_name("a", "", 12), "a (12).");
}

#[test]
fn quotes_in_a_sheet_become_apostrophes() {
    let spec = CueSpec {
        performer: String::new(),
        title: "Say \"Hi\"".into(),
        date: None,
        genre: Some(String::new()),
        tracks: vec![CueTrack { number: 3, title: "\"x\"".into(), performer: None, start_ms: 1500 }],
    };
    assert_eq!(
        cue_text(&spec, "a\"b.flac"),
        "TITLE \"Say 'Hi'\"\nFILE \"a'b.flac\" WAVE\n  TRACK 03 AUDIO\n    TITLE \"'x'\"\n    INDEX 01 00:01:38\n"
    );
}

#[test]
fn a_sheet_with_repeated_numbers_is_numbered_anew_in_start_order() {
    let image = remote::locator(7, "img", "flac");
    let mut a = track(1, &image, "Late", Some(1));
    a.is_cue = true;
    a.start_offset_ms = 90_000;
    let mut b = track(2, &image, "Early", Some(1));
    b.is_cue = true;
    let plan = build_plan(&meta(), &[a, b], &HashMap::new(), &[]);
    let cue = plan.entries[0].cue.as_ref().unwrap();
    let got: Vec<(u32, &str, u64)> =
        cue.tracks.iter().map(|t| (t.number, t.title.as_str(), t.start_ms)).collect();
    assert_eq!(got, vec![(1, "Early", 0), (2, "Late", 90_000)]);
    assert_eq!(plan.entries[0].size, 0);
}

#[test]
fn an_album_without_year_or_names_gets_the_fallbacks() {
    let m = AlbumMeta { id: 2, title: " ".into(), artist: "".into(), year: None, genre: None, cover_art_id: None };
    let x = remote::locator(1, "x", "ogg");
    let plan = build_plan(&m, &[track(1, &x, "", None)], &HashMap::new(), &[]);
    assert_eq!(plan.dir, "Unknown Artist/Unknown Album");
    assert_eq!(plan.entries[0].target, "Unknown Artist/Unknown Album/Track.ogg");
}

#[test]
fn server_tracks_are_told_from_local_ones() {
    let local = track(1, "/m/a.flac", "a", None);
    let server = track(2, &remote::locator(1, "k", "mp3"), "b", None);
    assert!(!has_remote(&[local.clone()]));
    assert!(has_remote(&[local, server]));
    assert!(!has_remote(&[]));
}

fn plan_of(sizes: &[u64]) -> ExportPlan {
    ExportPlan {
        dir: "d".into(),
        entries: sizes
            .iter()
            .map(|s| Entry { locator: "l".into(), size: *s, target: "t".into(), cue: None })
            .collect(),
    }
}

#[test]
fn a_move_runs_once_per_album_and_is_done_only_when_nothing_failed() {
    let mut export = AlbumExport::new();
    assert!(!export.start(4, &plan_of(&[])));
    assert!(export.start(4, &plan_of(&[10, 20])));
    assert!(!export.start(4, &plan_of(&[1])));
    let p = export.progress(4).unwrap();
    assert_eq!((p.done_bytes, p.total_bytes), (0, 30));
    export.record_done(4, 10);
    assert_eq!(export.progress(4).unwrap().done_bytes, 10);
    export.finish(4, false);
    assert!(export.progress(4).is_none());
    assert!(export.is_done(4));
    assert!(export.catalog_changed());
    assert!(!export.is_done(4));
    assert!(!export.catalog_changed());
}

#[test]
fn a_cancelled_or_failed_move_is_not_done() {
    let mut export = AlbumExport::new();
    assert!(export.start(1, &plan_of(&[5])));
    export.cancel(1);
    assert!(export.is_cancelled(1));
    export.finish(1, false);
    assert!(!export.is_done(1));
    assert!(export.start(2, &plan_of(&[5])));
    export.finish(2, true);
    assert!(!export.is_done(2));
}

#[test]
fn a_name_of_dots_and_spaces_never_climbs_out() {
    assert_eq!(component(".\u{3000}..\u{3000}.", "x"), "x");
    assert_eq!(component(". . Live", "x"), ". Live");
    assert_eq!(component(". .x", "y"), ".x");
    assert_eq!(component("Live.\u{3000}", "x"), "Live");
    assert_eq!(component("Live . .", "x"), "Live");
    assert_eq!(component("..", "x"), "x");
    assert_eq!(component("a.b", "x"), "a.b");
}

#[test]
fn a_move_places_each_entry_then_ends() {
    let mut run = export_begin();
    assert_eq!(export_next(&run, 2, false), ExportAction::Place(0));
    run = export_after(run, Ok(()));
    assert_eq!(export_next(&run, 2, false), ExportAction::Place(1));
    run = export_after(run, Err("disk full".into()));
    run = export_after(run, Err("later".into()));
    assert_eq!(run.failure.as_deref(), Some("disk full"));
    assert_eq!(run.placed, 1);
    assert_eq!(
        export_next(&run, 2, false),
        ExportAction::Finish(ExportEnd { write_cover: true, rescan: true, counts_done: false, notify: true })
    );
}

#[test]
fn a_stopped_move_that_placed_nothing_writes_no_cover() {
    let run = export_begin();
    assert_eq!(
        export_next(&run, 3, true),
        ExportAction::Finish(ExportEnd { write_cover: false, rescan: false, counts_done: false, notify: false })
    );
}

#[test]
fn a_file_named_two_ways_is_moved_once_with_its_size() {
    let a = remote::locator(3, "a", "flac");
    let same = "pawse-source://3//a.flac".to_string();
    let tracks = vec![track(1, &a, "One", Some(1)), track(2, &same, "One again", Some(2))];
    let plan = build_plan(&meta(), &tracks, &HashMap::new(), &[(same.clone(), 42)]);
    assert_eq!(plan.entries.len(), 1);
    assert_eq!(plan.entries[0].locator, a);
    assert_eq!(plan.total(), 42);
}
