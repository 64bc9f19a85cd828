use pawse::cache_fill::{
    decide_fill, FillDecision,
    fitting_prefix, has_missing, missing_files, plan, CacheFill, FillPlan, FillTarget,
};
use pawse::models::Track;
use pawse::remote;

fn track(path: &str) -> Track {
    Track {
        id: 1,
        path: path.into(),
        title: "t".into(),
        album_id: None,
        track_number: None,
        disc_number: 1,
        duration_ms: None,
        year: None,
        cover_art_id: None,
        start_offset_ms: 0,
        liked: false,
        bitrate: None,
        is_cue: false,
        available: true,
    }
}

#[test]
fn only_the_files_that_fit_the_limit_are_taken_in_order() {
    assert_eq!(fitting_prefix(&[], 10), 0);
    assert_eq!(fitting_prefix(&[3, 3, 3], 10), 3);
    assert_eq!(fitting_prefix(&[4, 4, 4], 10), 2);
    assert_eq!(fitting_prefix(&[11, 1], 10), 0);
    assert_eq!(fitting_prefix(&[5, 5], 10), 2);
}

#[test]
fn a_total_past_the_largest_size_saturates_and_fits_an_unbounded_limit() {
    assert_eq!(fitting_prefix(&[u64::MAX, 1, 2], u64::MAX), 3);
    assert_eq!(fitting_prefix(&[u64::MAX, 1], u64::MAX - 1), 0);
}

#[test]
fn missing_files_are_the_uncached_server_files_each_once() {
    let a = remote::locator(3, "a", "flac");
    let b = remote::locator(4, "b", "mp3");
    let tracks = vec![
        track("/music/local.flac"),
        track(&a),
        track(&b),
        track(&a),
        track("pawse-source://x/broken"),
    ];
    let got = missing_files(&tracks, &[false, false, true, false, false]);
    assert_eq!(got, vec![(3, "a".to_string(), a.clone())]);
    let all = missing_files(&tracks, &[]);
    assert_eq!(all, vec![(3, "a".to_string(), a.clone()), (4, "b".to_string(), b.clone())]);
    assert!(has_missing(&tracks, &[]));
    assert!(!has_missing(&tracks, &[true, true, true, true, true]));
}

#[test]
fn a_plan_lists_the_missing_files_with_their_listed_sizes() {
    let a = remote::locator(3, "a", "flac");
    let b = remote::locator(4, "b", "mp3");
    let tracks = vec![track(&a), track(&b)];
    let sizes = vec![(4, "b".to_string(), 7i64), (3, "a".to_string(), -1i64), (3, "a".to_string(), 9)];
    let p = plan(&tracks, &[], &sizes);
    assert_eq!(p.files, vec![a, b]);
    assert_eq!(p.sizes, vec![9, 7]);
    assert_eq!(p.total(), 16);
    assert_eq!(p.fitting(10), 1);
}

#[test]
fn the_last_size_listed_for_a_file_counts() {
    let a = remote::locator(3, "a", "flac");
    let sizes = vec![(3, "a".to_string(), 9i64), (3, "a".to_string(), -4i64)];
    assert_eq!(plan(&[track(&a)], &[], &sizes).sizes, vec![0]);
    let sizes = vec![(3, "a".to_string(), -4i64), (3, "a".to_string(), 12i64)];
    assert_eq!(plan(&[track(&a)], &[], &sizes).sizes, vec![12]);
}

#[test]
fn paths_that_differ_only_in_separators_are_one_file() {
    let a = remote::locator(3, "a", "flac");
    let same = "pawse-source://3//a.flac".to_string();
    let got = missing_files(&[track(&a), track(&same), track(&format!("{a}/"))], &[]);
    assert_eq!(got, vec![(3, "a".to_string(), a.clone())]);
}

#[test]
fn a_plan_hands_out_the_first_entries() {
    let p = FillPlan { files: vec!["x".into(), "y".into(), "z".into()], sizes: vec![1, 2, 3] };
    assert_eq!(p.entries(2), vec![("x".to_string(), 1), ("y".to_string(), 2)]);
    assert_eq!(p.entries(9).len(), 3);
    assert_eq!(p.total(), 6);
}

#[test]
fn a_fill_runs_once_per_target_and_reports_its_progress() {
    let mut fill = CacheFill::new();
    let target = FillTarget::Album(5);
    assert!(fill.progress(target).is_none());
    assert!(!fill.start(target, &[]));
    assert!(fill.start(target, &[("a".into(), 3), ("b".into(), 4)]));
    assert!(!fill.start(target, &[("c".into(), 1)]));
    assert!(fill.start(FillTarget::Artist(5), &[("c".into(), 1)]));
    let p = fill.progress(target).unwrap();
    assert_eq!((p.done_bytes, p.total_bytes), (0, 7));
    fill.record_done(target, 3);
    assert_eq!(fill.progress(target).unwrap().done_bytes, 3);
    assert!(!fill.is_cancelled(target));
    fill.cancel(target);
    assert!(fill.is_cancelled(target));
    assert_eq!(fill.revision(), 0);
    fill.finish(target);
    assert!(fill.progress(target).is_none());
    assert_eq!(fill.revision(), 1);
    fill.cache_changed();
    assert_eq!(fill.revision(), 2);
    assert!(fill.progress(FillTarget::Artist(5)).is_some());
}

#[test]
fn a_stopped_fill_fetches_no_further_file() {
    let mut fill = CacheFill::new();
    let target = FillTarget::Album(9);
    assert!(fill.start(target, &[("a".into(), 3), ("b".into(), 4)]));
    assert!(fill.fetches_next(target, 0, 2));
    fill.record_done(target, 3);
    assert!(fill.fetches_next(target, 1, 2));
    assert!(!fill.fetches_next(target, 2, 2));
    fill.cancel(target);
    assert!(!fill.fetches_next(target, 1, 2));
    let p = fill.progress(target).unwrap();
    assert!(p.done_bytes <= p.total_bytes);
    assert!(!fill.fetches_next(FillTarget::Album(1), 0, 2));
}

#[test]
fn a_job_keeps_the_total_it_started_with_until_it_finishes() {
    let mut fill = CacheFill::new();
    let target = FillTarget::Artist(2);
    assert!(fill.start(target, &[("a".into(), 10), ("b".into(), 5)]));
    assert!(!fill.start(target, &[("c".into(), 100)]));
    fill.record_done(target, 10);
    fill.cache_changed();
    fill.cancel(target);
    fill.record_done(FillTarget::Album(2), 1);
    let p = fill.progress(target).unwrap();
    assert_eq!((p.done_bytes, p.total_bytes), (10, 15));
    fill.finish(target);
    assert!(fill.progress(target).is_none());
    assert!(fill.start(target, &[("c".into(), 100)]));
    let p = fill.progress(target).unwrap();
    assert_eq!((p.done_bytes, p.total_bytes), (0, 100));
}

#[test]
fn a_request_stops_a_running_job_or_starts_what_fits() {
    let mut fill = CacheFill::new();
    let target = FillTarget::Album(1);
    assert!(!fill.request_cancel(target));
    assert!(fill.start(target, &[("a".into(), 3)]));
    assert!(fill.request_cancel(target));
    assert!(fill.is_cancelled(target));
    let p = FillPlan { files: vec!["x".into(), "y".into()], sizes: vec![4, 5] };
    match decide_fill(&p, 9) {
        FillDecision::StartAll(e) => assert_eq!(e, vec![("x".to_string(), 4), ("y".to_string(), 5)]),
        _ => panic!("all files fit"),
    }
    match decide_fill(&p, 8) {
        FillDecision::AskFirst { fitting, entries } => {
            assert_eq!(fitting, 1);
            assert_eq!(entries, vec![("x".to_string(), 4)]);
        }
        _ => panic!("not all files fit"),
    }
}
