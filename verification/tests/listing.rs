use pawse::adoption::{Tier, WHOLE_FILE};
use pawse::listing::{
    arrival_descriptor, listing_refused, listing_report, plan_listing, remote_row_changed,
    retired_bindings, KnownBinding, RemoteTrackRow,
};
use pawse::models::RemoteSong;
use pawse::ordering::{key_less, pair_less};

fn song(key: &str) -> RemoteSong {
    RemoteSong { key: key.into(), title: format!("t{key}"), ..Default::default() }
}

fn known(key: &str, binding_id: i64, present: bool) -> KnownBinding {
    KnownBinding { key: key.into(), binding_id, item_id: binding_id * 10, present }
}

#[test]
fn an_empty_listing_changes_nothing_while_the_server_had_songs() {
    assert!(listing_refused(&[], &[known("a", 1, true)]));
    assert!(!listing_refused(&[], &[known("a", 1, false)]));
    assert!(!listing_refused(&[], &[]));
    assert!(!listing_refused(&[song("a")], &[known("a", 1, true)]));
}

#[test]
fn known_songs_are_seen_and_new_ones_arrive_once_in_key_order() {
    let songs = vec![song("m"), song("b"), song("z"), song("b"), song("a"), song("k")];
    let knowns = vec![known("k", 7, false), known("m", 3, true), known("k", 8, false)];
    let plan = plan_listing(&songs, &knowns);
    assert_eq!(plan.seen, vec![3, 8]);
    assert_eq!(plan.revived, 1);
    assert_eq!(plan.arrivals, vec![4, 1, 2]);
}

#[test]
fn a_song_listed_twice_counts_twice_when_known() {
    let songs = vec![song("x"), song("x")];
    let plan = plan_listing(&songs, &[known("x", 5, false)]);
    assert_eq!(plan.seen, vec![5, 5]);
    assert_eq!(plan.revived, 2);
    assert!(plan.arrivals.is_empty());
}

#[test]
fn keys_are_ordered_by_code_point() {
    let a: Vec<char> = "ab".chars().collect();
    let b: Vec<char> = "abc".chars().collect();
    let c: Vec<char> = "b".chars().collect();
    let upper: Vec<char> = "Z".chars().collect();
    assert!(key_less(&a, &b));
    assert!(!key_less(&b, &a));
    assert!(key_less(&b, &c));
    assert!(key_less(&upper, &a));
    assert!(!key_less(&a, &a));
}

#[test]
fn a_listed_song_is_matched_by_its_tags_and_whole_file() {
    let mut s = song("k");
    s.artist = Some("Artist".into());
    s.album = Some("Album".into());
    s.size = Some(1234);
    s.duration_ms = Some(60_000);
    s.artist_aliases = vec!["Artist feat. X".into()];
    let d = arrival_descriptor(9, &s);
    assert_eq!(d.item_id, 0);
    assert_eq!(d.title, "tk");
    assert_eq!(d.artist, "Artist");
    assert_eq!(d.artist_aliases, vec!["Artist feat. X".to_string()]);
    assert_eq!(d.album.as_deref(), Some("Album"));
    assert_eq!(d.files, vec![(1234, WHOLE_FILE)]);
    assert_eq!(d.sources, vec![9]);
    assert!(!d.live);
    let bare = arrival_descriptor(9, &song("q"));
    assert_eq!(bare.artist, "");
    assert!(bare.files.is_empty());
}

#[test]
fn a_report_counts_adopted_and_added_songs() {
    let r = listing_report(5, false, 1, 2, 3, &[Some((4, Tier::Tags)), None, None]);
    assert_eq!(r.total, 5);
    assert!(r.became_available);
    assert_eq!((r.revived, r.updated, r.retired), (1, 2, 3));
    assert_eq!((r.adopted, r.added), (1, 2));
    assert!(r.changed());
    let quiet = listing_report(2, true, 0, 0, 0, &[]);
    assert!(!quiet.changed());
}

#[test]
fn keys_with_equal_text_are_ordered_by_number() {
    let a: Vec<char> = "x".chars().collect();
    assert!(pair_less(&a, 1, &a, 2));
    assert!(!pair_less(&a, 2, &a, 2));
    let b: Vec<char> = "y".chars().collect();
    assert!(pair_less(&a, 9, &b, 0));
}

#[test]
fn present_bindings_the_listing_did_not_see_are_retired() {
    let known = [known("a", 1, true), known("b", 2, false), known("c", 3, true), known("d", 4, true)];
    assert_eq!(retired_bindings(&known, &[3, 9]), vec![1, 4]);
    assert!(retired_bindings(&known, &[1, 3, 4]).is_empty());
}

#[test]
fn a_listing_taken_in_twice_plans_nothing_the_second_time() {
    let songs = vec![song("m"), song("b"), song("k"), song("b")];
    let before = vec![known("k", 7, false), known("m", 3, true), known("q", 4, true)];
    let plan = plan_listing(&songs, &before);
    assert_eq!(plan.seen, vec![3, 7]);
    assert_eq!(plan.revived, 1);
    assert_eq!(plan.arrivals, vec![1]);
    let mut seen = plan.seen.clone();
    seen.push(20);
    assert_eq!(retired_bindings(&before, &seen), vec![4]);
    let after = vec![
        known("k", 7, true),
        known("m", 3, true),
        known("q", 4, false),
        known("b", 20, true),
    ];
    let again = plan_listing(&songs, &after);
    assert_eq!(again.seen, vec![3, 20, 7, 20]);
    assert_eq!(again.revived, 0);
    assert!(again.arrivals.is_empty());
    assert!(retired_bindings(&after, &again.seen).is_empty());
    let report = listing_report(songs.len(), true, again.revived, 0, 0, &[]);
    assert_eq!(
        (report.added, report.adopted, report.retired, report.revived, report.became_available),
        (0, 0, 0, 0, false)
    );
    assert_eq!(report.total, 4);
    assert!(!report.changed());
}

#[test]
fn a_song_changes_its_row_only_when_a_kept_field_differs() {
    let mut s = song("k");
    s.artist = Some("Band".into());
    s.year = Some(1999);
    s.size = Some(100);
    let row = RemoteTrackRow {
        title: s.title.clone(),
        artist: Some("Band".into()),
        year: Some(1999),
        ..Default::default()
    };
    assert!(remote_row_changed(&None, &s));
    assert!(!remote_row_changed(&Some(row.clone()), &s));
    let mut resized = s.clone();
    resized.size = Some(200);
    resized.cover_key = Some("c".into());
    assert!(!remote_row_changed(&Some(row.clone()), &resized));
    let mut retitled = s.clone();
    retitled.year = None;
    assert!(remote_row_changed(&Some(row.clone()), &retitled));
    let mut renamed = s.clone();
    renamed.artist = Some("band".into());
    assert!(remote_row_changed(&Some(row), &renamed));
}
