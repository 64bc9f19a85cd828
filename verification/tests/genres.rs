use pawse::genres::{Genre, GenreLink, GenreTable};

fn names(table: &GenreTable, track: Option<i64>) -> Vec<String> {
    let mut out: Vec<String> = table
        .genres()
        .iter()
        .filter(|g| {
            table
                .links()
                .iter()
                .any(|l| l.genre_id == g.id && track.is_none_or(|t| l.track_id == t))
        })
        .map(|g| g.name.clone())
        .collect();
    out.sort();
    out
}

fn set(table: &mut GenreTable, track: i64, list: &[&str]) {
    let list: Vec<String> = list.iter().map(|s| s.to_string()).collect();
    table.set_track_genres(track, &list);
}

#[test]
fn test_set_track_genres_replaces_links() {
    let mut table = GenreTable::new();
    set(&mut table, 1, &["Ambient", "Techno"]);
    assert_eq!(names(&table, None), vec!["Ambient".to_string(), "Techno".to_string()]);

    set(&mut table, 1, &["Jazz"]);
    assert_eq!(names(&table, None), vec!["Jazz".to_string()], "old genre links must be gone, not merged");

    set(&mut table, 1, &[]);
    assert!(names(&table, None).is_empty());
}

#[test]
fn test_set_track_genres_drops_orphaned_genres() {
    let mut table = GenreTable::new();
    set(&mut table, 1, &["Ambient"]);
    set(&mut table, 1, &["Techno"]);
    let all: Vec<&str> = table.genres().iter().map(|g| g.name.as_str()).collect();
    assert_eq!(all, vec!["Techno"]);
}

#[test]
fn test_set_track_genres_leaves_other_tracks_alone() {
    let mut table = GenreTable::new();
    set(&mut table, 1, &["Jazz"]);
    set(&mut table, 2, &["Techno"]);
    set(&mut table, 1, &["Rock"]);
    assert_eq!(
        names(&table, None),
        vec!["Rock".to_string(), "Techno".to_string()],
        "replacing one track's genres must not touch its siblings"
    );
}

#[test]
fn test_set_track_genres_keeps_a_genre_another_track_still_uses() {
    let mut table = GenreTable::new();
    set(&mut table, 1, &["Ambient"]);
    set(&mut table, 2, &["Ambient"]);
    set(&mut table, 1, &["Techno"]);
    assert_eq!(
        names(&table, None),
        vec!["Ambient".to_string(), "Techno".to_string()],
        "the orphan sweep must only take genres nothing links to"
    );
}

#[test]
fn test_set_track_genres_reuses_an_existing_row_for_a_different_casing() {
    let mut table = GenreTable::new();
    set(&mut table, 1, &["Ambient"]);
    set(&mut table, 2, &["AMBIENT"]);
    assert_eq!(
        names(&table, None),
        vec!["Ambient".to_string()],
        "genres resolve through the lowercase key, as a scan does"
    );
    assert_eq!(table.genres().len(), 1);
    assert_eq!(table.links().len(), 2);
}

#[test]
fn a_track_is_linked_at_the_place_each_genre_had() {
    let mut table = GenreTable::new();
    set(&mut table, 7, &["", "Jazz", "jazz", "Soul"]);
    let links: Vec<(i64, i64)> = table.links().iter().map(|l| (l.genre_id, l.position)).collect();
    assert_eq!(links, vec![(1, 1), (2, 3)]);
    assert_eq!(names(&table, Some(7)), vec!["Jazz".to_string(), "Soul".to_string()]);
}

#[test]
fn new_genres_take_ids_past_the_newest() {
    let stored = vec![Genre { id: 5, name: "Folk".into(), key: "folk".into() }];
    let links = vec![GenreLink { track_id: 9, genre_id: 5, position: 0 }];
    let mut table = GenreTable::from_rows(stored, links).unwrap();
    set(&mut table, 1, &["Blues", "folk"]);
    let ids: Vec<(i64, &str)> = table.genres().iter().map(|g| (g.id, g.name.as_str())).collect();
    assert_eq!(ids, vec![(5, "Folk"), (6, "Blues")]);
}

#[test]
fn stored_rows_out_of_order_are_refused() {
    let g = |id: i64, key: &str| Genre { id, name: key.into(), key: key.into() };
    assert!(GenreTable::from_rows(vec![g(2, "a"), g(1, "b")], vec![]).is_none());
    assert!(GenreTable::from_rows(vec![g(1, "a"), g(2, "a")], vec![]).is_none());
    let l = GenreLink { track_id: 1, genre_id: 1, position: 0 };
    assert!(GenreTable::from_rows(vec![g(1, "a")], vec![l, l]).is_none());
    assert!(GenreTable::from_rows(vec![g(1, "a")], vec![l]).is_some());
}
