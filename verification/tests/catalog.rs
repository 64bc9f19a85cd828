use pawse::catalog::{
    folder_prefix, genre_links, identities_from_rows, playback_locator, BindingFacts, Identity,
    artist_membership_sql, compute_sort_name, fallback_title_from_path, membership_ctes,
    no_metadata_artist, root_for_path, sha256_hex, sidecar, source_for_path, LocalRoot,
    PLACEHOLDER_SOURCE_ID,
};
use pawse::models::ArtistGrouping;

#[test]
fn test_compute_sort_name_the() {
    assert_eq!(compute_sort_name("The Beatles"), "beatles, the");
}

#[test]
fn test_compute_sort_name_a() {
    assert_eq!(compute_sort_name("A Tribe Called Quest"), "tribe called quest, a");
}

#[test]
fn test_compute_sort_name_no_article() {
    assert_eq!(compute_sort_name("Radiohead"), "Radiohead");
}

#[test]
fn test_compute_sort_name_whitespace() {
    assert_eq!(compute_sort_name("  The Who  "), "who, the");
}

#[test]
fn test_compute_sort_name_lowercase_article() {
    assert_eq!(compute_sort_name("the national"), "national, the");
}

#[test]
fn test_compute_sort_name_empty() {
    assert_eq!(compute_sort_name(""), "");
}

#[test]
fn test_fallback_title_from_path_basic() {
    assert_eq!(fallback_title_from_path("/music/song.flac"), "song");
}

#[test]
fn test_fallback_title_from_path_no_ext() {
    assert_eq!(fallback_title_from_path("/music/song"), "song");
}

#[test]
fn test_fallback_title_from_path_root() {
    assert_eq!(fallback_title_from_path("song.flac"), "song");
}

#[test]
fn test_fallback_title_from_path_multiple_ext() {
    assert_eq!(fallback_title_from_path("/music/song.tar.gz"), "song.tar");
}

#[test]
fn test_fallback_title_from_path_empty() {
    assert_eq!(fallback_title_from_path(""), "");
}

#[test]
fn a_hidden_file_keeps_its_whole_name_as_title() {
    assert_eq!(fallback_title_from_path("/music/.hidden"), ".hidden");
}

#[test]
fn a_sort_name_moves_only_a_leading_article() {
    assert_eq!(compute_sort_name("Theatre of Tragedy"), "Theatre of Tragedy");
    assert_eq!(compute_sort_name("A"), "A");
}

fn roots() -> Vec<LocalRoot> {
    vec![
        LocalRoot { path: "/music".into(), source_id: 5, available: true },
        LocalRoot { path: "/music/more".into(), source_id: 6, available: true },
        LocalRoot { path: "/other".into(), source_id: 7, available: false },
    ]
}

#[test]
fn a_path_belongs_to_the_first_folder_holding_it() {
    let roots = roots();
    assert_eq!(source_for_path(&roots, "/music/more/a.flac"), 5);
    assert_eq!(source_for_path(&roots, "/other/b.flac"), 7);
    assert_eq!(root_for_path(&roots, "/other/b.flac").map(|r| r.source_id), Some(7));
}

#[test]
fn a_path_outside_every_folder_goes_to_the_placeholder() {
    let roots = roots();
    assert_eq!(source_for_path(&roots, "/musical/a.flac"), PLACEHOLDER_SOURCE_ID);
    assert!(root_for_path(&roots, "relative/a.flac").is_none());
    assert_eq!(source_for_path(&[], "/music/a.flac"), PLACEHOLDER_SOURCE_ID);
}

#[test]
fn the_no_metadata_bucket_has_no_name() {
    let a = no_metadata_artist(12);
    assert_eq!(a.id, pawse::NO_METADATA_ARTIST_ID);
    assert_eq!(a.name, "");
    assert_eq!(a.sort_name, "");
    assert_eq!(a.track_count, 12);
}

#[test]
fn membership_by_track_artist_reads_the_track_credits() {
    assert_eq!(
        artist_membership_sql(ArtistGrouping::TrackArtist),
        "SELECT artist_id, track_id, position FROM track_artists"
    );
    assert_eq!(
        membership_ctes(ArtistGrouping::TrackArtist),
        "m AS (SELECT artist_id, track_id, position FROM track_artists), u AS (SELECT * FROM m)"
    );
    assert!(membership_ctes(ArtistGrouping::AlbumArtist)
        .ends_with("), u AS (SELECT * FROM m UNION SELECT artist_id, track_id, position FROM track_artists)"));
}

#[test]
fn a_content_hash_is_lower_case_hex_sha256() {
    assert_eq!(
        sha256_hex(b"abc"),
        "ba7816bf8f01cfea414140de5dae2223b00361a396177a9cb410ff61f20015ad"
    );
    assert_eq!(
        sha256_hex(b""),
        "e3b0c44298fc1c149afbf4c8996fb92427ae41e4649b934ca495991b7852b855"
    );
}

#[test]
fn a_sidecar_sits_beside_the_database() {
    assert_eq!(sidecar("/data/library.db", ".bak-v9"), "/data/library.db.bak-v9");
}

fn item(id: i64) -> Identity {
    Identity {
        item_id: id,
        title: format!("t{id}"),
        artist: "a".into(),
        album: None,
        duration_ms: Some(1000),
        bindings: Vec::new(),
        cherished: false,
    }
}

fn facts(binding_id: i64) -> BindingFacts {
    BindingFacts {
        binding_id,
        source_id: 1,
        local: true,
        enabled: true,
        available: true,
        present: true,
        last_seen_scan: 0,
        file_size: None,
        start_offset_ms: 0,
        cue: false,
    }
}

#[test]
fn binding_rows_and_user_data_attach_to_their_items() {
    let ids = identities_from_rows(
        vec![item(1), item(2), item(3)],
        &[(2, facts(20)), (1, facts(10)), (2, facts(21)), (9, facts(90))],
        &[3, 7],
    );
    assert_eq!(ids.len(), 3);
    assert_eq!(ids[0].bindings.iter().map(|b| b.binding_id).collect::<Vec<_>>(), vec![10]);
    assert_eq!(ids[1].bindings.iter().map(|b| b.binding_id).collect::<Vec<_>>(), vec![20, 21]);
    assert!(ids[2].bindings.is_empty());
    assert!(!ids[0].cherished && !ids[1].cherished);
    assert!(ids[2].cherished);
    assert_eq!(ids[1].title, "t2");
}

#[test]
fn genres_are_trimmed_keyed_and_keep_their_place() {
    let genres = vec![" Rock ".to_string(), "  ".to_string(), "ÉLECTRO".to_string()];
    assert_eq!(
        genre_links(&genres),
        vec![
            ("Rock".to_string(), "rock".to_string(), 0),
            ("ÉLECTRO".to_string(), "électro".to_string(), 2),
        ]
    );
    assert!(genre_links(&[]).is_empty());
}

#[test]
fn test_set_track_genres_dedups_case_insensitively() {
    let links = genre_links(&["Ambient".into(), "ambient".into(), "  Techno  ".into()]);
    let names: Vec<&str> = links.iter().map(|(n, _, _)| n.as_str()).collect();
    assert_eq!(names, vec!["Ambient", "Techno"]);
    assert_eq!(links[1].2, 2);
}

#[test]
fn test_set_track_genres_skips_blank_names() {
    let links = genre_links(&["".into(), "   ".into(), "Jazz".into(), "\t\n".into()]);
    assert_eq!(links, vec![("Jazz".to_string(), "jazz".to_string(), 2)]);
}

#[test]
fn a_file_plays_from_its_path_and_a_server_track_from_its_locator() {
    assert_eq!(
        playback_locator(true, 1, "/m/a.flac", 5, None, None),
        ("/m/a.flac".to_string(), 5)
    );
    assert_eq!(
        playback_locator(false, 4, "abc", 0, Some("FLAC"), None),
        (pawse::remote::locator(4, "abc", "flac"), 0)
    );
}

#[test]
fn a_folder_prefix_ends_in_one_separator() {
    assert_eq!(folder_prefix("/music", '/'), "/music/");
    assert_eq!(folder_prefix("/music/", '/'), "/music/");
    assert_eq!(folder_prefix("", '/'), "/");
}
