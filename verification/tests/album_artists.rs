use pawse::album_artists::{
    album_artist_rows, derive_album_artists, derive_album_artists_lowered, group_album_tracks,
    AlbumTrackArtists, DerivedAlbumArtists,
};
use std::collections::HashMap;

fn track(artists: &[(i64, &str)]) -> AlbumTrackArtists {
    AlbumTrackArtists {
        explicit: Vec::new(),
        artists: artists.iter().map(|(id, n)| (*id, n.to_string())).collect(),
    }
}

fn tagged(explicit: &[i64], artists: &[(i64, &str)]) -> AlbumTrackArtists {
    AlbumTrackArtists {
        explicit: explicit.to_vec(),
        ..track(artists)
    }
}

fn derived(ids: &[i64], known: bool) -> DerivedAlbumArtists {
    DerivedAlbumArtists {
        artist_ids: ids.to_vec(),
        known,
    }
}

#[test]
fn the_first_track_carrying_a_tag_names_the_album() {
    let tracks = [
        track(&[(1, "Opener")]),
        tagged(&[9], &[(2, "Guest")]),
        tagged(&[8], &[(2, "Guest")]),
    ];
    assert_eq!(derive_album_artists(&tracks), derived(&[9], true));
}

#[test]
fn a_shared_primary_with_guest_suffixes_is_the_album_artist() {
    let tracks = [
        track(&[(1, "Limp Bizkit")]),
        track(&[(2, "Limp Bizkit Feat. Method Man")]),
        track(&[]),
        track(&[(3, "Limp Bizkit Feat. Xzibit")]),
        track(&[(1, "Limp Bizkit")]),
    ];
    assert_eq!(derive_album_artists(&tracks), derived(&[1], true));
}

#[test]
fn a_slash_in_the_name_does_not_split_it() {
    let tracks = [track(&[(1, "AC/DC")]), track(&[(2, "AC/DC & Friends")])];
    assert_eq!(derive_album_artists(&tracks), derived(&[1], true));
    let no_standalone = [
        track(&[(2, "AC/DC & Friends")]),
        track(&[(3, "AC/DC feat. Someone")]),
    ];
    assert_eq!(derive_album_artists(&no_standalone), derived(&[2], false));
}

#[test]
fn a_word_prefix_is_not_a_shared_artist() {
    let tracks = [track(&[(1, "Sonic Youth")]), track(&[(2, "Sonic Boom")])];
    assert_eq!(derive_album_artists(&tracks), derived(&[1], false));
    let tracks = [track(&[(1, "Limp")]), track(&[(2, "Limp Bizkit")])];
    assert_eq!(derive_album_artists(&tracks), derived(&[1], false));
}

#[test]
fn two_artists_sharing_a_first_word_stay_apart() {
    for pair in [
        [(1, "Queen"), (2, "Queen Latifah")],
        [(1, "Pink"), (2, "Pink Floyd")],
        [(1, "The Who"), (2, "The Whitest Boy Alive")],
    ] {
        let tracks = [track(&pair[..1]), track(&pair[1..])];
        assert_eq!(derive_album_artists(&tracks), derived(&[1], false), "{pair:?}");
    }
}

#[test]
fn a_hyphen_inside_a_name_is_not_a_guest_marker() {
    for pair in [
        [(1, "Jay"), (2, "Jay-Z")],
        [(1, "Wu"), (2, "Wu-Tang Clan")],
        [(1, "T"), (2, "T-Pain")],
    ] {
        let tracks = [track(&pair[..1]), track(&pair[1..])];
        assert_eq!(derive_album_artists(&tracks), derived(&[1], false), "{pair:?}");
    }
    let spaced = [track(&[(1, "Band")]), track(&[(2, "Band - Guest")])];
    assert_eq!(derive_album_artists(&spaced), derived(&[1], true));
}

#[test]
fn a_guest_marker_is_matched_whatever_the_casing() {
    let tracks = [
        track(&[(1, "band")]),
        track(&[(2, "Band FEAT. Guest")]),
        track(&[(3, "BAND with Another")]),
    ];
    assert_eq!(derive_album_artists(&tracks), derived(&[1], true));
}

#[test]
fn two_standalone_artists_make_a_compilation() {
    let tracks = [
        track(&[(1, "Two Feathers")]),
        track(&[(2, "Mikael Stanne")]),
        track(&[(3, "Two Feathers/Mikael Stanne")]),
    ];
    assert_eq!(derive_album_artists(&tracks), derived(&[1], false));
}

#[test]
fn identical_multi_value_credits_are_kept_whole() {
    let tracks = [
        track(&[(1, "Simon"), (2, "Garfunkel")]),
        track(&[(1, "Simon"), (2, "Garfunkel")]),
    ];
    assert_eq!(derive_album_artists(&tracks), derived(&[1, 2], true));
    let with_guest = [track(&[(1, "Band")]), track(&[(1, "Band"), (3, "Guest")])];
    assert_eq!(derive_album_artists(&with_guest), derived(&[1], true));
}

#[test]
fn no_artists_at_all_yields_nothing() {
    assert_eq!(derive_album_artists(&[track(&[]), track(&[])]), derived(&[], false));
    assert_eq!(derive_album_artists(&[]), derived(&[], false));
}

#[test]
fn rows_of_one_album_in_a_row_make_one_album() {
    let rows = [(1, 100), (2, 100), (3, 200), (4, 100)];
    let mut explicit = HashMap::new();
    explicit.insert(2, vec![7]);
    let mut credited = HashMap::new();
    credited.insert(1, vec![(5, "Five".to_string())]);
    credited.insert(3, vec![(6, "Six".to_string())]);

    let albums = group_album_tracks(&rows, explicit, credited);

    let shape: Vec<(i64, usize)> = albums.iter().map(|(a, t)| (*a, t.len())).collect();
    assert_eq!(shape, vec![(100, 2), (200, 1), (100, 1)]);
    assert_eq!(albums[0].1[0].artists, vec![(5, "Five".to_string())]);
    assert!(albums[0].1[0].explicit.is_empty());
    assert_eq!(albums[0].1[1].explicit, vec![7]);
    assert_eq!(albums[1].1[0].artists, vec![(6, "Six".to_string())]);
    assert!(albums[2].1[0].artists.is_empty());
}

#[test]
fn a_track_named_twice_gets_its_credits_once() {
    let rows = [(1, 100), (1, 100)];
    let mut explicit = HashMap::new();
    explicit.insert(1, vec![3]);
    let albums = group_album_tracks(&rows, explicit, HashMap::new());
    assert_eq!(albums[0].1[0].explicit, vec![3]);
    assert!(albums[0].1[1].explicit.is_empty());
}

#[test]
fn each_album_gets_the_artists_its_tracks_derive() {
    let albums = vec![
        (10, vec![tagged(&[9], &[(1, "One")])]),
        (11, vec![track(&[(2, "Two")]), track(&[(2, "Two")])]),
    ];
    let r = album_artist_rows(&albums);
    assert_eq!(r.len(), 2);
    assert_eq!(r[0], (10, derived(&[9], true)));
    assert_eq!(r[1].0, 11);
    assert_eq!(r[1].1, derive_album_artists(&albums[1].1));
}

#[test]
fn the_album_artist_is_found_by_the_lowered_names_given() {
    let tracks = [
        track(&[(1, "Alpha")]),
        track(&[(2, "Alpha & Beta")]),
        track(&[]),
    ];
    let lowered: Vec<String> = vec!["x".into(), "x & y".into(), String::new()];
    assert_eq!(derive_album_artists_lowered(&tracks, &lowered), derived(&[1], true));
    let unrelated: Vec<String> = vec!["x".into(), "z & y".into(), String::new()];
    assert_eq!(derive_album_artists_lowered(&tracks, &unrelated), derived(&[1], false));
    assert_eq!(derive_album_artists(&tracks), derived(&[1], true));
}
