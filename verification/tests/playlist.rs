use pawse::playlist::{set_liked, PlaylistTracks};

#[test]
fn test_add_track_to_playlist_is_idempotent() {
    let mut playlist = PlaylistTracks::new();
    playlist.add_track(7);
    playlist.add_track(7);
    assert_eq!(playlist.tracks().len(), 1);
}

#[test]
fn test_move_track_in_playlist_reorders_positions() {
    let (a, b, c) = (1, 2, 3);
    let mut playlist = PlaylistTracks::new();
    playlist.add_track(a);
    playlist.add_track(b);
    playlist.add_track(c);

    playlist.move_track(0, 2);
    assert_eq!(playlist.tracks(), &vec![b, c, a]);

    playlist.move_track(2, 0);
    assert_eq!(playlist.tracks(), &vec![a, b, c]);

    playlist.move_track(1, 1);
    assert_eq!(playlist.tracks(), &vec![a, b, c]);

    playlist.move_track(0, 9);
    assert_eq!(playlist.tracks(), &vec![a, b, c]);
}

#[test]
fn test_set_liked_toggles_flag() {
    let mut liked = PlaylistTracks::new();
    set_liked(&mut liked, 5, true);
    assert_eq!(liked.tracks(), &vec![5]);
    set_liked(&mut liked, 5, false);
    assert!(liked.tracks().is_empty());
}

#[test]
fn test_liked_reorder_persists_and_hidden_playlist_stays_invisible() {
    let (a, b, c) = (10, 20, 30);
    let mut liked = PlaylistTracks::new();
    set_liked(&mut liked, a, true);
    set_liked(&mut liked, b, true);
    set_liked(&mut liked, c, true);
    assert_eq!(liked.tracks(), &vec![a, b, c]);

    liked.move_track(0, 2);
    assert_eq!(liked.tracks(), &vec![b, c, a]);

    set_liked(&mut liked, c, false);
    assert_eq!(liked.tracks(), &vec![b, a]);
}

#[test]
fn test_like_many_appends_in_order_and_skips_duplicates() {
    let (a, b, c) = (1, 2, 3);
    let mut liked = PlaylistTracks::new();
    set_liked(&mut liked, a, true);

    liked.add_tracks(&[b, c, a]);
    assert_eq!(liked.tracks(), &vec![a, b, c]);

    set_liked(&mut liked, b, false);
    assert_eq!(liked.tracks(), &vec![a, c]);
}

#[test]
fn test_like_many_on_an_empty_slice_is_a_no_op() {
    let mut liked = PlaylistTracks::new();
    liked.add_tracks(&[]);
    assert!(liked.tracks().is_empty());
    assert_eq!(liked.position_of(1), None);
}

#[test]
fn removing_a_track_closes_the_gap() {
    let mut playlist = PlaylistTracks::from_tracks(vec![4, 5, 6, 7]).unwrap();
    playlist.remove_track(5);
    assert_eq!(playlist.tracks(), &vec![4, 6, 7]);
    assert_eq!(playlist.position_of(6), Some(1));
    playlist.remove_track(99);
    assert_eq!(playlist.tracks(), &vec![4, 6, 7]);
}

#[test]
fn a_track_listed_twice_is_refused() {
    assert!(PlaylistTracks::from_tracks(vec![1, 2, 1]).is_none());
    assert!(PlaylistTracks::from_tracks(vec![]).is_some());
}

#[test]
fn moving_forward_shifts_the_tracks_between_back() {
    let mut playlist = PlaylistTracks::from_tracks(vec![1, 2, 3, 4]).unwrap();
    playlist.move_track(3, 1);
    assert_eq!(playlist.tracks(), &vec![1, 4, 2, 3]);
    playlist.move_track(1, 3);
    assert_eq!(playlist.tracks(), &vec![1, 2, 3, 4]);
}
