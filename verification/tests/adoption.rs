use pawse::adoption::{match_normalized, match_tracks, normal_tags, normalize_tag, Descriptor, NormalTags, Tier};

fn track(item_id: i64, artist: &str, title: &str, duration_ms: Option<i64>) -> Descriptor {
    Descriptor {
        item_id,
        title: title.into(),
        artist: artist.into(),
        album: Some("Album".into()),
        duration_ms,
        ..Default::default()
    }
}

fn arrival(artist: &str, title: &str, duration_ms: Option<i64>) -> Descriptor {
    Descriptor {
        sources: vec![1],
        ..track(0, artist, title, duration_ms)
    }
}

fn sized(mut descriptor: Descriptor, size: i64, offset: i64) -> Descriptor {
    descriptor.files.push((size, offset));
    descriptor
}

#[test]
fn normalization_ignores_case_and_spacing() {
    assert_eq!(normalize_tag("  Boards   of Canada "), "boards of canada");
}

#[test]
fn the_same_file_matches_without_any_tags() {
    let got = match_tracks(
        &[sized(arrival("", "01", Some(60_000)), 1234, 0)],
        &[sized(track(7, "", "track 01", Some(60_500)), 1234, 0)],
    );
    assert_eq!(got, vec![Some((7, Tier::File))]);
}

#[test]
fn cue_tracks_of_one_image_are_told_apart_by_offset() {
    let got = match_tracks(
        &[
            sized(arrival("", "b", Some(30_000)), 900, 60_000),
            sized(arrival("", "a", Some(60_000)), 900, 0),
        ],
        &[
            sized(track(1, "", "x", Some(60_000)), 900, 0),
            sized(track(2, "", "y", Some(30_000)), 900, 60_000),
        ],
    );
    assert_eq!(got, vec![Some((2, Tier::File)), Some((1, Tier::File))]);
}

#[test]
fn a_file_match_still_needs_a_close_duration() {
    let got = match_tracks(
        &[sized(arrival("", "01", Some(60_000)), 1234, 0)],
        &[sized(track(7, "", "01", Some(90_000)), 1234, 0)],
    );
    assert_eq!(got, vec![None]);
}

#[test]
fn untagged_files_of_different_sizes_never_match() {
    let got = match_tracks(
        &[sized(arrival("", "01", Some(60_000)), 1, 0)],
        &[sized(track(7, "", "01", Some(60_000)), 2, 0)],
    );
    assert_eq!(got, vec![None]);
}

#[test]
fn tags_prefer_the_same_file_then_the_closest_duration() {
    let got = match_tracks(
        &[sized(arrival("Artist", "Song", Some(200_000)), 50, 0)],
        &[
            track(3, "artist", "song", Some(200_000)),
            track(9, "ARTIST", "Song", Some(200_500)),
        ],
    );
    assert_eq!(got, vec![Some((3, Tier::Tags))]);
    let got = match_tracks(
        &[sized(arrival("Artist", "Song", Some(200_000)), 50, 0)],
        &[
            track(3, "artist", "song", Some(204_000)),
            sized(track(9, "ARTIST", "Song", Some(203_000)), 51, 0),
        ],
    );
    assert_eq!(got, vec![Some((9, Tier::Tags))]);
}

#[test]
fn a_candidate_already_held_by_the_same_source_is_skipped() {
    let mut held = track(3, "Artist", "Song", Some(200_000));
    held.sources = vec![1];
    let mut elsewhere = track(4, "Artist", "Song", Some(200_000));
    elsewhere.sources = vec![2];
    assert_eq!(
        match_tracks(
            &[arrival("Artist", "Song", Some(200_000))],
            std::slice::from_ref(&held)
        ),
        vec![None]
    );
    assert_eq!(
        match_tracks(&[arrival("Artist", "Song", Some(200_000))], &[held, elsewhere]),
        vec![Some((4, Tier::Tags))]
    );
}

#[test]
fn a_candidate_is_claimed_only_once() {
    let got = match_tracks(
        &[
            arrival("Artist", "Song", Some(200_000)),
            arrival("Artist", "Song", Some(200_000)),
        ],
        &[track(3, "Artist", "Song", Some(200_000))],
    );
    assert_eq!(got, vec![Some((3, Tier::Tags)), None]);
}

#[test]
fn a_stronger_tier_claims_its_candidate_before_a_weaker_one() {
    let mut retitled_album = arrival("Artist", "Song", Some(200_000));
    retitled_album.album = Some("Other".into());
    let got = match_tracks(
        &[retitled_album, arrival("Artist", "Song", Some(200_000))],
        &[track(3, "Artist", "Song", Some(200_000))],
    );
    assert_eq!(got, vec![None, Some((3, Tier::Tags))]);
}

#[test]
fn an_artist_alias_matches_when_the_main_credit_does_not() {
    let mut split = arrival("Limp Bizkit", "Song", Some(200_000));
    split.artist_aliases = vec!["Limp Bizkit Feat. Method Man".into()];
    let got = match_tracks(
        &[split],
        &[track(5, "Limp Bizkit Feat. Method Man", "Song", Some(200_000))],
    );
    assert_eq!(got, vec![Some((5, Tier::Tags))]);
}

#[test]
fn a_live_item_is_never_claimed_on_title_alone() {
    let mut elsewhere = arrival("Artist", "Song", Some(200_000));
    elsewhere.album = Some("Live".into());
    let mut live = track(4, "Artist", "Song", Some(201_000));
    live.live = true;
    assert_eq!(
        match_tracks(std::slice::from_ref(&elsewhere), std::slice::from_ref(&live)),
        vec![None]
    );
    live.album = Some("Live".into());
    assert_eq!(match_tracks(&[elsewhere], &[live]), vec![Some((4, Tier::Tags))]);
}

#[test]
fn the_title_tier_needs_a_close_known_duration() {
    let mut elsewhere = arrival("Artist", "Song", Some(200_000));
    elsewhere.album = Some("Live".into());
    let mut unknown = elsewhere.clone();
    unknown.duration_ms = None;
    let far = track(3, "Artist", "Song", Some(260_000));
    assert_eq!(match_tracks(std::slice::from_ref(&elsewhere), &[far]), vec![None]);
    let near = track(4, "Artist", "Song", Some(203_000));
    assert_eq!(
        match_tracks(std::slice::from_ref(&elsewhere), std::slice::from_ref(&near)),
        vec![Some((4, Tier::Title))]
    );
    assert_eq!(match_tracks(&[unknown], &[near]), vec![None]);
}

#[test]
fn the_closest_arrival_wins_whatever_order_they_come_in() {
    let far = arrival("Artist", "Song", Some(204_000));
    let near = arrival("Artist", "Song", Some(200_000));
    let lost = track(3, "Artist", "Song", Some(200_000));
    assert_eq!(match_tracks(&[far, near], &[lost]), vec![None, Some((3, Tier::Tags))]);
}

#[test]
fn an_item_never_matches_itself() {
    let mut me = track(4, "Artist", "Song", Some(200_000));
    me.sources = vec![2];
    let other = track(4, "Artist", "Song", Some(200_000));
    assert_eq!(match_tracks(&[me], &[other]), vec![None]);
}

#[test]
fn tier_names_are_stable() {
    assert_eq!(Tier::File.as_str(), "file");
    assert_eq!(Tier::Tags.as_str(), "tags");
    assert_eq!(Tier::Title.as_str(), "title");
}

#[test]
fn a_result_per_arrival_even_without_candidates() {
    let got = match_tracks(&[arrival("A", "B", Some(1)), arrival("C", "D", None)], &[]);
    assert_eq!(got, vec![None, None]);
}

#[test]
fn matching_gives_the_same_answer_twice() {
    let arrivals = [
        arrival("Artist", "Song", Some(200_000)),
        sized(arrival("", "x", Some(1_000)), 10, 0),
    ];
    let candidates = [
        track(3, "Artist", "Song", Some(201_000)),
        sized(track(4, "", "y", Some(1_500)), 10, 0),
    ];
    assert_eq!(match_tracks(&arrivals, &candidates), match_tracks(&arrivals, &candidates));
    assert_eq!(
        match_tracks(&arrivals, &candidates),
        vec![Some((3, Tier::Tags)), Some((4, Tier::File))]
    );
}

#[test]
fn a_normalized_tag_is_single_spaced_and_stable() {
    let once = pawse::adoption::normalize_tag("  The \t Beatles\n ");
    assert_eq!(once, "the beatles");
    assert_eq!(pawse::adoption::normalize_tag(&once), once);
}

fn texts(credits: &[&str], title: &str, album: &str) -> NormalTags {
    NormalTags {
        credits: credits.iter().map(|c| c.to_string()).collect(),
        title: title.into(),
        album: album.into(),
    }
}

#[test]
fn the_normalized_texts_of_a_descriptor_cover_every_credit() {
    let mut d = track(3, "  The  Band ", "Song  One", None);
    d.artist_aliases = vec!["BAND".into()];
    assert_eq!(normal_tags(&d), texts(&["the band", "band"], "song one", "album"));
    d.album = None;
    assert_eq!(normal_tags(&d).album, "");
}

#[test]
fn matching_compares_the_texts_it_is_given() {
    let arrivals = [arrival("x", "y", Some(60_000))];
    let candidates = [track(7, "p", "q", Some(60_000)), track(8, "r", "s", Some(60_000))];
    let got = match_normalized(
        &arrivals,
        &candidates,
        &[texts(&["", "band"], "song", "album")],
        &[texts(&["band"], "song", "other"), texts(&["band"], "song", "album")],
    );
    assert_eq!(got, vec![Some((8, Tier::Tags))]);
    let got = match_normalized(
        &arrivals,
        &candidates,
        &[texts(&["band"], "song", "album")],
        &[texts(&["band"], "song", "other"), texts(&["solo"], "song", "album")],
    );
    assert_eq!(got, vec![Some((7, Tier::Title))]);
    let got = match_normalized(
        &arrivals,
        &candidates,
        &[texts(&[""], "song", "album")],
        &[texts(&[""], "song", "album"), texts(&[""], "song", "album")],
    );
    assert_eq!(got, vec![None]);
}
