use pawse::models::delivery_state::{DROPPED, PENDING, SENT};
use pawse::models::{DeliveryOutcome, NewLove, NewPlay};
use pawse::scrobble_log::{Delivery, PlayRecord, ScrobbleLog};

fn a_play(qualified: bool) -> NewPlay {
    NewPlay {
        track_id: None,
        artist: "Tool".into(),
        title: "Pneuma".into(),
        album: Some("Fear Inoculum".into()),
        album_artist: Some("Tool".into()),
        track_number: Some(2),
        duration_secs: Some(713),
        played_secs: Some(400),
        started_at: 1_700_000_000,
        qualified,
    }
}

fn a_play_at(qualified: bool, started_at: u64) -> NewPlay {
    NewPlay {
        started_at,
        ..a_play(qualified)
    }
}

fn a_love() -> NewLove {
    NewLove {
        track_id: None,
        artist: "Tool".into(),
        title: "Pneuma".into(),
        loved: true,
        at: 1_700_000_500,
    }
}

const NOW: i64 = 1_700_001_000;

#[test]
fn a_play_is_recorded_even_with_no_target_configured() {
    let mut log = ScrobbleLog::new();
    log.record_play(&a_play(true), &[], NOW);
    assert_eq!(log.play_records().len(), 1);
    assert_eq!(log.play_delivery_rows().len(), 0);
    assert_eq!(log.pending_scrobble_count(&["lastfm"]), 0);
}

#[test]
fn an_unqualified_play_is_history_only() {
    let mut log = ScrobbleLog::new();
    log.record_play(&a_play(false), &["lastfm", "csv_log"], NOW);
    assert_eq!(
        log.play_records()
            .iter()
            .filter(|r| !r.play.qualified)
            .count(),
        1
    );
    assert_eq!(log.play_delivery_rows().len(), 0);
}

#[test]
fn settling_one_target_keeps_the_play_pending_for_the_others() {
    let mut log = ScrobbleLog::new();
    let id = log.record_play(&a_play(true), &["lastfm", "listen_brainz"], NOW);

    log.settle_plays(&[id], "lastfm", &DeliveryOutcome::Sent, NOW);

    assert!(log.pending_plays("lastfm", 10).is_empty());
    assert_eq!(log.pending_plays("listen_brainz", 10).len(), 1);
    assert_eq!(log.pending_scrobble_count(&["lastfm", "listen_brainz"]), 1);
}

#[test]
fn pending_count_counts_an_item_once_and_ignores_unlisted_targets() {
    let mut log = ScrobbleLog::new();
    log.record_play(&a_play_at(true, 1), &["lastfm", "listen_brainz"], NOW);
    log.record_play(&a_play_at(true, 2), &["csv_log"], NOW);

    assert_eq!(log.pending_scrobble_count(&["lastfm", "listen_brainz"]), 1);
    assert_eq!(log.pending_scrobble_count(&["csv_log"]), 1);
    assert_eq!(log.pending_scrobble_count(&["lastfm", "csv_log"]), 2);
    assert_eq!(log.pending_scrobble_count(&[]), 0);
}

#[test]
fn a_deferred_delivery_stays_pending_and_keeps_its_error() {
    let mut log = ScrobbleLog::new();
    let id = log.record_play(&a_play(true), &["listen_brainz"], NOW);

    log.settle_plays(
        &[id],
        "listen_brainz",
        &DeliveryOutcome::Deferred("unverified email".into()),
        NOW,
    );

    assert_eq!(log.pending_plays("listen_brainz", 10).len(), 1);
    let row = &log.play_delivery_rows()[0];
    assert_eq!(row.last_error.as_deref(), Some("unverified email"));
    assert_eq!(row.attempts, 1);
}

#[test]
fn a_dropped_delivery_leaves_the_queue_but_not_the_history() {
    let mut log = ScrobbleLog::new();
    let id = log.record_play(&a_play(true), &["lastfm"], NOW);

    log.settle_plays(&[id], "lastfm", &DeliveryOutcome::Dropped("bad params".into()), NOW);

    assert!(log.pending_plays("lastfm", 10).is_empty());
    assert_eq!(log.play_records().len(), 1);
    assert_eq!(log.play_delivery_rows()[0].state, DROPPED);
}

#[test]
fn loves_round_trip_with_their_own_timestamp() {
    let mut log = ScrobbleLog::new();
    let id = log.record_love(&a_love(), &["lastfm"], NOW);

    let pending = log.pending_loves("lastfm", 10);
    assert_eq!(pending.len(), 1);
    assert_eq!(pending[0].id, id);
    assert!(pending[0].loved);
    assert_eq!(pending[0].at, 1_700_000_500);
    assert_eq!(log.pending_scrobble_count(&["lastfm"]), 1);

    log.settle_loves(&[id], "lastfm", &DeliveryOutcome::Sent, NOW);
    assert_eq!(log.pending_scrobble_count(&["lastfm"]), 0);
}

#[test]
fn trimming_drops_the_oldest_deliveries_but_never_the_history() {
    let mut log = ScrobbleLog::new();
    for n in 0..5 {
        log.record_play(&a_play_at(true, n), &["lastfm"], NOW);
    }

    let dropped = log.trim_pending_deliveries(2, NOW);

    assert_eq!(dropped, 3);
    assert_eq!(log.pending_plays("lastfm", 10).len(), 2);
    assert_eq!(log.play_records().len(), 5);
    assert_eq!(
        log.play_delivery_rows()
            .iter()
            .filter(|d| d.last_error.as_deref() == Some("queue overflow"))
            .count(),
        3
    );
}

#[test]
fn trimming_under_the_cap_changes_nothing() {
    let mut log = ScrobbleLog::new();
    log.record_play(&a_play(true), &["lastfm"], NOW);
    assert_eq!(log.trim_pending_deliveries(5000, NOW), 0);
    assert_eq!(log.pending_plays("lastfm", 10).len(), 1);
}

#[test]
fn pending_plays_come_back_oldest_first() {
    let mut log = ScrobbleLog::new();
    for n in 0..3u64 {
        let mut play = a_play(true);
        play.started_at = 1_700_000_000 + n;
        log.record_play(&play, &["lastfm"], NOW);
    }
    let pending = log.pending_plays("lastfm", 2);
    assert_eq!(pending.len(), 2);
    assert_eq!(pending[0].started_at, 1_700_000_000);
    assert_eq!(pending[1].started_at, 1_700_000_001);
}

#[test]
fn the_cap_counts_items_not_delivery_rows() {
    let mut log = ScrobbleLog::new();
    let targets = ["lastfm", "listen_brainz", "csv_log"];
    for n in 0..5 {
        log.record_play(&a_play_at(true, n), &targets, NOW);
    }
    assert_eq!(log.play_delivery_rows().len(), 15);

    let dropped = log.trim_pending_deliveries(4, NOW);

    assert_eq!(dropped, 1, "one play over the cap of four");
    assert_eq!(
        log.pending_scrobble_count(&targets),
        4,
        "the cap must mean plays, the same unit the badge reports"
    );
    assert_eq!(
        log.play_delivery_rows()
            .iter()
            .filter(|d| d.state == PENDING)
            .count(),
        12,
        "all three delivery rows of the dropped play go together"
    );
    assert_eq!(log.play_records().len(), 5);
}

#[test]
fn recording_the_same_listen_twice_merges_and_never_shrinks_it() {
    let mut log = ScrobbleLog::new();
    let mut early = a_play(true);
    early.played_secs = Some(200);
    let first = log.record_play(&early, &["lastfm"], NOW);

    let mut total = a_play(true);
    total.played_secs = Some(500);
    let second = log.record_play(&total, &["lastfm"], NOW);

    assert_eq!(first, second, "one listen is one row");
    assert_eq!(log.play_records().len(), 1);
    assert_eq!(log.play_records()[0].play.played_secs, Some(500));
    assert_eq!(
        log.play_delivery_rows().len(),
        1,
        "and it is owed to last.fm once, not twice"
    );

    let mut shorter = a_play(true);
    shorter.played_secs = Some(120);
    log.record_play(&shorter, &["lastfm"], NOW);
    assert_eq!(
        log.play_records()[0].play.played_secs,
        Some(500),
        "a late commit must never shrink what was already recorded"
    );
}

#[test]
fn an_unqualified_listen_can_be_upgraded_when_it_later_qualifies() {
    let mut log = ScrobbleLog::new();
    log.record_play(&a_play(false), &["lastfm"], NOW);
    assert_eq!(log.play_delivery_rows().len(), 0);

    log.record_play(&a_play(true), &["lastfm"], NOW);

    assert!(log.play_records()[0].play.qualified);
    assert_eq!(log.pending_scrobble_count(&["lastfm"]), 1);
}

#[test]
fn a_settled_delivery_is_not_reopened_by_a_late_settle() {
    let mut log = ScrobbleLog::new();
    let id = log.record_play(&a_play(true), &["lastfm"], NOW);
    log.settle_plays(&[id], "lastfm", &DeliveryOutcome::Sent, NOW);

    log.settle_plays(&[id], "lastfm", &DeliveryOutcome::Dropped("late".into()), NOW);

    assert_eq!(log.play_delivery_rows()[0].state, SENT);
    assert_eq!(log.play_delivery_rows()[0].attempts, 1);
}

#[test]
fn new_records_take_ids_past_the_newest() {
    let mut log = ScrobbleLog::new();
    assert_eq!(log.record_play(&a_play_at(true, 10), &[], NOW), 1);
    assert_eq!(log.record_play(&a_play_at(true, 11), &[], NOW), 2);
    assert_eq!(log.record_love(&a_love(), &[], NOW), 1);
    assert_eq!(log.record_love(&a_love(), &[], NOW), 2);
}

#[test]
fn merging_a_listen_without_played_time_records_zero() {
    let mut log = ScrobbleLog::new();
    let mut p = a_play(true);
    p.played_secs = None;
    log.record_play(&p, &[], NOW);
    assert_eq!(log.play_records()[0].play.played_secs, None);
    log.record_play(&p, &[], NOW);
    assert_eq!(log.play_records()[0].play.played_secs, Some(0));
}

#[test]
fn trimming_drops_listens_before_loves() {
    let mut log = ScrobbleLog::new();
    log.record_love(&a_love(), &["lastfm"], NOW);
    log.record_play(&a_play_at(true, 1), &["lastfm"], NOW);
    log.record_play(&a_play_at(true, 2), &["lastfm"], NOW);
    assert_eq!(log.trim_pending_deliveries(1, NOW), 2);
    assert!(log.pending_plays("lastfm", 10).is_empty());
    assert_eq!(log.pending_loves("lastfm", 10).len(), 1);
    assert_eq!(log.trim_pending_deliveries(0, NOW), 1);
    assert!(log.pending_loves("lastfm", 10).is_empty());
}

#[test]
fn a_deferred_settle_counts_each_attempt() {
    let mut log = ScrobbleLog::new();
    let id = log.record_play(&a_play(true), &["lastfm"], NOW);
    log.settle_plays(&[id, id], "lastfm", &DeliveryOutcome::Deferred("busy".into()), NOW + 5);
    let row = &log.play_delivery_rows()[0];
    assert_eq!(row.state, PENDING);
    assert_eq!(row.attempts, 2);
    assert_eq!(row.updated_at, NOW + 5);
}

#[test]
fn rows_out_of_order_are_refused() {
    let row = |item: i64, target: &str| Delivery {
        item,
        target: target.into(),
        state: PENDING,
        attempts: 0,
        last_error: None,
        updated_at: 0,
    };
    let plays = vec![PlayRecord { id: 1, play: a_play_at(true, 1) }, PlayRecord { id: 2, play: a_play_at(true, 2) }];
    assert!(ScrobbleLog::from_rows(plays.clone(), vec![], vec![row(1, "a"), row(2, "a")], vec![]).is_some());
    assert!(ScrobbleLog::from_rows(plays.clone(), vec![], vec![row(2, "a"), row(1, "a")], vec![]).is_none());
    assert!(ScrobbleLog::from_rows(plays.clone(), vec![], vec![row(1, "a"), row(1, "a")], vec![]).is_none());
    let twice = vec![PlayRecord { id: 1, play: a_play_at(true, 1) }, PlayRecord { id: 2, play: a_play_at(true, 1) }];
    assert!(ScrobbleLog::from_rows(twice, vec![], vec![], vec![]).is_none());
    let backwards = vec![PlayRecord { id: 2, play: a_play_at(true, 1) }, PlayRecord { id: 1, play: a_play_at(true, 2) }];
    assert!(ScrobbleLog::from_rows(backwards, vec![], vec![], vec![]).is_none());
}
