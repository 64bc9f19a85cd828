use pawse::discord_bridge::{started_at, step, BridgeAction, BridgeEvent, BridgeState};

fn idle() -> BridgeState {
    BridgeState { has_current: false, playing: false, anchor_pos_ms: 0, anchor_wall_ms: 0 }
}

#[test]
fn a_loaded_track_that_plays_is_shown_from_its_start() {
    let (st, action) = step(idle(), true, BridgeEvent::Loaded { has_meta: true, playing: true, now_ms: 1000 });
    assert_eq!(action, BridgeAction::Send { position_ms: 0 });
    assert!(st.has_current && st.playing);
    assert_eq!((st.anchor_pos_ms, st.anchor_wall_ms), (0, 1000));
}

#[test]
fn playback_that_goes_on_is_not_sent_again_but_a_seek_is() {
    let (st, _) = step(idle(), true, BridgeEvent::Loaded { has_meta: true, playing: true, now_ms: 1000 });
    let (same, nothing) = step(st, true, BridgeEvent::PositionChanged { position_ms: 10_500, now_ms: 11_000 });
    assert_eq!(nothing, BridgeAction::Nothing);
    assert_eq!(same, st);
    let (moved, send) = step(st, true, BridgeEvent::PositionChanged { position_ms: 60_000, now_ms: 11_000 });
    assert_eq!(send, BridgeAction::Send { position_ms: 60_000 });
    assert_eq!((moved.anchor_pos_ms, moved.anchor_wall_ms), (60_000, 11_000));
}

#[test]
fn a_pause_clears_the_status_and_playing_shows_it_again() {
    let (st, _) = step(idle(), true, BridgeEvent::Loaded { has_meta: true, playing: true, now_ms: 0 });
    let (paused, clear) = step(st, true, BridgeEvent::Paused);
    assert_eq!(clear, BridgeAction::Clear);
    assert!(!paused.playing && paused.has_current);
    let (_, send) = step(paused, true, BridgeEvent::Playing { position_ms: 5000, now_ms: 9000 });
    assert_eq!(send, BridgeAction::Send { position_ms: 5000 });
}

#[test]
fn the_end_of_the_queue_and_errors_clear_the_status() {
    let (st, _) = step(idle(), true, BridgeEvent::Seed { has_meta: true, playing: true, position_ms: 3, now_ms: 4 });
    assert_eq!(step(st, true, BridgeEvent::Ended { has_current_track: true }).1, BridgeAction::Nothing);
    let (gone, clear) = step(st, true, BridgeEvent::Ended { has_current_track: false });
    assert_eq!(clear, BridgeAction::Clear);
    assert!(!gone.has_current && !gone.playing);
    assert_eq!(step(st, true, BridgeEvent::Error).1, BridgeAction::Clear);
}

#[test]
fn a_switched_off_status_ignores_playback() {
    let (st, action) = step(idle(), false, BridgeEvent::Playing { position_ms: 1, now_ms: 2 });
    assert_eq!((st, action), (idle(), BridgeAction::Nothing));
    assert_eq!(step(idle(), false, BridgeEvent::Disabled).1, BridgeAction::Clear);
}

#[test]
fn a_status_starts_when_the_track_started() {
    assert_eq!(started_at(1_000_000, 75), 999_925);
}
