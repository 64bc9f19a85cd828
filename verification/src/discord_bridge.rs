//! What the Discord status does as playback moves: when it shows the current
//! track, from which position, and when it is cleared.
use vstd::prelude::*;

verus! {

/// How far, in milliseconds, the reported position may drift from the one
/// the status counts from before the status is sent again (a seek).
pub const SEEK_THRESHOLD_MS: u64 = 2500;

/// What the bridge knows: whether a track is current, whether it plays, and
/// the position (in ms) it played at the wall-clock time `anchor_wall_ms`.
#[derive(Clone, Copy, Debug, PartialEq, Eq, Structural)]
pub struct BridgeState {
    pub has_current: bool,
    pub playing: bool,
    pub anchor_pos_ms: u64,
    pub anchor_wall_ms: u64,
}

/// What happens, with what the bridge read when it happened.
#[derive(Clone, Copy, Debug, PartialEq, Eq, Structural)]
pub enum BridgeEvent {
    /// A track was loaded; `has_meta` tells whether it could be described.
    Loaded { has_meta: bool, playing: bool, now_ms: u64 },
    Playing { position_ms: u64, now_ms: u64 },
    Paused,
    PositionChanged { position_ms: u64, now_ms: u64 },
    /// Playback ended or stopped; `has_current_track` tells whether the
    /// queue still has a current track.
    Ended { has_current_track: bool },
    Error,
    /// The status was switched on, or the app started, with this playback.
    Seed { has_meta: bool, playing: bool, position_ms: u64, now_ms: u64 },
    /// The status was switched off.
    Disabled,
    Other,
}

/// What the bridge does with the status.
#[derive(Clone, Copy, Debug, PartialEq, Eq, Structural)]
pub enum BridgeAction {
    Nothing,
    /// Show the current track, started `position_ms` ago.
    Send { position_ms: u64 },
    Clear,
}

pub open spec fn cleared(st: BridgeState) -> BridgeState {
    BridgeState {
        has_current: false,
        playing: false,
        anchor_pos_ms: st.anchor_pos_ms,
        anchor_wall_ms: st.anchor_wall_ms,
    }
}

/// The position the status counts from at wall-clock time `now_ms`.
pub open spec fn expected_position(st: BridgeState, now_ms: u64) -> int {
    st.anchor_pos_ms + if now_ms >= st.anchor_wall_ms {
        now_ms - st.anchor_wall_ms
    } else {
        0
    }
}

/// Whether the event can be handled without an overflow of the position.
pub open spec fn event_fits(st: BridgeState, ev: BridgeEvent) -> bool {
    match ev {
        BridgeEvent::PositionChanged { position_ms: _, now_ms } => expected_position(st, now_ms)
            <= u64::MAX,
        _ => true,
    }
}

/// The state and action after `ev` while the status is switched on (`active`);
/// a bridge that is off ignores everything but being switched off.
pub open spec fn bridge_step(st: BridgeState, active: bool, ev: BridgeEvent) -> (
    BridgeState,
    BridgeAction,
) {
    match ev {
        BridgeEvent::Disabled => (cleared(st), BridgeAction::Clear),
        _ => if !active {
            (st, BridgeAction::Nothing)
        } else {
            match ev {
                BridgeEvent::Loaded { has_meta, playing, now_ms } => if has_meta {
                    let next = BridgeState {
                        has_current: true,
                        playing,
                        anchor_pos_ms: 0,
                        anchor_wall_ms: now_ms,
                    };
                    if playing {
                        (next, BridgeAction::Send { position_ms: 0 })
                    } else if !st.playing {
                        (next, BridgeAction::Clear)
                    } else {
                        (next, BridgeAction::Nothing)
                    }
                } else {
                    (cleared(st), BridgeAction::Clear)
                },
                BridgeEvent::Playing { position_ms, now_ms } => {
                    let next = BridgeState {
                        has_current: st.has_current,
                        playing: true,
                        anchor_pos_ms: position_ms,
                        anchor_wall_ms: now_ms,
                    };
                    if st.has_current {
                        (next, BridgeAction::Send { position_ms })
                    } else {
                        (next, BridgeAction::Nothing)
                    }
                },
                BridgeEvent::Paused => (
                    BridgeState {
                        has_current: st.has_current,
                        playing: false,
                        anchor_pos_ms: st.anchor_pos_ms,
                        anchor_wall_ms: st.anchor_wall_ms,
                    },
                    BridgeAction::Clear,
                ),
                BridgeEvent::PositionChanged { position_ms, now_ms } => {
                    if !st.playing || !st.has_current {
                        (st, BridgeAction::Nothing)
                    } else {
                        let e = expected_position(st, now_ms);
                        let drift = if position_ms >= e {
                            position_ms - e
                        } else {
                            e - position_ms
                        };
                        if drift > SEEK_THRESHOLD_MS {
                            (
                                BridgeState {
                                    has_current: st.has_current,
                                    playing: st.playing,
                                    anchor_pos_ms: position_ms,
                                    anchor_wall_ms: now_ms,
                                },
                                BridgeAction::Send { position_ms },
                            )
                        } else {
                            (st, BridgeAction::Nothing)
                        }
                    }
                },
                BridgeEvent::Ended { has_current_track } => if has_current_track {
                    (st, BridgeAction::Nothing)
                } else {
                    (cleared(st), BridgeAction::Clear)
                },
                BridgeEvent::Error => (cleared(st), BridgeAction::Clear),
                BridgeEvent::Seed { has_meta, playing, position_ms, now_ms } => if has_meta {
                    let next = BridgeState {
                        has_current: true,
                        playing,
                        anchor_pos_ms: position_ms,
                        anchor_wall_ms: now_ms,
                    };
                    if playing {
                        (next, BridgeAction::Send { position_ms })
                    } else {
                        (next, BridgeAction::Nothing)
                    }
                } else {
                    (st, BridgeAction::Nothing)
                },
                _ => (st, BridgeAction::Nothing),
            }
        },
    }
}

fn clear(st: BridgeState) -> (r: (BridgeState, BridgeAction))
    ensures
        r == (cleared(st), BridgeAction::Clear),
{
    (
        BridgeState {
            has_current: false,
            playing: false,
            anchor_pos_ms: st.anchor_pos_ms,
            anchor_wall_ms: st.anchor_wall_ms,
        },
        BridgeAction::Clear,
    )
}

/// The state and action after `ev`.
pub fn step(st: BridgeState, active: bool, ev: BridgeEvent) -> (r: (BridgeState, BridgeAction))
    requires
        event_fits(st, ev),
    ensures
        r == bridge_step(st, active, ev),
{
    if let BridgeEvent::Disabled = ev {
        return clear(st);
    }
    if !active {
        return (st, BridgeAction::Nothing);
    }
    match ev {
        BridgeEvent::Loaded { has_meta, playing, now_ms } => {
            if !has_meta {
                return clear(st);
            }
            let next = BridgeState {
                has_current: true,
                playing,
                anchor_pos_ms: 0,
                anchor_wall_ms: now_ms,
            };
            if playing {
                (next, BridgeAction::Send { position_ms: 0 })
            } else if !st.playing {
                (next, BridgeAction::Clear)
            } else {
                (next, BridgeAction::Nothing)
            }
        },
        BridgeEvent::Playing { position_ms, now_ms } => {
            let next = BridgeState {
                has_current: st.has_current,
                playing: true,
                anchor_pos_ms: position_ms,
                anchor_wall_ms: now_ms,
            };
            if st.has_current {
                (next, BridgeAction::Send { position_ms })
            } else {
                (next, BridgeAction::Nothing)
            }
        },
        BridgeEvent::Paused => (
            BridgeState {
                has_current: st.has_current,
                playing: false,
                anchor_pos_ms: st.anchor_pos_ms,
                anchor_wall_ms: st.anchor_wall_ms,
            },
            BridgeAction::Clear,
        ),
        BridgeEvent::PositionChanged { position_ms, now_ms } => {
            if !st.playing || !st.has_current {
                return (st, BridgeAction::Nothing);
            }
            let elapsed = now_ms.saturating_sub(st.anchor_wall_ms);
            let expected = st.anchor_pos_ms + elapsed;
            let drift = if position_ms >= expected {
                position_ms - expected
            } else {
                expected - position_ms
            };
            if drift > SEEK_THRESHOLD_MS {
                (
                    BridgeState {
                        has_current: st.has_current,
                        playing: st.playing,
                        anchor_pos_ms: position_ms,
                        anchor_wall_ms: now_ms,
                    },
                    BridgeAction::Send { position_ms },
                )
            } else {
                (st, BridgeAction::Nothing)
            }
        },
        BridgeEvent::Ended { has_current_track } => {
            if has_current_track {
                (st, BridgeAction::Nothing)
            } else {
                clear(st)
            }
        },
        BridgeEvent::Error => clear(st),
        BridgeEvent::Seed { has_meta, playing, position_ms, now_ms } => {
            if !has_meta {
                return (st, BridgeAction::Nothing);
            }
            let next = BridgeState {
                has_current: true,
                playing,
                anchor_pos_ms: position_ms,
                anchor_wall_ms: now_ms,
            };
            if playing {
                (next, BridgeAction::Send { position_ms })
            } else {
                (next, BridgeAction::Nothing)
            }
        },
        _ => (st, BridgeAction::Nothing),
    }
}

/// The Unix time a track that is `position_secs` in at `now` started at.
pub fn started_at(now: i64, position_secs: u64) -> (r: i64)
    requires
        now - position_secs >= i64::MIN,
        position_secs <= i64::MAX,
    ensures
        r == now - position_secs,
{
    now - position_secs as i64
}

/// A status is only ever sent for a current track, and never while paused:
/// after a pause nothing plays, and every `Send` leaves a current track
/// playing.
pub proof fn law_send_only_while_playing(st: BridgeState, active: bool, ev: BridgeEvent)
    requires
        st.playing ==> st.has_current,
    ensures
        bridge_step(st, active, ev).1 is Send ==> bridge_step(st, active, ev).0.has_current
            && bridge_step(st, active, ev).0.playing,
        ev == BridgeEvent::Paused && active ==> !bridge_step(st, active, ev).0.playing,
        bridge_step(st, active, ev).0.playing ==> bridge_step(st, active, ev).0.has_current
            || (ev matches BridgeEvent::Playing { .. }),
{
}

/// A reported position within the threshold of where the status counts from
/// changes nothing: the status is not sent again for playback that merely
/// goes on.
pub proof fn law_no_resend_without_a_seek(st: BridgeState, position_ms: u64, now_ms: u64)
    requires
        expected_position(st, now_ms) <= u64::MAX,
        position_ms <= expected_position(st, now_ms) + SEEK_THRESHOLD_MS,
        expected_position(st, now_ms) <= position_ms + SEEK_THRESHOLD_MS,
    ensures
        bridge_step(st, true, BridgeEvent::PositionChanged { position_ms, now_ms }) == (
            st,
            BridgeAction::Nothing,
        ),
{
}

/// Whenever the status is sent, it counts from the position the bridge
/// anchors to: the track shows as started that long ago, and later drift is
/// measured from the same position.
pub proof fn law_a_sent_position_is_the_anchor(st: BridgeState, active: bool, ev: BridgeEvent)
    ensures
        bridge_step(st, active, ev).1 matches BridgeAction::Send { position_ms } ==> position_ms
            == bridge_step(st, active, ev).0.anchor_pos_ms,
{
}

/// Switching the status on (or starting) while a described track plays
/// sends it from the position it has reached, and anchors there at that
/// time; while paused it sends nothing but still anchors there.
pub proof fn law_a_seed_shows_the_position_reached(
    st: BridgeState,
    playing: bool,
    position_ms: u64,
    now_ms: u64,
)
    ensures
        ({
            let r = bridge_step(
                st,
                true,
                BridgeEvent::Seed { has_meta: true, playing, position_ms, now_ms },
            );
            &&& r.0.has_current
            &&& r.0.playing == playing
            &&& r.0.anchor_pos_ms == position_ms
            &&& r.0.anchor_wall_ms == now_ms
            &&& playing ==> r.1 == BridgeAction::Send { position_ms }
            &&& !playing ==> r.1 == BridgeAction::Nothing
        }),
{
}

/// Playback that starts or resumes at a position anchors there at that time,
/// and the status, when a track is current, shows that position.
pub proof fn law_playing_anchors_at_the_reported_position(
    st: BridgeState,
    position_ms: u64,
    now_ms: u64,
)
    ensures
        ({
            let r = bridge_step(st, true, BridgeEvent::Playing { position_ms, now_ms });
            &&& r.0.playing
            &&& r.0.anchor_pos_ms == position_ms
            &&& r.0.anchor_wall_ms == now_ms
            &&& st.has_current ==> r.1 == BridgeAction::Send { position_ms }
        }),
{
}

/// A reported position more than 2.5 s away from where the status counts
/// from (a seek) while a current track plays sends the status again from
/// that position, anchored there at that time.
pub proof fn law_a_seek_resends_from_the_new_position(st: BridgeState, position_ms: u64, now_ms: u64)
    requires
        st.has_current,
        st.playing,
        expected_position(st, now_ms) <= u64::MAX,
        position_ms > expected_position(st, now_ms) + 2500 || position_ms + 2500
            < expected_position(st, now_ms),
    ensures
        bridge_step(st, true, BridgeEvent::PositionChanged { position_ms, now_ms }) == (
            BridgeState { has_current: true, playing: true, anchor_pos_ms: position_ms, anchor_wall_ms: now_ms },
            BridgeAction::Send { position_ms },
        ),
{
}

/// A described track that is loaded shows from its start when it plays; the
/// status is cleared on a pause, on an error, when nothing is left to play,
/// and whenever the status is switched off (even while it is off).
pub proof fn law_when_the_status_shows_and_clears(st: BridgeState, active: bool, playing: bool, now_ms: u64)
    ensures
        bridge_step(st, true, BridgeEvent::Loaded { has_meta: true, playing: true, now_ms }) == (
            BridgeState { has_current: true, playing: true, anchor_pos_ms: 0, anchor_wall_ms: now_ms },
            BridgeAction::Send { position_ms: 0 },
        ),
        bridge_step(st, true, BridgeEvent::Paused).1 == BridgeAction::Clear,
        bridge_step(st, true, BridgeEvent::Error).1 == BridgeAction::Clear,
        !bridge_step(st, true, BridgeEvent::Error).0.has_current,
        bridge_step(st, true, BridgeEvent::Ended { has_current_track: false }).1 == BridgeAction::Clear,
        bridge_step(st, true, BridgeEvent::Ended { has_current_track: true }) == (st, BridgeAction::Nothing),
        bridge_step(st, active, BridgeEvent::Disabled).1 == BridgeAction::Clear,
        !bridge_step(st, active, BridgeEvent::Disabled).0.has_current,
        bridge_step(st, true, BridgeEvent::Loaded { has_meta: false, playing, now_ms }).1
            == BridgeAction::Clear,
        !active ==> bridge_step(st, active, BridgeEvent::Loaded { has_meta: true, playing, now_ms })
            == (st, BridgeAction::Nothing),
{
}

} // verus!
