use vstd::prelude::*;
use crate::state::PersistedState;
use crate::state::valid_instant;

verus! {

/// The classified result of one probe.  A success carries the metrics the
/// service reported (current and maximum player count) together with the
/// measured round trip of the latency ping; every kind of failure (name
/// resolution, refused connection, protocol error, timeout) collapses to the
/// single `Failure` variant.
#[derive(Clone, Copy, PartialEq, Eq, Debug)]
pub enum ProbeOutcome {
    Success { player_count: u32, max_players: u32, round_trip_ms: u64 },
    Failure,
}

/// Everything the one-line status report is built from: whether the service
/// answered, the metrics of a successful probe, and the instant (if any) that
/// the line annotates — the last player activity when the service is online
/// but empty, the last successful probe when it is offline.
#[derive(Clone, Copy, PartialEq, Eq, Debug)]
pub struct Report {
    pub online: bool,
    pub player_count: u32,
    pub max_players: u32,
    pub round_trip_ms: u64,
    pub annotation_instant: Option<u64>,
}

/// The state written back after a probe: a success refreshes
/// `last_online_at` and, when players were present, `last_players_seen_at`;
/// a failure leaves the record untouched.
pub open spec fn next_state_spec(
    previous: PersistedState,
    outcome: ProbeOutcome,
    now: u64,
) -> PersistedState {
    match outcome {
        ProbeOutcome::Success { player_count, .. } => PersistedState {
            last_online_at: Some(now),
            last_players_seen_at: if player_count > 0 {
                Some(now)
            } else {
                previous.last_players_seen_at
            },
        },
        ProbeOutcome::Failure => previous,
    }
}

/// The instant the report annotates, if any.  An empty but reachable service
/// is annotated with the last player activity on record; an unreachable one
/// with the last successful probe on record; a service with players present
/// needs no annotation.  Absent records are never annotated: the report must
/// not fabricate a "last seen" claim.
pub open spec fn annotation_spec(previous: PersistedState, outcome: ProbeOutcome) -> Option<u64> {
    match outcome {
        ProbeOutcome::Success { player_count, .. } => if player_count == 0 {
            previous.last_players_seen_at
        } else {
            None
        },
        ProbeOutcome::Failure => previous.last_online_at,
    }
}

/// The report derived from one probe outcome and the state loaded before it.
pub open spec fn report_spec(previous: PersistedState, outcome: ProbeOutcome) -> Report {
    match outcome {
        ProbeOutcome::Success { player_count, max_players, round_trip_ms } => Report {
            online: true,
            player_count,
            max_players,
            round_trip_ms,
            annotation_instant: annotation_spec(previous, outcome),
        },
        ProbeOutcome::Failure => Report {
            online: false,
            player_count: 0,
            max_players: 0,
            round_trip_ms: 0,
            annotation_instant: previous.last_online_at,
        },
    }
}

/// Combine one probe outcome with the previously persisted state, at the
/// current instant, into the state to persist and the report to render.
/// Total: every outcome variant and every combination of optional instants
/// is handled.
pub fn evaluate(outcome: ProbeOutcome, previous: PersistedState, now: u64) -> (r: (
    PersistedState,
    Report,
))
    ensures
        r.0 == next_state_spec(previous, outcome, now),
        r.1 == report_spec(previous, outcome),
{
    match outcome {
        ProbeOutcome::Success { player_count, max_players, round_trip_ms } => {
            let new_state = PersistedState {
                last_online_at: Some(now),
                last_players_seen_at: if player_count > 0 {
                    Some(now)
                } else {
                    previous.last_players_seen_at
                },
            };
            let report = Report {
                online: true,
                player_count,
                max_players,
                round_trip_ms,
                annotation_instant: if player_count == 0 {
                    previous.last_players_seen_at
                } else {
                    None
                },
            };
            (new_state, report)
        },
        ProbeOutcome::Failure => {
            let report = Report {
                online: false,
                player_count: 0,
                max_players: 0,
                round_trip_ms: 0,
                annotation_instant: previous.last_online_at,
            };
            (previous, report)
        },
    }
}

/// A success that saw no players leaves `last_players_seen_at` exactly as it
/// was, for every previous state, while still refreshing `last_online_at`.
pub proof fn lemma_no_players_preserves_last_seen(
    previous: PersistedState,
    max_players: u32,
    round_trip_ms: u64,
    now: u64,
)
    ensures
        next_state_spec(
            previous,
            ProbeOutcome::Success { player_count: 0, max_players, round_trip_ms },
            now,
        ).last_players_seen_at == previous.last_players_seen_at,
        next_state_spec(
            previous,
            ProbeOutcome::Success { player_count: 0, max_players, round_trip_ms },
            now,
        ).last_online_at == Some(now),
{
}

/// A success that saw at least one player stamps both instants with the
/// current time, for every previous state.
pub proof fn lemma_players_present_refreshes_both(
    previous: PersistedState,
    player_count: u32,
    max_players: u32,
    round_trip_ms: u64,
    now: u64,
)
    requires
        player_count > 0,
    ensures
        next_state_spec(
            previous,
            ProbeOutcome::Success { player_count, max_players, round_trip_ms },
            now,
        ).last_players_seen_at == Some(now),
        next_state_spec(
            previous,
            ProbeOutcome::Success { player_count, max_players, round_trip_ms },
            now,
        ).last_online_at == Some(now),
{
}

/// A failed probe is a no-op on the persisted record: the next state equals
/// the previous state exactly.
pub proof fn lemma_failure_preserves_state(previous: PersistedState, now: u64)
    ensures
        next_state_spec(previous, ProbeOutcome::Failure, now) == previous,
{
}

/// Once `last_players_seen_at` has been set it is never cleared by any later
/// probe, whatever its outcome: only external deletion of the store can lose
/// it.
pub proof fn lemma_players_seen_never_cleared(
    previous: PersistedState,
    outcome: ProbeOutcome,
    now: u64,
)
    requires
        previous.last_players_seen_at is Some,
    ensures
        next_state_spec(previous, outcome, now).last_players_seen_at is Some,
{
}

/// `last_players_seen_at` is only ever set to an instant at which the
/// service was also confirmed online: whenever a probe changes it, both it
/// and `last_online_at` become the current instant.
pub proof fn lemma_players_seen_only_when_online(
    previous: PersistedState,
    outcome: ProbeOutcome,
    now: u64,
)
    ensures
        next_state_spec(previous, outcome, now).last_players_seen_at
            != previous.last_players_seen_at ==> {
            &&& next_state_spec(previous, outcome, now).last_players_seen_at == Some(now)
            &&& next_state_spec(previous, outcome, now).last_online_at == Some(now)
        },
{
}

/// The transition keeps the record well formed whenever the clock instant
/// itself can be formatted.
pub proof fn lemma_next_state_wf(previous: PersistedState, outcome: ProbeOutcome, now: u64)
    requires
        previous.wf(),
        valid_instant(now),
    ensures
        next_state_spec(previous, outcome, now).wf(),
{
}

} // verus!
