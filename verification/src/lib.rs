//! Availability probe core: combines one probe outcome with a small persisted
//! record of past observations, producing the record to write back and a
//! one-line status report.

use vstd::prelude::*;

pub mod codec;
pub mod evaluate;
pub mod render;
pub mod state;
pub mod timefmt;

use crate::evaluate::ProbeOutcome;
use crate::evaluate::next_state_spec;
use crate::evaluate::report_spec;
use crate::state::PersistedState;
use crate::state::valid_instant;

verus! {

/// A line reports a probe correctly when it is the rendering of the report
/// that the outcome and the previous record determine — with some annotation
/// text wherever the report carries an instant to annotate (what the
/// formatter produced for it depends on the time zone), and with none
/// wherever it does not.
pub open spec fn report_line_matches(
    previous: PersistedState,
    outcome: ProbeOutcome,
    line: Seq<u8>,
) -> bool {
    let rep = report_spec(previous, outcome);
    match rep.annotation_instant {
        Some(_) => exists|a: Seq<u8>|
            line == render::line_spec(
                rep.online,
                rep.player_count,
                rep.max_players,
                rep.round_trip_ms,
                Some(a),
            ),
        None => line == render::line_spec(
            rep.online,
            rep.player_count,
            rep.max_players,
            rep.round_trip_ms,
            None::<Seq<u8>>,
        ),
    }
}

/// One full cycle over plain values: parse the stored bytes (substituting
/// the default record for anything corrupt), combine them with the probe
/// outcome at the current instant, and return the bytes of the record to
/// write back together with the rendered report line.
pub fn run_cycle(outcome: ProbeOutcome, raw_state: &Vec<u8>, now: u64, pattern: &str) -> (r: (
    Vec<u8>,
    Vec<u8>,
))
    requires
        valid_instant(now),
        forall|i: int| 0 <= i < pattern@.len() ==> pattern@[i] != '\0',
    ensures
        r.0@ == codec::ser_spec(next_state_spec(codec::parse_spec(raw_state@), outcome, now)),
        report_line_matches(codec::parse_spec(raw_state@), outcome, r.1@),
{
    let previous = codec::parse_state(raw_state);
    let (next, rep) = evaluate::evaluate(outcome, previous, now);
    let line: Vec<u8> = match rep.annotation_instant {
        Some(t) => {
            proof {
                assert(valid_instant(t));
            }
            let formatted = timefmt::format_instant(pattern, t);
            let out = render::render_report(&rep, Some(&formatted));
            proof {
                assert(out@ == render::line_spec(
                    rep.online,
                    rep.player_count,
                    rep.max_players,
                    rep.round_trip_ms,
                    Some(formatted@),
                ));
            }
            out
        },
        None => render::render_report(&rep, None),
    };
    let state_bytes = codec::serialize_state(&next);
    (state_bytes, line)
}

} // verus!
