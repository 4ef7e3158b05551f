use status_probe::codec::serialize_state;
use status_probe::evaluate::evaluate;
use status_probe::evaluate::ProbeOutcome;
use status_probe::render::render_report;
use status_probe::run_cycle;
use status_probe::state::PersistedState;

fn ps(online: Option<u64>, players: Option<u64>) -> PersistedState {
    PersistedState { last_online_at: online, last_players_seen_at: players }
}

fn success(player_count: u32, round_trip_ms: u64) -> ProbeOutcome {
    ProbeOutcome::Success { player_count, max_players: 20, round_trip_ms }
}

#[test]
fn success_without_players_keeps_last_seen() {
    let prev = ps(Some(100), Some(50));
    let (next, _) = evaluate(success(0, 5), prev, 200);
    assert_eq!(next, ps(Some(200), Some(50)));
}

#[test]
fn success_with_players_stamps_both() {
    let prev = ps(Some(100), Some(50));
    let (next, _) = evaluate(success(3, 5), prev, 200);
    assert_eq!(next, ps(Some(200), Some(200)));
}

#[test]
fn failure_leaves_state_untouched() {
    let prev = ps(Some(100), Some(50));
    let (next, _) = evaluate(ProbeOutcome::Failure, prev, 200);
    assert_eq!(next, prev);
    let empty = ps(None, None);
    let (next2, _) = evaluate(ProbeOutcome::Failure, empty, 200);
    assert_eq!(next2, empty);
}

#[test]
fn first_run_no_players_has_no_annotation() {
    let prev = ps(None, None);
    let (next, report) = evaluate(success(0, 5), prev, 300);
    assert_eq!(next, ps(Some(300), None));
    assert_eq!(report.annotation_instant, None);
    let line = render_report(&report, None);
    assert_eq!(line, b"online, no players, 0/20 players (ping 5ms)\n".to_vec());
}

#[test]
fn no_players_with_history_annotates_last_activity() {
    let t0: u64 = 977616000;
    let t1: u64 = 977702400;
    let prev = ps(Some(t0), Some(t0));
    let (next, report) = evaluate(success(0, 7), prev, t1);
    assert_eq!(next, ps(Some(t1), Some(t0)));
    assert_eq!(report.annotation_instant, Some(t0));
    let stamp = b"Dec24 12:00:00 CET".to_vec();
    let line = render_report(&report, Some(&stamp));
    assert_eq!(
        line,
        b"online, no players, last activity seen Dec24 12:00:00 CET, 0/20 players (ping 7ms)\n"
            .to_vec()
    );
}

#[test]
fn failure_with_history_annotates_last_online() {
    let t0: u64 = 977616000;
    let prev = ps(Some(t0), None);
    let (next, report) = evaluate(ProbeOutcome::Failure, prev, 977702400);
    assert_eq!(next, prev);
    assert_eq!(report.annotation_instant, Some(t0));
    let stamp = b"Dec24 12:00:00 CET".to_vec();
    let line = render_report(&report, Some(&stamp));
    assert_eq!(line, b"offline, last online at Dec24 12:00:00 CET\n".to_vec());
}

#[test]
fn failure_without_history_has_bare_line() {
    let prev = ps(None, None);
    let (next, report) = evaluate(ProbeOutcome::Failure, prev, 977702400);
    assert_eq!(next, prev);
    assert_eq!(report.annotation_instant, None);
    let line = render_report(&report, None);
    assert_eq!(line, b"offline\n".to_vec());
}

#[test]
fn five_players_reports_count_and_latency() {
    let prev = ps(None, None);
    let (_, report) = evaluate(success(5, 3), prev, 400);
    let line = render_report(&report, None);
    assert_eq!(line, b"online, players present, 5/20 players (ping 3ms)\n".to_vec());
    let text = String::from_utf8(line).unwrap();
    assert!(text.contains("5"));
    assert!(text.contains("(ping 3ms)"));
}

#[test]
fn capacity_comes_from_the_probe() {
    let prev = ps(None, None);
    let outcome = ProbeOutcome::Success { player_count: 2, max_players: 64, round_trip_ms: 9 };
    let (_, report) = evaluate(outcome, prev, 400);
    let line = render_report(&report, None);
    assert_eq!(line, b"online, players present, 2/64 players (ping 9ms)\n".to_vec());
}

#[test]
fn cycle_success_writes_state_and_line() {
    let raw = b"{}".to_vec();
    let (state_bytes, line) = run_cycle(success(1, 12), &raw, 500, "%b%d %H:%M:%S");
    assert_eq!(state_bytes, b"{\"online\":500,\"players\":500}".to_vec());
    assert_eq!(line, b"online, players present, 1/20 players (ping 12ms)\n".to_vec());
}

#[test]
fn cycle_failure_formats_last_online() {
    let prev = ps(Some(977616000), None);
    let raw = serialize_state(&prev);
    let (state_bytes, line) = run_cycle(ProbeOutcome::Failure, &raw, 977702400, "%Y");
    assert_eq!(state_bytes, raw);
    let text = String::from_utf8(line).unwrap();
    assert!(text.starts_with("offline, last online at "));
    assert!(text.ends_with("\n"));
    // %Y of an instant in late 2000 formats to the year, whatever the zone
    assert!(text.contains("2000") || text.contains("2001"));
}

#[test]
fn cycle_substitutes_default_for_corrupt_store() {
    let raw = b"not a record".to_vec();
    let (state_bytes, line) = run_cycle(ProbeOutcome::Failure, &raw, 600, "%Y");
    assert_eq!(state_bytes, b"{}".to_vec());
    assert_eq!(line, b"offline\n".to_vec());
}
