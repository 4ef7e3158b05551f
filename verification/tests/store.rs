use status_probe::codec::parse_state;
use status_probe::codec::serialize_state;
use status_probe::codec::u64_to_dec;
use status_probe::state::PersistedState;

fn ps(online: Option<u64>, players: Option<u64>) -> PersistedState {
    PersistedState { last_online_at: online, last_players_seen_at: players }
}

#[test]
fn numerals_are_shortest_decimal() {
    assert_eq!(u64_to_dec(0), b"0".to_vec());
    assert_eq!(u64_to_dec(7), b"7".to_vec());
    assert_eq!(u64_to_dec(10), b"10".to_vec());
    assert_eq!(u64_to_dec(1234567890), b"1234567890".to_vec());
    assert_eq!(u64_to_dec(u64::MAX), b"18446744073709551615".to_vec());
}

#[test]
fn serialize_omits_absent_fields() {
    assert_eq!(serialize_state(&ps(None, None)), b"{}".to_vec());
    assert_eq!(serialize_state(&ps(Some(123), None)), b"{\"online\":123}".to_vec());
    assert_eq!(serialize_state(&ps(None, Some(456))), b"{\"players\":456}".to_vec());
    assert_eq!(
        serialize_state(&ps(Some(1), Some(2))),
        b"{\"online\":1,\"players\":2}".to_vec()
    );
}

#[test]
fn round_trip_both_absent() {
    let bytes = serialize_state(&ps(None, None));
    assert_eq!(parse_state(&bytes), ps(None, None));
}

#[test]
fn round_trip_both_present() {
    let st = ps(Some(1700000000), Some(1690000000));
    let bytes = serialize_state(&st);
    assert_eq!(parse_state(&bytes), st);
}

#[test]
fn round_trip_single_fields() {
    let a = ps(Some(42), None);
    assert_eq!(parse_state(&serialize_state(&a)), a);
    let b = ps(None, Some(977616000));
    assert_eq!(parse_state(&serialize_state(&b)), b);
}

#[test]
fn partial_record_loads_with_missing_field_absent() {
    // a record written with only one of the two fields still loads
    let only_online = b"{\"online\":1700000000}".to_vec();
    assert_eq!(parse_state(&only_online), ps(Some(1700000000), None));
    let only_players = b"{\"players\":5}".to_vec();
    assert_eq!(parse_state(&only_players), ps(None, Some(5)));
}

#[test]
fn corrupt_store_yields_default() {
    let default = ps(None, None);
    assert_eq!(parse_state(&b"".to_vec()), default);
    assert_eq!(parse_state(&b"garbage".to_vec()), default);
    assert_eq!(parse_state(&b"{".to_vec()), default);
    assert_eq!(parse_state(&b"{\"online\":".to_vec()), default);
    assert_eq!(parse_state(&b"{\"online\":12".to_vec()), default);
    assert_eq!(parse_state(&b"{\"online\":12}trailing".to_vec()), default);
    assert_eq!(parse_state(&b"{\"elsewhere\":12}".to_vec()), default);
    assert_eq!(parse_state(&b"[1,2]".to_vec()), default);
}

#[test]
fn non_canonical_records_yield_default() {
    let default = ps(None, None);
    // leading zeros, whitespace and reordered keys are not produced by the
    // serializer and are treated as corruption
    assert_eq!(parse_state(&b"{\"online\":007}".to_vec()), default);
    assert_eq!(parse_state(&b"{ \"online\":7 }".to_vec()), default);
    assert_eq!(parse_state(&b"{\"players\":2,\"online\":1}".to_vec()), default);
}

#[test]
fn oversized_instants_yield_default() {
    // beyond what the time formatter's signed 64-bit count can carry
    let default = ps(None, None);
    assert_eq!(parse_state(&b"{\"online\":9223372036854775808}".to_vec()), default);
    assert_eq!(parse_state(&b"{\"online\":99999999999999999999999}".to_vec()), default);
    // the largest representable instant survives
    let edge = ps(Some(9223372036854775807), None);
    assert_eq!(parse_state(&serialize_state(&edge)), edge);
}
