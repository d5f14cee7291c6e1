use feedlatency::codec::{encode_forwarded_event, parse_forwarded_event};
use feedlatency::events::ForwardedEvent;
use feedlatency::report::{csv_header, csv_row};
use feedlatency::stats::LatencyMeasurement;

fn envelope(sid: u64, tokyo: i64, binance: i64, payload: &str) -> ForwardedEvent {
    ForwardedEvent {
        sequence_id: sid,
        tokyo_receive_timestamp: tokyo,
        binance_event_time: binance,
        event_data: payload.to_string(),
    }
}

#[test]
fn encode_produces_the_documented_record() {
    let ev = envelope(7, -5, 123, "x");
    assert_eq!(
        encode_forwarded_event(&ev),
        "{\"sequence_id\":7,\"tokyo_receive_timestamp\":-5,\"binance_event_time\":123,\"event_data\":\"x\"}"
    );
}

#[test]
fn round_trip_plain_payload() {
    let ev = envelope(0, 1_700_000_000_000_000_000, 1_700_000_000_123, "{\"s\":\"BTCUSDT\"}");
    let wire = encode_forwarded_event(&ev);
    let back = parse_forwarded_event(&wire).expect("own encoding must parse");
    assert_eq!(back.sequence_id, ev.sequence_id);
    assert_eq!(back.tokyo_receive_timestamp, ev.tokyo_receive_timestamp);
    assert_eq!(back.binance_event_time, ev.binance_event_time);
    assert_eq!(back.event_data, ev.event_data);
}

#[test]
fn round_trip_payload_with_quotes_and_backslashes() {
    let payload = "he said \"hi\" \\ done \\\" tricky";
    let ev = envelope(42, -1, -2, payload);
    let wire = encode_forwarded_event(&ev);
    let back = parse_forwarded_event(&wire).unwrap();
    assert_eq!(back.event_data, payload);
    assert_eq!(back.tokyo_receive_timestamp, -1);
    assert_eq!(back.binance_event_time, -2);
}

#[test]
fn round_trip_extreme_numbers() {
    for (sid, t, b) in [
        (u64::MAX, i64::MIN, i64::MAX),
        (0, 0, 0),
        (1, -1, 1),
        (u64::MAX - 1, i64::MIN + 1, i64::MAX - 1),
    ] {
        let ev = envelope(sid, t, b, "p");
        let back = parse_forwarded_event(&encode_forwarded_event(&ev)).unwrap();
        assert_eq!(back.sequence_id, sid);
        assert_eq!(back.tokyo_receive_timestamp, t);
        assert_eq!(back.binance_event_time, b);
    }
}

#[test]
fn round_trip_empty_and_unicode_payload() {
    for payload in ["", "ünïcodé ⚡ text", "line\\nnot-a-newline"] {
        let ev = envelope(9, 8, 7, payload);
        let back = parse_forwarded_event(&encode_forwarded_event(&ev)).unwrap();
        assert_eq!(back.event_data, payload);
    }
}

#[test]
fn parse_rejects_malformed_records() {
    assert!(parse_forwarded_event("").is_none());
    assert!(parse_forwarded_event("{}").is_none());
    assert!(parse_forwarded_event("{\"sequence_id\":7").is_none());
    assert!(parse_forwarded_event("{\"sequence_id\":x,...").is_none());
    assert!(
        parse_forwarded_event(
            "{\"sequence_id\":7,\"tokyo_receive_timestamp\":-5,\"binance_event_time\":123,\"event_data\":\"x\"} "
        )
        .is_none(),
        "trailing bytes after the record are refused"
    );
    assert!(
        parse_forwarded_event(
            "{\"sequence_id\":7,\"tokyo_receive_timestamp\":-5,\"binance_event_time\":123,\"event_data\":\"x"
        )
        .is_none(),
        "an unterminated payload is refused"
    );
}

#[test]
fn parse_rejects_out_of_range_numbers() {
    // one past u64::MAX
    assert!(parse_forwarded_event(
        "{\"sequence_id\":18446744073709551616,\"tokyo_receive_timestamp\":0,\"binance_event_time\":0,\"event_data\":\"\"}"
    )
    .is_none());
    // one past i64::MAX in a signed field
    assert!(parse_forwarded_event(
        "{\"sequence_id\":0,\"tokyo_receive_timestamp\":9223372036854775808,\"binance_event_time\":0,\"event_data\":\"\"}"
    )
    .is_none());
    // i64::MIN itself is fine
    assert!(parse_forwarded_event(
        "{\"sequence_id\":0,\"tokyo_receive_timestamp\":-9223372036854775808,\"binance_event_time\":0,\"event_data\":\"\"}"
    )
    .is_some());
}

#[test]
fn csv_row_renders_three_decimal_milliseconds() {
    // e2e: 2_000_000 - 1_000_000 = 1_000_000 ns = 1.000 ms
    // backbone: 2_000_000 - 500 = 1_999_500 ns = 1.999 ms truncated
    let m = LatencyMeasurement::new_aws_backbone(1, 1, 500, 2_000_000);
    assert_eq!(csv_row(&m), "1,1,500,2000000,1.000,1.999");
    // baseline rows leave the relay columns blank
    let m = LatencyMeasurement::new_baseline(0, 2, 5_250_000);
    assert_eq!(csv_row(&m), "0,2,,5250000,3.250,");
    // negative latency keeps its sign
    let m = LatencyMeasurement::new_baseline(3, 10, 1_000_000);
    assert_eq!(csv_row(&m), "3,10,,1000000,-9.000,");
}

#[test]
fn csv_header_names_the_columns() {
    assert_eq!(
        csv_header(),
        "sequence_id,binance_time,tokyo_time,frankfurt_time,latency_ms,backbone_latency_ms"
    );
}

#[test]
fn parse_tolerates_redundant_leading_zeros() {
    let back = parse_forwarded_event(
        "{\"sequence_id\":007,\"tokyo_receive_timestamp\":-05,\"binance_event_time\":0,\"event_data\":\"y\"}",
    )
    .unwrap();
    assert_eq!(back.sequence_id, 7);
    assert_eq!(back.tokyo_receive_timestamp, -5);
    assert_eq!(back.event_data, "y");
}
