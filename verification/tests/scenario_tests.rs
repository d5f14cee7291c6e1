use feedlatency::codec::{encode_forwarded_event, parse_forwarded_event};
use feedlatency::ingest::{ArrivalOutcome, IngestionSession};
use feedlatency::relay::{ForwardOutcome, LegBackoff, RelaySession, SendAttempt};

/// Baseline run: 100 synthetic upstream messages with event times t, t+1,
/// t+2, ... ms and a constant 3 ms ingest offset; arrivals are monotone.
#[test]
fn scenario_baseline_run() {
    let t0_ms: i64 = 1_700_000_000_000;
    let offset_ns: i64 = 3_000_000;
    let mut session = IngestionSession::new(false);
    for k in 0..100i64 {
        let event_time_ms = t0_ms + k;
        let frankfurt_ns = event_time_ms * 1_000_000 + offset_ns;
        let r = session.record_baseline_arrival(event_time_ms, frankfurt_ns);
        assert_eq!(r, ArrivalOutcome::Recorded);
    }
    let (results, raw) = session.finalize("baseline".to_string());
    assert_eq!(results.sample_count, 100);
    assert_eq!(results.events_lost, 0);
    // the injected clock offset is recovered exactly
    assert_eq!(results.avg_latency_ns, offset_ns as i128);
    assert_eq!(results.min_latency_ns, offset_ns as i128);
    assert_eq!(results.max_latency_ns, offset_ns as i128);
    assert_eq!(results.jitter_stddev_ns, 0);
    assert!(results.avg_latency_ns > 0);
    assert!(results.avg_latency_ns < 1_000_000_000);
    assert_eq!(raw.len(), 100);
}

/// Relay run with an induced gap: the origin issues ids 0..9 and stamps
/// each envelope; the destination receives all but id 3 over the wire.
#[test]
fn scenario_relay_with_gap() {
    let mut origin = RelaySession::new(30);
    let mut wire: Vec<String> = Vec::new();
    for k in 0..10i64 {
        let ev = origin
            .process_upstream_message(
                Some(1_700_000_000_000 + k),
                1_700_000_000_000_000_000 + k * 1_000_000,
                format!("payload-{}", k),
            )
            .expect("parsed messages are forwarded");
        assert_eq!(ev.sequence_id, k as u64);
        wire.push(encode_forwarded_event(&ev));
    }
    let mut destination = IngestionSession::new(true);
    for (k, record) in wire.iter().enumerate() {
        if k == 3 {
            continue; // dropped in transit
        }
        let ev = parse_forwarded_event(record).expect("wire records parse back");
        let frankfurt_ns = ev.tokyo_receive_timestamp + 40_000_000;
        let r = destination.record_relay_arrival(
            ev.sequence_id,
            ev.binance_event_time,
            ev.tokyo_receive_timestamp,
            frankfurt_ns,
        );
        assert_eq!(r, ArrivalOutcome::Recorded);
    }
    let (results, _) = destination.finalize("aws-backbone".to_string());
    assert_eq!(results.sample_count, 9);
    assert_eq!(results.events_lost, 1);
    assert_eq!(results.backbone_avg_latency_ns, Some(40_000_000));
}

/// Relay leg failure and recovery: the destination dies mid-run and comes
/// back within the backoff window; the origin resumes without restarting
/// its sequence counter, losing only the message dropped during the outage.
#[test]
fn scenario_relay_failure_and_recovery() {
    let mut origin = RelaySession::new(30);
    let mut delivered: Vec<u64> = Vec::new();
    for k in 0..8i64 {
        let ev = origin
            .process_upstream_message(Some(100 + k), 1_000 + k, "m".to_string())
            .unwrap();
        let outcome = if k == 4 {
            // the destination is down: the first send fails, and the single
            // reconnect-and-retry fails too - the message is dropped
            origin.on_forward_result(SendAttempt::Failed, Some(SendAttempt::Failed))
        } else if k == 5 {
            // the destination restarted within the backoff window: the
            // retry after a failed first send delivers
            origin.on_forward_result(SendAttempt::Failed, Some(SendAttempt::Delivered))
        } else {
            origin.on_forward_result(SendAttempt::Delivered, None)
        };
        if outcome != ForwardOutcome::Dropped {
            delivered.push(ev.sequence_id);
        }
    }
    // the counter never reset: ids are 0..8 with only id 4 missing
    assert_eq!(delivered, vec![0, 1, 2, 3, 5, 6, 7]);
    assert_eq!(origin.counter.next, 8);
}

/// Under a slow or dead peer, every forward resolves after at most two
/// attempts - retry then drop - so upstream ingestion is never blocked.
#[test]
fn scenario_forward_resolves_in_bounded_attempts() {
    let mut origin = RelaySession::new(30);
    let cases = [
        (SendAttempt::Delivered, None, ForwardOutcome::Sent),
        (
            SendAttempt::Failed,
            Some(SendAttempt::Delivered),
            ForwardOutcome::SentAfterRetry,
        ),
        (
            SendAttempt::Failed,
            Some(SendAttempt::Failed),
            ForwardOutcome::Dropped,
        ),
    ];
    for (first, retry, expected) in cases {
        let ev = origin.process_upstream_message(Some(1), 2, "x".to_string());
        assert!(ev.is_some());
        let outcome = origin.on_forward_result(first, retry);
        assert_eq!(outcome, expected);
        // whatever the peer did, the origin is immediately ready for the
        // next upstream message
    }
    assert_eq!(origin.counter.next, 3);
}

/// A malformed upstream payload is dropped without consuming a sequence id.
#[test]
fn malformed_upstream_consumes_no_sequence_id() {
    let mut origin = RelaySession::new(30);
    assert!(origin
        .process_upstream_message(None, 1, "not json".to_string())
        .is_none());
    let ev = origin
        .process_upstream_message(Some(5), 2, "ok".to_string())
        .unwrap();
    assert_eq!(ev.sequence_id, 0);
}

/// The backoff ladder: 1, 2, 4, ... capped at the configured maximum, and
/// reset to 1 by a successful connect.
#[test]
fn backoff_doubles_and_caps_and_resets() {
    let mut leg = LegBackoff::new(30);
    let mut delays: Vec<u64> = Vec::new();
    for _ in 0..7 {
        leg.begin_connect();
        delays.push(leg.on_failure());
    }
    assert_eq!(delays, vec![1, 2, 4, 8, 16, 30, 30]);
    leg.begin_connect();
    leg.on_connect_success();
    // the next failure starts the ladder over
    assert_eq!(leg.on_failure(), 1);
}
