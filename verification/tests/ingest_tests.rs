use feedlatency::ingest::{
    count_lost_events, insert_sequence_id, ArrivalOutcome, IngestionSession, RollingWindow,
};

#[test]
fn loss_count_with_gap() {
    // observed ids {0, 1, 2, 5, 6}: span 7, seen 5, loss 2
    let mut ids: Vec<u64> = Vec::new();
    for id in [0u64, 1, 2, 5, 6] {
        assert!(insert_sequence_id(&mut ids, id));
    }
    assert_eq!(count_lost_events(&ids), 2);
}

#[test]
fn loss_count_zero_when_contiguous() {
    let mut ids: Vec<u64> = Vec::new();
    for id in [3u64, 4, 5, 6] {
        insert_sequence_id(&mut ids, id);
    }
    assert_eq!(count_lost_events(&ids), 0);
    // the single-element case
    let mut one: Vec<u64> = Vec::new();
    insert_sequence_id(&mut one, 7);
    assert_eq!(count_lost_events(&one), 0);
    // and the empty one
    let none: Vec<u64> = Vec::new();
    assert_eq!(count_lost_events(&none), 0);
}

#[test]
fn loss_count_out_of_order_arrival() {
    // arrival order scrambled; the ledger still sees the span
    let mut ids: Vec<u64> = Vec::new();
    for id in [6u64, 0, 5, 1, 2] {
        insert_sequence_id(&mut ids, id);
    }
    assert_eq!(count_lost_events(&ids), 2);
}

#[test]
fn duplicate_ids_are_kept_once() {
    let mut ids: Vec<u64> = Vec::new();
    assert!(insert_sequence_id(&mut ids, 4));
    assert!(!insert_sequence_id(&mut ids, 4));
    assert_eq!(ids.len(), 1);
    assert_eq!(count_lost_events(&ids), 0);
}

#[test]
fn rolling_window_emits_and_clears() {
    let mut w = RollingWindow::new();
    assert_eq!(w.emit(), None);
    w.add(10);
    w.add(30);
    w.add(23);
    let (mean, min, max) = w.emit().unwrap();
    assert_eq!(mean, 21); // 63 / 3
    assert_eq!(min, 10);
    assert_eq!(max, 30);
    // the interval boundary cleared the accumulator
    assert_eq!(w.emit(), None);
    w.add(-5);
    assert_eq!(w.emit(), Some((-5, -5, -5)));
}

#[test]
fn relay_arrival_records_and_tracks_ids() {
    let mut s = IngestionSession::new(true);
    let r = s.record_relay_arrival(0, 1, 500, 2_000_000);
    assert_eq!(r, ArrivalOutcome::Recorded);
    let r = s.record_relay_arrival(0, 1, 600, 3_000_000);
    assert_eq!(r, ArrivalOutcome::RecordedDuplicate);
    let r = s.record_relay_arrival(2, 1, 700, 4_000_000);
    assert_eq!(r, ArrivalOutcome::Recorded);
    // duplicates still produce measurements, as arrivals
    assert_eq!(s.measurements.len(), 3);
    // ids 0 and 2 observed: one lost
    let (results, raw) = s.finalize("aws-backbone".to_string());
    assert_eq!(results.events_lost, 1);
    assert_eq!(results.sample_count, 3);
    assert_eq!(raw.len(), 3);
}

#[test]
fn relay_arrival_out_of_range_is_dropped() {
    let mut s = IngestionSession::new(true);
    // producer claims a time far in the future: latency far below the window
    let r = s.record_relay_arrival(0, i64::MAX / 2, 500, 1_000);
    assert_eq!(r, ArrivalOutcome::OutOfRange);
    assert_eq!(s.measurements.len(), 0);
    assert_eq!(s.seen_ids.len(), 0);
}

#[test]
fn baseline_arrivals_number_themselves() {
    let mut s = IngestionSession::new(false);
    for k in 0..5i64 {
        let r = s.record_baseline_arrival(1, 2_000_000 + k);
        assert_eq!(r, ArrivalOutcome::Recorded);
    }
    assert_eq!(s.measurements.len(), 5);
    for (k, m) in s.measurements.iter().enumerate() {
        assert_eq!(m.sequence_id, k as u64);
        assert!(m.tokyo_receive_time.is_none());
    }
    // baseline mode reports loss 0 unconditionally
    let (results, _) = s.finalize("baseline".to_string());
    assert_eq!(results.events_lost, 0);
    assert_eq!(results.sample_count, 5);
}

#[test]
fn session_tick_mirrors_window() {
    let mut s = IngestionSession::new(false);
    assert_eq!(s.tick(), None);
    s.record_baseline_arrival(0, 1_000_000);
    s.record_baseline_arrival(0, 3_000_000);
    let (mean, min, max) = s.tick().unwrap();
    assert_eq!(mean, 2_000_000);
    assert_eq!(min, 1_000_000);
    assert_eq!(max, 3_000_000);
    assert_eq!(s.tick(), None);
    // the live view never touches the measurement records
    assert_eq!(s.measurements.len(), 2);
}

#[test]
fn session_refuses_arrivals_at_capacity() {
    let mut s = IngestionSession::new(false);
    for _ in 0..1_000_000u32 {
        assert_eq!(s.record_baseline_arrival(0, 1), ArrivalOutcome::Recorded);
    }
    assert_eq!(s.record_baseline_arrival(0, 1), ArrivalOutcome::Full);
    assert_eq!(s.measurements.len(), 1_000_000);
}
