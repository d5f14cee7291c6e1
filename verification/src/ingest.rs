//! Destination-side ingestion: arrival records, sequence continuity and loss
//! detection, and the per-interval rolling view.

use vstd::prelude::*;
use crate::stats::{
    in_window, latencies_of, backbone_latencies_of, measurement_wf, results_match, spec_mean,
    sum_of, spec_end_to_end_latency_ns, spec_backbone_latency_ns, ExperimentResults,
    LatencyMeasurement, MAX_LATENCY_NS, MAX_SAMPLES,
};

verus! {

/// Strictly ascending: the canonical shape of the observed-id ledger.
pub open spec fn strictly_sorted(s: Seq<u64>) -> bool {
    forall|i: int, j: int| 0 <= i < j < s.len() ==> #[trigger] s[i] < #[trigger] s[j]
}

/// Events lost over the observed span: `(max - min + 1) - |ids|` for a
/// non-empty strictly ascending ledger, 0 for an empty one.
pub open spec fn spec_loss(ids: Seq<u64>) -> int {
    if ids.len() == 0 {
        0
    } else {
        (ids.last() as int - ids.first() as int + 1) - ids.len() as int
    }
}

proof fn lemma_strict_lower(ids: Seq<u64>, i: int)
    requires
        strictly_sorted(ids),
        0 <= i < ids.len(),
    ensures
        ids.first() as int + i <= ids[i] as int,
    decreases i,
{
    if i > 0 {
        lemma_strict_lower(ids, i - 1);
    }
}

proof fn lemma_strict_upper(ids: Seq<u64>, i: int)
    requires
        strictly_sorted(ids),
        0 <= i < ids.len(),
    ensures
        ids[i] as int + (ids.len() - 1 - i) <= ids.last() as int,
    decreases ids.len() - i,
{
    if i < ids.len() - 1 {
        lemma_strict_upper(ids, i + 1);
    }
}

/// The loss count of a strictly ascending ledger is never negative.
pub proof fn lemma_loss_nonneg(ids: Seq<u64>)
    requires
        strictly_sorted(ids),
    ensures
        spec_loss(ids) >= 0,
{
    if ids.len() > 0 {
        lemma_strict_lower(ids, ids.len() - 1);
    }
}

/// Loss is 0 exactly when the observed ids are contiguous from their
/// minimum to their maximum — including the single-element case.
pub proof fn lemma_loss_zero_iff_contiguous(ids: Seq<u64>)
    requires
        strictly_sorted(ids),
        ids.len() > 0,
    ensures
        spec_loss(ids) == 0 <==> (forall|i: int|
            0 <= i < ids.len() ==> #[trigger] ids[i] as int == ids.first() as int + i),
{
    if spec_loss(ids) == 0 {
        assert forall|i: int| 0 <= i < ids.len() implies #[trigger] ids[i] as int
            == ids.first() as int + i by {
            lemma_strict_lower(ids, i);
            lemma_strict_upper(ids, i);
        }
    }
    if forall|i: int| 0 <= i < ids.len() ==> #[trigger] ids[i] as int == ids.first() as int + i {
        assert(ids.last() as int == ids.first() as int + (ids.len() - 1));
    }
}

/// Count of events lost over the observed span of sequence ids.
pub fn count_lost_events(ids: &Vec<u64>) -> (lost: u64)
    requires
        strictly_sorted(ids@),
    ensures
        lost as int == spec_loss(ids@),
{
    let n = ids.len();
    if n == 0 {
        return 0;
    }
    let first = ids[0];
    let last = ids[n - 1];
    proof {
        lemma_strict_lower(ids@, n as int - 1);
    }
    (last - first) - ((n - 1) as u64)
}

/// Records one observed sequence id, keeping the ledger strictly ascending
/// and duplicate-free. Returns whether the id was new.
pub fn insert_sequence_id(ids: &mut Vec<u64>, id: u64) -> (fresh: bool)
    requires
        strictly_sorted(old(ids)@),
    ensures
        strictly_sorted(final(ids)@),
        fresh <==> !old(ids)@.contains(id),
        !fresh ==> final(ids)@ == old(ids)@,
        fresh ==> final(ids)@.len() == old(ids)@.len() + 1,
        forall|x: u64| final(ids)@.contains(x) <==> (old(ids)@.contains(x) || x == id),
{
    let ghost prev = ids@;
    let mut k: usize = 0;
    while k < ids.len() && ids[k] < id
        invariant
            k <= ids@.len(),
            ids@ == prev,
            forall|j: int| 0 <= j < k ==> #[trigger] ids@[j] < id,
        decreases ids@.len() - k,
    {
        k = k + 1;
    }
    if k < ids.len() && ids[k] == id {
        proof {
            assert(ids@.contains(id));
        }
        return false;
    }
    proof {
        // everything at or after slot k is above id
        assert(forall|j: int| k <= j < prev.len() ==> id < #[trigger] prev[j]);
        if prev.contains(id) {
            let j = choose|j: int| 0 <= j < prev.len() && prev[j] == id;
            assert(false);
        }
    }
    ids.insert(k, id);
    proof {
        assert(ids@ =~= prev.insert(k as int, id));
        assert forall|a: int, b: int| 0 <= a < b < ids@.len() implies ids@[a] < ids@[b] by {
            if b < k {
            } else if a < k && b == k {
                assert(ids@[a] == prev[a]);
            } else if a < k && b > k {
                assert(ids@[a] == prev[a] && ids@[b] == prev[b - 1]);
            } else if a == k {
                assert(ids@[b] == prev[b - 1]);
            } else {
                assert(ids@[a] == prev[a - 1] && ids@[b] == prev[b - 1]);
            }
        }
        assert(ids@.contains(id)) by {
            assert(ids@[k as int] == id);
        }
        assert forall|x: u64| ids@.contains(x) <==> (prev.contains(x) || x == id) by {
            if ids@.contains(x) {
                let j = choose|j: int| 0 <= j < ids@.len() && ids@[j] == x;
                if j < k {
                    assert(prev[j] == x);
                    assert(prev.contains(x));
                } else if j > k {
                    assert(prev[j - 1] == x);
                    assert(prev.contains(x));
                }
            }
            if prev.contains(x) {
                let j = choose|j: int| 0 <= j < prev.len() && prev[j] == x;
                if j < k {
                    assert(ids@[j] == x);
                } else {
                    assert(ids@[j + 1] == x);
                }
            }
        }
    }
    true
}

/// Per-interval accumulator behind the live view: count, sum and extremes of
/// the latencies seen since the last interval boundary.
pub struct RollingWindow {
    pub count: u64,
    pub sum_ns: i128,
    pub min_ns: i128,
    pub max_ns: i128,
    /// The samples accumulated since the last emit, for specification only.
    pub samples: Ghost<Seq<i128>>,
}

impl RollingWindow {
    /// The counters agree with the ghost sample sequence.
    pub open spec fn wf(self) -> bool {
        &&& self.count == self.samples@.len()
        &&& self.count <= MAX_SAMPLES
        &&& in_window(self.samples@)
        &&& self.sum_ns == sum_of(self.samples@)
        &&& self.count > 0 ==> {
            &&& self.samples@.contains(self.min_ns)
            &&& self.samples@.contains(self.max_ns)
            &&& forall|i: int|
                0 <= i < self.samples@.len() ==> self.min_ns <= #[trigger] self.samples@[i]
                    && self.samples@[i] <= self.max_ns
        }
    }

    /// An empty accumulator.
    pub fn new() -> (w: Self)
        ensures
            w.wf(),
            w.samples@.len() == 0,
    {
        RollingWindow {
            count: 0,
            sum_ns: 0,
            min_ns: 0,
            max_ns: 0,
            samples: Ghost(Seq::empty()),
        }
    }

    /// Accumulates one latency sample into the current interval.
    pub fn add(&mut self, lat_ns: i128)
        requires
            old(self).wf(),
            old(self).count < MAX_SAMPLES as u64,
            -MAX_LATENCY_NS <= lat_ns <= MAX_LATENCY_NS,
        ensures
            final(self).wf(),
            final(self).samples@ == old(self).samples@.push(lat_ns),
    {
        proof {
            crate::stats::lemma_sum_of_push(self.samples@, lat_ns);
            crate::stats::lemma_sum_bounds(self.samples@);
        }
        if self.count == 0 {
            self.min_ns = lat_ns;
            self.max_ns = lat_ns;
        } else {
            if lat_ns < self.min_ns {
                self.min_ns = lat_ns;
            }
            if lat_ns > self.max_ns {
                self.max_ns = lat_ns;
            }
        }
        self.sum_ns = self.sum_ns + lat_ns;
        self.count = self.count + 1;
        self.samples = Ghost(self.samples@.push(lat_ns));
        proof {
            let prev = old(self).samples@;
            let now = self.samples@;
            assert(now =~= prev.push(lat_ns));
            assert forall|i: int| 0 <= i < now.len() implies -MAX_LATENCY_NS <= #[trigger] now[i]
                <= MAX_LATENCY_NS by {
                if i < prev.len() {
                    assert(now[i] == prev[i]);
                }
            }
            assert(now[now.len() - 1] == lat_ns);
            assert(now.contains(self.min_ns)) by {
                if prev.len() > 0 && self.min_ns != lat_ns {
                    let j = choose|j: int| 0 <= j < prev.len() && prev[j] == old(self).min_ns;
                    assert(now[j] == old(self).min_ns);
                }
            }
            assert(now.contains(self.max_ns)) by {
                if prev.len() > 0 && self.max_ns != lat_ns {
                    let j = choose|j: int| 0 <= j < prev.len() && prev[j] == old(self).max_ns;
                    assert(now[j] == old(self).max_ns);
                }
            }
        }
    }

    /// Interval boundary: emits `(mean, min, max)` over the interval's
    /// samples — `None` if there were none — and clears the accumulator.
    pub fn emit(&mut self) -> (r: Option<(i128, i128, i128)>)
        requires
            old(self).wf(),
        ensures
            final(self).wf(),
            final(self).samples@.len() == 0,
            old(self).count == 0 <==> r is None,
            old(self).count > 0 ==> (r matches Some(t) && t.0 as int == spec_mean(
                old(self).samples@,
            ) && t.1 == old(self).min_ns && t.2 == old(self).max_ns),
    {
        let r = if self.count == 0 {
            None
        } else {
            proof {
                crate::stats::lemma_sum_bounds(self.samples@);
            }
            let mean = crate::stats::mean_of_sum(self.sum_ns, self.count);
            Some((mean, self.min_ns, self.max_ns))
        };
        self.count = 0;
        self.sum_ns = 0;
        self.min_ns = 0;
        self.max_ns = 0;
        self.samples = Ghost(Seq::empty());
        r
    }
}

/// What became of one arriving unit at the destination.
#[derive(Debug, Clone, Copy, PartialEq, Eq, Structural)]
pub enum ArrivalOutcome {
    /// Recorded, with a sequence id not seen before.
    Recorded,
    /// Recorded; the sequence id had been seen already (a protocol anomaly
    /// the ledger tolerates — the ledger keeps one copy).
    RecordedDuplicate,
    /// The timestamps imply a latency outside the engine's fixed-point
    /// window; the arrival is dropped, like a malformed message.
    OutOfRange,
    /// The session is at capacity; the arrival is dropped.
    Full,
}

/// Destination-side session: stamps arrivals into measurement records,
/// reconstructs sequence continuity, and feeds the rolling view.
pub struct IngestionSession {
    /// Relay mode tracks sequence ids for loss detection; baseline mode
    /// numbers arrivals itself and reports loss 0 unconditionally.
    pub relay_mode: bool,
    pub measurements: Vec<LatencyMeasurement>,
    pub seen_ids: Vec<u64>,
    pub next_baseline_seq: u64,
    pub window: RollingWindow,
}

impl IngestionSession {
    pub open spec fn wf(self) -> bool {
        &&& strictly_sorted(self.seen_ids@)
        &&& self.measurements@.len() <= MAX_SAMPLES
        &&& in_window(latencies_of(self.measurements@))
        &&& in_window(backbone_latencies_of(self.measurements@))
        &&& (forall|i: int|
            0 <= i < self.measurements@.len() ==> measurement_wf(
                #[trigger] self.measurements@[i],
            ))
        &&& self.window.wf()
    }

    /// Whether an arrival would be refused for capacity.
    pub open spec fn spec_full(self) -> bool {
        self.measurements@.len() >= MAX_SAMPLES || self.window.count >= MAX_SAMPLES as u64
            || self.next_baseline_seq == u64::MAX
    }

    pub fn new(relay_mode: bool) -> (s: Self)
        ensures
            s.wf(),
            s.relay_mode == relay_mode,
            s.measurements@.len() == 0,
            s.seen_ids@.len() == 0,
            s.next_baseline_seq == 0,
            s.window.samples@.len() == 0,
    {
        IngestionSession {
            relay_mode,
            measurements: Vec::new(),
            seen_ids: Vec::new(),
            next_baseline_seq: 0,
            window: RollingWindow::new(),
        }
    }

    /// One envelope arriving over the relay leg: the destination stamps it,
    /// derives both latencies, records the measurement, notes the sequence
    /// id, and feeds the rolling view. Arrivals whose latencies fall outside
    /// the fixed-point window, or that find the session full, are dropped
    /// and say so.
    pub fn record_relay_arrival(
        &mut self,
        sequence_id: u64,
        binance_event_time: i64,
        tokyo_receive_timestamp: i64,
        frankfurt_receive_time: i64,
    ) -> (r: ArrivalOutcome)
        requires
            old(self).wf(),
            old(self).relay_mode,
        ensures
            final(self).wf(),
            final(self).relay_mode == old(self).relay_mode,
            final(self).next_baseline_seq == old(self).next_baseline_seq,
            ({
                let e2e = spec_end_to_end_latency_ns(
                    binance_event_time as int,
                    frankfurt_receive_time as int,
                );
                let bb = spec_backbone_latency_ns(
                    tokyo_receive_timestamp as int,
                    frankfurt_receive_time as int,
                );
                let in_range = -MAX_LATENCY_NS <= e2e <= MAX_LATENCY_NS && -MAX_LATENCY_NS <= bb
                    <= MAX_LATENCY_NS;
                &&& (r is OutOfRange <==> !in_range)
                &&& (r is Full <==> (in_range && old(self).spec_full()))
                &&& ((r is OutOfRange || r is Full) ==> *final(self) == *old(self))
                &&& (r is RecordedDuplicate <==> (in_range && !old(self).spec_full() && old(
                    self,
                ).seen_ids@.contains(sequence_id)))
                &&& (r is Recorded <==> (in_range && !old(self).spec_full() && !old(
                    self,
                ).seen_ids@.contains(sequence_id)))
                &&& ((r is Recorded || r is RecordedDuplicate) ==> ({
                    let m = final(self).measurements@.last();
                    &&& final(self).measurements@ == old(self).measurements@.push(m)
                    &&& m.sequence_id == sequence_id
                    &&& m.binance_event_time == binance_event_time
                    &&& m.tokyo_receive_time == Some(tokyo_receive_timestamp)
                    &&& m.frankfurt_receive_time == frankfurt_receive_time
                    &&& measurement_wf(m)
                    &&& (forall|x: u64|
                        final(self).seen_ids@.contains(x) <==> (old(self).seen_ids@.contains(x)
                            || x == sequence_id))
                    &&& final(self).window.samples@ == old(self).window.samples@.push(
                        m.end_to_end_latency_ns,
                    )
                }))
            }),
    {
        let m = LatencyMeasurement::new_aws_backbone(
            sequence_id,
            binance_event_time,
            tokyo_receive_timestamp,
            frankfurt_receive_time,
        );
        let e2e = m.end_to_end_latency_ns;
        let bb = match m.backbone_latency_ns {
            Some(b) => b,
            None => 0,  // unreachable: relay measurements carry the leg latency
        };
        if !(-MAX_LATENCY_NS <= e2e && e2e <= MAX_LATENCY_NS && -MAX_LATENCY_NS <= bb && bb
            <= MAX_LATENCY_NS) {
            return ArrivalOutcome::OutOfRange;
        }
        if self.measurements.len() >= MAX_SAMPLES || self.window.count >= MAX_SAMPLES as u64
            || self.next_baseline_seq == u64::MAX {
            return ArrivalOutcome::Full;
        }
        let fresh = insert_sequence_id(&mut self.seen_ids, sequence_id);
        self.window.add(e2e);
        let ghost prev = self.measurements@;
        self.measurements.push(m);
        proof {
            assert(latencies_of(self.measurements@) =~= latencies_of(prev).push(
                m.end_to_end_latency_ns,
            ));
            let ms2 = self.measurements@;
            ms2.lemma_filter_map_take_succ(crate::stats::backbone_extract(), ms2.len() - 1);
            assert(ms2.take(ms2.len() as int) =~= ms2);
            assert(ms2.take(ms2.len() - 1) =~= prev);
            assert(backbone_latencies_of(ms2) =~= backbone_latencies_of(prev).push(bb));
            assert(in_window(latencies_of(ms2)));
            assert(in_window(backbone_latencies_of(ms2)));
        }
        if fresh {
            ArrivalOutcome::Recorded
        } else {
            ArrivalOutcome::RecordedDuplicate
        }
    }

    /// One message ingested directly from the upstream feed in baseline
    /// mode: the session numbers it itself, so continuity is trivially kept
    /// and loss stays 0.
    pub fn record_baseline_arrival(&mut self, binance_event_time: i64, frankfurt_receive_time: i64)
        -> (r: ArrivalOutcome)
        requires
            old(self).wf(),
            !old(self).relay_mode,
        ensures
            final(self).wf(),
            final(self).relay_mode == old(self).relay_mode,
            final(self).seen_ids@ == old(self).seen_ids@,
            ({
                let e2e = spec_end_to_end_latency_ns(
                    binance_event_time as int,
                    frankfurt_receive_time as int,
                );
                let in_range = -MAX_LATENCY_NS <= e2e <= MAX_LATENCY_NS;
                &&& (r is OutOfRange <==> !in_range)
                &&& (r is Full <==> (in_range && old(self).spec_full()))
                &&& ((r is OutOfRange || r is Full) ==> *final(self) == *old(self))
                &&& (r is Recorded <==> (in_range && !old(self).spec_full()))
                &&& !(r is RecordedDuplicate)
                &&& (r is Recorded ==> ({
                    let m = final(self).measurements@.last();
                    &&& final(self).measurements@ == old(self).measurements@.push(m)
                    &&& m.sequence_id == old(self).next_baseline_seq
                    &&& m.binance_event_time == binance_event_time
                    &&& m.tokyo_receive_time is None
                    &&& m.frankfurt_receive_time == frankfurt_receive_time
                    &&& measurement_wf(m)
                    &&& final(self).next_baseline_seq == old(self).next_baseline_seq + 1
                    &&& final(self).window.samples@ == old(self).window.samples@.push(
                        m.end_to_end_latency_ns,
                    )
                }))
            }),
    {
        let m = LatencyMeasurement::new_baseline(
            self.next_baseline_seq,
            binance_event_time,
            frankfurt_receive_time,
        );
        let e2e = m.end_to_end_latency_ns;
        if !(-MAX_LATENCY_NS <= e2e && e2e <= MAX_LATENCY_NS) {
            return ArrivalOutcome::OutOfRange;
        }
        if self.measurements.len() >= MAX_SAMPLES || self.window.count >= MAX_SAMPLES as u64
            || self.next_baseline_seq == u64::MAX {
            return ArrivalOutcome::Full;
        }
        self.window.add(e2e);
        let ghost prev = self.measurements@;
        self.measurements.push(m);
        self.next_baseline_seq = self.next_baseline_seq + 1;
        proof {
            assert(latencies_of(self.measurements@) =~= latencies_of(prev).push(
                m.end_to_end_latency_ns,
            ));
            let ms2 = self.measurements@;
            ms2.lemma_filter_map_take_succ(crate::stats::backbone_extract(), ms2.len() - 1);
            assert(ms2.take(ms2.len() as int) =~= ms2);
            assert(ms2.take(ms2.len() - 1) =~= prev);
            assert(backbone_latencies_of(ms2) =~= backbone_latencies_of(prev));
            assert(in_window(latencies_of(ms2)));
            assert(in_window(backbone_latencies_of(ms2)));
        }
        ArrivalOutcome::Recorded
    }

    /// Interval boundary of the live view: emits `(mean, min, max)` over the
    /// interval's samples and clears the accumulator. Display-only — the
    /// measurement records are untouched.
    pub fn tick(&mut self) -> (r: Option<(i128, i128, i128)>)
        requires
            old(self).wf(),
        ensures
            final(self).wf(),
            final(self).relay_mode == old(self).relay_mode,
            final(self).measurements@ == old(self).measurements@,
            final(self).seen_ids@ == old(self).seen_ids@,
            final(self).next_baseline_seq == old(self).next_baseline_seq,
            final(self).window.samples@.len() == 0,
            old(self).window.count == 0 <==> r is None,
            old(self).window.count > 0 ==> (r matches Some(t) && t.0 as int == spec_mean(
                old(self).window.samples@,
            ) && t.1 == old(self).window.min_ns && t.2 == old(self).window.max_ns),
    {
        self.window.emit()
    }

    /// Run end: the loss count over the observed ids (0 in baseline mode),
    /// then the final aggregate, handing back the summary and the full
    /// measurement collection.
    pub fn finalize(self, setup_type: String) -> (r: (ExperimentResults, Vec<LatencyMeasurement>))
        requires
            self.wf(),
        ensures
            r.1@ == self.measurements@,
            ({
                let lost = if self.relay_mode {
                    spec_loss(self.seen_ids@)
                } else {
                    0
                };
                results_match(r.0, self.measurements@, lost as u64, setup_type@)
            }),
    {
        let lost: u64 = if self.relay_mode {
            proof {
                lemma_loss_nonneg(self.seen_ids@);
            }
            count_lost_events(&self.seen_ids)
        } else {
            0
        };
        let n = self.measurements.len();
        let mut copy: Vec<LatencyMeasurement> = Vec::new();
        let mut i: usize = 0;
        proof {
            assert(copy@ =~= self.measurements@.take(0));
        }
        while i < n
            invariant
                i <= n,
                n == self.measurements@.len(),
                copy@ == self.measurements@.take(i as int),
            decreases n - i,
        {
            copy.push(self.measurements[i]);
            proof {
                assert(self.measurements@.take(i as int + 1) =~= self.measurements@.take(
                    i as int,
                ).push(self.measurements@[i as int]));
            }
            i = i + 1;
        }
        proof {
            assert(self.measurements@.take(n as int) =~= self.measurements@);
        }
        let results = ExperimentResults::from_measurements(setup_type, self.measurements, lost);
        (results, copy)
    }
}

} // verus!
