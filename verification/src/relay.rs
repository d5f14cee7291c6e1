//! Origin-side relay session: connection lifecycle with exponential backoff
//! per leg, gapless sequence assignment, and the forward-once-retry-once
//! delivery decision.

use vstd::prelude::*;
use crate::events::ForwardedEvent;

verus! {

/// Connection lifecycle of one leg (upstream or downstream).
#[derive(Debug, Clone, Copy, PartialEq, Eq, Structural)]
pub enum LegState {
    Disconnected,
    Connecting,
    Connected,
}

/// Reconnection policy state for one leg: delays 1, 2, 4, ... time units,
/// capped at `max_delay`; a successful connect resets the ladder.
#[derive(Debug, Clone, Copy)]
pub struct LegBackoff {
    pub state: LegState,
    pub next_delay: u64,
    pub max_delay: u64,
}

impl LegBackoff {
    pub open spec fn wf(self) -> bool {
        1 <= self.next_delay <= self.max_delay
    }

    /// A fresh leg: disconnected, first retry after one time unit.
    pub fn new(max_delay: u64) -> (leg: Self)
        requires
            max_delay >= 1,
        ensures
            leg.wf(),
            leg.state is Disconnected,
            leg.next_delay == 1,
            leg.max_delay == max_delay,
    {
        LegBackoff { state: LegState::Disconnected, next_delay: 1, max_delay }
    }

    /// A connect attempt starts.
    pub fn begin_connect(&mut self)
        requires
            old(self).wf(),
        ensures
            final(self).wf(),
            final(self).state is Connecting,
            final(self).next_delay == old(self).next_delay,
            final(self).max_delay == old(self).max_delay,
    {
        self.state = LegState::Connecting;
    }

    /// The attempt succeeded: the leg is live and the backoff ladder resets
    /// to one time unit for the leg's next failure.
    pub fn on_connect_success(&mut self)
        requires
            old(self).wf(),
        ensures
            final(self).wf(),
            final(self).state is Connected,
            final(self).next_delay == 1,
            final(self).max_delay == old(self).max_delay,
    {
        self.state = LegState::Connected;
        self.next_delay = 1;
    }

    /// The leg failed (connect or mid-stream): returns how long to wait
    /// before the next attempt, and doubles the delay, capped at
    /// `max_delay`. Attempts are never given up.
    pub fn on_failure(&mut self) -> (delay: u64)
        requires
            old(self).wf(),
        ensures
            final(self).wf(),
            final(self).state is Disconnected,
            final(self).max_delay == old(self).max_delay,
            delay == old(self).next_delay,
            final(self).next_delay == (if 2 * (old(self).next_delay as int) <= old(
                self,
            ).max_delay as int {
                2 * (old(self).next_delay as int)
            } else {
                old(self).max_delay as int
            }),
    {
        let delay = self.next_delay;
        self.state = LegState::Disconnected;
        if self.next_delay > self.max_delay / 2 {
            self.next_delay = self.max_delay;
        } else {
            self.next_delay = self.next_delay * 2;
        }
        delay
    }
}

/// The shared counter that issues sequence ids: gapless, unique, strictly
/// increasing, starting at 0.
#[derive(Debug, Clone, Copy)]
pub struct SequenceCounter {
    pub next: u64,
}

impl SequenceCounter {
    pub fn new() -> (c: Self)
        ensures
            c.next == 0,
    {
        SequenceCounter { next: 0 }
    }

    /// Issues the next id, exactly once.
    pub fn issue(&mut self) -> (id: u64)
        requires
            old(self).next < u64::MAX,
        ensures
            id == old(self).next,
            final(self).next == old(self).next + 1,
    {
        let id = self.next;
        self.next = self.next + 1;
        id
    }
}

/// One delivery attempt over the downstream leg, as the transport reports
/// it.
#[derive(Debug, Clone, Copy, PartialEq, Eq, Structural)]
pub enum SendAttempt {
    Delivered,
    Failed,
}

/// What became of one envelope: delivered first try, delivered after the
/// single reconnect-and-retry, or dropped — an explicit loss, never a
/// silent one.
#[derive(Debug, Clone, Copy, PartialEq, Eq, Structural)]
pub enum ForwardOutcome {
    Sent,
    SentAfterRetry,
    Dropped,
}

/// The origin session: both legs' lifecycle and the id counter. The ghost
/// ledger records every issued id in order.
pub struct RelaySession {
    pub counter: SequenceCounter,
    pub upstream: LegBackoff,
    pub downstream: LegBackoff,
    /// Every sequence id issued so far, in issue order: exactly 0, 1, 2, ...
    pub issued: Ghost<Seq<u64>>,
}

impl RelaySession {
    /// Ids issued so far are exactly `0 .. counter.next`, in order: gapless,
    /// unique, strictly increasing — whatever happened to either leg.
    pub open spec fn wf(self) -> bool {
        &&& self.upstream.wf()
        &&& self.downstream.wf()
        &&& self.issued@.len() == self.counter.next
        &&& forall|i: int| 0 <= i < self.issued@.len() ==> #[trigger] self.issued@[i] == i as u64
    }

    pub fn new(max_delay: u64) -> (s: Self)
        requires
            max_delay >= 1,
        ensures
            s.wf(),
            s.counter.next == 0,
            s.upstream.state is Disconnected,
            s.downstream.state is Disconnected,
    {
        RelaySession {
            counter: SequenceCounter::new(),
            upstream: LegBackoff::new(max_delay),
            downstream: LegBackoff::new(max_delay),
            issued: Ghost(Seq::empty()),
        }
    }

    /// One upstream message: a malformed payload (no event time parsed)
    /// consumes no sequence id and yields no envelope; a parsed one is
    /// stamped and numbered. Reconnects in between never reset the counter.
    pub fn process_upstream_message(
        &mut self,
        parsed_event_time: Option<i64>,
        tokyo_receive_timestamp: i64,
        event_data: String,
    ) -> (r: Option<ForwardedEvent>)
        requires
            old(self).wf(),
            old(self).counter.next < u64::MAX,
        ensures
            final(self).wf(),
            final(self).upstream == old(self).upstream,
            final(self).downstream == old(self).downstream,
            r is None <==> parsed_event_time is None,
            parsed_event_time is None ==> *final(self) == *old(self),
            parsed_event_time matches Some(event_time) ==> (r matches Some(ev) && ({
                &&& ev.sequence_id == old(self).counter.next
                &&& ev.tokyo_receive_timestamp == tokyo_receive_timestamp
                &&& ev.binance_event_time == event_time
                &&& ev.event_data@ == event_data@
                &&& final(self).counter.next == old(self).counter.next + 1
                &&& final(self).issued@ == old(self).issued@.push(ev.sequence_id)
            })),
    {
        match parsed_event_time {
            None => None,
            Some(event_time) => {
                let id = self.counter.issue();
                self.issued = Ghost(self.issued@.push(id));
                Some(ForwardedEvent {
                    sequence_id: id,
                    tokyo_receive_timestamp,
                    binance_event_time: event_time,
                    event_data,
                })
            },
        }
    }

    /// The delivery decision for one envelope: the first attempt's result,
    /// and — only after a first failure — the result of the single
    /// reconnect-and-retry. Resolution takes at most two attempts, so a slow
    /// peer can never block upstream ingestion indefinitely; a second
    /// failure drops the envelope explicitly. The counter is untouched:
    /// delivery failures never disturb sequence assignment.
    pub fn on_forward_result(&mut self, first: SendAttempt, retry: Option<SendAttempt>) -> (o:
        ForwardOutcome)
        requires
            old(self).wf(),
            first is Failed <==> retry is Some,
        ensures
            final(self).wf(),
            final(self).counter == old(self).counter,
            final(self).issued == old(self).issued,
            final(self).upstream == old(self).upstream,
            o is Sent <==> first is Delivered,
            o is SentAfterRetry <==> retry == Some(SendAttempt::Delivered),
            o is Dropped <==> retry == Some(SendAttempt::Failed),
            o is Dropped ==> final(self).downstream.state is Disconnected,
            o is Sent ==> final(self).downstream == old(self).downstream,
            o is SentAfterRetry ==> final(self).downstream.state is Connected,
    {
        match first {
            SendAttempt::Delivered => ForwardOutcome::Sent,
            SendAttempt::Failed => {
                // the downstream leg failed once: one synchronous
                // reconnect-and-retry before the message is given up
                match retry {
                    Some(SendAttempt::Delivered) => {
                        self.downstream.on_connect_success();
                        ForwardOutcome::SentAfterRetry
                    },
                    Some(SendAttempt::Failed) => {
                        let _delay = self.downstream.on_failure();
                        ForwardOutcome::Dropped
                    },
                    None => {
                        // unreachable under the precondition
                        ForwardOutcome::Sent
                    },
                }
            },
        }
    }
}

} // verus!
