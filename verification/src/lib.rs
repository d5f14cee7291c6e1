//! Verified core of a two-site feed-latency measurement system.
//!
//! An origin node ingests a live market-data stream, stamps each message with
//! a receive timestamp and a gapless sequence number, and relays it to a
//! destination node, which stamps arrival, reconstructs sequence continuity,
//! and derives latency statistics (percentiles, jitter, loss).
//!
//! All timestamps and latencies are integer nanoseconds; producer event times
//! are integer milliseconds, as the upstream feed reports them.

pub mod codec;
pub mod events;
pub mod ingest;
pub mod relay;
pub mod report;
pub mod stats;
