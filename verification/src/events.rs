//! Wire-level data model: the upstream book-ticker event and the envelope
//! relayed from the origin (Tokyo) to the destination (Frankfurt).

use vstd::prelude::*;

verus! {

/// One book-ticker event as the upstream feed reports it. Only `event_time`
/// (producer clock, milliseconds since epoch) matters to the latency
/// engine; the market fields ride along untouched.
#[derive(Debug, Clone)]
pub struct BinanceBookTickerEvent {
    pub event_type: String,
    pub update_id: i64,
    pub event_time: i64,
    pub transaction_time: i64,
    pub symbol: String,
    pub best_bid_price: String,
    pub best_bid_qty: String,
    pub best_ask_price: String,
    pub best_ask_qty: String,
}

/// The envelope the origin relays to the destination: a gapless sequence id,
/// the origin's receive timestamp (nanoseconds since epoch), the producer's
/// event time (milliseconds since epoch), and the raw upstream payload.
#[derive(Debug, Clone)]
pub struct ForwardedEvent {
    pub sequence_id: u64,
    pub tokyo_receive_timestamp: i64,
    pub binance_event_time: i64,
    pub event_data: String,
}

} // verus!
