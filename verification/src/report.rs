//! Tabular rendering of raw measurements: one CSV row per record, with
//! latencies in milliseconds at three decimal places (microsecond
//! resolution, truncated toward zero). Writing the rows out is the caller's
//! business.

use vstd::prelude::*;
use crate::codec::{dec_digits, dec_rep_i64, digit_char};
use crate::stats::{LatencyMeasurement, MAX_LATENCY_NS};

verus! {

/// A non-negative microsecond count as milliseconds with three decimals.
pub open spec fn spec_ms_3(us: int) -> Seq<char> {
    dec_digits(us / 1000) + seq!['.', digit_char((us % 1000) / 100), digit_char(
        ((us % 1000) / 10) % 10,
    ), digit_char((us % 1000) % 10)]
}

/// A nanosecond latency as signed milliseconds with three decimals,
/// truncated toward zero at microsecond resolution.
pub open spec fn spec_latency_ms(lat_ns: int) -> Seq<char> {
    if lat_ns < 0 {
        seq!['-'] + spec_ms_3((-lat_ns) / 1000)
    } else {
        spec_ms_3(lat_ns / 1000)
    }
}

/// One measurement as its CSV row: sequence id, producer time, origin time
/// (blank in baseline mode), destination time, end-to-end latency, relay-leg
/// latency (blank in baseline mode).
pub open spec fn spec_csv_row(m: LatencyMeasurement) -> Seq<char> {
    dec_digits(m.sequence_id as int) + seq![','] + dec_rep_i64(m.binance_event_time as int) + seq![
        ',',
    ] + (match m.tokyo_receive_time {
        Some(t) => dec_rep_i64(t as int),
        None => Seq::empty(),
    }) + seq![','] + dec_rep_i64(m.frankfurt_receive_time as int) + seq![','] + spec_latency_ms(
        m.end_to_end_latency_ns as int,
    ) + seq![','] + (match m.backbone_latency_ns {
        Some(b) => spec_latency_ms(b as int),
        None => Seq::empty(),
    })
}

/// Renders a non-negative microsecond count as `ms.fff`.
fn push_ms_3(out: &mut Vec<char>, us: u64)
    ensures
        final(out)@ == old(out)@ + spec_ms_3(us as int),
{
    let mut part = crate::codec::u64_to_dec(us / 1000);
    out.append(&mut part);
    out.push('.');
    let frac = us % 1000;
    out.push(crate::codec::digit_char_of(frac / 100));
    out.push(crate::codec::digit_char_of((frac / 10) % 10));
    out.push(crate::codec::digit_char_of(frac % 10));
    proof {
        assert((frac / 100) as int == ((us as int) % 1000) / 100);
        assert(((frac / 10) % 10) as int == (((us as int) % 1000) / 10) % 10);
        assert((frac % 10) as int == ((us as int) % 1000) % 10);
        assert(out@ =~= old(out)@ + spec_ms_3(us as int));
    }
}

/// Renders a nanosecond latency within the engine's window as signed
/// milliseconds with three decimals.
pub fn push_latency_ms(out: &mut Vec<char>, lat_ns: i128)
    requires
        -MAX_LATENCY_NS <= lat_ns <= MAX_LATENCY_NS,
    ensures
        final(out)@ == old(out)@ + spec_latency_ms(lat_ns as int),
{
    if lat_ns < 0 {
        out.push('-');
        let us: u64 = (((-lat_ns) as u128) / 1000) as u64;
        push_ms_3(out, us);
        proof {
            assert(out@ =~= old(out)@ + spec_latency_ms(lat_ns as int));
        }
    } else {
        let us: u64 = ((lat_ns as u128) / 1000) as u64;
        push_ms_3(out, us);
    }
}

/// The header row of the measurement table.
pub open spec fn spec_csv_header() -> Seq<char> {
    seq![
        's', 'e', 'q', 'u', 'e', 'n', 'c', 'e', '_', 'i', 'd', ',', 'b', 'i', 'n', 'a', 'n', 'c', 'e', '_', 't', 'i', 'm', 'e', ',', 't', 'o', 'k', 'y', 'o', '_', 't', 'i', 'm', 'e', ',', 'f', 'r', 'a', 'n', 'k', 'f', 'u', 'r', 't', '_', 't', 'i', 'm', 'e', ',', 'l', 'a', 't', 'e', 'n', 'c', 'y', '_', 'm', 's', ',', 'b', 'a', 'c', 'k', 'b', 'o', 'n', 'e', '_', 'l', 'a', 't', 'e', 'n', 'c', 'y', '_', 'm', 's',
    ]
}

/// The header row of the measurement table.
pub fn csv_header() -> (s: String)
    ensures
        s@ == spec_csv_header(),
{
    let mut out: Vec<char> = Vec::new();
    push_field_name(&mut out);
    crate::codec::chars_to_string(&out)
}

fn push_field_name(out: &mut Vec<char>)
    ensures
        final(out)@ == old(out)@ + spec_csv_header(),
{
    out.push('s');
    out.push('e');
    out.push('q');
    out.push('u');
    out.push('e');
    out.push('n');
    out.push('c');
    out.push('e');
    out.push('_');
    out.push('i');
    out.push('d');
    out.push(',');
    out.push('b');
    out.push('i');
    out.push('n');
    out.push('a');
    out.push('n');
    out.push('c');
    out.push('e');
    out.push('_');
    out.push('t');
    out.push('i');
    out.push('m');
    out.push('e');
    out.push(',');
    out.push('t');
    out.push('o');
    out.push('k');
    out.push('y');
    out.push('o');
    out.push('_');
    out.push('t');
    out.push('i');
    out.push('m');
    out.push('e');
    out.push(',');
    out.push('f');
    out.push('r');
    out.push('a');
    out.push('n');
    out.push('k');
    out.push('f');
    out.push('u');
    out.push('r');
    out.push('t');
    out.push('_');
    out.push('t');
    out.push('i');
    out.push('m');
    out.push('e');
    out.push(',');
    out.push('l');
    out.push('a');
    out.push('t');
    out.push('e');
    out.push('n');
    out.push('c');
    out.push('y');
    out.push('_');
    out.push('m');
    out.push('s');
    out.push(',');
    out.push('b');
    out.push('a');
    out.push('c');
    out.push('k');
    out.push('b');
    out.push('o');
    out.push('n');
    out.push('e');
    out.push('_');
    out.push('l');
    out.push('a');
    out.push('t');
    out.push('e');
    out.push('n');
    out.push('c');
    out.push('y');
    out.push('_');
    out.push('m');
    out.push('s');
    proof {
        assert(out@ =~= old(out)@ + spec_csv_header());
    }
}

/// One measurement rendered as its CSV row.
pub fn csv_row(m: &LatencyMeasurement) -> (s: String)
    requires
        -MAX_LATENCY_NS <= m.end_to_end_latency_ns <= MAX_LATENCY_NS,
        m.backbone_latency_ns matches Some(b) ==> -MAX_LATENCY_NS <= b <= MAX_LATENCY_NS,
    ensures
        s@ == spec_csv_row(*m),
{
    let mut out: Vec<char> = Vec::new();
    let mut part = crate::codec::u64_to_dec(m.sequence_id);
    out.append(&mut part);
    out.push(',');
    let mut part = crate::codec::i64_to_dec(m.binance_event_time);
    out.append(&mut part);
    out.push(',');
    if let Some(t) = m.tokyo_receive_time {
        let mut part = crate::codec::i64_to_dec(t);
        out.append(&mut part);
    }
    out.push(',');
    let mut part = crate::codec::i64_to_dec(m.frankfurt_receive_time);
    out.append(&mut part);
    out.push(',');
    push_latency_ms(&mut out, m.end_to_end_latency_ns);
    out.push(',');
    if let Some(b) = m.backbone_latency_ns {
        push_latency_ms(&mut out, b);
    }
    proof {
        assert(out@ =~= spec_csv_row(*m));
    }
    crate::codec::chars_to_string(&out)
}

} // verus!
