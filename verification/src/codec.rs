//! Wire codec for the relay envelope: a single-line record with the four
//! envelope fields in a fixed order, numbers in decimal, and the payload
//! text between double quotes with `"` and `\` backslash-escaped.
//!
//! The origin and the destination are the two ends of this library, so the
//! parser needs to accept exactly what the encoder emits; it is lenient
//! about redundant leading zeros in numbers but otherwise reads the same
//! grammar. Every encoding parses back to the envelope it came from.

use vstd::prelude::*;
use vstd::string::StrSliceExecFns;
use crate::events::ForwardedEvent;

verus! {

// ---------------------------------------------------------------------------
// decimal digits
// ---------------------------------------------------------------------------

pub open spec fn is_digit(c: char) -> bool {
    48 <= c as int <= 57
}

pub open spec fn digit_val(c: char) -> int {
    c as int - 48
}

pub open spec fn digit_char(d: int) -> char {
    if d == 0 {
        '0'
    } else if d == 1 {
        '1'
    } else if d == 2 {
        '2'
    } else if d == 3 {
        '3'
    } else if d == 4 {
        '4'
    } else if d == 5 {
        '5'
    } else if d == 6 {
        '6'
    } else if d == 7 {
        '7'
    } else if d == 8 {
        '8'
    } else {
        '9'
    }
}

/// Decimal digit string of a non-negative number, most significant first.
pub open spec fn dec_digits(n: int) -> Seq<char>
    decreases (if n >= 0 { n } else { 0 }),
{
    if n < 10 {
        seq![digit_char(n)]
    } else {
        dec_digits(n / 10).push(digit_char(n % 10))
    }
}

/// Decimal rendering of a signed number: a leading `-` for negatives.
pub open spec fn dec_rep_i64(v: int) -> Seq<char> {
    if v < 0 {
        seq!['-'] + dec_digits(-v)
    } else {
        dec_digits(v)
    }
}

pub proof fn lemma_dec_digits_are_digits(n: int)
    requires
        n >= 0,
    ensures
        dec_digits(n).len() >= 1,
        forall|i: int| 0 <= i < dec_digits(n).len() ==> is_digit(#[trigger] dec_digits(n)[i]),
    decreases n,
{
    if n >= 10 {
        lemma_dec_digits_are_digits(n / 10);
    }
}

/// Left-to-right (Horner) value of a digit string on top of an accumulator.
pub open spec fn digits_value(ds: Seq<char>, acc: int) -> int
    decreases ds.len(),
{
    if ds.len() == 0 {
        acc
    } else {
        digits_value(ds.drop_first(), acc * 10 + digit_val(ds.first()))
    }
}

proof fn lemma_digits_value_append(a: Seq<char>, b: Seq<char>, acc: int)
    ensures
        digits_value(a + b, acc) == digits_value(b, digits_value(a, acc)),
    decreases a.len(),
{
    if a.len() == 0 {
        assert(a + b =~= b);
    } else {
        assert((a + b).drop_first() =~= a.drop_first() + b);
        lemma_digits_value_append(a.drop_first(), b, acc * 10 + digit_val(a.first()));
    }
}

pub proof fn lemma_dec_digits_value(n: int)
    requires
        n >= 0,
    ensures
        digits_value(dec_digits(n), 0) == n,
    decreases n,
{
    if n < 10 {
        assert(digits_value(dec_digits(n), 0) == digits_value(
            seq![digit_char(n)].drop_first(),
            digit_val(digit_char(n)),
        ));
        assert(seq![digit_char(n)].drop_first().len() == 0);
    } else {
        lemma_dec_digits_value(n / 10);
        let hi = dec_digits(n / 10);
        let lo = seq![digit_char(n % 10)];
        assert(dec_digits(n) =~= hi + lo);
        lemma_digits_value_append(hi, lo, 0);
        reveal_with_fuel(digits_value, 2);
        assert(lo.first() == digit_char(n % 10));
        assert(lo.drop_first().len() == 0);
        assert(digits_value(lo, n / 10) == (n / 10) * 10 + digit_val(digit_char(n % 10)));
        assert(digit_val(digit_char(n % 10)) == n % 10);
        vstd::arithmetic::div_mod::lemma_fundamental_div_mod(n, 10);
    }
}

/// The accumulated value never shrinks while digits are consumed.
proof fn lemma_digits_value_monotone(ds: Seq<char>, acc: int)
    requires
        acc >= 0,
        forall|i: int| 0 <= i < ds.len() ==> is_digit(#[trigger] ds[i]),
    ensures
        digits_value(ds, acc) >= acc,
    decreases ds.len(),
{
    if ds.len() > 0 {
        assert(is_digit(ds.first()));
        lemma_digits_value_monotone(ds.drop_first(), acc * 10 + digit_val(ds.first()));
        assert(acc * 10 >= acc) by (nonlinear_arith)
            requires acc >= 0,
        ;
    }
}

// ---------------------------------------------------------------------------
// digit scanning
// ---------------------------------------------------------------------------

/// Greedy decimal scan from position `i` with accumulator `acc`: consumes
/// digits until a non-digit or the end, rejecting values above `u64::MAX`.
pub open spec fn spec_scan_u64(s: Seq<char>, i: int, acc: int) -> Option<(int, int)>
    decreases (if i < s.len() { s.len() - i } else { 0 }),
{
    if 0 <= i < s.len() && is_digit(s[i]) {
        let a2 = acc * 10 + digit_val(s[i]);
        if a2 > u64::MAX as int {
            None
        } else {
            spec_scan_u64(s, i + 1, a2)
        }
    } else {
        Some((acc, i))
    }
}

/// Scanning a digit string in place yields its value and stops right after
/// it, provided the value fits and the next character is not a digit.
pub proof fn lemma_scan_digits(s: Seq<char>, i: int, ds: Seq<char>, acc: int)
    requires
        0 <= i,
        i + ds.len() <= s.len(),
        forall|k: int| 0 <= k < ds.len() ==> #[trigger] ds[k] == s[i + k],
        forall|k: int| 0 <= k < ds.len() ==> is_digit(#[trigger] ds[k]),
        i + ds.len() == s.len() || !is_digit(s[i + ds.len()]),
        0 <= acc,
        digits_value(ds, acc) <= u64::MAX as int,
    ensures
        spec_scan_u64(s, i, acc) == Some((digits_value(ds, acc), i + ds.len())),
    decreases ds.len(),
{
    if ds.len() == 0 {
    } else {
        assert(s[i] == ds[0]);
        assert(is_digit(s[i]));
        let a2 = acc * 10 + digit_val(ds.first());
        lemma_digits_value_monotone(ds.drop_first(), a2);
        assert(digits_value(ds, acc) == digits_value(ds.drop_first(), a2));
        assert(forall|k: int|
            0 <= k < ds.drop_first().len() ==> #[trigger] ds.drop_first()[k] == ds[k + 1]);
        lemma_scan_digits(s, i + 1, ds.drop_first(), a2);
    }
}

/// Decodes one decimal digit character; `None` exactly on non-digits.
fn digit_of(c: char) -> (r: Option<u64>)
    ensures
        r is Some <==> is_digit(c),
        r matches Some(d) ==> d as int == digit_val(c) && d <= 9,
{
    match c {
        '0' => Some(0),
        '1' => Some(1),
        '2' => Some(2),
        '3' => Some(3),
        '4' => Some(4),
        '5' => Some(5),
        '6' => Some(6),
        '7' => Some(7),
        '8' => Some(8),
        '9' => Some(9),
        _ => None,
    }
}

/// Reads an unsigned decimal number at position `i`: at least one digit,
/// greedy, value at most `u64::MAX`. Mirrors `spec_scan_u64`.
pub fn scan_u64(s: &Vec<char>, i: usize) -> (r: Option<(u64, usize)>)
    requires
        i <= s@.len(),
    ensures
        ({
            if i < s@.len() && is_digit(s@[i as int]) {
                match spec_scan_u64(s@, i as int, 0) {
                    Some((v, j)) => r matches Some(p) && p.0 as int == v && p.1 as int == j,
                    None => r is None,
                }
            } else {
                r is None
            }
        }),
        r matches Some(p) ==> i <= p.1 <= s@.len(),
{
    if i >= s.len() {
        return None;
    }
    if digit_of(s[i]).is_none() {
        return None;
    }
    let mut acc: u64 = 0;
    let mut j: usize = i;
    loop
        invariant
            i <= j <= s@.len(),
            i < s@.len() && is_digit(s@[i as int]),
            spec_scan_u64(s@, i as int, 0) == spec_scan_u64(s@, j as int, acc as int),
        decreases s@.len() - j,
    {
        if j >= s.len() {
            return Some((acc, j));
        }
        let d = match digit_of(s[j]) {
            Some(d) => d,
            None => {
                return Some((acc, j));
            },
        };
        if acc > (u64::MAX - d) / 10 {
            proof {
                assert((acc as int) * 10 + (d as int) > u64::MAX as int) by (nonlinear_arith)
                    requires
                        acc as int > ((u64::MAX - d) as int) / 10,
                        (u64::MAX - d) as int == u64::MAX as int - d as int,
                        0 <= d as int <= 9,
                {
                    vstd::arithmetic::div_mod::lemma_fundamental_div_mod(
                        u64::MAX as int - d as int,
                        10,
                    );
                }
            }
            return None;
        }
        proof {
            assert((acc as int) * 10 + (d as int) <= u64::MAX as int) by (nonlinear_arith)
                requires
                    acc as int <= ((u64::MAX - d) as int) / 10,
                    (u64::MAX - d) as int == u64::MAX as int - d as int,
                    0 <= d as int <= 9,
            {
                vstd::arithmetic::div_mod::lemma_fundamental_div_mod(
                    u64::MAX as int - d as int,
                    10,
                );
            }
        }
        acc = acc * 10 + d;
        j = j + 1;
    }
}

/// Decimal scan anchored at `i`: fails unless a digit starts there.
pub open spec fn spec_scan_u64_at(s: Seq<char>, i: int) -> Option<(int, int)> {
    if 0 <= i < s.len() && is_digit(s[i]) {
        spec_scan_u64(s, i, 0)
    } else {
        None
    }
}

/// Signed decimal scan: an optional leading `-`, then digits, greedy,
/// rejecting values outside `i64`.
pub open spec fn spec_scan_i64(s: Seq<char>, i: int) -> Option<(i64, int)> {
    if 0 <= i < s.len() && s[i] == '-' {
        match spec_scan_u64_at(s, i + 1) {
            Some((m, j)) => if 1 <= m <= -(i64::MIN as int) {
                Some(((-m) as i64, j))
            } else {
                None
            },
            None => None,
        }
    } else {
        match spec_scan_u64_at(s, i) {
            Some((m, j)) => if m <= i64::MAX as int {
                Some((m as i64, j))
            } else {
                None
            },
            None => None,
        }
    }
}

/// Scanning the decimal rendering of `n` in place yields `n` and stops
/// right after it, provided the next character is not a digit.
pub proof fn lemma_scan_u64_of_rep(s: Seq<char>, i: int, n: u64)
    requires
        0 <= i,
        i + dec_digits(n as int).len() <= s.len(),
        forall|k: int|
            0 <= k < dec_digits(n as int).len() ==> s[i + k] == #[trigger] dec_digits(n as int)[k],
        i + dec_digits(n as int).len() == s.len() || !is_digit(s[i + dec_digits(n as int).len()]),
    ensures
        spec_scan_u64_at(s, i) == Some((n as int, i + dec_digits(n as int).len())),
{
    let ds = dec_digits(n as int);
    lemma_dec_digits_are_digits(n as int);
    lemma_dec_digits_value(n as int);
    assert(s[i] == ds[0]);
    lemma_scan_digits(s, i, ds, 0);
}

/// The signed version of `lemma_scan_u64_of_rep`.
pub proof fn lemma_scan_i64_of_rep(s: Seq<char>, i: int, v: i64)
    requires
        0 <= i,
        i + dec_rep_i64(v as int).len() <= s.len(),
        forall|k: int|
            0 <= k < dec_rep_i64(v as int).len() ==> s[i + k] == #[trigger] dec_rep_i64(
                v as int,
            )[k],
        i + dec_rep_i64(v as int).len() == s.len() || !is_digit(
            s[i + dec_rep_i64(v as int).len()],
        ),
    ensures
        spec_scan_i64(s, i) == Some((v, i + dec_rep_i64(v as int).len())),
{
    let rep = dec_rep_i64(v as int);
    if v < 0 {
        let m = -(v as int);
        let ds = dec_digits(m);
        assert(rep =~= seq!['-'] + ds);
        assert(s[i] == '-');
        lemma_dec_digits_are_digits(m);
        lemma_dec_digits_value(m);
        assert(forall|k: int| 0 <= k < ds.len() ==> s[i + 1 + k] == #[trigger] ds[k]) by {
            assert(forall|k: int| 0 <= k < ds.len() ==> rep[k + 1] == #[trigger] ds[k]);
        }
        assert(s[i + 1] == ds[0]);
        lemma_scan_digits(s, i + 1, ds, 0);
    } else {
        let ds = dec_digits(v as int);
        assert(rep =~= ds);
        lemma_dec_digits_are_digits(v as int);
        lemma_dec_digits_value(v as int);
        assert(s[i] == ds[0]);
        assert(is_digit(s[i]));
        assert(s[i] != '-');
        lemma_scan_digits(s, i, ds, 0);
    }
}

/// Reads a signed decimal number at position `i`. Mirrors `spec_scan_i64`.
pub fn scan_i64(s: &Vec<char>, i: usize) -> (r: Option<(i64, usize)>)
    requires
        i <= s@.len(),
    ensures
        ({
            match spec_scan_i64(s@, i as int) {
                Some((v, j)) => r matches Some(p) && p.0 == v && p.1 as int == j,
                None => r is None,
            }
        }),
        r matches Some(p) ==> i <= p.1 <= s@.len(),
{
    if i < s.len() && s[i] == '-' {
        match scan_u64(s, i + 1) {
            Some((m, j)) => {
                if 1 <= m && m <= 9_223_372_036_854_775_808u64 {
                    let val: i64 = (-(m as i128)) as i64;
                    Some((val, j))
                } else {
                    None
                }
            },
            None => None,
        }
    } else {
        match scan_u64(s, i) {
            Some((m, j)) => {
                if m <= i64::MAX as u64 {
                    Some((m as i64, j))
                } else {
                    None
                }
            },
            None => None,
        }
    }
}

// ---------------------------------------------------------------------------
// payload escaping
// ---------------------------------------------------------------------------

/// `"` and `\` are escaped with a backslash; everything else passes through.
pub open spec fn escape_char(c: char) -> Seq<char> {
    if c == '"' {
        seq!['\\', '"']
    } else if c == '\\' {
        seq!['\\', '\\']
    } else {
        seq![c]
    }
}

pub open spec fn escape_str(p: Seq<char>) -> Seq<char>
    decreases p.len(),
{
    if p.len() == 0 {
        Seq::empty()
    } else {
        escape_char(p.first()) + escape_str(p.drop_first())
    }
}

pub proof fn lemma_escape_push(p: Seq<char>, c: char)
    ensures
        escape_str(p.push(c)) == escape_str(p) + escape_char(c),
    decreases p.len(),
{
    if p.len() == 0 {
        assert(p.push(c).drop_first() =~= Seq::<char>::empty());
        assert(p.push(c).first() == c);
        assert(escape_str(p.push(c)) == escape_char(c) + escape_str(Seq::<char>::empty()));
        assert(escape_char(c) + Seq::<char>::empty() =~= escape_char(c));
        assert(Seq::<char>::empty() + escape_char(c) =~= escape_char(c));
        assert(escape_str(p.push(c)) =~= escape_str(p) + escape_char(c));
    } else {
        assert(p.push(c).drop_first() =~= p.drop_first().push(c));
        assert(p.push(c).first() == p.first());
        lemma_escape_push(p.drop_first(), c);
        assert(escape_str(p.push(c)) =~= escape_str(p) + escape_char(c)) by {
            assert(escape_str(p.push(c)) == escape_char(p.first()) + (escape_str(p.drop_first())
                + escape_char(c)));
        }
    }
}

/// String-body scan: consumes escaped payload text up to and including the
/// closing unescaped `"`, yielding the decoded payload and the position
/// right after the quote.
pub open spec fn spec_scan_str(s: Seq<char>, i: int) -> Option<(Seq<char>, int)>
    decreases (if i < s.len() { s.len() - i } else { 0 }),
{
    if !(0 <= i < s.len()) {
        None
    } else if s[i] == '"' {
        Some((Seq::empty(), i + 1))
    } else if s[i] == '\\' {
        if i + 1 < s.len() && (s[i + 1] == '"' || s[i + 1] == '\\') {
            match spec_scan_str(s, i + 2) {
                Some((p, j)) => Some((seq![s[i + 1]] + p, j)),
                None => None,
            }
        } else {
            None
        }
    } else {
        match spec_scan_str(s, i + 1) {
            Some((p, j)) => Some((seq![s[i]] + p, j)),
            None => None,
        }
    }
}

/// Scanning an escaped payload followed by a closing quote recovers the
/// payload exactly.
pub proof fn lemma_scan_str_of_escaped(s: Seq<char>, i: int, p: Seq<char>)
    requires
        0 <= i,
        i + escape_str(p).len() + 1 <= s.len(),
        forall|k: int| 0 <= k < escape_str(p).len() ==> s[i + k] == #[trigger] escape_str(p)[k],
        s[i + escape_str(p).len()] == '"',
    ensures
        spec_scan_str(s, i) == Some((p, i + escape_str(p).len() + 1)),
    decreases p.len(),
{
    if p.len() == 0 {
        assert(escape_str(p).len() == 0);
        assert(s[i] == '"');
    } else {
        let c = p.first();
        let e = escape_str(p);
        let e1 = escape_char(c);
        let rest = escape_str(p.drop_first());
        assert(e == e1 + rest);
        assert forall|k: int| 0 <= k < rest.len() implies s[i + e1.len() + k] == #[trigger] rest[k] by {
            assert(rest[k] == e[e1.len() + k]);
            assert(s[i + (e1.len() + k)] == e[e1.len() + k]);
        }
        assert(s[i + e1.len() + rest.len()] == '"') by {
            assert(i + e1.len() + rest.len() == i + e.len());
        }
        lemma_scan_str_of_escaped(s, i + e1.len(), p.drop_first());
        if c == '"' {
            assert(e[0] == '\\' && e[1] == '"');
            assert(s[i] == e[0] && s[i + 1] == e[1]);
            assert(seq![s[i + 1]] + p.drop_first() =~= p);
        } else if c == '\\' {
            assert(e[0] == '\\' && e[1] == '\\');
            assert(s[i] == e[0] && s[i + 1] == e[1]);
            assert(seq![s[i + 1]] + p.drop_first() =~= p);
        } else {
            assert(e[0] == c);
            assert(s[i + 0] == e[0]);
            assert(s[i] != '"' && s[i] != '\\');
            assert(seq![s[i]] + p.drop_first() =~= p);
        }
    }
}

/// Reads a string body at position `i`. Mirrors `spec_scan_str`.
pub fn scan_string(s: &Vec<char>, i: usize) -> (r: Option<(Vec<char>, usize)>)
    requires
        i <= s@.len(),
    ensures
        ({
            match spec_scan_str(s@, i as int) {
                Some((p, j)) => r matches Some(t) && t.0@ == p && t.1 as int == j,
                None => r is None,
            }
        }),
        r matches Some(t) ==> i <= t.1 <= s@.len(),
{
    let mut out: Vec<char> = Vec::new();
    let mut j: usize = i;
    loop
        invariant
            i <= j <= s@.len(),
            ({
                match spec_scan_str(s@, j as int) {
                    Some((p, e)) => spec_scan_str(s@, i as int) == Some((out@ + p, e)),
                    None => spec_scan_str(s@, i as int) is None,
                }
            }),
        decreases s@.len() - j,
    {
        if j >= s.len() {
            return None;
        }
        let c = s[j];
        if c == '"' {
            proof {
                assert(out@ + Seq::<char>::empty() =~= out@);
            }
            return Some((out, j + 1));
        }
        if c == '\\' {
            if j + 1 < s.len() {
                let n = s[j + 1];
                if n == '"' || n == '\\' {
                    let ghost prev = out@;
                    out.push(n);
                    proof {
                        if let Some((p, e)) = spec_scan_str(s@, j as int + 2) {
                            assert(prev + (seq![s@[j as int + 1]] + p) =~= out@ + p);
                        }
                    }
                    j = j + 2;
                } else {
                    return None;
                }
            } else {
                return None;
            }
        } else {
            let ghost prev = out@;
            out.push(c);
            proof {
                if let Some((p, e)) = spec_scan_str(s@, j as int + 1) {
                    assert(prev + (seq![s@[j as int]] + p) =~= out@ + p);
                }
            }
            j = j + 1;
        }
    }
}

// ---------------------------------------------------------------------------
// the envelope record
// ---------------------------------------------------------------------------

/// Field marker before the sequence id, with the opening brace.
pub open spec fn lit_seq_id() -> Seq<char> {
    seq!['{', '"', 's', 'e', 'q', 'u', 'e', 'n', 'c', 'e', '_', 'i', 'd', '"', ':']
}

/// Field marker before the origin receive timestamp.
pub open spec fn lit_tokyo() -> Seq<char> {
    seq![
        ',', '"', 't', 'o', 'k', 'y', 'o', '_', 'r', 'e', 'c', 'e', 'i', 'v', 'e', '_', 't', 'i',
        'm', 'e', 's', 't', 'a', 'm', 'p', '"', ':',
    ]
}

/// Field marker before the producer event time.
pub open spec fn lit_binance() -> Seq<char> {
    seq![
        ',', '"', 'b', 'i', 'n', 'a', 'n', 'c', 'e', '_', 'e', 'v', 'e', 'n', 't', '_', 't', 'i',
        'm', 'e', '"', ':',
    ]
}

/// Field marker before the payload, with the payload's opening quote.
pub open spec fn lit_event_data() -> Seq<char> {
    seq![',', '"', 'e', 'v', 'e', 'n', 't', '_', 'd', 'a', 't', 'a', '"', ':', '"']
}

/// The canonical wire text of an envelope: the four fields in order,
/// numbers in decimal, the payload escaped and quoted, one record per line
/// left to the transport.
pub open spec fn spec_encode_envelope(
    sid: u64,
    tokyo: i64,
    binance: i64,
    payload: Seq<char>,
) -> Seq<char> {
    lit_seq_id() + dec_digits(sid as int) + lit_tokyo() + dec_rep_i64(tokyo as int) + lit_binance()
        + dec_rep_i64(binance as int) + lit_event_data() + escape_str(payload) + seq!['"', '}']
}

/// The wire-text reader: the exact inverse of `spec_encode_envelope` on
/// encoder output, lenient only about redundant leading zeros in numbers.
pub open spec fn spec_parse_envelope(s: Seq<char>) -> Option<(u64, i64, i64, Seq<char>)> {
    let n1 = lit_seq_id().len() as int;
    if !(n1 <= s.len() && s.subrange(0, n1) == lit_seq_id()) {
        None
    } else {
        match spec_scan_u64_at(s, n1) {
            Some((sid, i2)) => {
                let n2 = lit_tokyo().len() as int;
                if !(i2 + n2 <= s.len() && s.subrange(i2, i2 + n2) == lit_tokyo()) {
                    None
                } else {
                    match spec_scan_i64(s, i2 + n2) {
                        Some((tokyo, i3)) => {
                            let n3 = lit_binance().len() as int;
                            if !(i3 + n3 <= s.len() && s.subrange(i3, i3 + n3) == lit_binance()) {
                                None
                            } else {
                                match spec_scan_i64(s, i3 + n3) {
                                    Some((binance, i4)) => {
                                        let n4 = lit_event_data().len() as int;
                                        if !(i4 + n4 <= s.len() && s.subrange(i4, i4 + n4)
                                            == lit_event_data()) {
                                            None
                                        } else {
                                            match spec_scan_str(s, i4 + n4) {
                                                Some((payload, i5)) => {
                                                    if i5 + 1 == s.len() && s[i5] == '}' {
                                                        Some((sid as u64, tokyo, binance, payload))
                                                    } else {
                                                        None
                                                    }
                                                },
                                                None => None,
                                            }
                                        }
                                    },
                                    None => None,
                                }
                            }
                        },
                        None => None,
                    }
                }
            },
            None => None,
        }
    }
}

/// Round trip: parsing the encoding of any envelope yields its fields back,
/// the payload text verbatim.
#[verifier::rlimit(100)]
pub proof fn lemma_envelope_round_trip(sid: u64, tokyo: i64, binance: i64, payload: Seq<char>)
    ensures
        spec_parse_envelope(spec_encode_envelope(sid, tokyo, binance, payload)) == Some(
            (sid, tokyo, binance, payload),
        ),
{
    let s = spec_encode_envelope(sid, tokyo, binance, payload);
    let a1 = lit_seq_id();
    let d1 = dec_digits(sid as int);
    let a2 = lit_tokyo();
    let d2 = dec_rep_i64(tokyo as int);
    let a3 = lit_binance();
    let d3 = dec_rep_i64(binance as int);
    let a4 = lit_event_data();
    let e = escape_str(payload);
    let tail = seq!['"', '}'];
    let o1 = a1.len() as int;
    let o2 = o1 + d1.len();
    let o3 = o2 + a2.len();
    let o4 = o3 + d2.len();
    let o5 = o4 + a3.len();
    let o6 = o5 + d3.len();
    let o7 = o6 + a4.len();
    let o8 = o7 + e.len();
    lemma_dec_digits_are_digits(sid as int);
    assert(s.len() == o8 + 2);
    assert forall|k: int| 0 <= k < a1.len() implies s[k] == a1[k] by {}
    assert forall|k: int| 0 <= k < d1.len() implies s[o1 + k] == d1[k] by {}
    assert forall|k: int| 0 <= k < a2.len() implies s[o2 + k] == a2[k] by {}
    assert forall|k: int| 0 <= k < d2.len() implies s[o3 + k] == d2[k] by {}
    assert forall|k: int| 0 <= k < a3.len() implies s[o4 + k] == a3[k] by {}
    assert forall|k: int| 0 <= k < d3.len() implies s[o5 + k] == d3[k] by {}
    assert forall|k: int| 0 <= k < a4.len() implies s[o6 + k] == a4[k] by {}
    assert forall|k: int| 0 <= k < e.len() implies s[o7 + k] == e[k] by {}
    assert(s[o8] == '"' && s[o8 + 1] == '}');
    // stage 1: the opening marker
    assert(s.subrange(0, o1) =~= a1);
    // stage 2: the sequence id, terminated by the comma of the next marker
    assert(s[o2] == a2[0]);
    assert(!is_digit(s[o2]));
    lemma_scan_u64_of_rep(s, o1, sid);
    assert(spec_scan_u64_at(s, o1) == Some((sid as int, o2)));
    // stage 3
    assert(s.subrange(o2, o3) =~= a2);
    // stage 4: the origin timestamp
    assert(s[o4] == a3[0]);
    assert(!is_digit(s[o4]));
    lemma_scan_i64_of_rep(s, o3, tokyo);
    // stage 5
    assert(s.subrange(o4, o5) =~= a3);
    // stage 6: the producer event time
    assert(s[o6] == a4[0]);
    assert(!is_digit(s[o6]));
    lemma_scan_i64_of_rep(s, o5, binance);
    // stage 7
    assert(s.subrange(o6, o7) =~= a4);
    // stage 8: the payload body up to its closing quote
    lemma_scan_str_of_escaped(s, o7, payload);
    assert(spec_scan_str(s, o7) == Some((payload, o8 + 1)));
    // stage 9: the closing brace ends the record
    assert(s[o8 + 1] == '}' && o8 + 2 == s.len());
    assert((sid as int) as u64 == sid);
}

// ---------------------------------------------------------------------------
// executable encoder
// ---------------------------------------------------------------------------

pub fn digit_char_of(d: u64) -> (c: char)
    requires
        d <= 9,
    ensures
        c == digit_char(d as int),
{
    match d {
        0 => '0',
        1 => '1',
        2 => '2',
        3 => '3',
        4 => '4',
        5 => '5',
        6 => '6',
        7 => '7',
        8 => '8',
        _ => '9',
    }
}

pub fn u64_to_dec(n: u64) -> (v: Vec<char>)
    ensures
        v@ == dec_digits(n as int),
    decreases n,
{
    if n < 10 {
        let mut v: Vec<char> = Vec::new();
        v.push(digit_char_of(n));
        proof {
            assert(v@ =~= dec_digits(n as int));
        }
        v
    } else {
        let mut v = u64_to_dec(n / 10);
        v.push(digit_char_of(n % 10));
        proof {
            assert(v@ =~= dec_digits(n as int));
        }
        v
    }
}

pub fn i64_to_dec(val: i64) -> (v: Vec<char>)
    ensures
        v@ == dec_rep_i64(val as int),
{
    if val >= 0 {
        let v = u64_to_dec(val as u64);
        proof {
            assert(v@ =~= dec_rep_i64(val as int));
        }
        v
    } else {
        let mag: u64 = (-(val as i128)) as u64;
        let mut v: Vec<char> = Vec::new();
        v.push('-');
        let mut digits = u64_to_dec(mag);
        v.append(&mut digits);
        proof {
            assert(v@ =~= dec_rep_i64(val as int));
        }
        v
    }
}

fn escape_payload(p: &Vec<char>) -> (out: Vec<char>)
    ensures
        out@ == escape_str(p@),
{
    let mut out: Vec<char> = Vec::new();
    let mut i: usize = 0;
    proof {
        assert(p@.take(0) =~= Seq::<char>::empty());
    }
    while i < p.len()
        invariant
            i <= p@.len(),
            out@ == escape_str(p@.take(i as int)),
        decreases p@.len() - i,
    {
        let c = p[i];
        let ghost prev = out@;
        if c == '"' {
            out.push('\\');
            out.push('"');
        } else if c == '\\' {
            out.push('\\');
            out.push('\\');
        } else {
            out.push(c);
        }
        proof {
            lemma_escape_push(p@.take(i as int), c);
            assert(p@.take(i as int + 1) =~= p@.take(i as int).push(c));
            assert(out@ =~= prev + escape_char(c));
        }
        i = i + 1;
    }
    proof {
        assert(p@.take(p@.len() as int) =~= p@);
    }
    out
}

fn lit_seq_id_vec() -> (v: Vec<char>)
    ensures
        v@ == lit_seq_id(),
{
    let mut v: Vec<char> = Vec::new();
    v.push('{');
    v.push('"');
    v.push('s');
    v.push('e');
    v.push('q');
    v.push('u');
    v.push('e');
    v.push('n');
    v.push('c');
    v.push('e');
    v.push('_');
    v.push('i');
    v.push('d');
    v.push('"');
    v.push(':');
    proof {
        assert(v@ =~= lit_seq_id());
    }
    v
}

fn lit_tokyo_vec() -> (v: Vec<char>)
    ensures
        v@ == lit_tokyo(),
{
    let mut v: Vec<char> = Vec::new();
    v.push(',');
    v.push('"');
    v.push('t');
    v.push('o');
    v.push('k');
    v.push('y');
    v.push('o');
    v.push('_');
    v.push('r');
    v.push('e');
    v.push('c');
    v.push('e');
    v.push('i');
    v.push('v');
    v.push('e');
    v.push('_');
    v.push('t');
    v.push('i');
    v.push('m');
    v.push('e');
    v.push('s');
    v.push('t');
    v.push('a');
    v.push('m');
    v.push('p');
    v.push('"');
    v.push(':');
    proof {
        assert(v@ =~= lit_tokyo());
    }
    v
}

fn lit_binance_vec() -> (v: Vec<char>)
    ensures
        v@ == lit_binance(),
{
    let mut v: Vec<char> = Vec::new();
    v.push(',');
    v.push('"');
    v.push('b');
    v.push('i');
    v.push('n');
    v.push('a');
    v.push('n');
    v.push('c');
    v.push('e');
    v.push('_');
    v.push('e');
    v.push('v');
    v.push('e');
    v.push('n');
    v.push('t');
    v.push('_');
    v.push('t');
    v.push('i');
    v.push('m');
    v.push('e');
    v.push('"');
    v.push(':');
    proof {
        assert(v@ =~= lit_binance());
    }
    v
}

fn lit_event_data_vec() -> (v: Vec<char>)
    ensures
        v@ == lit_event_data(),
{
    let mut v: Vec<char> = Vec::new();
    v.push(',');
    v.push('"');
    v.push('e');
    v.push('v');
    v.push('e');
    v.push('n');
    v.push('t');
    v.push('_');
    v.push('d');
    v.push('a');
    v.push('t');
    v.push('a');
    v.push('"');
    v.push(':');
    v.push('"');
    proof {
        assert(v@ =~= lit_event_data());
    }
    v
}

/// Relies on String::push: appends exactly one character.
#[verifier::external_body]
fn push_char(s: &mut String, c: char)
    ensures
        final(s)@ == old(s)@.push(c),
{
    s.push(c);
}

/// Builds a string from its characters.
pub fn chars_to_string(v: &Vec<char>) -> (s: String)
    ensures
        s@ == v@,
{
    let mut s = String::new();
    let mut i: usize = 0;
    proof {
        assert(s@ =~= v@.take(0));
    }
    while i < v.len()
        invariant
            i <= v@.len(),
            s@ == v@.take(i as int),
        decreases v@.len() - i,
    {
        push_char(&mut s, v[i]);
        proof {
            assert(v@.take(i as int + 1) =~= v@.take(i as int).push(v@[i as int]));
        }
        i = i + 1;
    }
    proof {
        assert(v@.take(v@.len() as int) =~= v@);
    }
    s
}

/// Reads a string out into its characters.
pub fn string_to_chars(s: &str) -> (v: Vec<char>)
    ensures
        v@ == s@,
{
    let n = s.unicode_len();
    let mut v: Vec<char> = Vec::new();
    let mut i: usize = 0;
    proof {
        assert(v@ =~= s@.take(0));
    }
    while i < n
        invariant
            i <= n,
            n == s@.len(),
            v@ == s@.take(i as int),
        decreases n - i,
    {
        v.push(s.get_char(i));
        proof {
            assert(s@.take(i as int + 1) =~= s@.take(i as int).push(s@[i as int]));
        }
        i = i + 1;
    }
    proof {
        assert(s@.take(s@.len() as int) =~= s@);
    }
    v
}

/// Writes one envelope as its wire text.
pub fn encode_forwarded_event(ev: &ForwardedEvent) -> (s: String)
    ensures
        s@ == spec_encode_envelope(
            ev.sequence_id,
            ev.tokyo_receive_timestamp,
            ev.binance_event_time,
            ev.event_data@,
        ),
{
    let payload = string_to_chars(ev.event_data.as_str());
    let mut out = lit_seq_id_vec();
    let mut part = u64_to_dec(ev.sequence_id);
    out.append(&mut part);
    let mut part = lit_tokyo_vec();
    out.append(&mut part);
    let mut part = i64_to_dec(ev.tokyo_receive_timestamp);
    out.append(&mut part);
    let mut part = lit_binance_vec();
    out.append(&mut part);
    let mut part = i64_to_dec(ev.binance_event_time);
    out.append(&mut part);
    let mut part = lit_event_data_vec();
    out.append(&mut part);
    let mut part = escape_payload(&payload);
    out.append(&mut part);
    out.push('"');
    out.push('}');
    proof {
        assert(out@ =~= spec_encode_envelope(
            ev.sequence_id,
            ev.tokyo_receive_timestamp,
            ev.binance_event_time,
            ev.event_data@,
        ));
    }
    chars_to_string(&out)
}

/// Compares the text at position `i` against an expected marker.
fn expect_lit(s: &Vec<char>, i: usize, lit: &Vec<char>) -> (r: Option<usize>)
    requires
        i <= s@.len(),
    ensures
        r is Some <==> (i + lit@.len() <= s@.len() && s@.subrange(
            i as int,
            i as int + lit@.len() as int,
        ) == lit@),
        r matches Some(j) ==> j as int == i + lit@.len(),
{
    if lit.len() > s.len() - i {
        proof {
            assert(i + lit@.len() > s@.len());
        }
        return None;
    }
    let slen = s.len();
    let mut k: usize = 0;
    while k < lit.len()
        invariant
            k <= lit@.len(),
            s@.len() == slen,
            i + lit@.len() <= s@.len(),
            forall|j: int| 0 <= j < k ==> s@[i + j] == #[trigger] lit@[j],
        decreases lit@.len() - k,
    {
        proof {
            assert(i + k < s@.len());
        }
        if s[i + k] != lit[k] {
            proof {
                let sub = s@.subrange(i as int, i as int + lit@.len() as int);
                assert(sub[k as int] == s@[i + k]);
                assert(sub != lit@);
            }
            return None;
        }
        k = k + 1;
    }
    proof {
        assert(s@.subrange(i as int, i as int + lit@.len() as int) =~= lit@);
    }
    Some(i + lit.len())
}

/// Reads one envelope back from its wire text. Accepts exactly the
/// encoder's records (plus redundant leading zeros in the numbers); on any
/// other text it returns `None`.
pub fn parse_forwarded_event(s: &str) -> (r: Option<ForwardedEvent>)
    ensures
        ({
            match spec_parse_envelope(s@) {
                Some(f) => r matches Some(ev) && ev.sequence_id == f.0
                    && ev.tokyo_receive_timestamp == f.1 && ev.binance_event_time == f.2
                    && ev.event_data@ == f.3,
                None => r is None,
            }
        }),
{
    let v = string_to_chars(s);
    let l1 = lit_seq_id_vec();
    let i1 = match expect_lit(&v, 0, &l1) {
        Some(j) => j,
        None => {
            return None;
        },
    };
    let (sid, i2) = match scan_u64(&v, i1) {
        Some(p) => p,
        None => {
            return None;
        },
    };
    let l2 = lit_tokyo_vec();
    let i3 = match expect_lit(&v, i2, &l2) {
        Some(j) => j,
        None => {
            return None;
        },
    };
    let (tokyo, i4) = match scan_i64(&v, i3) {
        Some(p) => p,
        None => {
            return None;
        },
    };
    let l3 = lit_binance_vec();
    let i5 = match expect_lit(&v, i4, &l3) {
        Some(j) => j,
        None => {
            return None;
        },
    };
    let (binance, i6) = match scan_i64(&v, i5) {
        Some(p) => p,
        None => {
            return None;
        },
    };
    let l4 = lit_event_data_vec();
    let i7 = match expect_lit(&v, i6, &l4) {
        Some(j) => j,
        None => {
            return None;
        },
    };
    let (payload, i8) = match scan_string(&v, i7) {
        Some(p) => p,
        None => {
            return None;
        },
    };
    if !(i8 < v.len() && i8 + 1 == v.len()) {
        return None;
    }
    if v[i8] != '}' {
        return None;
    }
    let event_data = chars_to_string(&payload);
    Some(ForwardedEvent {
        sequence_id: sid,
        tokyo_receive_timestamp: tokyo,
        binance_event_time: binance,
        event_data,
    })
}

} // verus!
