//! Latency statistics engine: percentiles by linear interpolation, population
//! jitter (standard deviation), and aggregate summaries, all over integer
//! nanosecond latencies.
//!
//! Percentile requests are given in basis points (0 stands for 0.0, 10_000
//! for 1.0), and every division rounds toward negative infinity, so each
//! statistic is the floor of the exact rational value.

use vstd::prelude::*;
use vstd::arithmetic::div_mod::{
    lemma_fundamental_div_mod, lemma_fundamental_div_mod_converse,
    lemma_hoist_over_denominator,
};
use vstd::relations::{sorted_by, total_ordering};
use vstd::seq_lib::lemma_sorted_unique;

verus! {

/// Largest magnitude, in nanoseconds, that the statistics engine accepts for
/// one latency sample: 1000 seconds. Keeps every intermediate product inside
/// `i128`/`u128`.
pub const MAX_LATENCY_NS: i128 = 1_000_000_000_000;

/// Largest number of samples one aggregate accepts.
pub const MAX_SAMPLES: usize = 1_000_000;

/// Every element lies within `[-MAX_LATENCY_NS, MAX_LATENCY_NS]`.
pub open spec fn in_window(s: Seq<i128>) -> bool {
    forall|i: int| 0 <= i < s.len() ==> -MAX_LATENCY_NS <= #[trigger] s[i] <= MAX_LATENCY_NS
}

/// Ascending order.
pub open spec fn sorted(s: Seq<i128>) -> bool {
    forall|i: int, j: int| 0 <= i <= j < s.len() ==> #[trigger] s[i] <= #[trigger] s[j]
}

/// The ordering the engine sorts latencies by.
pub open spec fn lat_leq() -> spec_fn(i128, i128) -> bool {
    |a: i128, b: i128| a <= b
}

/// The ascending rearrangement of a latency collection.
pub open spec fn sorted_version(s: Seq<i128>) -> Seq<i128> {
    s.sort_by(lat_leq())
}

pub open spec fn sum_of(s: Seq<i128>) -> int
    decreases s.len(),
{
    if s.len() == 0 {
        0
    } else {
        sum_of(s.drop_last()) + s.last()
    }
}

pub open spec fn sum_sq_of(s: Seq<i128>) -> int
    decreases s.len(),
{
    if s.len() == 0 {
        0
    } else {
        sum_sq_of(s.drop_last()) + (s.last() as int) * (s.last() as int)
    }
}

/// Arithmetic mean, floored; 0 on an empty collection.
pub open spec fn spec_mean(s: Seq<i128>) -> int {
    if s.len() == 0 {
        0
    } else {
        sum_of(s) / (s.len() as int)
    }
}

/// Linear-interpolation percentile over an ascending sequence. `p` is in
/// basis points. The rank is `p * (len - 1) / 10_000`; the result
/// interpolates between the two neighbouring elements, floored.
pub open spec fn spec_percentile(s: Seq<i128>, p: int) -> int {
    let n = s.len() as int;
    if n == 0 {
        0
    } else if n == 1 {
        s[0] as int
    } else {
        let scaled = p * (n - 1);
        let lo = scaled / 10_000;
        let w = scaled % 10_000;
        if w == 0 {
            s[lo] as int
        } else {
            ((s[lo] as int) * (10_000 - w) + (s[lo + 1] as int) * w) / 10_000
        }
    }
}

/// `n` times the sum of squared deviations from the exact mean:
/// `n * sum(x^2) - sum(x)^2`. Never negative.
pub open spec fn variance_num(s: Seq<i128>) -> int {
    (s.len() as int) * sum_sq_of(s) - sum_of(s) * sum_of(s)
}

/// Population variance, floored; 0 on an empty collection.
pub open spec fn spec_variance(s: Seq<i128>) -> int {
    if s.len() == 0 {
        0
    } else {
        variance_num(s) / ((s.len() * s.len()) as int)
    }
}

/// Integer square root by counting up; 0 for non-positive arguments.
pub open spec fn spec_isqrt(v: int) -> int
    decreases (if v >= 0 { v } else { 0 }),
{
    if v <= 0 {
        0
    } else {
        let r = spec_isqrt(v - 1);
        if (r + 1) * (r + 1) <= v {
            r + 1
        } else {
            r
        }
    }
}

/// Population standard deviation, floored.
pub open spec fn spec_jitter(s: Seq<i128>) -> int {
    spec_isqrt(spec_variance(s))
}

pub proof fn lemma_isqrt_bounds(v: int)
    requires
        v >= 0,
    ensures
        0 <= spec_isqrt(v),
        spec_isqrt(v) * spec_isqrt(v) <= v,
        v < (spec_isqrt(v) + 1) * (spec_isqrt(v) + 1),
    decreases v,
{
    if v > 0 {
        lemma_isqrt_bounds(v - 1);
        let r = spec_isqrt(v - 1);
        if (r + 1) * (r + 1) <= v {
            assert(v == (r + 1) * (r + 1));
            assert((r + 1) * (r + 1) < (r + 2) * (r + 2)) by (nonlinear_arith)
                requires r >= 0,
            ;
        }
    }
}

pub proof fn lemma_isqrt_unique(v: int, r: int)
    requires
        v >= 0,
        r >= 0,
        r * r <= v,
        v < (r + 1) * (r + 1),
    ensures
        r == spec_isqrt(v),
{
    let q = spec_isqrt(v);
    lemma_isqrt_bounds(v);
    if r < q {
        assert((r + 1) * (r + 1) <= q * q) by (nonlinear_arith)
            requires 0 <= r + 1 <= q,
        ;
    }
    if q < r {
        assert((q + 1) * (q + 1) <= r * r) by (nonlinear_arith)
            requires 0 <= q + 1 <= r,
        ;
    }
}

pub proof fn lemma_sum_of_push(s: Seq<i128>, x: i128)
    ensures
        sum_of(s.push(x)) == sum_of(s) + x,
        sum_sq_of(s.push(x)) == sum_sq_of(s) + (x as int) * (x as int),
{
    assert(s.push(x).drop_last() =~= s);
    assert(s.push(x).last() == x);
}

pub proof fn lemma_sum_bounds(s: Seq<i128>)
    requires
        in_window(s),
    ensures
        -(s.len() as int) * MAX_LATENCY_NS <= sum_of(s) <= (s.len() as int) * MAX_LATENCY_NS,
        0 <= sum_sq_of(s) <= (s.len() as int) * MAX_LATENCY_NS * MAX_LATENCY_NS,
    decreases s.len(),
{
    if s.len() > 0 {
        assert(in_window(s.drop_last())) by {
            assert(forall|i: int| 0 <= i < s.len() - 1 ==> s.drop_last()[i] == s[i]);
        }
        lemma_sum_bounds(s.drop_last());
        let x = s.last() as int;
        assert(x * x <= MAX_LATENCY_NS * MAX_LATENCY_NS) by (nonlinear_arith)
            requires -MAX_LATENCY_NS <= x <= MAX_LATENCY_NS,
        ;
        assert(x * x >= 0) by (nonlinear_arith);
    }
}

/// Cauchy-Schwarz for sums: `n * sum(x^2) >= sum(x)^2`, so the variance
/// numerator is never negative.
#[verifier::rlimit(50)]
pub proof fn lemma_variance_num_nonneg(s: Seq<i128>)
    ensures
        variance_num(s) >= 0,
    decreases s.len(),
{
    if s.len() == 0 {
    } else {
        let t = s.drop_last();
        lemma_variance_num_nonneg(t);
        let k = t.len() as int;
        let q = sum_sq_of(t);
        let m = sum_of(t);
        let x = s.last() as int;
        // goal: (k + 1) * (q + x*x) - (m + x) * (m + x) >= 0
        if k == 0 {
            assert(q == 0 && m == 0);
            assert((k + 1) * (q + x * x) - (m + x) * (m + x) == 0) by (nonlinear_arith)
                requires k == 0, q == 0, m == 0,
            ;
        } else {
            assert(k * (q + k * x * x - 2 * m * x) >= 0) by (nonlinear_arith)
                requires
                    k >= 1,
                    k * q - m * m >= 0,
            {
                assert((m - k * x) * (m - k * x) >= 0);
            }
            assert(q + k * x * x - 2 * m * x >= 0) by (nonlinear_arith)
                requires
                    k >= 1,
                    k * (q + k * x * x - 2 * m * x) >= 0,
            ;
            // x*x >= ... combine: (k+1)(q + x²) − (m+x)² = (kq − m²) + (q + kx² − 2mx)
            assert((k + 1) * (q + x * x) - (m + x) * (m + x)
                == (k * q - m * m) + (q + k * x * x - 2 * m * x)) by (nonlinear_arith);
        }
    }
}

/// A collection of one repeated value has variance numerator 0, hence
/// jitter exactly 0.
pub proof fn lemma_sum_constant(s: Seq<i128>, c: i128)
    requires
        forall|i: int| 0 <= i < s.len() ==> #[trigger] s[i] == c,
    ensures
        sum_of(s) == (s.len() as int) * (c as int),
        sum_sq_of(s) == (s.len() as int) * (c as int) * (c as int),
    decreases s.len(),
{
    if s.len() > 0 {
        let t = s.drop_last();
        assert(forall|i: int| 0 <= i < t.len() ==> #[trigger] t[i] == c);
        lemma_sum_constant(t, c);
        let n = s.len() as int;
        let cc = c as int;
        assert((n - 1) * cc + cc == n * cc) by (nonlinear_arith);
        assert((n - 1) * cc * cc + cc * cc == n * cc * cc) by (nonlinear_arith);
    }
}

/// Jitter (population standard deviation) of a constant-valued collection is
/// exactly 0.
pub proof fn lemma_jitter_constant(s: Seq<i128>, c: i128)
    requires
        forall|i: int| 0 <= i < s.len() ==> #[trigger] s[i] == c,
    ensures
        spec_jitter(s) == 0,
        spec_variance(s) == 0,
{
    lemma_sum_constant(s, c);
    let n = s.len() as int;
    let cc = c as int;
    assert(n * (n * cc * cc) - (n * cc) * (n * cc) == 0) by (nonlinear_arith);
    if s.len() > 0 {
        assert(variance_num(s) == 0);
        assert(0int / ((s.len() * s.len()) as int) == 0) by (nonlinear_arith)
            requires s.len() >= 1,
        ;
    }
}

proof fn lemma_sum_take_succ(s: Seq<i128>, i: int)
    requires
        0 <= i < s.len(),
    ensures
        sum_of(s.take(i + 1)) == sum_of(s.take(i)) + s[i],
        sum_sq_of(s.take(i + 1)) == sum_sq_of(s.take(i)) + (s[i] as int) * (s[i] as int),
{
    assert(s.take(i + 1).drop_last() =~= s.take(i));
    assert(s.take(i + 1).last() == s[i]);
}

/// Sum and sum of squares of a bounded latency collection, exactly.
fn latency_sums(lats: &Vec<i128>) -> (r: (i128, i128))
    requires
        in_window(lats@),
        lats@.len() <= MAX_SAMPLES,
    ensures
        r.0 as int == sum_of(lats@),
        r.1 as int == sum_sq_of(lats@),
{
    let n = lats.len();
    let mut sum: i128 = 0;
    let mut sumsq: i128 = 0;
    let mut i: usize = 0;
    proof {
        assert(lats@.take(0) =~= Seq::<i128>::empty());
    }
    while i < n
        invariant
            i <= n,
            n == lats@.len() <= MAX_SAMPLES,
            in_window(lats@),
            sum as int == sum_of(lats@.take(i as int)),
            sumsq as int == sum_sq_of(lats@.take(i as int)),
            -(i as int) * MAX_LATENCY_NS <= sum as int <= (i as int) * MAX_LATENCY_NS,
            0 <= sumsq as int <= (i as int) * MAX_LATENCY_NS * MAX_LATENCY_NS,
        decreases n - i,
    {
        let x = lats[i];
        proof {
            lemma_sum_take_succ(lats@, i as int);
            assert((x as int) * (x as int) <= MAX_LATENCY_NS * MAX_LATENCY_NS
                && (x as int) * (x as int) >= 0) by (nonlinear_arith)
                requires -MAX_LATENCY_NS <= x as int <= MAX_LATENCY_NS,
            ;
        }
        sum = sum + x;
        sumsq = sumsq + x * x;
        i = i + 1;
    }
    proof {
        assert(lats@.take(n as int) =~= lats@);
    }
    (sum, sumsq)
}

/// Integer square root: the largest `r` with `r * r <= v`.
pub fn isqrt_u128(v: u128) -> (r: u128)
    ensures
        r as int == spec_isqrt(v as int),
        (r as int) * (r as int) <= v as int,
        (v as int) < (r as int + 1) * (r as int + 1),
{
    let mut lo: u128 = 0;
    let mut hi: u128 = 18_446_744_073_709_551_616;  // 2^64
    proof {
        assert((hi as int) * (hi as int) > u128::MAX as int) by (nonlinear_arith)
            requires hi == 18_446_744_073_709_551_616u128,
        ;
    }
    while lo + 1 < hi
        invariant
            lo < hi <= 18_446_744_073_709_551_616,
            (lo as int) * (lo as int) <= v as int,
            (v as int) < (hi as int) * (hi as int),
        decreases hi - lo,
    {
        let mid = lo + (hi - lo) / 2;
        proof {
            assert((mid as int) * (mid as int) <= u128::MAX as int) by (nonlinear_arith)
                requires mid < 18_446_744_073_709_551_616u128,
            ;
        }
        if mid * mid <= v {
            lo = mid;
        } else {
            hi = mid;
        }
    }
    proof {
        lemma_isqrt_unique(v as int, lo as int);
    }
    lo
}

/// Floored mean from a running sum and count, as the rolling view keeps them.
pub fn mean_of_sum(sum_ns: i128, count: u64) -> (r: i128)
    requires
        1 <= count <= MAX_SAMPLES as u64,
        -(count as int) * MAX_LATENCY_NS <= sum_ns as int <= (count as int) * MAX_LATENCY_NS,
    ensures
        r as int == (sum_ns as int) / (count as int),
{
    proof {
        lemma_hoist_over_denominator(sum_ns as int, MAX_LATENCY_NS as int, count as nat);
    }
    let shifted: i128 = sum_ns + (count as i128) * MAX_LATENCY_NS;
    let q: u128 = (shifted as u128) / (count as u128);
    proof {
        lemma_fundamental_div_mod(shifted as int, count as int);
        assert(q as int * (count as int) <= shifted as int) by (nonlinear_arith)
            requires
                q as int == (shifted as int) / (count as int),
                count >= 1,
                shifted >= 0,
        {
            lemma_fundamental_div_mod(shifted as int, count as int);
        }
        assert(q as int <= shifted as int) by (nonlinear_arith)
            requires q as int * (count as int) <= shifted as int, count as int >= 1, q >= 0,
        ;
    }
    (q as i128) - MAX_LATENCY_NS
}

/// Arithmetic mean (floored) of a bounded latency collection; 0 when empty.
pub fn mean_latency(lats: &Vec<i128>) -> (r: i128)
    requires
        in_window(lats@),
        lats@.len() <= MAX_SAMPLES,
    ensures
        r as int == spec_mean(lats@),
{
    let n = lats.len();
    if n == 0 {
        return 0;
    }
    let (sum, _) = latency_sums(lats);
    proof {
        lemma_sum_bounds(lats@);
    }
    mean_of_sum(sum, n as u64)
}

/// Population standard deviation (floored) of a bounded latency collection;
/// 0 when empty.
pub fn jitter_latency(lats: &Vec<i128>) -> (r: i128)
    requires
        in_window(lats@),
        lats@.len() <= MAX_SAMPLES,
    ensures
        r as int == spec_jitter(lats@),
{
    let n = lats.len();
    if n == 0 {
        return 0;
    }
    let (sum, sumsq) = latency_sums(lats);
    proof {
        lemma_sum_bounds(lats@);
        lemma_variance_num_nonneg(lats@);
        assert((n as int) * (sumsq as int) <= (n as int) * ((n as int) * MAX_LATENCY_NS * MAX_LATENCY_NS))
            by (nonlinear_arith)
            requires
                0 <= sumsq as int <= (n as int) * MAX_LATENCY_NS * MAX_LATENCY_NS,
                1 <= n as int,
        ;
        assert((n as int) * ((n as int) * MAX_LATENCY_NS * MAX_LATENCY_NS) <= i128::MAX as int)
            by (nonlinear_arith)
            requires 1 <= n as int <= 1_000_000,
        ;
        assert((sum as int) * (sum as int) <= ((n as int) * MAX_LATENCY_NS) * ((n as int) * MAX_LATENCY_NS))
            by (nonlinear_arith)
            requires
                -(n as int) * MAX_LATENCY_NS <= sum as int <= (n as int) * MAX_LATENCY_NS,
        ;
        assert(((n as int) * MAX_LATENCY_NS) * ((n as int) * MAX_LATENCY_NS) <= i128::MAX as int)
            by (nonlinear_arith)
            requires 1 <= n as int <= 1_000_000,
        ;
        assert((sum as int) * (sum as int) >= 0) by (nonlinear_arith);
    }
    let num: i128 = (n as i128) * sumsq - sum * sum;
    proof {
        assert(1 <= (n as int) * (n as int) <= 1_000_000_000_000) by (nonlinear_arith)
            requires 1 <= n as int <= 1_000_000,
        ;
    }
    let nn: u128 = (n as u128) * (n as u128);
    let var: u128 = (num as u128) / nn;
    proof {
        assert(var as int == spec_variance(lats@));
    }
    let r = isqrt_u128(var);
    proof {
        assert(r as int == spec_jitter(lats@));
        assert(r as int <= var as int || r == 0) by (nonlinear_arith)
            requires
                (r as int) * (r as int) <= var as int,
                r >= 0,
        ;
    }
    r as i128
}

/// Linear-interpolation percentile over an ascending collection; `p_bp` in
/// basis points (`0..=10_000`). Returns the floor of the interpolated value.
pub fn percentile(sorted_lats: &Vec<i128>, p_bp: u64) -> (r: i128)
    requires
        sorted(sorted_lats@),
        in_window(sorted_lats@),
        sorted_lats@.len() <= MAX_SAMPLES,
        p_bp <= 10_000,
    ensures
        r as int == spec_percentile(sorted_lats@, p_bp as int),
{
    let n = sorted_lats.len();
    if n == 0 {
        return 0;
    }
    if n == 1 {
        return sorted_lats[0];
    }
    proof {
        assert((p_bp as int) * ((n as int) - 1) <= 10_000 * ((n as int) - 1)) by (nonlinear_arith)
            requires 0 <= p_bp as int <= 10_000, (n as int) >= 2,
        ;
        assert(10_000 * ((n as int) - 1) <= 10_000 * 1_000_000) by (nonlinear_arith)
            requires 2 <= n as int <= 1_000_001,
        ;
    }
    let scaled: u64 = p_bp * ((n - 1) as u64);
    let lo64: u64 = scaled / 10_000;
    let w: u64 = scaled % 10_000;
    proof {
        lemma_fundamental_div_mod(scaled as int, 10_000);
        // lo < n - 1 whenever the interpolation weight is non-zero
        if w != 0 {
            assert((lo64 as int) < (n as int) - 1) by (nonlinear_arith)
                requires
                    (scaled as int) == 10_000 * (lo64 as int) + (w as int),
                    0 < (w as int) < 10_000,
                    (scaled as int) <= 10_000 * ((n as int) - 1),
            ;
        } else {
            assert((lo64 as int) <= (n as int) - 1) by (nonlinear_arith)
                requires
                    (scaled as int) == 10_000 * (lo64 as int) + (w as int),
                    (w as int) == 0,
                    (scaled as int) <= 10_000 * ((n as int) - 1),
            ;
        }
    }
    let lo: usize = lo64 as usize;
    if w == 0 {
        sorted_lats[lo]
    } else {
        let vlo = sorted_lats[lo];
        let vhi = sorted_lats[lo + 1];
        proof {
            assert(-MAX_LATENCY_NS <= vlo as int <= MAX_LATENCY_NS);
            assert(-MAX_LATENCY_NS <= vhi as int <= MAX_LATENCY_NS);
            assert(-MAX_LATENCY_NS * ((10_000 - w) as int) <= (vlo as int) * ((10_000 - w) as int)
                <= MAX_LATENCY_NS * ((10_000 - w) as int)) by (nonlinear_arith)
                requires
                    -MAX_LATENCY_NS <= vlo as int <= MAX_LATENCY_NS,
                    0 < ((10_000 - w) as int) < 10_000,
            ;
            assert(-MAX_LATENCY_NS * (w as int) <= (vhi as int) * (w as int)
                <= MAX_LATENCY_NS * (w as int)) by (nonlinear_arith)
                requires
                    -MAX_LATENCY_NS <= vhi as int <= MAX_LATENCY_NS,
                    0 < (w as int) < 10_000,
            ;
            assert(((10_000 - w) as int) == 10_000 - (w as int));
        }
        let num: i128 = vlo * ((10_000 - w) as i128) + vhi * (w as i128);
        proof {
            assert(-MAX_LATENCY_NS * 10_000 <= num as int <= MAX_LATENCY_NS * 10_000);
            lemma_hoist_over_denominator(num as int, MAX_LATENCY_NS as int, 10_000nat);
        }
        let shifted: u128 = (num + MAX_LATENCY_NS * 10_000) as u128;
        let q: u128 = shifted / 10_000;
        proof {
            lemma_fundamental_div_mod(shifted as int, 10_000);
            assert(q as int <= shifted as int) by (nonlinear_arith)
                requires
                    (shifted as int) == 10_000 * (q as int) + (shifted as int) % 10_000,
                    0 <= (shifted as int) % 10_000,
                    q >= 0,
            ;
            assert(q as int == (num as int + MAX_LATENCY_NS * 10_000) / 10_000);
            assert(q as int - MAX_LATENCY_NS == (num as int) / 10_000);
        }
        (q as i128) - MAX_LATENCY_NS
    }
}

proof fn lemma_lat_leq_total()
    ensures
        total_ordering(lat_leq()),
{
    let leq = lat_leq();
    assert forall|x: i128, y: i128| #[trigger] leq(x, y) || #[trigger] leq(y, x) by {
    }
}

/// Sorts a latency collection ascending. The result is exactly the
/// `sorted_version` of the input: same multiset of values, ascending order.
pub fn sort_latencies(v: &Vec<i128>) -> (out: Vec<i128>)
    ensures
        out@ == sorted_version(v@),
        sorted(out@),
        out@.to_multiset() == v@.to_multiset(),
        out@.len() == v@.len(),
{
    broadcast use vstd::seq_lib::group_to_multiset_ensures;

    let mut out: Vec<i128> = Vec::new();
    let mut i: usize = 0;
    proof {
        assert(v@.take(0) =~= Seq::<i128>::empty());
        assert(out@.to_multiset() =~= v@.take(0).to_multiset());
    }
    while i < v.len()
        invariant
            i <= v@.len(),
            sorted(out@),
            out@.len() == i,
            out@.to_multiset() == v@.take(i as int).to_multiset(),
        decreases v@.len() - i,
    {
        let x = v[i];
        let mut k: usize = 0;
        while k < out.len() && out[k] <= x
            invariant
                k <= out@.len(),
                forall|j: int| 0 <= j < k ==> #[trigger] out@[j] <= x,
                sorted(out@),
            decreases out@.len() - k,
        {
            k = k + 1;
        }
        let ghost prev = out@;
        out.insert(k, x);
        proof {
            // order is kept: everything before slot k is <= x, everything
            // from slot k on was > x or the slot is at the end
            assert(out@ =~= prev.insert(k as int, x));
            assert forall|a: int, b: int| 0 <= a <= b < out@.len() implies out@[a] <= out@[b] by {
                if a < k && b == k {
                    assert(out@[a] == prev[a]);
                } else if a == k && b > k {
                    assert(out@[b] == prev[b - 1]);
                    assert(prev[k as int] <= prev[b - 1]);
                } else if a < k && b > k {
                    assert(out@[a] == prev[a] && out@[b] == prev[b - 1]);
                } else if a > k && b > k {
                    assert(out@[a] == prev[a - 1] && out@[b] == prev[b - 1]);
                } else if a < k && b < k {
                    assert(out@[a] == prev[a] && out@[b] == prev[b]);
                }
            }
            // the multiset gains exactly one x
            assert(out@[k as int] == x);
            assert(out@.contains(x));
            assert(out@.remove(k as int) =~= prev);
            out@.to_multiset_ensures();
            assert(out@.to_multiset().count(x) > 0);
            assert(out@.to_multiset().remove(x) =~= prev.to_multiset());
            assert(out@.to_multiset() =~= prev.to_multiset().insert(x));
            assert(v@.take(i as int + 1) =~= v@.take(i as int).push(x));
            v@.take(i as int).to_multiset_ensures();
            assert(v@.take(i as int).push(x).to_multiset() =~= v@.take(
                i as int,
            ).to_multiset().insert(x));
        }
        i = i + 1;
    }
    proof {
        assert(v@.take(v@.len() as int) =~= v@);
        lemma_lat_leq_total();
        v@.lemma_sort_by_ensures(lat_leq());
        assert(sorted_by(out@, lat_leq())) by {
            assert(forall|a: int, b: int|
                0 <= a < b < out@.len() ==> #[trigger] lat_leq()(out@[a], out@[b]));
        }
        lemma_sorted_unique(out@, sorted_version(v@), lat_leq());
        assert(out@ =~= sorted_version(v@));
    }
    out
}

/// The sorted rearrangement is ascending, has the same multiset of values,
/// and keeps the length; its first and last elements bound every element of
/// the input collection and occur in it.
pub proof fn lemma_sorted_version_ensures(v: Seq<i128>)
    ensures
        sorted(sorted_version(v)),
        sorted_version(v).to_multiset() == v.to_multiset(),
        sorted_version(v).len() == v.len(),
        v.len() > 0 ==> v.contains(sorted_version(v)[0]) && v.contains(
            sorted_version(v).last(),
        ),
        forall|i: int|
            0 <= i < v.len() ==> sorted_version(v)[0] <= #[trigger] v[i] && v[i]
                <= sorted_version(v).last(),
{
    broadcast use vstd::seq_lib::group_to_multiset_ensures;

    lemma_lat_leq_total();
    v.lemma_sort_by_ensures(lat_leq());
    let s = sorted_version(v);
    assert(s.to_multiset() =~= v.to_multiset());
    assert(s.to_multiset().len() == s.len());
    assert forall|a: int, b: int| 0 <= a <= b < s.len() implies s[a] <= s[b] by {
        if a < b {
            assert(lat_leq()(s[a], s[b]));
        }
    }
    assert(sorted(s));
    if v.len() > 0 {
        assert(s.contains(s[0]) && s.contains(s.last()));
        assert(v.to_multiset().count(s[0]) > 0 && v.to_multiset().count(s.last()) > 0);
        assert forall|i: int| 0 <= i < v.len() implies s[0] <= #[trigger] v[i] && v[i]
            <= s.last() by {
            assert(v.to_multiset().count(v[i]) > 0) by {
                assert(v.contains(v[i]));
            }
            assert(s.to_multiset().count(v[i]) > 0);
            assert(s.contains(v[i]));
            let j = choose|j: int| 0 <= j < s.len() && s[j] == v[i];
            assert(s[0] <= s[j] && s[j] <= s[s.len() - 1]);
        }
    }
}

/// The 0th percentile of any non-empty collection is its minimum, and the
/// 10_000th (i.e. 100th in percent) is its maximum.
pub proof fn lemma_percentile_extremes(v: Seq<i128>)
    requires
        v.len() >= 1,
    ensures
        spec_percentile(sorted_version(v), 0) == sorted_version(v)[0],
        spec_percentile(sorted_version(v), 10_000) == sorted_version(v).last(),
        v.contains(sorted_version(v)[0]),
        v.contains(sorted_version(v).last()),
        forall|i: int|
            0 <= i < v.len() ==> sorted_version(v)[0] <= #[trigger] v[i] && v[i]
                <= sorted_version(v).last(),
{
    lemma_sorted_version_ensures(v);
    let s = sorted_version(v);
    let n = s.len() as int;
    if n == 1 {
    } else {
        // p = 0: rank 0, no interpolation weight
        assert(0int * (n - 1) == 0) by (nonlinear_arith);
        assert(0int / 10_000 == 0 && 0int % 10_000 == 0);
        // p = 10_000: rank n - 1 exactly
        lemma_fundamental_div_mod_converse(10_000 * (n - 1), 10_000, n - 1, 0);
        assert(10_000 * (n - 1) / 10_000 == n - 1 && 10_000 * (n - 1) % 10_000 == 0);
    }
}

/// A single-element collection is its own percentile for every requested
/// percentile.
pub proof fn lemma_percentile_singleton(s: Seq<i128>, p: int)
    requires
        s.len() == 1,
    ensures
        spec_percentile(s, p) == s[0],
{
}

/// A sorted rearrangement of an in-window collection is in-window.
pub proof fn lemma_sorted_version_in_window(v: Seq<i128>)
    requires
        in_window(v),
    ensures
        in_window(sorted_version(v)),
{
    broadcast use vstd::seq_lib::group_to_multiset_ensures;

    lemma_lat_leq_total();
    v.lemma_sort_by_ensures(lat_leq());
    let s = sorted_version(v);
    assert forall|i: int| 0 <= i < s.len() implies -MAX_LATENCY_NS <= #[trigger] s[i]
        <= MAX_LATENCY_NS by {
        assert(s.contains(s[i]));
        assert(s.to_multiset().count(s[i]) > 0);
        assert(v.to_multiset().count(s[i]) > 0);
        assert(v.contains(s[i]));
        let j = choose|j: int| 0 <= j < v.len() && v[j] == s[i];
        assert(-MAX_LATENCY_NS <= v[j] <= MAX_LATENCY_NS);
    }
}

/// End-to-end latency in nanoseconds: destination arrival clock reading
/// (ns since epoch) minus the producer event time (ms since epoch).
pub open spec fn spec_end_to_end_latency_ns(event_time_ms: int, arrival_ns: int) -> int {
    arrival_ns - event_time_ms * 1_000_000
}

/// Relay-leg latency in nanoseconds: destination arrival minus the origin's
/// receive timestamp, both ns since epoch.
pub open spec fn spec_backbone_latency_ns(mid_path_ns: int, arrival_ns: int) -> int {
    arrival_ns - mid_path_ns
}

/// Latency measurement for a single event, built once at the instant of
/// destination arrival and immutable thereafter.
#[derive(Debug, Clone, Copy)]
pub struct LatencyMeasurement {
    pub sequence_id: u64,
    /// Producer event time, milliseconds since epoch.
    pub binance_event_time: i64,
    /// Origin receive timestamp (ns); present only when a relay leg exists.
    pub tokyo_receive_time: Option<i64>,
    /// Destination arrival timestamp, nanoseconds since epoch.
    pub frankfurt_receive_time: i64,
    /// Producer-to-destination latency, nanoseconds.
    pub end_to_end_latency_ns: i128,
    /// Origin-to-destination latency, nanoseconds; present iff
    /// `tokyo_receive_time` is.
    pub backbone_latency_ns: Option<i128>,
}

/// The latency fields agree with the timestamps they were derived from, and
/// the relay-leg fields are present together or absent together.
pub open spec fn measurement_wf(m: LatencyMeasurement) -> bool {
    &&& m.end_to_end_latency_ns as int == spec_end_to_end_latency_ns(
        m.binance_event_time as int,
        m.frankfurt_receive_time as int,
    )
    &&& match (m.tokyo_receive_time, m.backbone_latency_ns) {
        (Some(t), Some(b)) => b as int == spec_backbone_latency_ns(
            t as int,
            m.frankfurt_receive_time as int,
        ),
        (None, None) => true,
        _ => false,
    }
}

impl LatencyMeasurement {
    /// Measurement for baseline mode: the destination ingested the feed
    /// directly, so there is no relay leg and no mid-path timestamp.
    pub fn new_baseline(sequence_id: u64, binance_event_time: i64, frankfurt_receive_time: i64) -> (m:
        Self)
        ensures
            m.sequence_id == sequence_id,
            m.binance_event_time == binance_event_time,
            m.tokyo_receive_time is None,
            m.frankfurt_receive_time == frankfurt_receive_time,
            m.backbone_latency_ns is None,
            measurement_wf(m),
    {
        let end_to_end_latency_ns = (frankfurt_receive_time as i128) - (binance_event_time as i128)
            * 1_000_000;
        LatencyMeasurement {
            sequence_id,
            binance_event_time,
            tokyo_receive_time: None,
            frankfurt_receive_time,
            end_to_end_latency_ns,
            backbone_latency_ns: None,
        }
    }

    /// Measurement for relay mode: the event travelled feed -> origin ->
    /// destination, so the origin's receive timestamp isolates the relay leg.
    pub fn new_aws_backbone(
        sequence_id: u64,
        binance_event_time: i64,
        tokyo_receive_time: i64,
        frankfurt_receive_time: i64,
    ) -> (m: Self)
        ensures
            m.sequence_id == sequence_id,
            m.binance_event_time == binance_event_time,
            m.tokyo_receive_time == Some(tokyo_receive_time),
            m.frankfurt_receive_time == frankfurt_receive_time,
            measurement_wf(m),
    {
        let end_to_end_latency_ns = (frankfurt_receive_time as i128) - (binance_event_time as i128)
            * 1_000_000;
        let backbone_latency_ns = (frankfurt_receive_time as i128) - (tokyo_receive_time as i128);
        LatencyMeasurement {
            sequence_id,
            binance_event_time,
            tokyo_receive_time: Some(tokyo_receive_time),
            frankfurt_receive_time,
            end_to_end_latency_ns,
            backbone_latency_ns: Some(backbone_latency_ns),
        }
    }
}

/// The end-to-end latencies of a measurement collection, in arrival order.
pub open spec fn latencies_of(ms: Seq<LatencyMeasurement>) -> Seq<i128> {
    ms.map_values(|m: LatencyMeasurement| m.end_to_end_latency_ns)
}

/// The extractor for relay-leg latencies.
pub open spec fn backbone_extract() -> spec_fn(LatencyMeasurement) -> Option<i128> {
    |m: LatencyMeasurement| m.backbone_latency_ns
}

/// The relay-leg latencies of the measurements that carry one, in arrival
/// order.
pub open spec fn backbone_latencies_of(ms: Seq<LatencyMeasurement>) -> Seq<i128> {
    ms.filter_map(backbone_extract())
}

/// Aggregate summary of one run.
#[derive(Debug, Clone)]
pub struct ExperimentResults {
    pub setup_type: String,
    pub sample_count: usize,
    pub events_lost: u64,
    pub avg_latency_ns: i128,
    pub median_latency_ns: i128,
    pub p95_latency_ns: i128,
    pub p99_latency_ns: i128,
    pub min_latency_ns: i128,
    pub max_latency_ns: i128,
    pub jitter_stddev_ns: i128,
    pub backbone_avg_latency_ns: Option<i128>,
    pub backbone_median_latency_ns: Option<i128>,
}

/// What the final aggregate owes: each summary field pinned to its exact
/// value over the sorted latency collections.
pub open spec fn results_match(
    r: ExperimentResults,
    ms: Seq<LatencyMeasurement>,
    events_lost: u64,
    setup_type: Seq<char>,
) -> bool {
    &&& r.setup_type@ == setup_type
    &&& r.sample_count == ms.len()
    &&& r.events_lost == events_lost
    &&& (ms.len() == 0 ==> r.avg_latency_ns == 0 && r.median_latency_ns == 0
        && r.p95_latency_ns == 0 && r.p99_latency_ns == 0 && r.min_latency_ns == 0
        && r.max_latency_ns == 0 && r.jitter_stddev_ns == 0)
    &&& (ms.len() > 0 ==> ({
        let s = sorted_version(latencies_of(ms));
        &&& r.avg_latency_ns as int == spec_mean(s)
        &&& r.median_latency_ns as int == spec_percentile(s, 5_000)
        &&& r.p95_latency_ns as int == spec_percentile(s, 9_500)
        &&& r.p99_latency_ns as int == spec_percentile(s, 9_900)
        &&& r.min_latency_ns == s[0]
        &&& r.max_latency_ns == s.last()
        &&& r.jitter_stddev_ns as int == spec_jitter(s)
    }))
    &&& ({
        let b = backbone_latencies_of(ms);
        &&& (b.len() == 0 ==> r.backbone_avg_latency_ns is None
            && r.backbone_median_latency_ns is None)
        &&& (b.len() > 0 ==> ({
            let sb = sorted_version(b);
            &&& (r.backbone_avg_latency_ns matches Some(a) && a as int == spec_mean(sb))
            &&& (r.backbone_median_latency_ns matches Some(md) && md as int == spec_percentile(
                sb,
                5_000,
            ))
        }))
    })
}

impl ExperimentResults {
    /// Final aggregate over a run's measurements: mean, median, tail
    /// percentiles, extremes and jitter of the end-to-end latencies, and
    /// mean/median of the relay-leg latencies when any are present. An empty
    /// run yields all-zero statistics and passes `events_lost` through.
    pub fn from_measurements(
        setup_type: String,
        measurements: Vec<LatencyMeasurement>,
        events_lost: u64,
    ) -> (r: Self)
        requires
            measurements@.len() <= MAX_SAMPLES,
            in_window(latencies_of(measurements@)),
            in_window(backbone_latencies_of(measurements@)),
        ensures
            results_match(r, measurements@, events_lost, setup_type@),
    {
        let sample_count = measurements.len();
        if sample_count == 0 {
            proof {
                assert(latencies_of(measurements@).len() == 0);
                assert(backbone_latencies_of(measurements@) =~= Seq::<i128>::empty());
            }
            return ExperimentResults {
                setup_type,
                sample_count: 0,
                events_lost,
                avg_latency_ns: 0,
                median_latency_ns: 0,
                p95_latency_ns: 0,
                p99_latency_ns: 0,
                min_latency_ns: 0,
                max_latency_ns: 0,
                jitter_stddev_ns: 0,
                backbone_avg_latency_ns: None,
                backbone_median_latency_ns: None,
            };
        }
        // extract the end-to-end latencies in arrival order
        let mut lats: Vec<i128> = Vec::new();
        let mut i: usize = 0;
        proof {
            assert(lats@ =~= latencies_of(measurements@.take(0)));
        }
        while i < sample_count
            invariant
                i <= sample_count,
                sample_count == measurements@.len(),
                lats@ =~= latencies_of(measurements@.take(i as int)),
            decreases sample_count - i,
        {
            let m = measurements[i];
            lats.push(m.end_to_end_latency_ns);
            proof {
                assert(measurements@.take(i as int + 1) =~= measurements@.take(i as int).push(m));
                assert(lats@ =~= latencies_of(measurements@.take(i as int + 1)));
            }
            i = i + 1;
        }
        proof {
            assert(measurements@.take(sample_count as int) =~= measurements@);
            assert(lats@ =~= latencies_of(measurements@));
            lemma_sorted_version_in_window(latencies_of(measurements@));
        }
        let sorted_lats = sort_latencies(&lats);
        let avg_latency_ns = mean_latency(&sorted_lats);
        let median_latency_ns = percentile(&sorted_lats, 5_000);
        let p95_latency_ns = percentile(&sorted_lats, 9_500);
        let p99_latency_ns = percentile(&sorted_lats, 9_900);
        let min_latency_ns = sorted_lats[0];
        let max_latency_ns = sorted_lats[sample_count - 1];
        let jitter_stddev_ns = jitter_latency(&sorted_lats);
        proof {
            assert(spec_mean(sorted_lats@) == spec_mean(sorted_version(latencies_of(
                measurements@,
            ))));
        }
        // extract the relay-leg latencies of the measurements that carry one
        let mut blats: Vec<i128> = Vec::new();
        let mut j: usize = 0;
        proof {
            assert(blats@ =~= backbone_latencies_of(measurements@.take(0)));
        }
        while j < sample_count
            invariant
                j <= sample_count,
                sample_count == measurements@.len(),
                blats@ =~= backbone_latencies_of(measurements@.take(j as int)),
                blats@.len() <= j,
            decreases sample_count - j,
        {
            let m = measurements[j];
            proof {
                measurements@.lemma_filter_map_take_succ(backbone_extract(), j as int);
            }
            if let Some(b) = m.backbone_latency_ns {
                blats.push(b);
            }
            j = j + 1;
        }
        proof {
            assert(measurements@.take(sample_count as int) =~= measurements@);
            assert(blats@ =~= backbone_latencies_of(measurements@));
            lemma_sorted_version_in_window(backbone_latencies_of(measurements@));
        }
        let (backbone_avg_latency_ns, backbone_median_latency_ns) = if blats.len() > 0 {
            let sorted_blats = sort_latencies(&blats);
            (
                Some(mean_latency(&sorted_blats)),
                Some(percentile(&sorted_blats, 5_000)),
            )
        } else {
            (None, None)
        };
        ExperimentResults {
            setup_type,
            sample_count,
            events_lost,
            avg_latency_ns,
            median_latency_ns,
            p95_latency_ns,
            p99_latency_ns,
            min_latency_ns,
            max_latency_ns,
            jitter_stddev_ns,
            backbone_avg_latency_ns,
            backbone_median_latency_ns,
        }
    }
}

} // verus!
