//! When rebuilding an index is cheaper than merging its buffer.
//!
//! A rebuild pays for more than `0.5 * N * ln(N)` entries, that is where the exponential of
//! `2 * M / N` exceeds `N`. The exponential is taken by its series, in exact arithmetic.

use crate::natural::Natural;
use vstd::arithmetic::power::pow;
use vstd::prelude::*;

verus! {

/// The common denominator of the first `k` terms after the leading one of the exponential
/// series of a fraction with denominator `q`.
pub open spec fn exp_scale(q: int, k: nat) -> int
    decreases k,
{
    if k == 0 {
        1
    } else {
        exp_scale(q, (k - 1) as nat) * (q * k)
    }
}

/// The sum of the leading term and the next `k` terms of the exponential series of `p / q`,
/// as a multiple of one over [`exp_scale`].
pub open spec fn exp_sum(p: int, q: int, k: nat) -> int
    decreases k,
{
    if k == 0 {
        1
    } else {
        exp_sum(p, q, (k - 1) as nat) * (q * k) + pow(p, k)
    }
}

/// Whether the exponential of `p / q` exceeds `n`: the series does after finitely many terms.
pub open spec fn exp_exceeds(p: int, q: int, n: int) -> bool {
    exists|k: nat| #[trigger] exp_sum(p, q, k) > n * exp_scale(q, k)
}

/// Whether the exponential of `p / q` is at most `b / a`: no sum of the series exceeds it.
pub open spec fn exp_bounded(p: int, q: int, a: int, b: int) -> bool {
    forall|k: nat| #[trigger] exp_sum(p, q, k) * a <= b * exp_scale(q, k)
}

/// The precision to which the comparison is made: two to the power 64.
pub open spec fn precision() -> int {
    0x1_0000_0000_0000_0000
}

/// Whether an answer to the question if an index of `entries` entries over `docs` documents
/// should be rebuilt is right. It is yes only where the exponential of `2 * entries / docs`
/// exceeds `docs`, and no only where it does not exceed `docs` by more than one over
/// [`precision`]. Without documents it is yes.
pub open spec fn rebuild_answer(entries: nat, docs: nat, rebuild: bool) -> bool {
    if docs == 0 {
        rebuild
    } else if rebuild {
        exp_exceeds(2 * entries as int, docs as int, docs as int)
    } else {
        exp_bounded(2 * entries as int, docs as int, precision(), docs * precision() + 1)
    }
}

proof fn lemma_power(p: int, k: nat)
    ensures
        pow(p, 0) == 1,
        pow(p, k + 1) == pow(p, k) * p,
{
    vstd::arithmetic::power::lemma_pow0(p);
    reveal(pow);
    assert(p * pow(p, k) == pow(p, k) * p) by (nonlinear_arith);
}

proof fn lemma_scale_positive(q: int, k: nat)
    requires
        q >= 1,
    ensures
        exp_scale(q, k) >= 1,
    decreases k,
{
    if k > 0 {
        let m = (k - 1) as nat;
        lemma_scale_positive(q, m);
        let d = exp_scale(q, m);
        assert(d * (q * k) >= 1) by (nonlinear_arith)
            requires
                d >= 1,
                q >= 1,
                k >= 1,
        ;
    }
}

proof fn lemma_power_nonnegative(p: int, k: nat)
    requires
        p >= 0,
    ensures
        pow(p, k) >= 0,
    decreases k,
{
    lemma_power(p, k);
    if k > 0 {
        let m = (k - 1) as nat;
        lemma_power(p, m);
        lemma_power_nonnegative(p, m);
        assert(pow(p, m) * p >= 0) by (nonlinear_arith)
            requires
                pow(p, m) >= 0,
                p >= 0,
        ;
    }
}

/// What exceeds a bound still does after one more term.
proof fn lemma_sums_rise(p: int, q: int, a: int, b: int, k: nat)
    requires
        p >= 0,
        q >= 1,
        a >= 0,
        exp_sum(p, q, k) * a > b * exp_scale(q, k),
    ensures
        exp_sum(p, q, k + 1) * a > b * exp_scale(q, k + 1),
{
    let s = exp_sum(p, q, k);
    let d = exp_scale(q, k);
    let f = q * (k + 1);
    let t = pow(p, k + 1);
    lemma_power_nonnegative(p, k + 1);
    assert(f >= 1) by (nonlinear_arith)
        requires
            f == q * (k + 1),
            q >= 1,
            k >= 0,
    ;
    assert((s * f + t) * a > b * (d * f)) by (nonlinear_arith)
        requires
            s * a > b * d,
            f >= 1,
            t >= 0,
            a >= 0,
    {
        assert((s * f + t) * a == (s * a) * f + t * a) by (nonlinear_arith);
        assert(b * (d * f) == (b * d) * f) by (nonlinear_arith);
        assert((s * a) * f > (b * d) * f) by (nonlinear_arith)
            requires
                s * a > b * d,
                f >= 1,
        ;
        assert(t * a >= 0) by (nonlinear_arith)
            requires
                t >= 0,
                a >= 0,
        ;
    }
}

proof fn lemma_sums_rise_to(p: int, q: int, a: int, b: int, k: nat, n: nat)
    requires
        p >= 0,
        q >= 1,
        a >= 0,
        k <= n,
        exp_sum(p, q, k) * a > b * exp_scale(q, k),
    ensures
        exp_sum(p, q, n) * a > b * exp_scale(q, n),
    decreases n - k,
{
    if k < n {
        lemma_sums_rise(p, q, a, b, k);
        lemma_sums_rise_to(p, q, a, b, k + 1, n);
    }
}

/// Whether a sum stays within a bound when its last term is added once more.
spec fn has_slack(p: int, q: int, a: int, b: int, k: nat) -> bool {
    (exp_sum(p, q, k) + pow(p, k)) * a <= b * exp_scale(q, k)
}

/// Once each term is at most half of the one before, a sum that has slack keeps it.
proof fn lemma_slack_stays(p: int, q: int, a: int, b: int, k: nat)
    requires
        p >= 0,
        q >= 1,
        a >= 0,
        2 * p <= q * (k + 1),
        has_slack(p, q, a, b, k),
    ensures
        has_slack(p, q, a, b, k + 1),
{
    let s = exp_sum(p, q, k);
    let d = exp_scale(q, k);
    let f = q * (k + 1);
    let t = pow(p, k);
    lemma_power(p, k);
    lemma_power_nonnegative(p, k);
    assert(f >= 1) by (nonlinear_arith)
        requires
            f == q * (k + 1),
            q >= 1,
            k >= 0,
    ;
    assert((t * p) * 2 <= t * f) by (nonlinear_arith)
        requires
            2 * p <= f,
            t >= 0,
    ;
    let u = s * f + t * p + t * p;
    assert(u <= (s + t) * f) by (nonlinear_arith)
        requires
            u == s * f + t * p + t * p,
            (t * p) * 2 <= t * f,
    ;
    assert(u * a <= ((s + t) * f) * a) by (nonlinear_arith)
        requires
            u <= (s + t) * f,
            a >= 0,
    ;
    assert(((s + t) * f) * a == ((s + t) * a) * f) by (nonlinear_arith);
    assert(((s + t) * a) * f <= (b * d) * f) by (nonlinear_arith)
        requires
            (s + t) * a <= b * d,
            f >= 1,
    ;
    assert((b * d) * f == b * (d * f)) by (nonlinear_arith);
}

proof fn lemma_slack_stays_to(p: int, q: int, a: int, b: int, k: nat, n: nat)
    requires
        p >= 0,
        q >= 1,
        a >= 0,
        k <= n,
        2 * p <= q * (k + 1),
        has_slack(p, q, a, b, k),
    ensures
        has_slack(p, q, a, b, n),
    decreases n - k,
{
    if k < n {
        lemma_slack_stays(p, q, a, b, k);
        assert(2 * p <= q * (k + 2)) by (nonlinear_arith)
            requires
                2 * p <= q * (k + 1),
                q >= 1,
        ;
        lemma_slack_stays_to(p, q, a, b, k + 1, n);
    }
}

/// A sum that has slack bounds the whole series.
proof fn lemma_bounded(p: int, q: int, a: int, b: int, k: nat)
    requires
        p >= 0,
        q >= 1,
        a >= 0,
        2 * p <= q * (k + 1),
        has_slack(p, q, a, b, k),
    ensures
        exp_bounded(p, q, a, b),
{
    assert forall|n: nat| #[trigger] exp_sum(p, q, n) * a <= b * exp_scale(q, n) by {
        let m = if n < k {
            k
        } else {
            n
        };
        lemma_slack_stays_to(p, q, a, b, k, m);
        let s = exp_sum(p, q, m);
        let t = pow(p, m);
        lemma_power_nonnegative(p, m);
        assert(s * a <= (s + t) * a) by (nonlinear_arith)
            requires
                t >= 0,
                a >= 0,
        ;
        if exp_sum(p, q, n) * a > b * exp_scale(q, n) {
            lemma_sums_rise_to(p, q, a, b, n, m);
        }
    }
}

/// The exponential of 128 or more exceeds every number of 64 bits.
proof fn lemma_large_exponent(p: int, q: int, n: int)
    requires
        q >= 1,
        p >= 128 * q,
        n < precision(),
    ensures
        exp_exceeds(p, q, n),
{
    lemma_large_term(p, q, 64);
    lemma_scale_positive(q, 64);
    vstd::arithmetic::power2::lemma2_to64();
    vstd::arithmetic::power2::lemma_pow2(64);
    let d = exp_scale(q, 64);
    let before = exp_sum(p, q, 63);
    lemma_sum_nonnegative(p, q, 63);
    assert(before * (q * 64) >= 0) by (nonlinear_arith)
        requires
            before >= 0,
            q >= 1,
    ;
    assert(exp_sum(p, q, 64) >= pow(p, 64));
    assert(n * d < precision() * d) by (nonlinear_arith)
        requires
            n < precision(),
            d >= 1,
    ;
    assert(exp_sum(p, q, 64) > n * exp_scale(q, 64));
}

proof fn lemma_sum_nonnegative(p: int, q: int, k: nat)
    requires
        p >= 0,
        q >= 1,
    ensures
        exp_sum(p, q, k) >= 0,
    decreases k,
{
    if k > 0 {
        let m = (k - 1) as nat;
        lemma_sum_nonnegative(p, q, m);
        lemma_power_nonnegative(p, k);
        let s = exp_sum(p, q, m);
        assert(s * (q * k) >= 0) by (nonlinear_arith)
            requires
                s >= 0,
                q >= 1,
                k >= 0,
        ;
    }
}

proof fn lemma_large_term(p: int, q: int, k: nat)
    requires
        q >= 1,
        p >= 128 * q,
        k <= 64,
    ensures
        pow(p, k) >= pow(2, k) * exp_scale(q, k),
        pow(2, k) >= 1,
    decreases k,
{
    lemma_power(p, k);
    lemma_power(2, k);
    if k > 0 {
        let m = (k - 1) as nat;
        lemma_large_term(p, q, m);
        lemma_power(p, m);
        lemma_power(2, m);
        lemma_scale_positive(q, m);
        let t = pow(p, m);
        let w = pow(2, m);
        let d = exp_scale(q, m);
        assert(w * d >= 0) by (nonlinear_arith)
            requires
                w >= 1,
                d >= 1,
        ;
        assert(t * p >= (w * d) * p) by (nonlinear_arith)
            requires
                t >= w * d,
                p >= 0,
        ;
        assert((w * d) * p >= (w * d) * (2 * (q * k))) by (nonlinear_arith)
            requires
                w * d >= 0,
                p >= 128 * q,
                k <= 64,
                q >= 1,
        ;
        assert((w * d) * (2 * (q * k)) == (w * 2) * (d * (q * k))) by (nonlinear_arith);
    }
}

/// Terms do not grow faster than the powers of 128.
proof fn lemma_term_bound(p: int, q: int, k: nat)
    requires
        q >= 1,
        0 <= p <= 128 * q,
    ensures
        pow(p, k) <= pow(128, k) * exp_scale(q, k),
        pow(128, k) >= 1,
    decreases k,
{
    lemma_power(p, k);
    lemma_power(128, k);
    if k > 0 {
        let m = (k - 1) as nat;
        lemma_term_bound(p, q, m);
        lemma_power(p, m);
        lemma_power(128, m);
        lemma_scale_positive(q, m);
        let t = pow(p, m);
        let w = pow(128, m);
        let d = exp_scale(q, m);
        assert(w * d >= 0) by (nonlinear_arith)
            requires
                w >= 1,
                d >= 1,
        ;
        assert(t * p <= (w * d) * p) by (nonlinear_arith)
            requires
                t <= w * d,
                p >= 0,
        ;
        assert((w * d) * p <= (w * d) * (128 * (q * k))) by (nonlinear_arith)
            requires
                w * d >= 0,
                p <= 128 * q,
                k >= 1,
                q >= 1,
        ;
        assert((w * d) * (128 * (q * k)) == (w * 128) * (d * (q * k))) by (nonlinear_arith);
    }
}

/// From the 256th on, each term is at most half of the one before.
proof fn lemma_terms_fall(p: int, q: int, k: nat)
    requires
        q >= 1,
        0 <= p <= 128 * q,
    ensures
        pow(p, 256 + k) * pow(2, k) <= pow(128, 256) * exp_scale(q, 256 + k),
        pow(2, k) >= 1,
    decreases k,
{
    lemma_power(2, k);
    if k == 0 {
        lemma_term_bound(p, q, 256);
        assert(pow(p, 256) * 1 == pow(p, 256));
    } else {
        let m = (k - 1) as nat;
        let i = 256 + m;
        lemma_terms_fall(p, q, m);
        lemma_power(2, m);
        lemma_power(p, i);
        lemma_power_nonnegative(p, i);
        let t = pow(p, i);
        let w = pow(2, m);
        let d = exp_scale(q, i);
        let f = q * (i + 1);
        let c = pow(128, 256);
        assert(2 * p <= f) by (nonlinear_arith)
            requires
                p <= 128 * q,
                f == q * (i + 1),
                i >= 256,
                q >= 1,
        ;
        assert(t * w >= 0) by (nonlinear_arith)
            requires
                t >= 0,
                w >= 1,
        ;
        assert((t * p) * (w * 2) == (t * w) * (2 * p)) by (nonlinear_arith);
        assert((t * w) * (2 * p) <= (t * w) * f) by (nonlinear_arith)
            requires
                t * w >= 0,
                2 * p <= f,
        ;
        assert((t * w) * f <= (c * d) * f) by (nonlinear_arith)
            requires
                t * w <= c * d,
                f >= 0,
        ;
        assert((c * d) * f == c * (d * f)) by (nonlinear_arith);
    }
}

/// After 2112 terms the next is below one over the precision.
proof fn lemma_last_term(p: int, q: int)
    requires
        q >= 1,
        0 <= p <= 128 * q,
    ensures
        pow(p, 2112) * precision() <= exp_scale(q, 2112),
{
    lemma_terms_fall(p, q, 1856);
    lemma_power_of_128(256);
    vstd::arithmetic::power::lemma_pow_adds(2, 1792, 64);
    vstd::arithmetic::power2::lemma2_to64();
    vstd::arithmetic::power2::lemma_pow2(64);
    lemma_terms_fall(p, q, 1792);
    let t = pow(p, 2112);
    let d = exp_scale(q, 2112);
    let w = pow(2, 1792);
    assert(pow(2, 1856) == w * precision());
    assert((t * precision()) * w == t * (w * precision())) by (nonlinear_arith);
    assert((t * precision()) * w <= d * w) by (nonlinear_arith)
        requires
            (t * precision()) * w <= w * d,
    ;
    assert(t * precision() <= d) by (nonlinear_arith)
        requires
            (t * precision()) * w <= d * w,
            w >= 1,
    ;
}

proof fn lemma_power_of_128(k: nat)
    ensures
        pow(128, k) == pow(2, 7 * k),
    decreases k,
{
    lemma_power(128, k);
    lemma_power(2, 7 * k);
    if k > 0 {
        let m = (k - 1) as nat;
        lemma_power_of_128(m);
        lemma_power(128, m);
        vstd::arithmetic::power::lemma_pow_adds(2, 7 * m, 7);
        assert(pow(2, 7) == 128) by {
            reveal_with_fuel(pow, 8);
        }
    }
}

/// Determine if a full index rebuild is cheaper than a simple merge.
///
/// Full rebuild is O(N log N) where N = primary docs.
/// Simple merge is O(M) where M = index entries.
/// Exact crossover: M = N * ln(N).
/// We trigger at 0.5 * N * ln(N) to be proactive and avoid bloat.
pub fn should_full_rebuild(index_entries: u64, primary_docs: u64) -> (rebuild: bool)
    ensures
        rebuild_answer(index_entries as nat, primary_docs as nat, rebuild),
{
    if primary_docs == 0 {
        return true;
    }
    let ghost p = 2 * index_entries as int;
    let ghost q = primary_docs as int;
    if index_entries as u128 >= 64 * primary_docs as u128 {
        proof {
            lemma_large_exponent(p, q, q);
        }
        return true;
    }
    let mut term = Natural::from_u64(1);
    let mut sum = Natural::from_u64(1);
    let mut scale = Natural::from_u64(1);
    let mut k: u64 = 0;
    proof {
        lemma_power(p, 0);
    }
    while k < 2112
        invariant
            k <= 2112,
            p == 2 * index_entries as int,
            q == primary_docs as int,
            q >= 1,
            0 <= p <= 128 * q,
            term@ == pow(p, k as nat),
            sum@ == exp_sum(p, q, k as nat),
            scale@ == exp_scale(q, k as nat),
        decreases 2112 - k,
    {
        let bound = scale.times(primary_docs);
        assert(bound@ == q * scale@) by (nonlinear_arith)
            requires
                bound@ == scale@ * q,
        ;
        if bound.less_than(&sum) {
            assert(exp_sum(p, q, k as nat) > q * exp_scale(q, k as nat));
            return true;
        }
        assert(0 <= q * (k + 1) <= u128::MAX) by (nonlinear_arith)
            requires
                1 <= q <= u64::MAX,
                0 <= k <= 2112,
        ;
        if 4 * index_entries as u128 <= primary_docs as u128 * (k + 1) as u128 {
            let upper = sum.plus(&term);
            if !bound.less_than(&upper) {
                proof {
                    assert((sum@ + term@) * 1 <= q * scale@);
                    lemma_bounded(p, q, 1, q, k as nat);
                    lemma_exact_bound(p, q, q);
                }
                return false;
            }
        }
        proof {
            lemma_power(p, k as nat);
        }
        let ghost (t, s, d) = (term@, sum@, scale@);
        k += 1;
        term = term.times(index_entries).times(2);
        scale = scale.times(primary_docs).times(k);
        sum = sum.times(primary_docs).times(k).plus(&term);
        proof {
            let m = index_entries as int;
            let i = k as int;
            assert((t * m) * 2 == t * (2 * m)) by (nonlinear_arith);
            assert((d * q) * i == d * (q * i)) by (nonlinear_arith);
            assert((s * q) * i == s * (q * i)) by (nonlinear_arith);
        }
    }
    let bound = scale.times(primary_docs);
    assert(bound@ == q * scale@) by (nonlinear_arith)
        requires
            bound@ == scale@ * q,
    ;
    if bound.less_than(&sum) {
        assert(exp_sum(p, q, k as nat) > q * exp_scale(q, k as nat));
        return true;
    }
    proof {
        lemma_last_term(p, q);
        let (t, s, d) = (term@, sum@, scale@);
        let b = q * precision() + 1;
        assert((s + t) * precision() <= b * d) by (nonlinear_arith)
            requires
                s <= q * d,
                t * precision() <= d,
                b == q * precision() + 1,
                precision() >= 0,
        {
            assert((s + t) * precision() == s * precision() + t * precision())
                by (nonlinear_arith);
            assert(s * precision() <= (q * d) * precision()) by (nonlinear_arith)
                requires
                    s <= q * d,
                    precision() >= 0,
            ;
            assert((q * d) * precision() + d == (q * precision() + 1) * d) by (nonlinear_arith);
        }
        assert(2 * p <= q * (2112nat + 1)) by (nonlinear_arith)
            requires
                0 <= p <= 128 * q,
        ;
        lemma_bounded(p, q, precision(), b, 2112);
    }
    false
}

proof fn lemma_exact_bound(p: int, q: int, n: int)
    requires
        p >= 0,
        q >= 1,
        exp_bounded(p, q, 1, n),
    ensures
        exp_bounded(p, q, precision(), n * precision() + 1),
{
    assert forall|k: nat| #[trigger]
        exp_sum(p, q, k) * precision() <= (n * precision() + 1) * exp_scale(q, k) by {
        let s = exp_sum(p, q, k);
        let d = exp_scale(q, k);
        lemma_scale_positive(q, k);
        assert(s * 1 <= n * d);
        assert(s * precision() <= (n * precision() + 1) * d) by (nonlinear_arith)
            requires
                s <= n * d,
                d >= 1,
                precision() == 0x1_0000_0000_0000_0000,
        ;
    }
}

/// Where a rebuild pays, the index has entries for at least half of the documents.
pub proof fn law_rebuild_covers_half(entries: nat, docs: nat)
    requires
        rebuild_answer(entries, docs, true),
    ensures
        2 * entries >= docs,
{
    let p = 2 * entries as int;
    let q = docs as int;
    if p < q {
        lemma_power(p, 0);
        reveal_with_fuel(exp_sum, 2);
        reveal_with_fuel(exp_scale, 2);
        assert(q * 1 == q);
        assert(1 * q == q);
        assert(q + 2 * p <= q * q) by (nonlinear_arith)
            requires
                p < q,
                0 <= p,
                q <= 2 ==> p == 0,
                q >= 1,
        ;
        assert(has_slack(p, q, 1, q, 1));
        assert(2 * p <= q * (1nat + 1)) by (nonlinear_arith)
            requires
                p < q,
        ;
        lemma_bounded(p, q, 1, q, 1);
        let k = choose|k: nat| #[trigger] exp_sum(p, q, k) > q * exp_scale(q, k);
        assert(exp_sum(p, q, k) * 1 <= q * exp_scale(q, k));
    }
}

/// A power of a sum is at least the first two terms of its expansion.
proof fn lemma_power_of_sum_above(p: int, s: int, n: nat)
    requires
        p >= 0,
        s >= 0,
        n >= 1,
    ensures
        pow(p + s, n) >= pow(p, n) + n * (s * pow(p, (n - 1) as nat)),
    decreases n,
{
    let m = (n - 1) as nat;
    lemma_power(p, m);
    lemma_power(p + s, m);
    if m > 0 {
        lemma_power_of_sum_above(p, s, m);
        let l = (m - 1) as nat;
        lemma_power(p, l);
        lemma_power_nonnegative(p, m);
        lemma_power_nonnegative(p, l);
        let a = pow(p + s, m);
        let b = pow(p, m);
        let c = pow(p, l);
        assert(a * (p + s) >= b * p + (m + 1) * (s * b)) by (nonlinear_arith)
            requires
                a >= b + m * (s * c),
                b == c * p,
                c >= 0,
                b >= 0,
                p >= 0,
                s >= 0,
                m >= 1,
        ;
    } else {
        assert(1 * p == p && 1 * (p + s) == p + s && 1 * (s * 1) == s);
    }
}

/// A power of a sum exceeds that of the first part by no more than its slope at the sum.
proof fn lemma_power_of_sum_below(p: int, s: int, n: nat)
    requires
        p >= 0,
        s >= 0,
        n >= 1,
    ensures
        pow(p + s, n) <= pow(p, n) + n * (s * pow(p + s, (n - 1) as nat)),
    decreases n,
{
    let m = (n - 1) as nat;
    lemma_power(p, m);
    lemma_power(p + s, m);
    if m > 0 {
        lemma_power_of_sum_below(p, s, m);
        let l = (m - 1) as nat;
        lemma_power(p + s, l);
        lemma_power_nonnegative(p + s, l);
        lemma_power_nonnegative(p + s, m);
        let a = pow(p + s, m);
        let b = pow(p, m);
        let c = pow(p + s, l);
        assert(a * (p + s) <= b * p + (m + 1) * (s * a)) by (nonlinear_arith)
            requires
                a <= b + m * (s * c),
                a == c * (p + s),
                c >= 0,
                a >= 0,
                p >= 0,
                s >= 0,
                m >= 1,
        ;
    } else {
        assert(1 * p == p && 1 * (p + s) == p + s && 1 * (s * 1) == s);
    }
}

/// A sum of the series at an argument that is larger by one is at least the sum and the one
/// before it.
proof fn lemma_sum_of_next(p: int, q: int, n: nat)
    requires
        p >= 0,
        q >= 1,
    ensures
        exp_sum(p + q, q, n + 1) >= exp_sum(p, q, n + 1) + (q * (n + 1)) * exp_sum(p, q, n),
    decreases n,
{
    lemma_power_of_sum_above(p, q, n + 1);
    let f = q * (n + 1);
    let x = pow(p, n);
    if n == 0 {
        lemma_power(p, 0);
        lemma_power(p + q, 0);
        reveal_with_fuel(exp_sum, 2);
        assert(1 * (q * 1) == q);
        assert(f == q);
        assert(f * 1 == q);
    } else {
        let m = (n - 1) as nat;
        lemma_sum_of_next(p, q, m);
        let a = exp_sum(p + q, q, n);
        let b = exp_sum(p, q, n);
        let c = exp_sum(p, q, m);
        let g = q * n;
        assert(b == c * g + x);
        let y = pow(p + q, n + 1);
        let z = pow(p, n + 1);
        assert(y >= z + f * x) by (nonlinear_arith)
            requires
                y >= z + (n + 1) * (q * x),
                f == q * (n + 1),
        ;
        assert(a * f + y >= (b * f + z) + f * b) by (nonlinear_arith)
            requires
                a >= b + g * c,
                b == c * g + x,
                y >= z + f * x,
                f >= 0,
        ;
    }
}

/// The exponential is at least the power of two.
proof fn lemma_above_power_of_two(p: int, q: int, k: nat)
    requires
        q >= 1,
        p >= k * q,
    ensures
        exp_sum(p, q, k) >= pow(2, k) * exp_scale(q, k),
    decreases k,
{
    lemma_power(2, 0);
    if k > 0 {
        let m = (k - 1) as nat;
        let r = p - q;
        assert(r >= m * q && r >= 0) by (nonlinear_arith)
            requires
                p >= k * q,
                r == p - q,
                m == k - 1,
                k >= 1,
                q >= 1,
        ;
        lemma_above_power_of_two(r, q, m);
        lemma_sum_of_next(r, q, m);
        lemma_power(2, m);
        lemma_power_nonnegative(r, k);
        lemma_scale_positive(q, m);
        let f = q * k;
        let a = exp_sum(r, q, m);
        let d = exp_scale(q, m);
        let t = pow(2, m);
        let x = pow(r, k);
        assert(r + q == p);
        assert(exp_sum(p, q, k) >= (a * f + x) + f * a);
        assert((a * f + x) + f * a >= (t * 2) * (d * f)) by (nonlinear_arith)
            requires
                a >= t * d,
                x >= 0,
                f >= 0,
        ;
    }
}

/// A sum of the series grows by no more than its slope.
proof fn lemma_sum_slope(p: int, q: int, s: int, n: nat)
    requires
        p >= 0,
        q >= 1,
        s >= 0,
        n >= 1,
    ensures
        exp_sum(p + s, q, n) <= exp_sum(p, q, n) + (s * n) * exp_sum(p + s, q, (n - 1) as nat),
    decreases n,
{
    let m = (n - 1) as nat;
    lemma_power_of_sum_below(p, s, n);
    let x = pow(p + s, m);
    let y = pow(p + s, n);
    let z = pow(p, n);
    let f = q * n;
    if m == 0 {
        lemma_power(p, 0);
        lemma_power(p + s, 0);
        reveal_with_fuel(exp_sum, 2);
        assert((s * 1) * 1 == s);
    } else {
        let l = (m - 1) as nat;
        lemma_sum_slope(p, q, s, m);
        let a = exp_sum(p + s, q, m);
        let b = exp_sum(p, q, m);
        let c = exp_sum(p + s, q, l);
        let g = q * m;
        assert(a == c * g + x);
        assert(a * f <= b * f + ((s * m) * c) * f) by (nonlinear_arith)
            requires
                a <= b + (s * m) * c,
                f == q * n,
                q >= 1,
                n >= 1,
        ;
        assert(((s * m) * c) * f == (s * n) * (c * g)) by (nonlinear_arith)
            requires
                f == q * n,
                g == q * m,
        ;
        assert(n * (s * x) == (s * n) * x) by (nonlinear_arith);
        assert((s * n) * (c * g) + (s * n) * x == (s * n) * a) by (nonlinear_arith)
            requires
                a == c * g + x,
        ;
    }
}

/// Half a unit at most doubles a sum of the series.
proof fn lemma_half_doubles(p: int, q: int, s: int, n: nat)
    requires
        p >= 0,
        q >= 1,
        0 <= s,
        2 * s <= q,
    ensures
        exp_sum(p + s, q, n) <= 2 * exp_sum(p, q, n),
{
    if n > 0 {
        let m = (n - 1) as nat;
        lemma_sum_slope(p, q, s, n);
        lemma_sum_nonnegative(p + s, q, m);
        lemma_power_nonnegative(p + s, n);
        let a = exp_sum(p + s, q, m);
        let y = pow(p + s, n);
        assert(exp_sum(p + s, q, n) == a * (q * n) + y);
        assert(2 * ((s * n) * a) <= a * (q * n)) by (nonlinear_arith)
            requires
                2 * s <= q,
                a >= 0,
                n >= 1,
        ;
    }
}

proof fn lemma_sum_of_zero(q: int, n: nat)
    ensures
        exp_sum(0, q, n) == exp_scale(q, n),
    decreases n,
{
    if n > 0 {
        lemma_sum_of_zero(q, (n - 1) as nat);
        lemma_power(0, (n - 1) as nat);
    }
}

/// The exponential is at most the power of two of twice its argument.
proof fn lemma_below_power_of_two(p: int, q: int, s: int, k: nat, n: nat)
    requires
        0 <= p <= k * s,
        s >= 0,
        q >= 1,
        2 * s <= q,
    ensures
        exp_sum(p, q, n) <= pow(2, k) * exp_scale(q, n),
    decreases k,
{
    lemma_power(2, 0);
    lemma_sum_of_zero(q, n);
    lemma_scale_positive(q, n);
    let d = exp_scale(q, n);
    if k == 0 {
        assert(k * s == 0) by (nonlinear_arith)
            requires
                k == 0,
        ;
        assert(1 * d == d);
    } else {
        let m = (k - 1) as nat;
        lemma_power(2, m);
        let t = pow(2, m);
        let r = if p >= s { p - s } else { 0 };
        assert(0 <= r <= m * s) by (nonlinear_arith)
            requires
                0 <= p <= k * s,
                m == k - 1,
                k >= 1,
                s >= 0,
                r == (if p >= s { p - s } else { 0 }),
        ;
        lemma_below_power_of_two(r, q, s, m, n);
        lemma_half_doubles(r, q, p - r, n);
        assert(r + (p - r) == p);
        assert(2 * (t * d) == (t * 2) * d) by (nonlinear_arith);
    }
}

/// Twice the numerator and twice the denominator give the same sums.
proof fn lemma_sum_doubled(p: int, q: int, n: nat)
    ensures
        exp_sum(2 * p, 2 * q, n) == pow(2, n) * exp_sum(p, q, n),
        exp_scale(2 * q, n) == pow(2, n) * exp_scale(q, n),
        pow(2 * p, n) == pow(2, n) * pow(p, n),
        pow(2, n) >= 1,
    decreases n,
{
    lemma_power(2, 0);
    lemma_power(p, 0);
    lemma_power(2 * p, 0);
    if n > 0 {
        let m = (n - 1) as nat;
        lemma_sum_doubled(p, q, m);
        lemma_power(2, m);
        lemma_power(p, m);
        lemma_power(2 * p, m);
        let t = pow(2, m);
        let x = pow(p, m);
        let a = exp_sum(p, q, m);
        let d = exp_scale(q, m);
        assert((t * x) * (2 * p) == (t * 2) * (x * p)) by (nonlinear_arith);
        let w = x * p;
        assert((t * a) * ((2 * q) * n) + (t * 2) * w == (t * 2) * (a * (q * n) + w))
            by (nonlinear_arith);
        assert((t * d) * ((2 * q) * n) == (t * 2) * (d * (q * n))) by (nonlinear_arith);
    }
}

/// When a rebuild pays lies where it should. Let the documents be about two to the power `k`.
/// With half as many entries as `k` times the documents the answer is yes, where twice the
/// documents are no more than that power. With a quarter as many it is no, where the documents
/// are at least that power. Without documents it is yes.
pub proof fn law_rebuild_threshold(entries: nat, docs: nat, k: nat, answer: bool)
    requires
        rebuild_answer(entries, docs, answer),
    ensures
        docs == 0 ==> answer,
        2 * docs <= pow(2, k) && 2 * entries >= k * docs ==> answer,
        docs > 0 && docs >= pow(2, k) && 4 * entries <= k * docs ==> !answer,
{
    let p = 2 * entries as int;
    let q = docs as int;
    if docs > 0 && 2 * docs <= pow(2, k) && 2 * entries >= k * docs && !answer {
        lemma_above_power_of_two(p, q, k);
        lemma_scale_positive(q, k);
        let a = exp_sum(p, q, k);
        let d = exp_scale(q, k);
        let t = pow(2, k);
        assert(a * precision() <= (q * precision() + 1) * d);
        assert(false) by (nonlinear_arith)
            requires
                a >= t * d,
                t >= 2 * q,
                q >= 1,
                d >= 1,
                a * precision() <= (q * precision() + 1) * d,
                precision() == 0x1_0000_0000_0000_0000,
        ;
    }
    if docs > 0 && docs >= pow(2, k) && 4 * entries <= k * docs && answer {
        let n = choose|n: nat| #[trigger] exp_sum(p, q, n) > q * exp_scale(q, n);
        assert(2 * p <= k * q);
        lemma_below_power_of_two(2 * p, 2 * q, q, k, n);
        lemma_sum_doubled(p, q, n);
        lemma_scale_positive(q, n);
        let a = exp_sum(p, q, n);
        let d = exp_scale(q, n);
        let t = pow(2, k);
        let u = pow(2, n);
        assert(false) by (nonlinear_arith)
            requires
                u * a <= t * (u * d),
                a > q * d,
                q >= t,
                u >= 1,
                d >= 1,
        ;
    }
}

proof fn lemma_sum_monotone(p: int, r: int, q: int, n: nat)
    requires
        0 <= p <= r,
        q >= 1,
    ensures
        exp_sum(p, q, n) <= exp_sum(r, q, n),
        pow(p, n) <= pow(r, n),
    decreases n,
{
    lemma_power(p, 0);
    lemma_power(r, 0);
    if n > 0 {
        let m = (n - 1) as nat;
        lemma_sum_monotone(p, r, q, m);
        lemma_power(p, m);
        lemma_power(r, m);
        lemma_power_nonnegative(p, m);
        let a = exp_sum(p, q, m);
        let b = exp_sum(r, q, m);
        let x = pow(p, m);
        let y = pow(r, m);
        assert(x * p <= y * r) by (nonlinear_arith)
            requires
                0 <= x <= y,
                0 <= p <= r,
        ;
        assert(a * (q * n) <= b * (q * n)) by (nonlinear_arith)
            requires
                a <= b,
                q >= 1,
                n >= 1,
        ;
    }
}

/// Where a rebuild pays, it pays with more entries too; and where it does not, it does not with
/// fewer.
pub proof fn law_rebuild_is_monotone(entries: nat, more: nat, docs: nat)
    requires
        entries <= more,
    ensures
        rebuild_answer(entries, docs, true) ==> rebuild_answer(more, docs, true),
        rebuild_answer(more, docs, false) ==> rebuild_answer(entries, docs, false),
{
    let p = 2 * entries as int;
    let r = 2 * more as int;
    let q = docs as int;
    if docs > 0 {
        if exp_exceeds(p, q, q) {
            let k = choose|k: nat| #[trigger] exp_sum(p, q, k) > q * exp_scale(q, k);
            lemma_sum_monotone(p, r, q, k);
            assert(exp_sum(r, q, k) > q * exp_scale(q, k));
        }
        let b = docs * precision() + 1;
        if exp_bounded(r, q, precision(), b) {
            assert forall|k: nat| #[trigger]
                exp_sum(p, q, k) * precision() <= b * exp_scale(q, k) by {
                lemma_sum_monotone(p, r, q, k);
                assert(exp_sum(r, q, k) * precision() <= b * exp_scale(q, k));
            }
        }
    }
}

} // verus!
