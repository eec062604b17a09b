//! Statistics reducer: turns a sequence of duration samples (unsigned
//! nanosecond counts) into a 95% confidence interval around the sample mean,
//! using the normal approximation computed in integer arithmetic.

use vstd::prelude::*;
use vstd::arithmetic::div_mod::*;

verus! {

/// Sum of a sequence of duration samples.
pub open spec fn seq_sum(s: Seq<u64>) -> int
    decreases s.len(),
{
    if s.len() == 0 {
        0
    } else {
        seq_sum(s.drop_last()) + s.last()
    }
}

/// Arithmetic sample mean (floor division, as duration division truncates).
pub open spec fn spec_mean(s: Seq<u64>) -> int
    recommends
        s.len() > 0,
{
    seq_sum(s) / (s.len() as int)
}

/// Squared deviation of one sample from the mean, the difference taken as
/// `max(a, b) - min(a, b)` since durations are unsigned.
pub open spec fn sq_dev(v: u64, mean: int) -> int {
    let d = if v >= mean {
        v - mean
    } else {
        mean - v
    };
    d * d
}

/// Sum of squared deviations from `mean` over all samples.
pub open spec fn sq_dev_sum(s: Seq<u64>, mean: int) -> int
    decreases s.len(),
{
    if s.len() == 0 {
        0
    } else {
        sq_dev_sum(s.drop_last(), mean) + sq_dev(s.last(), mean)
    }
}

/// `r` is the floor of the square root of `x`.
pub open spec fn is_floor_sqrt(r: int, x: int) -> bool {
    0 <= r && r * r <= x && x < (r + 1) * (r + 1)
}

/// The 95% normal-approximation margin, `1.96 * sqrt(variance / n)`,
/// expressed over the floor square root of `variance / n`.
pub open spec fn spec_margin(root: int) -> int {
    root * 196 / 100
}

/// The interval `(lo, hi)` is the 95% confidence interval of `s`: centred on
/// the mean with the normal-approximation margin, the lower bound clamped at
/// zero since durations cannot be negative.
pub open spec fn interval_ok(s: Seq<u64>, lo: int, hi: int) -> bool {
    let n = s.len() as int;
    let mean = spec_mean(s);
    let q = sq_dev_sum(s, mean) / ((n - 1) * n);
    exists|root: int|
        is_floor_sqrt(root, q) && hi == mean + spec_margin(root) && lo == (
        if mean >= spec_margin(root) {
            mean - spec_margin(root)
        } else {
            0
        })
}

/// Absolute difference of two durations, in nanoseconds.
pub fn duration_diff(a: u64, b: u64) -> (d: u64)
    ensures
        d == if a >= b { a - b } else { b - a },
{
    if a > b {
        a - b
    } else {
        b - a
    }
}

/// Floor square root by binary search.
fn isqrt(x: u128) -> (r: u128)
    requires
        x <= 0xFFFF_FFFF_FFFFu128 * 0xFFFF_FFFF_FFFF,
    ensures
        is_floor_sqrt(r as int, x as int),
{
    let mut lo: u128 = 0;
    let mut hi: u128 = 0x1_0000_0000_0000;
    assert(x < hi * hi);
    while hi - lo > 1
        invariant
            lo < hi <= 0x1_0000_0000_0000,
            lo * lo <= x,
            x < hi * hi,
        decreases hi - lo,
    {
        let mid: u128 = lo + (hi - lo) / 2;
        proof {
            assert(mid as int * mid as int <= 0x1_0000_0000_0000int * 0x1_0000_0000_0000)
                by (nonlinear_arith)
                requires
                    0 <= mid as int <= 0x1_0000_0000_0000,
            ;
        }
        if mid * mid <= x {
            lo = mid;
        } else {
            hi = mid;
        }
    }
    lo
}

/// Reduces at least two duration samples to the 95% confidence interval
/// around their mean: `(mean - margin, mean + margin)` with
/// `margin = 1.96 * sqrt(variance / n)` and
/// `variance = sq_dev_sum / (n - 1)`, all in floor integer arithmetic,
/// the lower bound clamped at zero.
pub fn confidence_interval(samples: &Vec<u64>) -> (r: (u64, u64))
    requires
        2 <= samples@.len() <= 0xFFFF_FFFF,
        forall|j: int| 0 <= j < samples@.len() ==> samples@[j] < 0x1_0000_0000_0000u64,
    ensures
        interval_ok(samples@, r.0 as int, r.1 as int),
        r.0 <= spec_mean(samples@) <= r.1,
{
    let n = samples.len();

    // sample mean
    let mut acc: u128 = 0;
    let mut j: usize = 0;
    while j < n
        invariant
            j <= n == samples@.len() <= 0xFFFF_FFFF,
            forall|k: int| 0 <= k < samples@.len() ==> samples@[k] < 0x1_0000_0000_0000u64,
            acc == seq_sum(samples@.take(j as int)),
            acc <= j as int * 0xFFFF_FFFF_FFFF,
        decreases n - j,
    {
        proof {
            assert(samples@.take(j + 1).drop_last() =~= samples@.take(j as int));
        }
        acc = acc + samples[j] as u128;
        j = j + 1;
    }
    proof {
        assert(samples@.take(n as int) =~= samples@);
        lemma_div_is_ordered(acc as int, n as int * 0xFFFF_FFFF_FFFF, n as int);
        lemma_div_by_multiple(0xFFFF_FFFF_FFFF, n as int);
        assert(n as int * 0xFFFF_FFFF_FFFF == 0xFFFF_FFFF_FFFF * n as int) by (nonlinear_arith);
    }
    let mean: u64 = (acc / n as u128) as u64;
    assert(mean == spec_mean(samples@));
    assert(mean <= 0xFFFF_FFFF_FFFFu64);

    // sum of squared deviations from the mean
    let mut sq: u128 = 0;
    j = 0;
    while j < n
        invariant
            j <= n == samples@.len() <= 0xFFFF_FFFF,
            forall|k: int| 0 <= k < samples@.len() ==> samples@[k] < 0x1_0000_0000_0000u64,
            mean <= 0xFFFF_FFFF_FFFFu64,
            mean == spec_mean(samples@),
            sq == sq_dev_sum(samples@.take(j as int), mean as int),
            sq <= j as int * (0xFFFF_FFFF_FFFF * 0xFFFF_FFFF_FFFF),
        decreases n - j,
    {
        proof {
            assert(samples@.take(j + 1).drop_last() =~= samples@.take(j as int));
        }
        let d = duration_diff(samples[j], mean);
        assert(d <= 0xFFFF_FFFF_FFFFu64);
        proof {
            assert(d as int * d as int <= 0xFFFF_FFFF_FFFFint * 0xFFFF_FFFF_FFFF)
                by (nonlinear_arith)
                requires
                    0 <= d as int <= 0xFFFF_FFFF_FFFF,
            ;
        }
        let dd: u128 = d as u128 * d as u128;
        assert(dd == sq_dev(samples@[j as int], mean as int));
        proof {
            assert(sq as int + dd as int <= (j as int + 1) * (0xFFFF_FFFF_FFFFint
                * 0xFFFF_FFFF_FFFF)) by (nonlinear_arith)
                requires
                    sq as int <= j as int * (0xFFFF_FFFF_FFFFint * 0xFFFF_FFFF_FFFF),
                    dd as int <= 0xFFFF_FFFF_FFFFint * 0xFFFF_FFFF_FFFF,
                    0 <= j as int,
            ;
            assert((j as int + 1) * (0xFFFF_FFFF_FFFFint * 0xFFFF_FFFF_FFFF) <= 0x1_0000_0000int
                * (0xFFFF_FFFF_FFFFint * 0xFFFF_FFFF_FFFF)) by (nonlinear_arith)
                requires
                    0 <= j as int + 1 <= 0x1_0000_0000,
            ;
        }
        sq = sq + dd;
        j = j + 1;
    }
    proof {
        assert(samples@.take(n as int) =~= samples@);
    }

    // margin = 1.96 * sqrt(variance / n), variance = sq / (n - 1)
    proof {
        assert((n as int - 1) * (n as int) < 0x1_0000_0000_0000_0000int) by (nonlinear_arith)
            requires
                2 <= n as int <= 0xFFFF_FFFF,
        ;
    }
    let denom: u128 = (n as u128 - 1) * n as u128;
    proof {
        assert(denom == (n as int - 1) * n as int && n as int <= denom) by (nonlinear_arith)
            requires
                2 <= n as int <= 0xFFFF_FFFF,
                denom == (n as int - 1) * (n as int),
        ;
    }
    let q: u128 = sq / denom;
    proof {
        lemma_fundamental_div_mod(sq as int, denom as int);
        assert(q as int * denom as int <= sq as int) by (nonlinear_arith)
            requires
                sq as int == denom as int * (q as int) + sq as int % denom as int,
                0 <= sq as int % denom as int,
        ;
        assert(q as int <= 0xFFFF_FFFF_FFFF * 0xFFFF_FFFF_FFFF) by (nonlinear_arith)
            requires
                q as int * denom as int <= sq as int,
                n as int <= denom as int,
                sq as int <= n as int * (0xFFFF_FFFF_FFFF * 0xFFFF_FFFF_FFFF),
                0 <= q as int,
                2 <= n as int,
        ;
    }
    let root: u128 = isqrt(q);
    proof {
        assert(root as int <= 0xFFFF_FFFF_FFFF) by (nonlinear_arith)
            requires
                root as int * root as int <= q as int,
                q as int <= 0xFFFF_FFFF_FFFF * 0xFFFF_FFFF_FFFF,
                0 <= root as int,
        ;
        lemma_div_is_ordered(root as int * 196, 0xFFFF_FFFF_FFFFint * 196, 100);
        lemma_div_pos_is_pos(root as int * 196, 100);
    }
    let margin: u64 = (root * 196 / 100) as u64;
    assert(margin == spec_margin(root as int));

    let lo: u64 = if mean >= margin {
        mean - margin
    } else {
        0
    };
    let hi: u64 = mean + margin;
    proof {
        let s = samples@;
        let nn = s.len() as int;
        let qq = sq_dev_sum(s, spec_mean(s)) / ((nn - 1) * nn);
        assert(qq == q as int);
        assert(is_floor_sqrt(root as int, qq) && hi as int == spec_mean(s) + spec_margin(
            root as int,
        ) && lo as int == (if spec_mean(s) >= spec_margin(root as int) {
            spec_mean(s) - spec_margin(root as int)
        } else {
            0
        }));
    }
    (lo, hi)
}

/// Reduces collected duration samples: the 95% confidence interval when
/// every sample is within the representable range, and `None` — a loud
/// failure for the caller — exactly when some sample is too large for the
/// margin computation to represent.
pub fn reduce_samples(samples: &Vec<u64>) -> (r: Option<(u64, u64)>)
    requires
        2 <= samples@.len() <= 0xFFFF_FFFF,
    ensures
        (r is Some) == (forall|j: int|
            0 <= j < samples@.len() ==> samples@[j] < 0x1_0000_0000_0000u64),
        r matches Some(interval) ==> interval_ok(samples@, interval.0 as int, interval.1 as int),
        r matches Some(interval) ==> interval.0 <= spec_mean(samples@) <= interval.1,
{
    let n = samples.len();
    let mut j: usize = 0;
    while j < n
        invariant
            j <= n == samples@.len(),
            forall|k: int| 0 <= k < j ==> samples@[k] < 0x1_0000_0000_0000u64,
        decreases n - j,
    {
        if samples[j] >= 0x1_0000_0000_0000u64 {
            return None;
        }
        j = j + 1;
    }
    Some(confidence_interval(samples))
}

/// Zero-variance law: when every sample holds the same value, the margin is
/// zero and the confidence interval degenerates to the mean itself.
pub proof fn lemma_zero_variance(s: Seq<u64>, lo: int, hi: int)
    requires
        2 <= s.len(),
        forall|j: int| 0 <= j < s.len() ==> #[trigger] s[j] == s[0],
        interval_ok(s, lo, hi),
    ensures
        spec_mean(s) == s[0],
        lo == s[0],
        hi == s[0],
{
    let n = s.len() as int;
    lemma_seq_sum_constant(s);
    lemma_div_by_multiple(s[0] as int, n);
    assert(n * (s[0] as int) == (s[0] as int) * n) by (nonlinear_arith);
    assert(spec_mean(s) == s[0]);
    lemma_sq_dev_sum_constant(s, spec_mean(s));
    assert((n - 1) * n >= 2) by (nonlinear_arith)
        requires
            n >= 2,
    ;
    lemma_div_of0((n - 1) * n);
    let q = sq_dev_sum(s, spec_mean(s)) / ((n - 1) * n);
    assert(q == 0);
    let root = choose|root: int|
        is_floor_sqrt(root, q) && hi == spec_mean(s) + spec_margin(root) && lo == (
        if spec_mean(s) >= spec_margin(root) {
            spec_mean(s) - spec_margin(root)
        } else {
            0
        });
    assert(root == 0) by (nonlinear_arith)
        requires
            is_floor_sqrt(root, 0),
    ;
    assert(spec_margin(0) == 0);
}

/// Every sample equal to the first makes the sum `len * s[0]`.
proof fn lemma_seq_sum_constant(s: Seq<u64>)
    requires
        s.len() >= 1,
        forall|j: int| 0 <= j < s.len() ==> #[trigger] s[j] == s[0],
    ensures
        seq_sum(s) == s.len() * s[0],
    decreases s.len(),
{
    if s.len() == 1 {
        assert(seq_sum(s.drop_last()) == 0);
    } else {
        lemma_seq_sum_constant(s.drop_last());
        assert(s.drop_last()[0] == s[0]);
        assert((s.len() - 1) * s[0] + s[0] == s.len() * s[0]) by (nonlinear_arith);
    }
}

/// Every sample equal to the mean makes the squared deviations vanish.
proof fn lemma_sq_dev_sum_constant(s: Seq<u64>, mean: int)
    requires
        forall|j: int| 0 <= j < s.len() ==> #[trigger] s[j] == mean,
    ensures
        sq_dev_sum(s, mean) == 0,
    decreases s.len(),
{
    if s.len() > 0 {
        lemma_sq_dev_sum_constant(s.drop_last(), mean);
        assert(s.last() == mean);
        assert(sq_dev(s.last(), mean) == 0);
    }
}

} // verus!
