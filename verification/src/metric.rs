//! Distance metrics over fixed-point vectors.
//!
//! Vector components are fixed-point integers (`i32`), so both metrics are
//! computed exactly in integer arithmetic:
//! - `L2`: the sum of squared component-wise differences, not square-rooted,
//!   so scores stay comparable and non-negative without the cost of a root.
//! - `Cosine`: one minus the cosine similarity, in `COSINE_SCALE` fixed
//!   point, with each magnitude rounded down to its integer square root.
//!   A zero-magnitude vector yields the sentinel `2 * COSINE_SCALE`, the
//!   maximum cosine distance, instead of a division by zero.

use vstd::prelude::*;
use vstd::arithmetic::div_mod::*;

verus! {

/// The closed set of metrics a collection is bound to at creation time.
#[derive(Clone, Copy, Debug, PartialEq, Eq, Structural)]
pub enum Metric {
    L2,
    Cosine,
}

/// Fixed-point scale of cosine distances: a distance of `COSINE_SCALE`
/// means the vectors are orthogonal.
pub const COSINE_SCALE: u128 = 1000000;

/// The largest squared difference of two `i32` components.
pub const MAX_SQ_DIFF: u128 = 0xFFFF_FFFE_0000_0001;

/// The largest magnitude of a product of two `i32` components.
pub const MAX_PROD: u128 = 0x4000_0000_0000_0000;

/// Sum of squared component-wise differences of two equal-length vectors.
pub open spec fn l2_dist(a: Seq<i32>, b: Seq<i32>) -> int
    decreases a.len(),
{
    if a.len() == 0 || b.len() == 0 {
        0
    } else {
        let d = a.last() - b.last();
        d * d + l2_dist(a.drop_last(), b.drop_last())
    }
}

/// Dot product of two equal-length vectors.
pub open spec fn dot(a: Seq<i32>, b: Seq<i32>) -> int
    decreases a.len(),
{
    if a.len() == 0 || b.len() == 0 {
        0
    } else {
        a.last() * b.last() + dot(a.drop_last(), b.drop_last())
    }
}

/// Squared magnitude of a vector.
pub open spec fn norm2(a: Seq<i32>) -> int {
    dot(a, a)
}

/// Integer square root: the greatest `r` with `r * r <= x` (`0` below `1`).
pub open spec fn isqrt_spec(x: int) -> int
    decreases x,
{
    if x < 1 {
        0
    } else {
        let r = isqrt_spec(x - 1);
        if (r + 1) * (r + 1) <= x {
            r + 1
        } else {
            r
        }
    }
}

/// Fixed-point ratio `c * COSINE_SCALE / (sa * sb)` for `0 <= c <= sa * sb`,
/// evaluated by splitting `c` at `sa` so every intermediate product is small
/// enough to compute exactly in `u128`.
pub open spec fn cosine_ratio(c: int, sa: int, sb: int) -> int {
    (c / sa) * (COSINE_SCALE as int) / sb + (c % sa) * (COSINE_SCALE as int) / (sa * sb)
}

/// Cosine distance in `COSINE_SCALE` fixed point. The ratio is clamped to
/// `COSINE_SCALE` (it cannot exceed it mathematically), which keeps every
/// distance within `[0, 2 * COSINE_SCALE]`.
pub open spec fn cosine_dist(a: Seq<i32>, b: Seq<i32>) -> int {
    let na = norm2(a);
    let nb = norm2(b);
    if na == 0 || nb == 0 {
        2 * (COSINE_SCALE as int)
    } else {
        let sa = isqrt_spec(na);
        let sb = isqrt_spec(nb);
        let d = dot(a, b);
        let mag = if d < 0 { -d } else { d };
        let clamped = if mag > sa * sb { sa * sb } else { mag };
        let ratio = cosine_ratio(clamped, sa, sb);
        let bounded = if ratio > COSINE_SCALE as int { COSINE_SCALE as int } else { ratio };
        if d < 0 {
            COSINE_SCALE as int + bounded
        } else {
            COSINE_SCALE as int - bounded
        }
    }
}

/// The distance between `a` and `b` under metric `m`.
pub open spec fn dist_spec(m: Metric, a: Seq<i32>, b: Seq<i32>) -> int {
    match m {
        Metric::L2 => l2_dist(a, b),
        Metric::Cosine => cosine_dist(a, b),
    }
}

/// The squared Euclidean distance is non-negative and at most
/// `len * MAX_SQ_DIFF`.
pub proof fn lemma_l2_bounds(a: Seq<i32>, b: Seq<i32>)
    requires
        a.len() == b.len(),
    ensures
        0 <= l2_dist(a, b) <= a.len() * (MAX_SQ_DIFF as int),
    decreases a.len(),
{
    if a.len() > 0 {
        lemma_l2_bounds(a.drop_last(), b.drop_last());
        let d = a.last() - b.last();
        assert(0 <= d * d <= MAX_SQ_DIFF as int) by (nonlinear_arith)
            requires -0xFFFF_FFFFint <= d <= 0xFFFF_FFFFint, MAX_SQ_DIFF == 0xFFFF_FFFE_0000_0001u128;
        assert(a.len() * (MAX_SQ_DIFF as int)
            == (a.len() - 1) * (MAX_SQ_DIFF as int) + MAX_SQ_DIFF as int) by (nonlinear_arith);
    }
}

/// The dot product has magnitude at most `len * MAX_PROD`.
pub proof fn lemma_dot_bounds(a: Seq<i32>, b: Seq<i32>)
    requires
        a.len() == b.len(),
    ensures
        -(a.len() * (MAX_PROD as int)) <= dot(a, b) <= a.len() * (MAX_PROD as int),
    decreases a.len(),
{
    if a.len() > 0 {
        lemma_dot_bounds(a.drop_last(), b.drop_last());
        let p = a.last() * b.last();
        assert(-(MAX_PROD as int) <= p <= MAX_PROD as int) by (nonlinear_arith)
            requires
                -0x8000_0000int <= a.last() <= 0x7FFF_FFFFint,
                -0x8000_0000int <= b.last() <= 0x7FFF_FFFFint,
                p == a.last() * b.last(),
                MAX_PROD == 0x4000_0000_0000_0000u128;
        assert(a.len() * (MAX_PROD as int)
            == (a.len() - 1) * (MAX_PROD as int) + MAX_PROD as int) by (nonlinear_arith);
    }
}

/// A vector's squared magnitude is non-negative.
pub proof fn lemma_norm2_nonneg(a: Seq<i32>)
    ensures
        0 <= norm2(a) <= a.len() * (MAX_PROD as int),
    decreases a.len(),
{
    if a.len() > 0 {
        lemma_norm2_nonneg(a.drop_last());
        let p = a.last() * a.last();
        assert(0 <= p <= MAX_PROD as int) by (nonlinear_arith)
            requires
                -0x8000_0000int <= a.last() <= 0x7FFF_FFFFint,
                p == a.last() * a.last(),
                MAX_PROD == 0x4000_0000_0000_0000u128;
        assert(a.len() * (MAX_PROD as int)
            == (a.len() - 1) * (MAX_PROD as int) + MAX_PROD as int) by (nonlinear_arith);
    }
}

/// The squared Euclidean distance is zero exactly when the vectors are equal.
pub proof fn lemma_l2_zero_iff_eq(a: Seq<i32>, b: Seq<i32>)
    requires
        a.len() == b.len(),
    ensures
        l2_dist(a, b) == 0 <==> a =~= b,
    decreases a.len(),
{
    if a.len() > 0 {
        lemma_l2_zero_iff_eq(a.drop_last(), b.drop_last());
        lemma_l2_bounds(a.drop_last(), b.drop_last());
        let d = a.last() - b.last();
        assert(d * d >= 0 && (d * d == 0 <==> d == 0)) by (nonlinear_arith);
        if l2_dist(a, b) == 0 {
            assert(a =~= a.drop_last().push(a.last()));
            assert(b =~= b.drop_last().push(b.last()));
        }
        if a =~= b {
            assert(a.drop_last() =~= b.drop_last());
        }
    }
}

/// Characterization of the integer square root.
pub proof fn lemma_isqrt(x: int)
    requires
        x >= 0,
    ensures
        isqrt_spec(x) >= 0,
        isqrt_spec(x) * isqrt_spec(x) <= x,
        x < (isqrt_spec(x) + 1) * (isqrt_spec(x) + 1),
    decreases x,
{
    if x >= 1 {
        lemma_isqrt(x - 1);
        let r = isqrt_spec(x - 1);
        if (r + 1) * (r + 1) <= x {
            assert((r + 2) * (r + 2) > (r + 1) * (r + 1)) by (nonlinear_arith)
                requires r >= 0;
        }
    }
}

/// Any `r` with `r * r <= x < (r + 1)^2` is the integer square root of `x`.
pub proof fn lemma_isqrt_unique(x: int, r: int)
    requires
        x >= 0,
        r >= 0,
        r * r <= x,
        x < (r + 1) * (r + 1),
    ensures
        r == isqrt_spec(x),
{
    lemma_isqrt(x);
    let s = isqrt_spec(x);
    if r < s {
        assert((r + 1) * (r + 1) <= s * s) by (nonlinear_arith)
            requires 0 <= r + 1 <= s;
    }
    if r > s {
        assert((s + 1) * (s + 1) <= r * r) by (nonlinear_arith)
            requires 0 <= s + 1 <= r;
    }
}

/// A vector's squared Euclidean distance to itself is zero.
pub proof fn lemma_l2_self(a: Seq<i32>)
    ensures
        l2_dist(a, a) == 0,
{
    lemma_l2_zero_iff_eq(a, a);
}

/// A vector of non-zero magnitude is at cosine distance zero from itself.
pub proof fn lemma_cosine_self(a: Seq<i32>)
    requires
        norm2(a) != 0,
    ensures
        cosine_dist(a, a) == 0,
{
    lemma_norm2_nonneg(a);
    let na = norm2(a);
    lemma_isqrt(na);
    let sa = isqrt_spec(na);
    assert(sa >= 1) by {
        if sa == 0 {
            assert((sa + 1) * (sa + 1) == 1) by (nonlinear_arith)
                requires sa == 0;
        }
    }
    let den = sa * sa;
    assert(sa * sa > 0) by (nonlinear_arith)
        requires sa >= 1;
    // the self dot product is the squared magnitude, at least `den`
    assert(dot(a, a) == na);
    let clamped = if na > den { den } else { na as int };
    assert(clamped == den);
    lemma_div_multiples_vanish(sa, sa);
    assert(den / sa == sa);
    lemma_mod_multiples_basic(sa, sa);
    assert(den % sa == 0);
    assert(cosine_ratio(clamped, sa, sa) == (sa * (COSINE_SCALE as int)) / sa + (0int * (
    COSINE_SCALE as int)) / den);
    lemma_div_multiples_vanish(COSINE_SCALE as int, sa);
    assert((sa * (COSINE_SCALE as int)) / sa == COSINE_SCALE as int);
    assert(cosine_ratio(clamped, sa, sa) == COSINE_SCALE as int);
}

/// Computes the squared Euclidean distance exactly.
pub fn l2_distance(a: &Vec<i32>, b: &Vec<i32>) -> (r: u128)
    requires
        a@.len() == b@.len(),
    ensures
        r == l2_dist(a@, b@),
{
    let n = a.len();
    let mut acc: u128 = 0;
    let mut i: usize = 0;
    while i < n
        invariant
            n == a@.len() == b@.len(),
            i <= n,
            acc == l2_dist(a@.take(i as int), b@.take(i as int)),
            acc <= (i as int) * (MAX_SQ_DIFF as int),
        decreases n - i,
    {
        let d: i64 = (a[i] as i64) - (b[i] as i64);
        proof {
            assert(0 <= (d as int) * (d as int) <= MAX_SQ_DIFF as int) by (nonlinear_arith)
                requires
                    -0xFFFF_FFFFint <= d <= 0xFFFF_FFFFint,
                    MAX_SQ_DIFF == 0xFFFF_FFFE_0000_0001u128;
        }
        let sq: i128 = (d as i128) * (d as i128);
        proof {
            assert((i as int + 1) * (MAX_SQ_DIFF as int)
                == (i as int) * (MAX_SQ_DIFF as int) + MAX_SQ_DIFF as int) by (nonlinear_arith);
            assert((i as int + 1) * (MAX_SQ_DIFF as int) < u128::MAX) by (nonlinear_arith)
                requires
                    0 <= i as int + 1 <= 0x1_0000_0000_0000_0000,
                    MAX_SQ_DIFF == 0xFFFF_FFFE_0000_0001u128;
            let ta = a@.take(i as int + 1);
            let tb = b@.take(i as int + 1);
            assert(ta.drop_last() =~= a@.take(i as int));
            assert(tb.drop_last() =~= b@.take(i as int));
            assert(ta.last() == a@[i as int] && tb.last() == b@[i as int]);
        }
        acc = acc + (sq as u128);
        i = i + 1;
    }
    proof {
        assert(a@.take(n as int) =~= a@);
        assert(b@.take(n as int) =~= b@);
    }
    acc
}

/// Computes the dot product exactly.
pub fn dot_product(a: &Vec<i32>, b: &Vec<i32>) -> (r: i128)
    requires
        a@.len() == b@.len(),
    ensures
        r == dot(a@, b@),
{
    let n = a.len();
    let mut acc: i128 = 0;
    let mut i: usize = 0;
    while i < n
        invariant
            n == a@.len() == b@.len(),
            i <= n,
            acc == dot(a@.take(i as int), b@.take(i as int)),
            -((i as int) * (MAX_PROD as int)) <= acc <= (i as int) * (MAX_PROD as int),
        decreases n - i,
    {
        proof {
            assert(-(MAX_PROD as int) <= (a@[i as int] as int) * (b@[i as int] as int)
                <= MAX_PROD as int) by (nonlinear_arith)
                requires
                    -0x8000_0000int <= a@[i as int] <= 0x7FFF_FFFFint,
                    -0x8000_0000int <= b@[i as int] <= 0x7FFF_FFFFint,
                    MAX_PROD == 0x4000_0000_0000_0000u128;
        }
        let p: i128 = (a[i] as i128) * (b[i] as i128);
        proof {
            assert((i as int + 1) * (MAX_PROD as int)
                == (i as int) * (MAX_PROD as int) + MAX_PROD as int) by (nonlinear_arith);
            assert((i as int + 1) * (MAX_PROD as int) < i128::MAX) by (nonlinear_arith)
                requires
                    0 <= i as int + 1 <= 0x1_0000_0000_0000_0000,
                    MAX_PROD == 0x4000_0000_0000_0000u128;
            let ta = a@.take(i as int + 1);
            let tb = b@.take(i as int + 1);
            assert(ta.drop_last() =~= a@.take(i as int));
            assert(tb.drop_last() =~= b@.take(i as int));
            assert(ta.last() == a@[i as int] && tb.last() == b@[i as int]);
        }
        acc = acc + p;
        i = i + 1;
    }
    proof {
        assert(a@.take(n as int) =~= a@);
        assert(b@.take(n as int) =~= b@);
    }
    acc
}

/// Computes the squared magnitude exactly.
pub fn norm_squared(a: &Vec<i32>) -> (r: u128)
    ensures
        r == norm2(a@),
{
    proof {
        lemma_norm2_nonneg(a@);
    }
    let d = dot_product(a, a);
    d as u128
}

/// Integer square root by binary search; exact for every `x` below `2^126`.
pub fn isqrt(x: u128) -> (r: u128)
    requires
        x < 0x4000_0000_0000_0000_0000_0000_0000_0000u128,
    ensures
        r == isqrt_spec(x as int),
{
    let mut lo: u128 = 0;
    let mut hi: u128 = 0x8000_0000_0000_0000;
    proof {
        assert((hi as int) * (hi as int) == 0x4000_0000_0000_0000_0000_0000_0000_0000int)
            by (nonlinear_arith)
            requires hi == 0x8000_0000_0000_0000u128;
    }
    while lo + 1 < hi
        invariant
            lo < hi <= 0x8000_0000_0000_0000u128,
            (lo as int) * (lo as int) <= x as int,
            (x as int) < (hi as int) * (hi as int),
        decreases hi - lo,
    {
        let mid: u128 = lo + (hi - lo) / 2;
        proof {
            assert((mid as int) * (mid as int) <= 0x4000_0000_0000_0000_0000_0000_0000_0000int)
                by (nonlinear_arith)
                requires 0 <= mid <= 0x8000_0000_0000_0000u128;
        }
        if mid * mid <= x {
            lo = mid;
        } else {
            hi = mid;
        }
    }
    proof {
        lemma_isqrt_unique(x as int, lo as int);
    }
    lo
}

/// Computes the fixed-point cosine distance exactly as specified.
pub fn cosine_distance(a: &Vec<i32>, b: &Vec<i32>) -> (r: u128)
    requires
        a@.len() == b@.len(),
    ensures
        r == cosine_dist(a@, b@),
{
    let n = a.len();
    let na = norm_squared(a);
    let nb = norm_squared(b);
    if na == 0 || nb == 0 {
        return 2 * COSINE_SCALE;
    }
    proof {
        lemma_norm2_nonneg(a@);
        lemma_norm2_nonneg(b@);
        assert((a@.len() as int) * (MAX_PROD as int)
            < 0x4000_0000_0000_0000_0000_0000_0000_0000int) by (nonlinear_arith)
            requires
                0 <= a@.len() as int <= 0xFFFF_FFFF_FFFF_FFFF,
                MAX_PROD == 0x4000_0000_0000_0000u128;
    }
    let sa = isqrt(na);
    let sb = isqrt(nb);
    proof {
        lemma_isqrt(na as int);
        lemma_isqrt(nb as int);
        assert(sa < 0x8000_0000_0000_0000u128 && sb < 0x8000_0000_0000_0000u128)
            by (nonlinear_arith)
            requires
                (sa as int) * (sa as int) <= na as int,
                (sb as int) * (sb as int) <= nb as int,
                na < 0x4000_0000_0000_0000_0000_0000_0000_0000u128,
                nb < 0x4000_0000_0000_0000_0000_0000_0000_0000u128,
                sa >= 0,
                sb >= 0;
        assert(sa >= 1 && sb >= 1) by {
            if sa == 0 {
                assert((sa as int + 1) * (sa as int + 1) == 1) by (nonlinear_arith)
                    requires sa == 0u128;
            }
            if sb == 0 {
                assert((sb as int + 1) * (sb as int + 1) == 1) by (nonlinear_arith)
                    requires sb == 0u128;
            }
        }
        assert((sa as int) * (sb as int) < 0x4000_0000_0000_0000_0000_0000_0000_0000int)
            by (nonlinear_arith)
            requires
                0 <= sa < 0x8000_0000_0000_0000u128,
                0 <= sb < 0x8000_0000_0000_0000u128;
    }
    let den: u128 = sa * sb;
    let d = dot_product(a, b);
    proof {
        lemma_dot_bounds(a@, b@);
        assert((a@.len() as int) * (MAX_PROD as int) < i128::MAX) by (nonlinear_arith)
            requires
                0 <= a@.len() as int <= 0x1_0000_0000_0000_0000,
                MAX_PROD == 0x4000_0000_0000_0000u128;
    }
    let neg = d < 0;
    let mag: u128 = if neg { (-d) as u128 } else { d as u128 };
    let clamped: u128 = if mag > den { den } else { mag };
    let q: u128 = clamped / sa;
    let rem: u128 = clamped % sa;
    proof {
        lemma_div_is_ordered(clamped as int, den as int, sa as int);
        lemma_div_multiples_vanish(sb as int, sa as int);
        assert(den as int / sa as int == sb as int);
        assert((q as int) * (COSINE_SCALE as int) <= 0x8000_0000_0000_0000_0000_0000int)
            by (nonlinear_arith)
            requires
                0 <= q <= 0x8000_0000_0000_0000u128,
                COSINE_SCALE == 1000000u128;
        lemma_mod_bound(clamped as int, sa as int);
        assert((rem as int) * (COSINE_SCALE as int) <= 0x8000_0000_0000_0000_0000_0000int)
            by (nonlinear_arith)
            requires
                0 <= rem <= 0x8000_0000_0000_0000u128,
                COSINE_SCALE == 1000000u128;
    }
    let ratio: u128 = (q * COSINE_SCALE) / sb + (rem * COSINE_SCALE) / den;
    let bounded: u128 = if ratio > COSINE_SCALE { COSINE_SCALE } else { ratio };
    if neg {
        COSINE_SCALE + bounded
    } else {
        COSINE_SCALE - bounded
    }
}

/// Computes the distance under `m` between two equal-length vectors.
pub fn distance(m: Metric, a: &Vec<i32>, b: &Vec<i32>) -> (r: u128)
    requires
        a@.len() == b@.len(),
    ensures
        r == dist_spec(m, a@, b@),
{
    match m {
        Metric::L2 => l2_distance(a, b),
        Metric::Cosine => cosine_distance(a, b),
    }
}

} // verus!
