//! Fixed-point arithmetic for the score-combination formula.
//!
//! A probability-like quantity `v` in `[0, 1]` is stored as the integer
//! `v * RATING_SCALE`.  Products of many such quantities underflow a plain
//! fixed-point representation, so intermediate products keep a normalized
//! mantissa/exponent pair `(m, e)` standing for the real number
//! `(m / RATING_SCALE) * 2^(-e)` with `HALF_SCALE <= m < RATING_SCALE`.

use vstd::prelude::*;

use crate::{RATING_SCALE, MIN_RATING, MAX_RATING};

verus! {

/// Half of `RATING_SCALE`: the lower bound of a normalized mantissa.
pub const HALF_SCALE: u64 = 500_000;

/// A mantissa/exponent pair is normalized when the mantissa lies in
/// `[HALF_SCALE, RATING_SCALE)`.
pub open spec fn fp_norm(m: int) -> bool {
    HALF_SCALE <= m < RATING_SCALE
}

/// Value order on normalized pairs: `m1 * 2^(-e1) <= m2 * 2^(-e2)`.
/// A larger exponent means a strictly smaller value.
pub open spec fn fp_le(m1: int, e1: int, m2: int, e2: int) -> bool {
    e1 > e2 || (e1 == e2 && m1 <= m2)
}

/// Floored normalized product of two normalized pairs.
pub open spec fn spec_mul_fp(am: int, ae: int, bm: int, be: int) -> (int, int) {
    let m0 = (am * bm) / (RATING_SCALE as int);
    if m0 < HALF_SCALE {
        (2 * m0, ae + be + 1)
    } else {
        (m0, ae + be)
    }
}

/// Normalization of a plain fixed-point value in `[RATING_SCALE/8, RATING_SCALE)`.
pub open spec fn spec_norm_fp(v: int) -> (int, int) {
    if HALF_SCALE <= v {
        (v, 0)
    } else if HALF_SCALE <= 2 * v {
        (2 * v, 1)
    } else if HALF_SCALE <= 4 * v {
        (4 * v, 2)
    } else {
        (8 * v, 3)
    }
}

/// `n`-fold floored product of the normalized pair `(y, 0)` with itself.
pub open spec fn spec_pow_fp(y: int, n: nat) -> (int, int)
    decreases n,
{
    if n <= 1 {
        (y, 0)
    } else {
        let p = spec_pow_fp(y, (n - 1) as nat);
        spec_mul_fp(p.0, p.1, y, 0)
    }
}

proof fn lemma_mul_fp_norm(am: int, ae: int, bm: int, be: int)
    requires
        fp_norm(am),
        fp_norm(bm),
    ensures
        fp_norm(spec_mul_fp(am, ae, bm, be).0),
        spec_mul_fp(am, ae, bm, be).1 <= ae + be + 1,
        spec_mul_fp(am, ae, bm, be).1 >= ae + be,
{
    let s = RATING_SCALE as int;
    assert(am * bm >= HALF_SCALE * HALF_SCALE) by (nonlinear_arith)
        requires am >= HALF_SCALE, bm >= HALF_SCALE;
    assert(am * bm < s * s) by (nonlinear_arith)
        requires am < s, bm < s, am >= 0, bm >= 0;
    assert((am * bm) / s >= (HALF_SCALE * HALF_SCALE) / s) by (nonlinear_arith)
        requires am * bm >= HALF_SCALE * HALF_SCALE, s > 0;
    assert((am * bm) / s < s) by (nonlinear_arith)
        requires am * bm < s * s, s > 0;
    assert((HALF_SCALE * HALF_SCALE) / s == 250_000);
}

/// Floored normalized product, executable.
pub fn mul_fp(am: u64, ae: u32, bm: u64, be: u32) -> (r: (u64, u32))
    requires
        fp_norm(am as int),
        fp_norm(bm as int),
        ae + be + 1 <= u32::MAX,
    ensures
        (r.0 as int, r.1 as int) == spec_mul_fp(am as int, ae as int, bm as int, be as int),
        fp_norm(r.0 as int),
        ae + be <= r.1 <= ae + be + 1,
{
    proof {
        lemma_mul_fp_norm(am as int, ae as int, bm as int, be as int);
    }
    let m0 = (am * bm) / RATING_SCALE;
    if m0 < HALF_SCALE {
        (2 * m0, ae + be + 1)
    } else {
        (m0, ae + be)
    }
}

/// Normalize a plain fixed-point value, executable.
pub fn norm_fp(v: u64) -> (r: (u64, u32))
    requires
        125_000 <= v < RATING_SCALE,
    ensures
        (r.0 as int, r.1 as int) == spec_norm_fp(v as int),
        fp_norm(r.0 as int),
        r.1 <= 3,
{
    if v >= HALF_SCALE {
        (v, 0)
    } else if 2 * v >= HALF_SCALE {
        (2 * v, 1)
    } else if 4 * v >= HALF_SCALE {
        (4 * v, 2)
    } else {
        (8 * v, 3)
    }
}

/// `n`-fold product, executable.
pub fn pow_fp(y: u64, n: usize) -> (r: (u64, u32))
    requires
        fp_norm(y as int),
        1 <= n <= 400,
    ensures
        (r.0 as int, r.1 as int) == spec_pow_fp(y as int, n as nat),
        fp_norm(r.0 as int),
        r.1 < n,
{
    let mut acc: (u64, u32) = (y, 0);
    let mut i: usize = 1;
    while i < n
        invariant
            1 <= i <= n,
            n <= 400,
            fp_norm(y as int),
            (acc.0 as int, acc.1 as int) == spec_pow_fp(y as int, i as nat),
            fp_norm(acc.0 as int),
            acc.1 < i,
        decreases n - i,
    {
        acc = mul_fp(acc.0, acc.1, y, 0);
        i = i + 1;
    }
    acc
}

/// `2^k` as a mathematical integer.
pub open spec fn pow2int(k: nat) -> int
    decreases k,
{
    if k == 0 {
        1
    } else {
        2 * pow2int((k - 1) as nat)
    }
}

proof fn lemma_pow_fp_half(n: nat)
    requires
        n >= 1,
    ensures
        spec_pow_fp(HALF_SCALE as int, n) == (HALF_SCALE as int, n - 1),
    decreases n,
{
    if n > 1 {
        lemma_pow_fp_half((n - 1) as nat);
    }
}

/// The value the bisection for an `n`-th root computes on the bracket
/// `[lo, hi)`: the returned mantissa `y` satisfies
/// `pow(y, n) <= (tm, te) < pow(y + 1, n)` whenever the bracket does.
pub open spec fn spec_root_bs(lo: int, hi: int, tm: int, te: int, n: nat) -> int
    decreases hi - lo,
{
    if hi - lo <= 1 {
        lo
    } else {
        let mid = lo + (hi - lo) / 2;
        let p = spec_pow_fp(mid, n);
        if fp_le(p.0, p.1, tm, te) {
            spec_root_bs(mid, hi, tm, te, n)
        } else {
            spec_root_bs(lo, mid, tm, te, n)
        }
    }
}

/// Mantissa of the `n`-th root of a normalized pair whose exponent is
/// already reduced below `n`; the root of such a value lies in `[1/2, 1)`.
fn root_unit(tm: u64, te: u32, n: usize) -> (y: u64)
    requires
        fp_norm(tm as int),
        (te as nat) < n,
        1 <= n <= 400,
    ensures
        y as int == spec_root_bs(HALF_SCALE as int, RATING_SCALE as int, tm as int, te as int, n as nat),
        HALF_SCALE <= y < RATING_SCALE,
        fp_le(spec_pow_fp(y as int, n as nat).0, spec_pow_fp(y as int, n as nat).1, tm as int, te as int),
        y + 1 < RATING_SCALE ==> !fp_le(
            spec_pow_fp(y as int + 1, n as nat).0,
            spec_pow_fp(y as int + 1, n as nat).1,
            tm as int,
            te as int,
        ),
{
    let ghost root = spec_root_bs(HALF_SCALE as int, RATING_SCALE as int, tm as int, te as int, n as nat);
    let mut lo: u64 = HALF_SCALE;
    let mut hi: u64 = RATING_SCALE;
    proof {
        lemma_pow_fp_half(n as nat);
        assert(fp_le(HALF_SCALE as int, n - 1, tm as int, te as int));
    }
    while hi - lo > 1
        invariant
            HALF_SCALE <= lo < hi <= RATING_SCALE,
            fp_norm(tm as int),
            (te as nat) < n,
            1 <= n <= 400,
            spec_root_bs(lo as int, hi as int, tm as int, te as int, n as nat) == root,
            fp_le(spec_pow_fp(lo as int, n as nat).0, spec_pow_fp(lo as int, n as nat).1, tm as int, te as int),
            hi < RATING_SCALE ==> !fp_le(
                spec_pow_fp(hi as int, n as nat).0,
                spec_pow_fp(hi as int, n as nat).1,
                tm as int,
                te as int,
            ),
        decreases hi - lo,
    {
        let mid = lo + (hi - lo) / 2;
        let p = pow_fp(mid, n);
        if p.1 > te || (p.1 == te && p.0 <= tm) {
            lo = mid;
        } else {
            hi = mid;
        }
    }
    lo
}

/// Floor of `y / 2^q` for a small shift.
fn shift_down(y: u64, q: u32) -> (r: u64)
    requires
        q <= 4,
    ensures
        r as int == (y as int) / pow2int(q as nat),
{
    proof {
        reveal_with_fuel(pow2int, 5);
    }
    if q == 0 {
        y
    } else if q == 1 {
        y / 2
    } else if q == 2 {
        y / 4
    } else if q == 3 {
        y / 8
    } else {
        y / 16
    }
}

/// The fixed-point `n`-th root of a normalized pair, as a plain
/// fixed-point value in `[0, RATING_SCALE)`.
pub open spec fn spec_nth_root_fp(m: int, e: int, n: nat) -> int {
    let q = e / (n as int);
    let r = e % (n as int);
    spec_root_bs(HALF_SCALE as int, RATING_SCALE as int, m, r, n) / pow2int(q as nat)
}

/// Executable `n`-th root.
pub fn nth_root_fp(m: u64, e: u32, n: usize) -> (g: u64)
    requires
        fp_norm(m as int),
        1 <= n <= 400,
        e <= 4 * n,
    ensures
        g as int == spec_nth_root_fp(m as int, e as int, n as nat),
        g < RATING_SCALE,
{
    let q = e / (n as u32);
    let r = e % (n as u32);
    proof {
        assert((e as int) / (n as int) <= 4) by (nonlinear_arith)
            requires e as int <= 4 * (n as int), n >= 1;
        reveal_with_fuel(pow2int, 5);
    }
    let y = root_unit(m, r, n);
    proof {
        assert((y as int) / pow2int(q as nat) <= y as int) by (nonlinear_arith)
            requires y >= 0, pow2int(q as nat) >= 1;
    }
    shift_down(y, q)
}

/// One factor of a sentence product: the rating itself, or its
/// complement `1 - r` when `comp` is set.
pub open spec fn rating_factor(r: u64, comp: bool) -> int {
    if comp {
        RATING_SCALE - r
    } else {
        r as int
    }
}

/// Normalized floored product of the factors of a rating list.
pub open spec fn spec_prod_fp(rs: Seq<u64>, comp: bool) -> (int, int)
    decreases rs.len(),
{
    if rs.len() <= 1 {
        spec_norm_fp(rating_factor(rs[0], comp))
    } else {
        let p = spec_prod_fp(rs.drop_last(), comp);
        let f = spec_norm_fp(rating_factor(rs.last(), comp));
        spec_mul_fp(p.0, p.1, f.0, f.1)
    }
}

/// Executable product of the factors of a rating list.
fn prod_fp(rs: &Vec<u64>, comp: bool) -> (r: (u64, u32))
    requires
        1 <= rs@.len() <= 400,
        forall|i: int| 0 <= i < rs@.len() ==> MIN_RATING <= #[trigger] rs@[i] <= MAX_RATING,
    ensures
        (r.0 as int, r.1 as int) == spec_prod_fp(rs@, comp),
        fp_norm(r.0 as int),
        r.1 <= 4 * rs@.len(),
{
    let first = if comp { RATING_SCALE - rs[0] } else { rs[0] };
    let mut acc = norm_fp(first);
    let mut i: usize = 1;
    proof {
        assert(rs@.take(1).len() == 1);
        assert(rs@.take(1)[0] == rs@[0]);
    }
    while i < rs.len()
        invariant
            1 <= i <= rs@.len() <= 400,
            forall|j: int| 0 <= j < rs@.len() ==> MIN_RATING <= #[trigger] rs@[j] <= MAX_RATING,
            (acc.0 as int, acc.1 as int) == spec_prod_fp(rs@.take(i as int), comp),
            fp_norm(acc.0 as int),
            acc.1 <= 4 * i,
        decreases rs@.len() - i,
    {
        let f = if comp { RATING_SCALE - rs[i] } else { rs[i] };
        let nf = norm_fp(f);
        let next = mul_fp(acc.0, acc.1, nf.0, nf.1);
        proof {
            let t = rs@.take(i + 1);
            assert(t.drop_last() =~= rs@.take(i as int));
            assert(t.last() == rs@[i as int]);
        }
        acc = next;
        i = i + 1;
    }
    proof {
        assert(rs@.take(rs@.len() as int) =~= rs@);
    }
    acc
}

/// The combined per-sentence score of a non-empty rating list, following
/// the geometric-mean transform: with `g1` the `n`-th root of the product
/// of the complements and `g2` the `n`-th root of the product of the
/// ratings, the score is `p / (p + q)` for `p = 1 - g1` and `q = 1 - g2`,
/// scaled by `RATING_SCALE`.
pub open spec fn spec_combine(rs: Seq<u64>) -> int {
    let s = RATING_SCALE as int;
    let pc = spec_prod_fp(rs, true);
    let pr = spec_prod_fp(rs, false);
    let g1 = spec_nth_root_fp(pc.0, pc.1, rs.len());
    let g2 = spec_nth_root_fp(pr.0, pr.1, rs.len());
    let p = s - g1;
    let q = s - g2;
    (s * p) / (p + q)
}

/// Executable score combination.  The result always lies in
/// `[0, RATING_SCALE]`, the fixed-point image of `[0, 1]`.
pub fn combine(rs: &Vec<u64>) -> (score: u64)
    requires
        1 <= rs@.len() <= 400,
        forall|i: int| 0 <= i < rs@.len() ==> MIN_RATING <= #[trigger] rs@[i] <= MAX_RATING,
    ensures
        score as int == spec_combine(rs@),
        score <= RATING_SCALE,
{
    let n = rs.len();
    let pc = prod_fp(rs, true);
    let pr = prod_fp(rs, false);
    let g1 = nth_root_fp(pc.0, pc.1, n);
    let g2 = nth_root_fp(pr.0, pr.1, n);
    let p = RATING_SCALE - g1;
    let q = RATING_SCALE - g2;
    let score = (RATING_SCALE * p) / (p + q);
    proof {
        let s = RATING_SCALE as int;
        assert(s * (p as int) <= s * ((p + q) as int)) by (nonlinear_arith)
            requires p >= 1, q >= 1, s >= 0;
        assert((s * (p as int)) / ((p + q) as int) <= (s * ((p + q) as int)) / ((p + q) as int))
            by (nonlinear_arith)
            requires s * (p as int) <= s * ((p + q) as int), (p + q) as int >= 1;
        assert((s * ((p + q) as int)) / ((p + q) as int) == s) by (nonlinear_arith)
            requires (p + q) as int >= 1;
    }
    score
}

} // verus!
