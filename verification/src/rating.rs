//! Per-token ratings and the outlier-trimming policy.
//!
//! A rating expresses how strongly one token speaks for one author, as a
//! fixed-point value in `[MIN_RATING, MAX_RATING]`.  Before combination,
//! the rating list of a sentence is trimmed of its extremes.

use vstd::prelude::*;

use crate::{RATING_SCALE, MIN_RATING, MAX_RATING, spec_clamp_rating};

verus! {

/// The rating of a known token for one author, from the author's count
/// `c` of the token, the author's total `total_a`, the token's overall
/// count `cnt` and the model's grand total.  The raw value is
/// `this / (this + other)` for `this = c / total_a` and
/// `other = (cnt - c) / (grand - total_a)`, clamped into
/// `[MIN_RATING, MAX_RATING]`; a division hazard (an author trained on
/// nothing, or one holding every token) falls back to `MIN_RATING`, the
/// value the clamp yields as the raw quotient degenerates.
pub open spec fn spec_token_rating(c: int, total_a: int, cnt: int, grand: int) -> int {
    if total_a <= 0 || grand <= total_a {
        MIN_RATING as int
    } else {
        let num = c * (grand - total_a);
        let den = num + (cnt - c) * total_a;
        if den == 0 {
            MIN_RATING as int
        } else {
            spec_clamp_rating((num * RATING_SCALE) / den)
        }
    }
}

/// Every token rating lies in `[MIN_RATING, MAX_RATING]`.
pub proof fn lemma_token_rating_in_range(c: int, total_a: int, cnt: int, grand: int)
    ensures
        MIN_RATING <= spec_token_rating(c, total_a, cnt, grand) <= MAX_RATING,
{
}

/// Executable token rating.
pub fn token_rating(c: u32, total_a: u32, cnt: u64, grand: u32) -> (r: u64)
    requires
        c as int <= cnt as int,
        total_a <= grand,
        cnt <= u32::MAX,
    ensures
        r as int == spec_token_rating(c as int, total_a as int, cnt as int, grand as int),
        MIN_RATING <= r <= MAX_RATING,
{
    if total_a == 0 || grand <= total_a {
        MIN_RATING
    } else {
        proof {
            assert((c as int) * ((grand as int) - (total_a as int)) < 0x1_0000_0000_0000_0000)
                by (nonlinear_arith)
                requires
                    0 <= (c as int) && (c as int) < 0x1_0000_0000,
                    0 <= (grand as int) - (total_a as int),
                    (grand as int) - (total_a as int) < 0x1_0000_0000;
            assert(((cnt as int) - (c as int)) * (total_a as int) < 0x1_0000_0000_0000_0000)
                by (nonlinear_arith)
                requires
                    0 <= (cnt as int) - (c as int),
                    (cnt as int) - (c as int) < 0x1_0000_0000,
                    0 <= (total_a as int) && (total_a as int) < 0x1_0000_0000;
        }
        let num: u128 = (c as u128) * ((grand - total_a) as u128);
        let den: u128 = num + (cnt as u128 - c as u128) * (total_a as u128);
        if den == 0 {
            MIN_RATING
        } else {
            proof {
                let n = num as int;
                let d = den as int;
                let s = RATING_SCALE as int;
                assert(n * s <= u128::MAX) by (nonlinear_arith)
                    requires 0 <= n < 0x1_0000_0000_0000_0000, s == 1_000_000;
                assert(n <= d) by (nonlinear_arith)
                    requires
                        n == (c as int) * ((grand as int) - (total_a as int)),
                        d == n + ((cnt as int) - (c as int)) * (total_a as int),
                        c as int <= cnt as int,
                        total_a as int >= 0;
                assert((n * s) / d <= s) by (nonlinear_arith)
                    requires 0 <= n <= d, d > 0, s > 0;
            }
            let raw: u128 = (num * (RATING_SCALE as u128)) / den;
            let raw64: u64 = raw as u64;
            crate::clamp_rating(raw64)
        }
    }
}

/// An ascending rating list.
pub open spec fn sorted(s: Seq<u64>) -> bool {
    forall|i: int, j: int| 0 <= i <= j < s.len() ==> s[i] <= s[j]
}

/// Insertion into an ascending list, before the first element that is
/// not smaller.
pub open spec fn spec_insert_sorted(s: Seq<u64>, x: u64) -> Seq<u64>
    decreases s.len(),
{
    if s.len() == 0 {
        seq![x]
    } else if x <= s[0] {
        seq![x] + s
    } else {
        seq![s[0]] + spec_insert_sorted(s.drop_first(), x)
    }
}

/// Ascending insertion sort of a rating list.
pub open spec fn spec_sort(s: Seq<u64>) -> Seq<u64>
    decreases s.len(),
{
    if s.len() == 0 {
        Seq::empty()
    } else {
        spec_insert_sorted(spec_sort(s.drop_last()), s.last())
    }
}

proof fn lemma_insert_sorted_at(s: Seq<u64>, x: u64, p: int)
    requires
        sorted(s),
        0 <= p <= s.len(),
        forall|j: int| 0 <= j < p ==> s[j] < x,
        p < s.len() ==> x <= s[p],
    ensures
        spec_insert_sorted(s, x) == s.insert(p, x),
    decreases s.len(),
{
    if s.len() == 0 {
        assert(spec_insert_sorted(s, x) =~= s.insert(0, x));
    } else if x <= s[0] {
        assert(p == 0);
        assert(spec_insert_sorted(s, x) =~= s.insert(0, x));
    } else {
        assert(s[0] < x);
        assert(p >= 1);
        let t = s.drop_first();
        assert(forall|j: int| 0 <= j < p - 1 ==> #[trigger] t[j] == s[j + 1]);
        lemma_insert_sorted_at(t, x, p - 1);
        assert(spec_insert_sorted(s, x) =~= s.insert(p, x));
    }
}

/// Insert a rating into an ascending vector.
fn insert_sorted(v: &mut Vec<u64>, x: u64)
    requires
        sorted(old(v)@),
        old(v)@.len() < usize::MAX,
    ensures
        final(v)@ == spec_insert_sorted(old(v)@, x),
        sorted(final(v)@),
        final(v)@.len() == old(v)@.len() + 1,
        forall|k: int|
            0 <= k < final(v)@.len() ==> (final(v)@[k] == x || old(v)@.contains(#[trigger] final(v)@[k])),
{
    let mut p: usize = 0;
    while p < v.len() && v[p] < x
        invariant
            0 <= p <= v@.len(),
            forall|j: int| 0 <= j < p ==> v@[j] < x,
        decreases v@.len() - p,
    {
        p = p + 1;
    }
    proof {
        lemma_insert_sorted_at(v@, x, p as int);
        v@.insert_ensures(p as int, x);
    }
    let ghost s = v@;
    v.insert(p, x);
    proof {
        assert forall|k: int| 0 <= k < v@.len() implies (v@[k] == x || s.contains(#[trigger] v@[k])) by {
            if k < p {
                assert(v@[k] == s[k]);
            } else if k > p {
                assert(v@[k] == s[k - 1]);
            }
        }
        assert forall|i: int, j: int| 0 <= i <= j < v@.len() implies v@[i] <= v@[j] by {
            if i < p && j < p {
            } else if i == p || j == p {
                if i == p && j > p {
                    assert(v@[j] == s[j - 1]);
                    assert(x <= s[p as int]);
                    assert(s[p as int] <= s[j - 1]);
                }
            } else if i > p {
                assert(v@[i] == s[i - 1] && v@[j] == s[j - 1]);
            } else {
                assert(v@[i] == s[i as int]);
                if j > p {
                    assert(v@[j] == s[j - 1]);
                    if j - 1 < p {
                        assert(s[i as int] <= s[j - 1]);
                    } else {
                        assert(s[i as int] < x);
                        assert(p < s.len() ==> x <= s[p as int] <= s[j - 1]);
                    }
                }
            }
        }
    }
}

/// Ascending insertion sort, executable.
pub fn sort_ratings(v: &Vec<u64>) -> (r: Vec<u64>)
    ensures
        r@ == spec_sort(v@),
        sorted(r@),
        r@.len() == v@.len(),
        forall|k: int| 0 <= k < r@.len() ==> v@.contains(#[trigger] r@[k]),
{
    let mut out: Vec<u64> = Vec::new();
    let mut i: usize = 0;
    proof {
        assert(v@.take(0) =~= Seq::<u64>::empty());
    }
    while i < v.len()
        invariant
            0 <= i <= v@.len(),
            out@ == spec_sort(v@.take(i as int)),
            sorted(out@),
            out@.len() == i,
            forall|k: int| 0 <= k < out@.len() ==> v@.contains(#[trigger] out@[k]),
        decreases v@.len() - i,
    {
        let x = v[i];
        insert_sorted(&mut out, x);
        proof {
            let t = v@.take(i + 1);
            assert(t.drop_last() =~= v@.take(i as int));
            assert(t.last() == v@[i as int]);
            assert(v@.contains(v@[i as int]));
        }
        i = i + 1;
    }
    proof {
        assert(v@.take(v@.len() as int) =~= v@);
    }
    out
}

/// The trimming policy on a sentence's rating list: lists of more than
/// six ratings are sorted and lose their two lowest and two highest
/// entries; if more than eighty remain, only the forty lowest and forty
/// highest of the remainder are kept.  Short lists pass unchanged.
pub open spec fn spec_adjust(s: Seq<u64>) -> Seq<u64> {
    if s.len() > 6 {
        let t = spec_sort(s);
        let u = t.subrange(2, t.len() - 2);
        if u.len() > 80 {
            u.subrange(0, 40) + u.subrange(u.len() - 40, u.len() as int)
        } else {
            u
        }
    } else {
        s
    }
}

/// Copy of the index range `[a, b)` of a vector.
fn copy_range(v: &Vec<u64>, a: usize, b: usize) -> (r: Vec<u64>)
    requires
        a <= b <= v@.len(),
    ensures
        r@ == v@.subrange(a as int, b as int),
{
    let mut out: Vec<u64> = Vec::new();
    let mut i: usize = a;
    while i < b
        invariant
            a <= i <= b <= v@.len(),
            out@ == v@.subrange(a as int, i as int),
        decreases b - i,
    {
        let x = v[i];
        out.push(x);
        proof {
            assert(v@.subrange(a as int, i + 1) =~= v@.subrange(a as int, i as int).push(v@[i as int]));
        }
        i = i + 1;
    }
    out
}

/// Outlier trimming, executable.  A list of more than eighty-four
/// ratings comes back with exactly eighty: the forty lowest and forty
/// highest survivors of the first trim.
pub fn adjust_probabilities(probabilities: Vec<u64>) -> (r: Vec<u64>)
    ensures
        r@ == spec_adjust(probabilities@),
        r@.len() <= 80 || r@ == probabilities@,
        probabilities@.len() > 6 ==> r@.len() <= 80,
        probabilities@.len() > 84 ==> r@.len() == 80,
        forall|k: int| 0 <= k < r@.len() ==> probabilities@.contains(#[trigger] r@[k]),
{
    proof {
        assert(forall|k: int|
            0 <= k < probabilities@.len() ==> probabilities@.contains(#[trigger] probabilities@[k]));
    }
    if probabilities.len() > 6 {
        let t = sort_ratings(&probabilities);
        let u = copy_range(&t, 2, t.len() - 2);
        proof {
            assert(forall|k: int| 0 <= k < u@.len() ==> t@.contains(#[trigger] u@[k]));
        }
        if u.len() > 80 {
            let mut low = copy_range(&u, 0, 40);
            let mut high = copy_range(&u, u.len() - 40, u.len());
            proof {
                assert(forall|k: int| 0 <= k < low@.len() ==> u@.contains(#[trigger] low@[k]));
                assert(forall|k: int| 0 <= k < high@.len() ==> u@.contains(#[trigger] high@[k]));
            }
            low.append(&mut high);
            low
        } else {
            u
        }
    } else {
        probabilities
    }
}

} // verus!
