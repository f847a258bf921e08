//! Scalar accumulators are exact: merging them loses nothing.

use vstd::prelude::*;

use crate::arith::Arith;
use crate::exact::Exact;
use crate::welford::Moments;

verus! {

/// A sum of real numbers.
pub open spec fn total(xs: Seq<real>) -> real
    decreases xs.len(),
{
    if xs.len() == 0 {
        0real
    } else {
        total(xs.drop_last()) + xs.last()
    }
}

/// The squares of the distances of real numbers to `c`, added up.
pub open spec fn squares_about(xs: Seq<real>, c: real) -> real
    decreases xs.len(),
{
    if xs.len() == 0 {
        0real
    } else {
        squares_about(xs.drop_last(), c) + (xs.last() - c) * (xs.last() - c)
    }
}

/// Whether `m` is the least of the numbers.
pub open spec fn is_least(xs: Seq<real>, m: real) -> bool {
    xs.contains(m) && forall|i: int| 0 <= i < xs.len() ==> m <= #[trigger] xs[i]
}

/// Whether `m` is the greatest of the numbers.
pub open spec fn is_greatest(xs: Seq<real>, m: real) -> bool {
    xs.contains(m) && forall|i: int| 0 <= i < xs.len() ==> #[trigger] xs[i] <= m
}

/// The accumulator that the samples were pushed to, one after the other.
pub open spec fn pushed(xs: Seq<real>) -> Moments<Exact>
    decreases xs.len(),
{
    if xs.len() == 0 {
        Moments::none()
    } else {
        pushed(xs.drop_last()).with(Exact::Finite(xs.last()))
    }
}

/// Whether an accumulator holds the statistics of the samples: their number, their
/// mean, the sum of their squared deviations from it, the least and the greatest.
pub open spec fn describes(m: Moments<Exact>, xs: Seq<real>) -> bool {
    let mean = total(xs) / (xs.len() as real);
    &&& m.n == xs.len()
    &&& m.mean == Exact::Finite(mean)
    &&& m.m2 == Exact::Finite(squares_about(xs, mean))
    &&& m.min matches Exact::Finite(least) && is_least(xs, least)
    &&& m.max matches Exact::Finite(greatest) && is_greatest(xs, greatest)
}

/// The accumulator whose samples have this number, sum and sum of squares, as far as
/// its first three entries go.
spec fn has_sums(m: Moments<Exact>, n: nat, s: real, q: real) -> bool {
    let k = n as real;
    &&& m.n == n
    &&& m.mean == Exact::Finite(s / k)
    &&& m.m2 == Exact::Finite(q - s * s / k)
}

proof fn lemma_with_sums(k: real, s: real, q: real, x: real)
    requires
        k > 0real,
    ensures
        ({
            let m = s / k;
            let d = x - m;
            let m1 = m + d / (k + 1real);
            &&& m1 == (s + x) / (k + 1real)
            &&& (q - s * s / k) + d * (x - m1) == (q + x * x) - (s + x) * (s + x) / (k + 1real)
        }),
{
    let m = s / k;
    let d = x - m;
    let h = k + 1real;
    let m1 = m + d / h;
    assert(k * m == s) by (nonlinear_arith)
        requires
            m == s / k,
            k > 0real,
    ;
    assert(h * m1 == s + x) by (nonlinear_arith)
        requires
            h == k + 1real,
            h > 0real,
            k * m == s,
            d == x - m,
            m1 == m + d / h,
    ;
    assert(m1 == (s + x) / h) by (nonlinear_arith)
        requires
            h * m1 == s + x,
            h > 0real,
    ;
    assert(s * s / k == s * m) by (nonlinear_arith)
        requires
            m == s / k,
            k > 0real,
    ;
    assert((s + x) * (s + x) / h == (s + x) * m1) by (nonlinear_arith)
        requires
            m1 == (s + x) / h,
            h > 0real,
    ;
    assert(d * (x - m1) == x * x - x * m1 - m * x + m * m1) by (nonlinear_arith)
        requires
            d == x - m,
    ;
    assert((s + x) * m1 == s * m1 + x * m1) by (nonlinear_arith);
    assert(m * m1 + s * m1 == s * m + m * x) by (nonlinear_arith)
        requires
            h * m1 == s + x,
            h == k + 1real,
            k * m == s,
    ;
}

proof fn lemma_first_sums(x: real)
    ensures
        ({
            let m1 = 0real + (x - 0real) / 1real;
            &&& m1 == (0real + x) / 1real
            &&& 0real + (x - 0real) * (x - m1) == (0real + x * x) - (0real + x) * (0real + x)
                / 1real
        }),
{
    let m1 = 0real + (x - 0real) / 1real;
    assert(m1 == x);
    assert((x - 0real) * (x - m1) == 0real) by (nonlinear_arith)
        requires
            m1 == x,
    ;
    assert((0real + x) * (0real + x) / 1real == x * x) by (nonlinear_arith);
}

proof fn lemma_pushed_sums(xs: Seq<real>)
    ensures
        pushed(xs).n == xs.len(),
        xs.len() > 0 ==> has_sums(pushed(xs), xs.len(), total(xs), squares_about(xs, 0real)),
    decreases xs.len(),
{
    if xs.len() > 0 {
        let before = xs.drop_last();
        lemma_pushed_sums(before);
        let x = xs.last();
        let m = pushed(before);
        let (s, q) = (total(before), squares_about(before, 0real));
        assert((x - 0real) * (x - 0real) == x * x);
        if before.len() == 0 {
            lemma_first_sums(x);
        } else {
            let k = before.len() as real;
            lemma_with_sums(k, s, q, x);
            assert((m.n + 1) as real == k + 1real);
        }
    }
}

proof fn lemma_squares_about(xs: Seq<real>, c: real)
    ensures
        squares_about(xs, c) == squares_about(xs, 0real) - 2real * c * total(xs) + (
        xs.len() as real) * c * c,
    decreases xs.len(),
{
    if xs.len() > 0 {
        let before = xs.drop_last();
        lemma_squares_about(before, c);
        let x = xs.last();
        let (s, k) = (total(before), before.len() as real);
        assert(xs.len() as real == k + 1real);
        assert((x - c) * (x - c) == x * x - 2real * c * x + c * c) by (nonlinear_arith);
        assert((x - 0real) * (x - 0real) == x * x);
        assert(2real * c * (s + x) == 2real * c * s + 2real * c * x) by (nonlinear_arith);
        assert((k + 1real) * c * c == k * c * c + c * c) by (nonlinear_arith);
    } else {
        assert(0real * c * c == 0real) by (nonlinear_arith);
        assert(2real * c * 0real == 0real) by (nonlinear_arith);
    }
}

proof fn lemma_squares_about_mean(xs: Seq<real>)
    requires
        xs.len() > 0,
    ensures
        squares_about(xs, total(xs) / (xs.len() as real)) == squares_about(xs, 0real) - total(xs)
            * total(xs) / (xs.len() as real),
{
    let (s, k) = (total(xs), xs.len() as real);
    let c = s / k;
    lemma_squares_about(xs, c);
    assert(2real * c * s == 2real * (s * s / k)) by (nonlinear_arith)
        requires
            c == s / k,
            k > 0real,
    ;
    assert(k * c * c == s * s / k) by (nonlinear_arith)
        requires
            c == s / k,
            k > 0real,
    ;
}

proof fn lemma_total_concat(xs: Seq<real>, ys: Seq<real>)
    ensures
        total(xs + ys) == total(xs) + total(ys),
        squares_about(xs + ys, 0real) == squares_about(xs, 0real) + squares_about(ys, 0real),
    decreases ys.len(),
{
    if ys.len() == 0 {
        assert(xs + ys =~= xs);
    } else {
        lemma_total_concat(xs, ys.drop_last());
        assert((xs + ys).drop_last() =~= xs + ys.drop_last());
    }
}

proof fn lemma_pushed_extremes(xs: Seq<real>)
    requires
        xs.len() > 0,
    ensures
        pushed(xs).min matches Exact::Finite(m) && is_least(xs, m),
        pushed(xs).max matches Exact::Finite(m) && is_greatest(xs, m),
    decreases xs.len(),
{
    let before = xs.drop_last();
    let last = xs.len() - 1;
    assert(xs.contains(xs[last]));
    if before.len() > 0 {
        lemma_pushed_extremes(before);
        let (a, b) = (pushed(before).min->Finite_0, pushed(before).max->Finite_0);
        let i = choose|i: int| 0 <= i < before.len() && before[i] == a;
        let j = choose|j: int| 0 <= j < before.len() && before[j] == b;
        assert(xs[i] == a);
        assert(xs[j] == b);
        assert forall|t: int| 0 <= t < xs.len() implies pushed(xs).min->Finite_0
            <= #[trigger] xs[t] && xs[t] <= pushed(xs).max->Finite_0 by {
            if t < last {
                assert(xs[t] == before[t]);
            }
        }
    }
}

/// Pushing samples one after the other gives their statistics: mean, sum of squared
/// deviations, least and greatest.
pub proof fn law_push_describes(xs: Seq<real>)
    requires
        xs.len() > 0,
    ensures
        describes(pushed(xs), xs),
{
    lemma_pushed_sums(xs);
    lemma_squares_about_mean(xs);
    lemma_pushed_extremes(xs);
}

/// An accumulator reports the statistics of the samples that were pushed to it: the mean,
/// the mean squared deviation from it, the least and the greatest.
pub proof fn law_statistics_are_of_the_samples(xs: Seq<real>)
    requires
        xs.len() > 0,
    ensures
        ({
            let k = xs.len() as real;
            let m = pushed(xs);
            &&& m.n == xs.len()
            &&& m.mean_of() == Some(Exact::Finite(total(xs) / k))
            &&& m.variance_of() == Some(Exact::Finite(squares_about(xs, total(xs) / k) / k))
            &&& m.min_of() matches Some(Exact::Finite(least)) && is_least(xs, least)
            &&& m.max_of() matches Some(Exact::Finite(greatest)) && is_greatest(xs, greatest)
        }),
{
    law_push_describes(xs);
}

pub(crate) proof fn lemma_distribute(a: real, b: real, c: real)
    ensures
        a * (b + c) == a * b + a * c,
        (b + c) * a == a * b + a * c,
{
    assert(a * (b + c) == a * b + a * c) by (nonlinear_arith);
    assert((b + c) * a == a * (b + c)) by (nonlinear_arith);
}

proof fn lemma_shift(a: real, b: real, c: real)
    ensures
        a * (b * c) == b * (a * c),
        a * (b * c) == (a * b) * c,
{
    assert(a * (b * c) == b * (a * c)) by (nonlinear_arith);
    assert(a * (b * c) == (a * b) * c) by (nonlinear_arith);
}

pub(crate) proof fn lemma_times_quotient(s: real, k: real)
    requires
        k > 0real,
    ensures
        k * (s / k) == s,
{
    assert(k * (s / k) == s) by (nonlinear_arith)
        requires
            k > 0real,
    ;
}

proof fn lemma_quotient(k: real, m: real, s: real)
    requires
        k > 0real,
        k * m == s,
    ensures
        m == s / k,
{
    let q = s / k;
    lemma_times_quotient(s, k);
    lemma_cancel(k, m, q);
}

pub(crate) proof fn lemma_cancel(k: real, a: real, b: real)
    requires
        k > 0real,
        k * a == k * b,
    ensures
        a == b,
{
    let d = a - b;
    assert(k * d == 0real) by {
        lemma_distribute(k, d, b);
    }
    assert(d == 0real) by (nonlinear_arith)
        requires
            k > 0real,
            k * d == 0real,
    ;
}

/// The square of a sum over a number is the sum times its mean.
proof fn lemma_square_quotient(s: real, k: real)
    requires
        k > 0real,
    ensures
        s * s / k == s * (s / k),
{
    let m = s / k;
    lemma_times_quotient(s, k);
    lemma_shift(k, s, m);
    lemma_quotient(k, s * m, s * s);
}

/// What two groups of `ka` and `kb` spread about their common mean is what they
/// spread about their own, and what their means do.
proof fn lemma_parallel_axis(ka: real, x: real, kb: real, y: real)
    ensures
        ({
            let (sa, sb, d) = (ka * x, kb * y, y - x);
            (ka + kb) * (sa * x) + (ka + kb) * (sb * y) == d * d * ka * kb + (sa + sb) * (sa
                + sb)
        }),
{
    let (sa, sb, d, p) = (ka * x, kb * y, y - x, ka * kb);
    assert((ka + kb) * (sa * x) == sa * sa + p * (x * x)) by {
        lemma_distribute(sa * x, ka, kb);
        lemma_shift(ka, sa, x);
        assert(kb * ((ka * x) * x) == (ka * kb) * (x * x)) by (nonlinear_arith);
        assert((sa * x) * ka == ka * (sa * x)) by (nonlinear_arith);
        assert((sa * x) * kb == kb * (sa * x)) by (nonlinear_arith);
    }
    assert((ka + kb) * (sb * y) == p * (y * y) + sb * sb) by {
        lemma_distribute(sb * y, ka, kb);
        lemma_shift(kb, sb, y);
        assert(ka * ((kb * y) * y) == (ka * kb) * (y * y)) by (nonlinear_arith);
        assert((sb * y) * ka == ka * (sb * y)) by (nonlinear_arith);
        assert((sb * y) * kb == kb * (sb * y)) by (nonlinear_arith);
    }
    assert(d * d * ka * kb == p * (y * y) - 2real * (p * (x * y)) + p * (x * x)) by {
        assert((y - x) * (y - x) == y * y - 2real * (x * y) + x * x) by (nonlinear_arith);
        let dd = d * d;
        assert(dd * ka * kb == (ka * kb) * dd) by (nonlinear_arith);
        let (yy, xy, xx) = (y * y, x * y, x * x);
        assert(p * (yy - 2real * xy + xx) == p * yy - 2real * (p * xy) + p * xx)
            by (nonlinear_arith);
    }
    assert(sa * sb == p * (x * y)) by {
        assert((ka * x) * (kb * y) == (ka * kb) * (x * y)) by (nonlinear_arith);
    }
    assert((sa + sb) * (sa + sb) == sa * sa + 2real * (sa * sb) + sb * sb) by (nonlinear_arith);
}

proof fn lemma_joined_sums(ka: real, sa: real, qa: real, kb: real, sb: real, qb: real)
    requires
        ka > 0real,
        kb > 0real,
    ensures
        ({
            let (ma, mb) = (sa / ka, sb / kb);
            let d = mb - ma;
            let k = ka + kb;
            &&& ma + d * kb / k == (sa + sb) / k
            &&& (qa - sa * sa / ka) + ((qb - sb * sb / kb) + d * d * ka * kb / k) == (qa + qb) - (
            sa + sb) * (sa + sb) / k
        }),
{
    let (ma, mb) = (sa / ka, sb / kb);
    let d = mb - ma;
    let k = ka + kb;
    lemma_times_quotient(sa, ka);
    lemma_times_quotient(sb, kb);
    let t = d * kb / k;
    lemma_times_quotient(d * kb, k);
    let m = ma + t;
    assert(k * m == sa + sb) by {
        lemma_distribute(k, ma, t);
        lemma_distribute(ma, ka, kb);
        lemma_distribute(kb, d, ma);
    }
    lemma_quotient(k, m, sa + sb);
    lemma_square_quotient(sa, ka);
    lemma_square_quotient(sb, kb);
    lemma_square_quotient(sa + sb, k);
    let w = d * d * ka * kb / k;
    lemma_times_quotient(d * d * ka * kb, k);
    let (u, v, z) = (sa * ma, sb * mb, (sa + sb) * m);
    lemma_parallel_axis(ka, ma, kb, mb);
    assert(k * z == (sa + sb) * (sa + sb)) by {
        lemma_shift(k, sa + sb, m);
    }
    lemma_distribute(k, u, v);
    lemma_distribute(k, w, z);
    lemma_cancel(k, u + v, w + z);
}

/// Merging two accumulators gives what pushing the samples of both in one pass gives.
pub proof fn law_merge_matches_single_pass(xs: Seq<real>, ys: Seq<real>)
    ensures
        pushed(xs).joined(pushed(ys)) == pushed(xs + ys),
{
    lemma_pushed_sums(xs);
    lemma_pushed_sums(ys);
    lemma_pushed_sums(xs + ys);
    if ys.len() == 0 {
        assert(xs + ys =~= xs);
    } else if xs.len() == 0 {
        assert(xs + ys =~= ys);
    } else {
        lemma_total_concat(xs, ys);
        let (ka, kb) = (xs.len() as real, ys.len() as real);
        lemma_joined_sums(
            ka,
            total(xs),
            squares_about(xs, 0real),
            kb,
            total(ys),
            squares_about(ys, 0real),
        );
        assert((xs + ys).len() as real == ka + kb);
        lemma_pushed_extremes(xs);
        lemma_pushed_extremes(ys);
        lemma_pushed_extremes(xs + ys);
        let j = pushed(xs).joined(pushed(ys));
        let (a, b) = (j.min->Finite_0, j.max->Finite_0);
        lemma_extremes_concat(xs, ys, a, b);
        lemma_least_unique(xs + ys, a, pushed(xs + ys).min->Finite_0);
        lemma_greatest_unique(xs + ys, b, pushed(xs + ys).max->Finite_0);
        assert(j =~= pushed(xs + ys));
    }
}

proof fn lemma_extremes_concat(xs: Seq<real>, ys: Seq<real>, a: real, b: real)
    requires
        exists|c: real, d: real|
            is_least(xs, c) && is_least(ys, d) && a == (if d < c {
                d
            } else {
                c
            }),
        exists|c: real, d: real|
            is_greatest(xs, c) && is_greatest(ys, d) && b == (if c < d {
                d
            } else {
                c
            }),
    ensures
        is_least(xs + ys, a),
        is_greatest(xs + ys, b),
{
    let all = xs + ys;
    assert forall|x: real| xs.contains(x) || ys.contains(x) implies #[trigger] all.contains(x) by {
        if xs.contains(x) {
            let i = choose|i: int| 0 <= i < xs.len() && xs[i] == x;
            assert(all[i] == x);
        } else {
            let i = choose|i: int| 0 <= i < ys.len() && ys[i] == x;
            assert(all[xs.len() + i] == x);
        }
    }
    assert forall|t: int| 0 <= t < all.len() implies a <= #[trigger] all[t] && all[t] <= b by {
        if t < xs.len() {
            assert(all[t] == xs[t]);
        } else {
            assert(all[t] == ys[t - xs.len()]);
        }
    }
}

proof fn lemma_least_unique(xs: Seq<real>, a: real, b: real)
    requires
        is_least(xs, a),
        is_least(xs, b),
    ensures
        a == b,
{
    let i = choose|i: int| 0 <= i < xs.len() && xs[i] == a;
    let j = choose|j: int| 0 <= j < xs.len() && xs[j] == b;
    assert(a <= xs[j] && b <= xs[i]);
}

proof fn lemma_greatest_unique(xs: Seq<real>, a: real, b: real)
    requires
        is_greatest(xs, a),
        is_greatest(xs, b),
    ensures
        a == b,
{
    let i = choose|i: int| 0 <= i < xs.len() && xs[i] == a;
    let j = choose|j: int| 0 <= j < xs.len() && xs[j] == b;
    assert(xs[j] <= a && xs[i] <= b);
}

/// Merging is associative: however the samples are grouped up a ladder, the result
/// is the same.
pub proof fn law_merge_is_associative(xs: Seq<real>, ys: Seq<real>, zs: Seq<real>)
    ensures
        pushed(xs).joined(pushed(ys)).joined(pushed(zs)) == pushed(xs).joined(
            pushed(ys).joined(pushed(zs)),
        ),
{
    law_merge_matches_single_pass(xs, ys);
    law_merge_matches_single_pass(xs + ys, zs);
    law_merge_matches_single_pass(ys, zs);
    law_merge_matches_single_pass(xs, ys + zs);
    assert((xs + ys) + zs =~= xs + (ys + zs));
}

/// The accumulator that the samples were pushed to, in whatever arithmetic.
pub open spec fn accumulated<F: Arith>(xs: Seq<F>) -> Moments<F>
    decreases xs.len(),
{
    if xs.len() == 0 {
        Moments::none()
    } else {
        accumulated(xs.drop_last()).with(xs.last())
    }
}

/// Whether the numbers that are `good` can be ranked: being less carries over, and so
/// does not being less; and all of them lie between the two ends.
pub open spec fn ranks<F: Arith>(good: spec_fn(F) -> bool) -> bool {
    &&& forall|a: F, b: F, c: F|
        good(a) && good(b) && good(c) && #[trigger] a.lt(b) && #[trigger] b.lt(c) ==> a.lt(c)
    &&& forall|a: F, b: F, c: F|
        good(a) && good(b) && good(c) && !#[trigger] a.lt(b) && !#[trigger] b.lt(c) ==> !a.lt(c)
    &&& forall|a: F| #[trigger] good(a) ==> a.lt(F::top()) && F::bottom().lt(a)
}

spec fn lesser<F: Arith>(a: F, b: F) -> F {
    if b.lt(a) {
        b
    } else {
        a
    }
}

spec fn greater<F: Arith>(a: F, b: F) -> F {
    if a.lt(b) {
        b
    } else {
        a
    }
}

proof fn lemma_accumulated_extremes<F: Arith>(
    xs: Seq<F>,
    ys: Seq<F>,
    good: spec_fn(F) -> bool,
)
    requires
        ranks(good),
        xs.len() > 0,
        ys.len() > 0,
        forall|i: int| 0 <= i < xs.len() ==> good(#[trigger] xs[i]),
        forall|i: int| 0 <= i < ys.len() ==> good(#[trigger] ys[i]),
    ensures
        accumulated(xs + ys).min == lesser(accumulated(xs).min, accumulated(ys).min),
        accumulated(xs + ys).max == greater(accumulated(xs).max, accumulated(ys).max),
    decreases ys.len(),
{
    let before = ys.drop_last();
    let y = ys[ys.len() - 1];
    assert(good(y));
    assert((xs + ys).drop_last() =~= xs + before);
    lemma_accumulated_good(xs, good);
    if before.len() == 0 {
        assert(xs + before =~= xs);
        assert(accumulated(before) == Moments::<F>::none());
    } else {
        assert forall|i: int| 0 <= i < before.len() implies good(#[trigger] before[i]) by {
            assert(before[i] == ys[i]);
        }
        lemma_accumulated_good(before, good);
        lemma_accumulated_extremes(xs, before, good);
        let (a, b) = (accumulated(xs).min, accumulated(before).min);
        assert(y.lt(b) || !y.lt(b));
        assert(b.lt(a) || !b.lt(a));
        let (c, d) = (accumulated(xs).max, accumulated(before).max);
        assert(d.lt(y) || !d.lt(y));
        assert(c.lt(d) || !c.lt(d));
    }
}

proof fn lemma_accumulated_good<F: Arith>(xs: Seq<F>, good: spec_fn(F) -> bool)
    requires
        ranks(good),
        xs.len() > 0,
        forall|i: int| 0 <= i < xs.len() ==> good(#[trigger] xs[i]),
    ensures
        good(accumulated(xs).min),
        good(accumulated(xs).max),
    decreases xs.len(),
{
    let before = xs.drop_last();
    assert(good(xs[xs.len() - 1]));
    if before.len() > 0 {
        assert forall|i: int| 0 <= i < before.len() implies good(#[trigger] before[i]) by {
            assert(before[i] == xs[i]);
        }
        lemma_accumulated_good(before, good);
    } else {
        assert(accumulated(before) == Moments::<F>::none());
    }
}

pub(crate) proof fn lemma_accumulated_count<F: Arith>(xs: Seq<F>)
    ensures
        accumulated(xs).n == xs.len(),
    decreases xs.len(),
{
    if xs.len() > 0 {
        lemma_accumulated_count(xs.drop_last());
    }
}

/// In whatever arithmetic ranks the samples, merging gives the count, the least and the
/// greatest that one pass over the samples of both gives, exactly. Merging with nothing
/// changes nothing.
pub proof fn law_merge_keeps_count_and_extremes<F: Arith>(
    xs: Seq<F>,
    ys: Seq<F>,
    good: spec_fn(F) -> bool,
)
    requires
        ranks(good),
        forall|i: int| 0 <= i < xs.len() ==> good(#[trigger] xs[i]),
        forall|i: int| 0 <= i < ys.len() ==> good(#[trigger] ys[i]),
    ensures
        accumulated(xs).joined(accumulated(ys)).n == accumulated(xs + ys).n,
        accumulated(xs).joined(accumulated(ys)).min == accumulated(xs + ys).min,
        accumulated(xs).joined(accumulated(ys)).max == accumulated(xs + ys).max,
        ys.len() == 0 ==> accumulated(xs).joined(accumulated(ys)) == accumulated(xs),
        xs.len() == 0 ==> accumulated(xs).joined(accumulated(ys)) == accumulated(ys),
        xs.len() == 0 || ys.len() == 0 ==> accumulated(xs).joined(accumulated(ys))
            == accumulated(xs + ys),
{
    lemma_accumulated_count(xs);
    lemma_accumulated_count(ys);
    lemma_accumulated_count(xs + ys);
    if ys.len() == 0 {
        assert(xs + ys =~= xs);
    } else if xs.len() == 0 {
        assert(xs + ys =~= ys);
    } else {
        lemma_accumulated_extremes(xs, ys, good);
    }
}

/// An accumulator without samples reports nothing, and changes nothing it is merged
/// with, in whatever arithmetic.
pub proof fn law_nothing_is_not_zero<F: Arith>(m: Moments<F>)
    ensures
        Moments::<F>::none().mean_of() is None,
        Moments::<F>::none().variance_of() is None,
        Moments::<F>::none().min_of() is None,
        Moments::<F>::none().max_of() is None,
        m.n == 0 ==> m.mean_of() is None && m.variance_of() is None && m.min_of() is None
            && m.max_of() is None,
        m.joined(Moments::none()) == m,
        m.n > 0 ==> Moments::<F>::none().joined(m) == m,
        m.n > 0 ==> m.mean_of() == Some(m.mean),
{
}

/// Whatever the arithmetic, a sample moves the mean by its share of the distance to it,
/// and adds to the squared deviations the product of its distances to the mean before and
/// after; the least and the greatest give way to it where it is beyond them. No samples
/// have a mean of zero, no deviations, and ends that every sample is within.
pub proof fn law_each_sample_moves_the_statistics<F: Arith>(m: Moments<F>, x: F)
    ensures
        ({
            let now = m.with(x);
            let delta = x.diff(m.mean);
            &&& now.mean == m.mean.sum(delta.quot(F::of_nat(m.n + 1)))
            &&& now.m2 == m.m2.sum(delta.prod(x.diff(now.mean)))
            &&& x.lt(m.min) ==> now.min == x
            &&& !x.lt(m.min) ==> now.min == m.min
            &&& m.max.lt(x) ==> now.max == x
            &&& !m.max.lt(x) ==> now.max == m.max
            &&& m.mean_of() == m.known(m.mean)
            &&& m.n > 0 ==> m.variance_of() == Some(m.m2.quot(F::of_nat(m.n)))
            &&& m.n > 0 ==> m.min_of() == Some(m.min) && m.max_of() == Some(m.max)
            &&& Moments::<F>::none() == (Moments {
                n: 0,
                mean: F::of_nat(0),
                m2: F::of_nat(0),
                min: F::top(),
                max: F::bottom(),
            })
        }),
{
}

/// Whatever the arithmetic, merging moves the mean by the other's share of the distance
/// between the two, and adds to the squared deviations of both the square of that
/// distance, weighted by both counts over their sum.
pub proof fn law_each_merge_moves_the_statistics<F: Arith>(a: Moments<F>, b: Moments<F>)
    requires
        a.n > 0,
        b.n > 0,
    ensures
        ({
            let now = a.joined(b);
            let (p, q, d) = (F::of_nat(a.n), F::of_nat(b.n), b.mean.diff(a.mean));
            &&& now.mean == a.mean.sum(d.prod(q).quot(p.sum(q)))
            &&& now.m2 == a.m2.sum(b.m2.sum(d.prod(d).prod(p).prod(q).quot(p.sum(q))))
            &&& b.min.lt(a.min) ==> now.min == b.min
            &&& !b.min.lt(a.min) ==> now.min == a.min
            &&& a.max.lt(b.max) ==> now.max == b.max
            &&& !a.max.lt(b.max) ==> now.max == a.max
        }),
{
}

/// Every sample and every merge is counted, in whatever arithmetic.
pub proof fn law_samples_are_counted<F: Arith>(a: Moments<F>, b: Moments<F>, x: F)
    ensures
        a.with(x).n == a.n + 1,
        a.joined(b).n == a.n + b.n,
{
}

} // verus!
