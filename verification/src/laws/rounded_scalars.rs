//! Scalar accumulators in an arithmetic that rounds: merging gives what one pass gives,
//! up to rounding.

use vstd::prelude::*;

use crate::arith::Arith;
use crate::exact::Exact;
use crate::laws::rounding::{lemma_near_quot, lemma_size_prod, near, size, Rounding};
use crate::laws::scalars::{
    accumulated, law_merge_keeps_count_and_extremes, law_merge_matches_single_pass,
    lemma_accumulated_count, pushed, ranks,
};
use crate::welford::Moments;

verus! {

/// What the samples stand for.
pub open spec fn values<F: Arith>(r: Rounding<F>, xs: Seq<F>) -> Seq<real> {
    Seq::new(xs.len(), |i: int| (r.val)(xs[i]))
}

/// Whether the samples stand for numbers no larger than `most`.
pub open spec fn all_within<F: Arith>(r: Rounding<F>, xs: Seq<F>, most: real) -> bool {
    forall|i: int|
        0 <= i < xs.len() ==> (r.good)(#[trigger] xs[i]) && size((r.val)(xs[i])) <= most
}

/// The mean of the samples, zero where there are none.
pub open spec fn mean_of(vs: Seq<real>) -> real {
    pushed(vs).mean->Finite_0
}

/// The sum of the squared deviations of the samples from their mean.
pub open spec fn spread_of(vs: Seq<real>) -> real {
    pushed(vs).m2->Finite_0
}

/// How many units the mean of `n` samples may be off.
pub open spec fn mean_error(n: nat) -> real {
    3real * (n as real)
}

/// How many units the sum of the squared deviations of `n` samples no larger than `most`
/// may be off.
pub open spec fn spread_error(n: nat, most: real) -> real
    decreases n,
{
    if n == 0 {
        0real
    } else {
        let k = (n - 1) as nat as real;
        spread_error((n - 1) as nat, most) + 2real * most * (6real * k + 5real) + (3real * k
            + 1real) * (3real * k + 4real) + 2real
    }
}

/// How large a difference between samples may come out.
pub open spec fn reach(n: nat, most: real) -> real {
    2real * most + 3real * (n as real) + 8real
}

/// How large the numbers may become while `n` samples are pushed.
pub open spec fn push_range(n: nat, most: real) -> real {
    4real * (n as real) * (most * most) + spread_error(n, most) + reach(n, most) * reach(n, most)
}

/// How many units the squared distance of the means of two groups may be off.
pub open spec fn gap_error(n: nat, m: nat, most: real) -> real {
    let d = 3real * ((n + m) as real) + 1real;
    4real * most * d + d * d + 1real
}

/// How many units what the distance of the means adds to the spread may be off.
pub open spec fn between_error(n: nat, m: nat, most: real) -> real {
    (m as real) * ((n as real) * gap_error(n, m, most) + 1real) + 2real
}

/// How many units the mean of two merged groups may be off.
pub open spec fn merged_mean_error(n: nat, m: nat) -> real {
    2real * mean_error(n) + mean_error(m) + 4real
}

/// How many units the sum of the squared deviations of two merged groups may be off.
pub open spec fn merged_spread_error(n: nat, m: nat, most: real) -> real {
    spread_error(n, most) + spread_error(m, most) + between_error(n, m, most) + 2real
}

/// How large the numbers may become while groups of `n` and `m` samples are merged.
pub open spec fn merge_range(n: nat, m: nat, most: real) -> real {
    push_range(n + m, most) + merged_spread_error(n, m, most) + 4real * (n as real) * (m as real)
        * (most * most) + reach(n + m, most) * ((n + m) as real)
}

/// Rounding the three operations of a push moves the mean by three units, and no error
/// of the mean before grows.
proof fn lemma_mean_step(
    m: real,
    mu: real,
    e: real,
    x: real,
    k: real,
    u: real,
    d: real,
    q: real,
    m1: real,
)
    requires
        near(m, mu, e),
        near(d, x - m, u),
        k >= 1real,
        near(q, d / k, u),
        near(m1, m + q, u),
    ensures
        near(m1, mu + (x - mu) / k, e + 3real * u),
{
    let w = 1real / k;
    assert(0real < w <= 1real) by (nonlinear_arith)
        requires
            k >= 1real,
            w == 1real / k,
    ;
    let (s, t, z) = (d / k, (x - m) / k, (x - mu) / k);
    lemma_near_quot(d, x - m, u, k);
    let c = m - mu;
    let cw = c * w;
    assert(z - t == cw) by (nonlinear_arith)
        requires
            k >= 1real,
            w == 1real / k,
            t == (x - m) / k,
            z == (x - mu) / k,
            c == m - mu,
            cw == c * w,
    ;
    assert(0real - e <= c - cw <= e) by (nonlinear_arith)
        requires
            0real - e <= c <= e,
            0real < w <= 1real,
            cw == c * w,
    ;
}

proof fn lemma_spread_error_grows(n: nat, to: nat, most: real)
    requires
        n <= to,
        most >= 0real,
    ensures
        0real <= spread_error(n, most) <= spread_error(to, most),
    decreases to,
{
    if to > 0 {
        let k = (to - 1) as nat as real;
        assert(2real * most * (6real * k + 5real) >= 0real) by (nonlinear_arith)
            requires
                most >= 0real,
                k >= 0real,
        ;
        assert((3real * k + 1real) * (3real * k + 4real) >= 0real) by (nonlinear_arith)
            requires
                k >= 0real,
        ;
        if n < to {
            lemma_spread_error_grows(n, (to - 1) as nat, most);
        } else {
            lemma_spread_error_grows((to - 1) as nat, (to - 1) as nat, most);
        }
    }
}

/// Whether the accumulator holds the statistics of the samples up to rounding.
spec fn holds_for<F: Arith>(r: Rounding<F>, w: Moments<F>, vs: Seq<real>, most: real) -> bool {
    &&& w.n == vs.len()
    &&& r.at(w.mean, mean_of(vs), mean_error(vs.len()) * r.unit)
    &&& r.at(w.m2, spread_of(vs), spread_error(vs.len(), most) * r.unit)
}

/// The exact statistics are numbers, and their size is bounded.
proof fn lemma_exact_bounds(vs: Seq<real>, most: real)
    requires
        most >= 0real,
        forall|i: int| 0 <= i < vs.len() ==> size(#[trigger] vs[i]) <= most,
    ensures
        pushed(vs).n == vs.len(),
        pushed(vs).mean == Exact::Finite(mean_of(vs)),
        pushed(vs).m2 == Exact::Finite(spread_of(vs)),
        size(mean_of(vs)) <= most,
        size(spread_of(vs)) <= 4real * (vs.len() as real) * (most * most),
    decreases vs.len(),
{
    if vs.len() > 0 {
        let before = vs.drop_last();
        assert forall|i: int| 0 <= i < before.len() implies size(#[trigger] before[i])
            <= most by {
            assert(before[i] == vs[i]);
        }
        lemma_exact_bounds(before, most);
        let v = vs[vs.len() - 1];
        assert(size(v) <= most);
        let k = vs.len() as real;
        let (mu, q) = (mean_of(before), spread_of(before));
        let mu1 = mean_of(vs);
        assert(mu1 == mu + (v - mu) / k);
        assert(0real - most <= mu1 <= most) by (nonlinear_arith)
            requires
                mu1 == mu + (v - mu) / k,
                k >= 1real,
                0real - most <= mu <= most,
                0real - most <= v <= most,
        ;
        assert(spread_of(vs) == q + (v - mu) * (v - mu1));
        lemma_size_prod(v - mu, 2real * most, v - mu1, 2real * most);
        let mm = most * most;
        assert((2real * most) * (2real * most) == 4real * mm) by (nonlinear_arith)
            requires
                mm == most * most,
        ;
        let j = before.len() as real;
        assert(k == j + 1real);
        assert(4real * (j + 1real) * mm == 4real * j * mm + 4real * mm) by (nonlinear_arith);
    } else {
        let mm = most * most;
        assert(4real * 0real * mm == 0real) by (nonlinear_arith);
    }
}

/// What the range leaves room for while pushing.
proof fn lemma_push_room(n: nat, to: nat, most: real, u: real)
    requires
        n < to,
        most >= 0real,
        0real <= u <= 1real,
    ensures
        ({
            let (e, e1) = (mean_error(n) * u, mean_error(n + 1) * u);
            let bound = push_range(to, most);
            &&& 0real <= e <= 3real * (n as real)
            &&& e1 == e + 3real * u
            &&& (n + 1) as real <= bound
            &&& 4real * most + e + e1 + 4real <= bound
            &&& (2real * most + (e + u)) * (2real * most + (e1 + u)) <= bound
            &&& 4real * ((n + 1) as real) * (most * most) + spread_error(n + 1, most) <= bound
        }),
{
    let l = reach(to, most);
    let (a, b) = (n as real, to as real);
    assert(a + 1real <= b);
    lemma_spread_error_grows(n + 1, to, most);
    let mm = most * most;
    assert(mm >= 0real) by (nonlinear_arith)
        requires
            mm == most * most,
    ;
    assert(4real * (a + 1real) * mm <= 4real * b * mm) by (nonlinear_arith)
        requires
            a + 1real <= b,
            mm >= 0real,
    ;
    assert(4real * b * mm >= 0real) by (nonlinear_arith)
        requires
            b >= 0real,
            mm >= 0real,
    ;
    assert(l >= 8real);
    assert(l * l >= 8real * l) by (nonlinear_arith)
        requires
            l >= 8real,
    ;
    let e = 3real * a * u;
    assert(0real <= e <= 3real * a) by (nonlinear_arith)
        requires
            e == 3real * a * u,
            a >= 0real,
            0real <= u <= 1real,
    ;
    let e1 = 3real * (a + 1real) * u;
    assert(e1 == e + 3real * u) by (nonlinear_arith)
        requires
            e == 3real * a * u,
            e1 == 3real * (a + 1real) * u,
    ;
    assert((n + 1) as real == a + 1real);
    let (p, q) = (2real * most + (e + u), 2real * most + (e1 + u));
    assert(p * q <= l * l) by (nonlinear_arith)
        requires
            0real <= p <= l,
            0real <= q <= l,
    ;
}

/// The errors of a push add up to no more than stated.
proof fn lemma_push_error(n: nat, most: real, u: real)
    requires
        most >= 0real,
        0real <= u <= 1real,
    ensures
        ({
            let (e, e1) = (mean_error(n) * u + u, mean_error(n + 1) * u + u);
            spread_error(n, most) * u + (2real * most * e1 + 2real * most * e + e * e1 + u) + u
                <= spread_error(n + 1, most) * u
        }),
{
    let a = n as real;
    assert((n + 1) as real == a + 1real);
    let (c, c1) = (3real * a + 1real, 3real * a + 4real);
    let (e, e1) = (mean_error(n) * u + u, mean_error(n + 1) * u + u);
    assert(e == c * u) by (nonlinear_arith)
        requires
            e == 3real * a * u + u,
            c == 3real * a + 1real,
    ;
    assert(e1 == c1 * u) by (nonlinear_arith)
        requires
            e1 == 3real * (a + 1real) * u + u,
            c1 == 3real * a + 4real,
    ;
    let cc = c * c1;
    assert(cc >= 0real) by (nonlinear_arith)
        requires
            c >= 0real,
            c1 >= 0real,
            cc == c * c1,
    ;
    assert(e * e1 <= cc * u) by (nonlinear_arith)
        requires
            e == c * u,
            e1 == c1 * u,
            cc == c * c1,
            cc >= 0real,
            0real <= u <= 1real,
    ;
    let m2 = 2real * most;
    assert(m2 * e1 + m2 * e == m2 * (6real * a + 5real) * u) by (nonlinear_arith)
        requires
            e == (3real * a + 1real) * u,
            e1 == (3real * a + 4real) * u,
    ;
    let (g, h) = (spread_error(n, most), m2 * (6real * a + 5real));
    assert((g + h + cc + 2real) * u == g * u + h * u + cc * u + 2real * u) by (nonlinear_arith);
    assert(spread_error(n + 1, most) == g + h + cc + 2real);
}

/// One more sample keeps the accumulator close.
proof fn lemma_push_rounds<F: Arith>(
    r: Rounding<F>,
    w: Moments<F>,
    x: F,
    vs: Seq<real>,
    to: nat,
    most: real,
)
    requires
        r.holds(),
        most >= 0real,
        vs.len() < to,
        push_range(to, most) <= r.range,
        forall|i: int| 0 <= i < vs.len() ==> size(#[trigger] vs[i]) <= most,
        (r.good)(x),
        size((r.val)(x)) <= most,
        holds_for(r, w, vs, most),
    ensures
        holds_for(r, w.with(x), vs.push((r.val)(x)), most),
{
    let u = r.unit;
    let n = vs.len();
    let v = (r.val)(x);
    let now = vs.push(v);
    let k = n + 1;
    assert(now.drop_last() =~= vs);
    lemma_exact_bounds(vs, most);
    assert forall|i: int| 0 <= i < now.len() implies size(#[trigger] now[i]) <= most by {
        if i < n {
            assert(now[i] == vs[i]);
        }
    }
    lemma_exact_bounds(now, most);
    lemma_push_room(n, to, most, u);
    lemma_push_error(n, most, u);
    let (mu, mu1) = (mean_of(vs), mean_of(now));
    let (q, q1) = (spread_of(vs), spread_of(now));
    let (e, e1) = (mean_error(n) * u, mean_error(k) * u);
    assert(mu1 == mu + (v - mu) / (k as real));
    assert(q1 == q + (v - mu) * (v - mu1));
    let m = (r.val)(w.mean);
    let delta = x.diff(w.mean);
    assert(r.at(delta, v - m, u));
    let d = (r.val)(delta);
    let step = delta.quot(F::of_nat(k));
    r.lemma_quot(delta, d, 0real, k);
    assert(0real / (k as real) == 0real) by (nonlinear_arith)
        requires
            k >= 1,
    ;
    let mean = w.mean.sum(step);
    lemma_near_quot(d, d, 0real, k as real);
    assert(r.at(mean, m + (r.val)(step), u));
    lemma_mean_step(m, mu, e, v, k as real, u, d, (r.val)(step), (r.val)(mean));
    assert(r.at(mean, mu1, e1));
    let back = x.diff(mean);
    assert(r.at(x, v, 0real));
    r.lemma_diff(x, v, 0real, mean, mu1, e1);
    let m2 = 2real * most;
    assert(r.at(delta, v - mu, e + u));
    r.lemma_prod(delta, v - mu, e + u, m2, back, v - mu1, e1 + u, m2);
    let both = delta.prod(back);
    let f = m2 * (e1 + u) + m2 * (e + u) + (e + u) * (e1 + u) + u;
    lemma_size_prod(v - mu, m2, v - mu1, m2);
    let mm = most * most;
    assert(m2 * m2 == 4real * mm) by (nonlinear_arith)
        requires
            m2 == 2real * most,
            mm == most * most,
    ;
    let a = n as real;
    assert(4real * (a + 1real) * mm == 4real * a * mm + 4real * mm) by (nonlinear_arith);
    let g = spread_error(k, most);
    lemma_spread_error_grows(k, k, most);
    assert(g * u <= g) by (nonlinear_arith)
        requires
            g >= 0real,
            0real <= u <= 1real,
    ;
    r.lemma_sum(w.m2, q, spread_error(n, most) * u, both, (v - mu) * (v - mu1), f);
    assert(w.with(x).m2 == w.m2.sum(both));
    assert(w.with(x).mean == mean);
}

proof fn lemma_accumulated_rounds<F: Arith>(r: Rounding<F>, xs: Seq<F>, to: nat, most: real)
    requires
        r.holds(),
        most >= 0real,
        xs.len() <= to,
        push_range(to, most) <= r.range,
        all_within(r, xs, most),
    ensures
        holds_for(r, accumulated(xs), values(r, xs), most),
        forall|i: int| 0 <= i < xs.len() ==> size(#[trigger] values(r, xs)[i]) <= most,
    decreases xs.len(),
{
    let u = r.unit;
    assert forall|i: int| 0 <= i < xs.len() implies size(#[trigger] values(r, xs)[i]) <= most by {
        assert((r.good)(xs[i]));
    }
    if xs.len() == 0 {
        lemma_push_range_positive(to, most);
        assert(r.at(F::of_nat(0), 0real, 0real));
        assert(values(r, xs) =~= Seq::empty());
        assert(mean_error(0) * u == 0real) by (nonlinear_arith)
            requires
                mean_error(0) == 0real,
        ;
        assert(0real * u == 0real) by (nonlinear_arith);
    } else {
        let before = xs.drop_last();
        assert forall|i: int| 0 <= i < before.len() implies (r.good)(#[trigger] before[i]) && size(
            (r.val)(before[i]),
        ) <= most by {
            assert((r.good)(xs[i]));
            assert(before[i] == xs[i]);
        }
        lemma_accumulated_rounds(r, before, to, most);
        assert((r.good)(xs[xs.len() - 1]));
        lemma_push_rounds(
            r,
            accumulated(before),
            xs.last(),
            values(r, before),
            to,
            most,
        );
        assert(values(r, before).push((r.val)(xs.last())) =~= values(r, xs));
    }
}

proof fn lemma_push_range_positive(to: nat, most: real)
    requires
        most >= 0real,
    ensures
        push_range(to, most) >= 64real,
        push_range(to, most) >= reach(to, most),
{
    let l = reach(to, most);
    let (b, mm) = (to as real, most * most);
    lemma_spread_error_grows(to, to, most);
    assert(mm >= 0real) by (nonlinear_arith)
        requires
            mm == most * most,
    ;
    assert(4real * b * mm >= 0real) by (nonlinear_arith)
        requires
            b >= 0real,
            mm >= 0real,
    ;
    assert(l * l >= 64real && l * l >= l) by (nonlinear_arith)
        requires
            l >= 8real,
    ;
}

/// Pushing samples gives their mean and the sum of their squared deviations up to
/// rounding: the error is a multiple of the unit, and the multiple depends only on how
/// many samples there are and how large.
pub proof fn law_push_rounds<F: Arith>(r: Rounding<F>, xs: Seq<F>, most: real)
    requires
        r.holds(),
        most >= 0real,
        push_range(xs.len(), most) <= r.range,
        all_within(r, xs, most),
    ensures
        accumulated(xs).n == xs.len(),
        r.at(
            accumulated(xs).mean,
            mean_of(values(r, xs)),
            mean_error(xs.len()) * r.unit,
        ),
        r.at(
            accumulated(xs).m2,
            spread_of(values(r, xs)),
            spread_error(xs.len(), most) * r.unit,
        ),
{
    lemma_accumulated_rounds(r, xs, xs.len(), most);
}

/// What comes of the distance of the means while merging, and how much room it takes.
proof fn lemma_merge_room(n: nat, m: nat, most: real, u: real)
    requires
        n >= 1,
        m >= 1,
        most >= 0real,
        0real <= u <= 1real,
    ensures
        ({
            let (a, b, k) = (n as real, m as real, (n + m) as real);
            let d = (3real * k + 1real) * u;
            let c = gap_error(n, m, most) * u;
            let e = spread_error(n, most) * u;
            let f = spread_error(m, most) * u;
            let h = between_error(n, m, most) * u;
            let mm = most * most;
            let bound = merge_range(n, m, most);
            &&& push_range(n + m, most) <= bound
            &&& d == mean_error(m) * u + mean_error(n) * u + u
            &&& 0real <= d <= 3real * k + 1real
            &&& 6real * most + 3real * d + 4real <= bound
            &&& (2real * most + d) * b <= bound
            &&& 2real * most * b + b * d + 1real <= bound
            &&& (2real * most + d) * (2real * most + d) <= bound
            &&& 2real * most * d + 2real * most * d + d * d + u <= c
            &&& (4real * mm + c) * a <= bound
            &&& (4real * mm * a + (a * c + u)) * b <= bound
            &&& 4real * mm * a * b + (b * (a * c + u) + u) <= bound
            &&& b * (a * c + u) + u + u == h
            &&& 4real * b * mm + 4real * mm * a * b + f + h + u <= bound
            &&& 4real * a * mm + (4real * b * mm + 4real * mm * a * b) + e + (f + h + u) + u
                <= bound
            &&& e + (f + h + u) + u == merged_spread_error(n, m, most) * u
            &&& 0real <= c && 0real <= e && 0real <= f && 0real <= h
            &&& k == a + b
        }),
{
    let (a, b, k) = (n as real, m as real, (n + m) as real);
    assert(k == a + b);
    let dn = 3real * k + 1real;
    let d = dn * u;
    let cn = gap_error(n, m, most);
    let c = cn * u;
    let (en, gm, hn) = (
        spread_error(n, most),
        spread_error(m, most),
        between_error(n, m, most),
    );
    let mm = most * most;
    let l = reach(n + m, most);
    lemma_spread_error_grows(n, n, most);
    lemma_spread_error_grows(m, m, most);
    lemma_spread_error_grows(n + m, n + m, most);
    assert(mm >= 0real) by (nonlinear_arith)
        requires
            mm == most * most,
    ;
    assert(cn >= 1real) by {
        assert(4real * most * dn >= 0real && dn * dn >= 0real) by (nonlinear_arith)
            requires
                most >= 0real,
                dn >= 0real,
        ;
    }
    let an = a * cn;
    assert(an >= cn) by (nonlinear_arith)
        requires
            a >= 1real,
            cn >= 1real,
            an == a * cn,
    ;
    let bn = b * (an + 1real);
    assert(hn == bn + 2real);
    assert(bn >= an + 1real) by (nonlinear_arith)
        requires
            b >= 1real,
            an >= 1real,
            bn == b * (an + 1real),
    ;
    let x = 4real * a * b * mm;
    assert(x >= 4real * a * mm && 4real * a * mm >= 0real && 4real * b * mm >= 0real)
        by (nonlinear_arith)
        requires
            a >= 1real,
            b >= 1real,
            mm >= 0real,
            x == 4real * a * b * mm,
    ;
    assert(4real * mm * a * b == x) by (nonlinear_arith)
        requires
            x == 4real * a * b * mm,
    ;
    assert(4real * mm * a == 4real * a * mm) by (nonlinear_arith);
    let lk = l * k;
    assert(lk >= l * b && lk >= 0real && lk >= l) by (nonlinear_arith)
        requires
            lk == l * k,
            k == a + b,
            a >= 1real,
            b >= 1real,
            l >= 8real,
    ;
    let ll = l * l;
    assert(ll >= 8real * l) by (nonlinear_arith)
        requires
            l >= 8real,
            ll == l * l,
    ;
    assert(4real * k * mm == 4real * a * mm + 4real * b * mm) by (nonlinear_arith)
        requires
            k == a + b,
    ;
    let bound = merge_range(n, m, most);
    assert(4real * (n as real) * (m as real) * (most * most) == x);
    assert(bound == 4real * k * mm + spread_error(n + m, most) + ll + (en + gm + hn + 2real) + x
        + lk);
    assert(d == mean_error(m) * u + mean_error(n) * u + u) by (nonlinear_arith)
        requires
            d == (3real * k + 1real) * u,
            k == a + b,
            mean_error(m) == 3real * b,
            mean_error(n) == 3real * a,
    ;
    assert(0real <= d <= dn) by (nonlinear_arith)
        requires
            d == dn * u,
            dn >= 0real,
            0real <= u <= 1real,
    ;
    let w = 2real * most + d;
    assert(0real <= w <= l);
    assert(w * b <= l * b) by (nonlinear_arith)
        requires
            w <= l,
            b >= 1real,
    ;
    assert(w * w <= ll) by (nonlinear_arith)
        requires
            0real <= w <= l,
            ll == l * l,
    ;
    assert(2real * most * b + b * d == w * b) by (nonlinear_arith)
        requires
            w == 2real * most + d,
    ;
    assert(w * b + 1real <= bound);
    assert(2real * most * d + 2real * most * d + d * d + u <= c) by {
        let (md, dd) = (most * dn, dn * dn);
        assert(most * d == md * u) by (nonlinear_arith)
            requires
                d == dn * u,
                md == most * dn,
        ;
        assert(dd >= 0real) by (nonlinear_arith)
            requires
                dd == dn * dn,
        ;
        let uu = u * u;
        assert(uu <= u) by (nonlinear_arith)
            requires
                uu == u * u,
                0real <= u <= 1real,
        ;
        assert(d * d == dd * uu) by (nonlinear_arith)
            requires
                d == dn * u,
                dd == dn * dn,
                uu == u * u,
        ;
        assert(dd * uu <= dd * u) by (nonlinear_arith)
            requires
                uu <= u,
                dd >= 0real,
        ;
        assert(4real * most * dn == 4real * md) by (nonlinear_arith)
            requires
                md == most * dn,
        ;
        assert(2real * most * d == 2real * (most * d)) by (nonlinear_arith);
        assert((4real * md + dd + 1real) * u == 4real * (md * u) + dd * u + u)
            by (nonlinear_arith);
    }
    assert(0real <= c <= cn) by (nonlinear_arith)
        requires
            c == cn * u,
            cn >= 0real,
            0real <= u <= 1real,
    ;
    let ac = a * c;
    assert(0real <= ac <= an) by (nonlinear_arith)
        requires
            ac == a * c,
            an == a * cn,
            0real <= c <= cn,
            a >= 1real,
    ;
    assert((4real * mm + c) * a == 4real * a * mm + ac) by (nonlinear_arith)
        requires
            ac == a * c,
    ;
    let bc = b * (ac + u);
    assert(0real <= bc <= bn) by {
        let (y0, y1) = (ac + u, an + 1real);
        assert(0real <= b * y0 <= b * y1) by (nonlinear_arith)
            requires
                0real <= y0 <= y1,
                b >= 1real,
        ;
    }
    assert((4real * mm * a + (ac + u)) * b == x + bc) by {
        let (y0, y1) = (4real * mm * a, ac + u);
        assert((y0 + y1) * b == y0 * b + b * y1) by (nonlinear_arith);
    }
    let h = hn * u;
    assert(bc + u + u == h) by {
        assert(ac == an * u) by (nonlinear_arith)
            requires
                ac == a * c,
                c == cn * u,
                an == a * cn,
        ;
        let x1 = an + 1real;
        assert(ac + u == x1 * u) by (nonlinear_arith)
            requires
                ac == an * u,
                x1 == an + 1real,
        ;
        assert(b * (x1 * u) == (b * x1) * u) by (nonlinear_arith);
        assert((bn + 2real) * u == bn * u + 2real * u) by (nonlinear_arith);
    }
    let (e, f) = (en * u, gm * u);
    assert(0real <= e <= en && 0real <= f <= gm && 0real <= h <= hn) by (nonlinear_arith)
        requires
            e == en * u,
            f == gm * u,
            h == hn * u,
            en >= 0real,
            gm >= 0real,
            hn >= 0real,
            0real <= u <= 1real,
    ;
    assert((en + gm + hn + 2real) * u == e + f + h + 2real * u) by (nonlinear_arith)
        requires
            e == en * u,
            f == gm * u,
            h == hn * u,
    ;
}

/// Merging keeps the accumulator close.
proof fn lemma_merge_rounds<F: Arith>(
    r: Rounding<F>,
    a: Moments<F>,
    b: Moments<F>,
    vs: Seq<real>,
    us: Seq<real>,
    most: real,
)
    requires
        r.holds(),
        most >= 0real,
        vs.len() >= 1,
        us.len() >= 1,
        forall|i: int| 0 <= i < vs.len() ==> size(#[trigger] vs[i]) <= most,
        forall|i: int| 0 <= i < us.len() ==> size(#[trigger] us[i]) <= most,
        merge_range(vs.len(), us.len(), most) <= r.range,
        holds_for(r, a, vs, most),
        holds_for(r, b, us, most),
    ensures
        r.at(
            a.joined(b).mean,
            mean_of(vs + us),
            merged_mean_error(vs.len(), us.len()) * r.unit,
        ),
        r.at(
            a.joined(b).m2,
            spread_of(vs + us),
            merged_spread_error(vs.len(), us.len(), most) * r.unit,
        ),
{
    let u = r.unit;
    let (n, m) = (vs.len(), us.len());
    let (p, q, k) = (n as real, m as real, (n + m) as real);
    lemma_exact_bounds(vs, most);
    lemma_exact_bounds(us, most);
    law_merge_matches_single_pass(vs, us);
    lemma_merge_room(n, m, most, u);
    lemma_push_range_positive(n + m, most);
    let (ma, mb) = (mean_of(vs), mean_of(us));
    let x = mb - ma;
    let m2 = 2real * most;
    let mm = most * most;
    let (ea, eb) = (mean_error(n) * u, mean_error(m) * u);
    let d = eb + ea + u;
    let (na, nb) = (F::of_nat(n), F::of_nat(m));
    assert(na.sum(nb) == F::of_nat(n + m));
    assert(r.at(na, p, 0real) && r.at(nb, q, 0real));
    let exact = pushed(vs).joined(pushed(us));
    assert(exact.mean == Exact::Finite(ma + x * q / (p + q)));
    assert(exact.m2 == Exact::Finite(
        spread_of(vs) + (spread_of(us) + x * x * p * q / (p + q)),
    ));

    let delta = b.mean.diff(a.mean);
    r.lemma_diff(b.mean, mb, eb, a.mean, ma, ea);
    assert(size(x) <= m2);
    r.lemma_prod(delta, x, d, m2, nb, q, 0real, q);
    let t1 = delta.prod(nb);
    let qd = q * d;
    assert(m2 * 0real + qd + d * 0real + u == qd + u) by (nonlinear_arith);
    lemma_size_prod(x, m2, q, q);
    r.lemma_quot(t1, x * q, qd + u, n + m);
    let t2 = t1.quot(F::of_nat(n + m));
    assert((qd + u) / k <= d + u) by {
        let t = d + u;
        assert(qd + u <= k * t) by (nonlinear_arith)
            requires
                k == p + q,
                p >= 1real,
                q >= 1real,
                qd == q * d,
                d >= 0real,
                u >= 0real,
                t == d + u,
        ;
        let z = qd + u;
        assert(z / k <= t) by (nonlinear_arith)
            requires
                z <= k * t,
                k >= 1real,
        ;
    }
    let y = x * q / k;
    let xq = x * q;
    assert(0real - m2 <= y <= m2) by {
        let mk = m2 * k;
        assert(m2 * q <= mk) by (nonlinear_arith)
            requires
                mk == m2 * k,
                q <= k,
                m2 >= 0real,
        ;
        assert(0real - m2 <= xq / k <= m2) by (nonlinear_arith)
            requires
                0real - mk <= xq <= mk,
                mk == m2 * k,
                k >= 1real,
        ;
    }
    assert(r.at(t2, y, d + u + u));
    r.lemma_sum(a.mean, ma, ea, t2, y, d + u + u);
    let me = merged_mean_error(n, m) * u;
    assert(me == 2real * ea + eb + 4real * u) by (nonlinear_arith)
        requires
            me == (2real * (3real * p) + 3real * q + 4real) * u,
            ea == 3real * p * u,
            eb == 3real * q * u,
    ;

    let c = gap_error(n, m, most) * u;
    let p1 = delta.prod(delta);
    r.lemma_prod(delta, x, d, m2, delta, x, d, m2);
    lemma_size_prod(x, m2, x, m2);
    assert(m2 * m2 == 4real * mm) by (nonlinear_arith)
        requires
            m2 == 2real * most,
            mm == most * most,
    ;
    let xx = x * x;
    assert(r.at(p1, xx, c));
    let p2 = p1.prod(na);
    r.lemma_prod(p1, xx, c, 4real * mm, na, p, 0real, p);
    let pc = p * c;
    assert((4real * mm) * 0real + pc + c * 0real + u == pc + u) by (nonlinear_arith);
    lemma_size_prod(xx, 4real * mm, p, p);
    let xp = xx * p;
    assert(r.at(p2, xp, pc + u));
    let p3 = p2.prod(nb);
    r.lemma_prod(p2, xp, pc + u, 4real * mm * p, nb, q, 0real, q);
    let qc = q * (pc + u);
    assert((4real * mm * p) * 0real + qc + (pc + u) * 0real + u == qc + u) by (nonlinear_arith);
    lemma_size_prod(xp, 4real * mm * p, q, q);
    let xpq = xp * q;
    assert(r.at(p3, xpq, qc + u));
    r.lemma_quot(p3, xpq, qc + u, n + m);
    let p4 = p3.quot(F::of_nat(n + m));
    let h = between_error(n, m, most) * u;
    let z = xpq / k;
    lemma_near_quot(xpq, xpq, 0real, k);
    assert(r.at(p4, z, h));
    let (e, f) = (spread_error(n, most) * u, spread_error(m, most) * u);
    r.lemma_sum(b.m2, spread_of(us), f, p4, z, h);
    let inner = b.m2.sum(p4);
    r.lemma_sum(a.m2, spread_of(vs), e, inner, spread_of(us) + z, f + h + u);
}

/// Merging gives what pushing the samples of both in one pass gives, up to rounding: the
/// count, the least and the greatest are the same, and the mean and the variance differ
/// by at most a multiple of the unit. The multiple depends only on how many samples
/// there are and how large, and the unit only on the arithmetic.
pub proof fn law_merge_matches_single_pass_up_to_rounding<F: Arith>(
    r: Rounding<F>,
    xs: Seq<F>,
    ys: Seq<F>,
    most: real,
)
    requires
        r.holds(),
        most >= 0real,
        all_within(r, xs, most),
        all_within(r, ys, most),
        merge_range(xs.len(), ys.len(), most) <= r.range,
    ensures
        ({
            let (n, m) = (xs.len(), ys.len());
            let (a, w) = (accumulated(xs).joined(accumulated(ys)), accumulated(xs + ys));
            &&& a.n == w.n
            &&& a.min == w.min
            &&& a.max == w.max
            &&& (a.mean_of() is Some <==> n + m > 0) && (w.mean_of() is Some <==> n + m > 0)
            &&& (a.variance_of() is Some <==> n + m > 0) && (w.variance_of() is Some <==> n + m
                > 0)
            &&& near(
                (r.val)(a.mean_of()->0),
                (r.val)(w.mean_of()->0),
                (merged_mean_error(n, m) + mean_error(n + m)) * r.unit,
            )
            &&& near(
                (r.val)(a.variance_of()->0),
                (r.val)(w.variance_of()->0),
                (merged_spread_error(n, m, most) + spread_error(n + m, most) + 2real) * r.unit,
            )
            &&& n == 0 || m == 0 ==> a == w
        }),
{
    let u = r.unit;
    let (n, m) = (xs.len(), ys.len());
    let all = xs + ys;
    let (a, w) = (accumulated(xs).joined(accumulated(ys)), accumulated(all));
    assert(ranks(r.good)) by {
        assert(r.order());
    }
    assert forall|i: int| 0 <= i < n implies (r.good)(#[trigger] xs[i]) by {}
    assert forall|i: int| 0 <= i < m implies (r.good)(#[trigger] ys[i]) by {}
    law_merge_keeps_count_and_extremes(xs, ys, r.good);
    lemma_accumulated_count(all);
    lemma_errors_positive(n, m, most, u);
    if n >= 1 && m >= 1 {
        assert forall|i: int| 0 <= i < all.len() implies (r.good)(#[trigger] all[i]) && size(
            (r.val)(all[i]),
        ) <= most by {
            if i < n {
                assert(all[i] == xs[i]);
            } else {
                assert(all[i] == ys[i - n]);
            }
        }
        lemma_merge_room(n, m, most, u);
        lemma_accumulated_rounds(r, xs, n + m, most);
        lemma_accumulated_rounds(r, ys, n + m, most);
        lemma_accumulated_rounds(r, all, n + m, most);
        let (vs, us) = (values(r, xs), values(r, ys));
        assert(values(r, all) =~= vs + us);
        lemma_merge_rounds(r, accumulated(xs), accumulated(ys), vs, us, most);
        lemma_exact_bounds(vs + us, most);
        let k = n + m;
        let q = spread_of(vs + us);
        let (e, f) = (merged_spread_error(n, m, most) * u, spread_error(k, most) * u);
        lemma_push_range_positive(k, most);
        lemma_variance_room(n, m, most, u);
        r.lemma_quot(a.m2, q, e, k);
        r.lemma_quot(w.m2, q, f, k);
        let (x, y) = (merged_mean_error(n, m), mean_error(k));
        assert((x + y) * u == x * u + y * u) by (nonlinear_arith);
        let (g, h) = (merged_spread_error(n, m, most), spread_error(k, most));
        assert((g + h + 2real) * u == g * u + h * u + 2real * u) by (nonlinear_arith);
    }
}

proof fn lemma_variance_room(n: nat, m: nat, most: real, u: real)
    requires
        n >= 1,
        m >= 1,
        most >= 0real,
        0real <= u <= 1real,
    ensures
        4real * ((n + m) as real) * (most * most) + merged_spread_error(n, m, most) * u
            <= merge_range(n, m, most),
        4real * ((n + m) as real) * (most * most) + spread_error(n + m, most) * u <= merge_range(
            n,
            m,
            most,
        ),
        (n + m) as real <= merge_range(n, m, most),
{
    lemma_errors_positive(n, m, most, u);
    let l = reach(n + m, most);
    let (a, b, k, mm) = (n as real, m as real, (n + m) as real, most * most);
    lemma_spread_error_grows(n + m, n + m, most);
    let (g, h) = (merged_spread_error(n, m, most), spread_error(n + m, most));
    assert(g * u <= g && h * u <= h) by (nonlinear_arith)
        requires
            g >= 0real,
            h >= 0real,
            0real <= u <= 1real,
    ;
    assert(mm >= 0real) by (nonlinear_arith)
        requires
            mm == most * most,
    ;
    assert(4real * a * b * mm >= 0real) by (nonlinear_arith)
        requires
            a >= 0real,
            b >= 0real,
            mm >= 0real,
    ;
    assert(l * k >= k && l * l >= 0real) by (nonlinear_arith)
        requires
            l >= 8real,
            k >= 0real,
    ;
    assert(4real * k * mm >= 0real) by (nonlinear_arith)
        requires
            k >= 0real,
            mm >= 0real,
    ;
}

proof fn lemma_errors_positive(n: nat, m: nat, most: real, u: real)
    requires
        most >= 0real,
        0real <= u <= 1real,
    ensures
        merged_spread_error(n, m, most) >= 0real,
        (merged_mean_error(n, m) + mean_error(n + m)) * u >= 0real,
        (merged_spread_error(n, m, most) + spread_error(n + m, most) + 2real) * u >= 0real,
{
    lemma_spread_error_grows(n, n, most);
    lemma_spread_error_grows(m, m, most);
    lemma_spread_error_grows(n + m, n + m, most);
    let (a, b) = (n as real, m as real);
    let d = 3real * ((n + m) as real) + 1real;
    let c = gap_error(n, m, most);
    assert(4real * most * d >= 0real && d * d >= 0real) by (nonlinear_arith)
        requires
            most >= 0real,
            d >= 0real,
    ;
    let ac = a * c;
    assert(ac >= 0real) by (nonlinear_arith)
        requires
            a >= 0real,
            c >= 0real,
            ac == a * c,
    ;
    let y1 = ac + 1real;
    assert(b * y1 >= 0real) by (nonlinear_arith)
        requires
            b >= 0real,
            y1 >= 0real,
    ;
    let x = merged_mean_error(n, m) + mean_error(n + m);
    let y = merged_spread_error(n, m, most) + spread_error(n + m, most) + 2real;
    assert(x * u >= 0real && y * u >= 0real) by (nonlinear_arith)
        requires
            x >= 0real,
            y >= 0real,
            u >= 0real,
    ;
}

} // verus!
