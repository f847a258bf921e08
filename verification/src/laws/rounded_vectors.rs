//! Vector accumulators in an arithmetic that rounds: merging gives what one pass gives,
//! up to rounding.

use vstd::prelude::*;

use crate::arith::Arith;
use crate::laws::rounding::{lemma_size_prod, near, size, Rounding};
use crate::laws::vectors::{
    all_of_dim, column, dot, lemma_columns_concat, lemma_spread, middle, scatter, squares,
};
use crate::vector::{squares_onto, Cloud};

verus! {

/// The accumulator that the vectors were pushed to, in whatever arithmetic.
pub open spec fn clouded<F: Arith>(vs: Seq<Seq<F>>, dim: nat) -> Cloud<F>
    decreases vs.len(),
{
    if vs.len() == 0 {
        Cloud::none(dim)
    } else {
        clouded(vs.drop_last(), dim).with(vs.last())
    }
}

/// What a vector stands for.
pub open spec fn point<F: Arith>(r: Rounding<F>, v: Seq<F>) -> Seq<real> {
    Seq::new(v.len(), |i: int| (r.val)(v[i]))
}

/// What the vectors stand for.
pub open spec fn points<F: Arith>(r: Rounding<F>, vs: Seq<Seq<F>>) -> Seq<Seq<real>> {
    Seq::new(vs.len(), |i: int| point(r, vs[i]))
}

/// Whether the components of a vector stand for numbers no larger than `most`.
pub open spec fn is_within<F: Arith>(r: Rounding<F>, v: Seq<F>, most: real) -> bool {
    forall|i: int|
        0 <= i < v.len() ==> (r.good)(#[trigger] v[i]) && size((r.val)(v[i])) <= most
}

/// Whether all vectors have `dim` components, which stand for numbers no larger than
/// `most`.
pub open spec fn all_within<F: Arith>(
    r: Rounding<F>,
    vs: Seq<Seq<F>>,
    dim: nat,
    most: real,
) -> bool {
    forall|i: int|
        0 <= i < vs.len() ==> (#[trigger] vs[i]).len() == dim && is_within(r, vs[i], most)
}

/// How large the numbers may become while `n` vectors are summarised.
pub open spec fn vector_range(n: nat, dim: nat, most: real) -> real {
    4real * ((n as real) + 2real) * (((dim as real) + 1real) * ((most + 4real) * (most + 4real)))
}

/// How many units the spread may be off.
pub open spec fn variance_error(dim: nat, most: real) -> real {
    (dim as real) * (6real * most + 13real) + 3real
}

/// What the range leaves room for.
proof fn lemma_room(n: nat, to: nat, dim: nat, most: real)
    requires
        n <= to,
        most >= 0real,
    ensures
        ({
            let (a, d, mm) = (n as real, dim as real, most * most);
            let bound = vector_range(to, dim, most);
            &&& a * most + a + most + 6real <= bound
            &&& a * (d * mm) + 2real * d * a + (d * mm + 2real * d) + 4real <= bound
            &&& (most + 3real) * (most + 3real) <= bound
            &&& mm <= bound
            &&& d * mm + (2real * d + 2real) + d * mm + d * (6real * most + 11real) + 1real
                <= bound
            &&& a + 1real <= bound
            &&& 0real <= mm && 0real <= d * mm && 0real <= a * most && 0real <= a * (d * mm)
        }),
{
    let (a, b, d, mm) = (n as real, to as real, dim as real, most * most);
    let k = most + 4real;
    let kk = k * k;
    assert(kk == mm + 8real * most + 16real) by (nonlinear_arith)
        requires
            k == most + 4real,
            kk == k * k,
            mm == most * most,
    ;
    assert(mm >= 0real) by (nonlinear_arith)
        requires
            mm == most * most,
    ;
    let dk = (d + 1real) * kk;
    let (x, y) = (d * kk, d * mm);
    assert(dk == x + kk) by (nonlinear_arith)
        requires
            dk == (d + 1real) * kk,
            x == d * kk,
    ;
    let dm = d * most;
    assert(x == y + 8real * dm + 16real * d) by (nonlinear_arith)
        requires
            x == d * kk,
            kk == mm + 8real * most + 16real,
            y == d * mm,
            dm == d * most,
    ;
    assert(y >= 0real && dm >= 0real) by (nonlinear_arith)
        requires
            y == d * mm,
            dm == d * most,
            d >= 0real,
            mm >= 0real,
            most >= 0real,
    ;
    let ak = a * dk;
    assert(4real * (b + 2real) * dk >= 4real * ak + 8real * dk) by (nonlinear_arith)
        requires
            a <= b,
            dk >= 0real,
            ak == a * dk,
    ;
    let am = a * most;
    assert(ak >= am + a && am >= 0real) by (nonlinear_arith)
        requires
            ak == a * dk,
            am == a * most,
            a >= 0real,
            dk >= most + 1real,
            most >= 0real,
    ;
    let ay = a * y;
    let da = d * a;
    let w = y + 2real * d;
    assert(ay + 2real * da == a * w) by (nonlinear_arith)
        requires
            ay == a * y,
            da == d * a,
            w == y + 2real * d,
    ;
    assert(a * w <= ak && ay >= 0real) by (nonlinear_arith)
        requires
            w <= dk,
            a >= 0real,
            y >= 0real,
            ak == a * dk,
            ay == a * y,
    ;
    assert(2real * d * a == 2real * da) by (nonlinear_arith)
        requires
            da == d * a,
    ;
    let m3 = most + 3real;
    assert(m3 * m3 <= kk) by (nonlinear_arith)
        requires
            m3 == most + 3real,
            k == most + 4real,
            kk == k * k,
            most >= 0real,
    ;
    assert(d * (6real * most + 11real) == 6real * dm + 11real * d) by (nonlinear_arith)
        requires
            dm == d * most,
    ;
}

proof fn lemma_dot_bound(v: Seq<real>, most: real)
    requires
        most >= 0real,
        forall|i: int| 0 <= i < v.len() ==> size(#[trigger] v[i]) <= most,
    ensures
        0real <= dot(v, v) <= (v.len() as real) * (most * most),
    decreases v.len(),
{
    let mm = most * most;
    if v.len() == 0 {
        assert(0real * mm == 0real) by (nonlinear_arith);
    } else {
        let before = v.drop_last();
        assert forall|i: int| 0 <= i < before.len() implies size(#[trigger] before[i])
            <= most by {
            assert(before[i] == v[i]);
        }
        lemma_dot_bound(before, most);
        let x = v[v.len() - 1];
        assert(size(x) <= most);
        lemma_size_prod(x, most, x, most);
        assert(x * x >= 0real) by (nonlinear_arith);
        let j = before.len() as real;
        assert((j + 1real) * mm == j * mm + mm) by (nonlinear_arith);
        assert(v.len() as real == j + 1real);
    }
}

/// Adding up squares rounds by at most `c` for each.
proof fn lemma_squares_round<F: Arith>(
    r: Rounding<F>,
    base: F,
    x: real,
    e: real,
    v: Seq<F>,
    xs: Seq<real>,
    s: real,
    most: real,
    c: real,
)
    requires
        r.holds(),
        most >= 0real,
        e >= 0real,
        s >= 0real,
        v.len() == xs.len(),
        r.at(base, x, e),
        forall|i: int|
            0 <= i < v.len() ==> r.at(#[trigger] v[i], xs[i], s) && size(xs[i]) <= most,
        most * s + most * s + s * s + 2real * r.unit <= c,
        (most + s) * (most + s) <= r.range,
        size(x) + (v.len() as real) * (most * most) + e + (v.len() as real) * c <= r.range,
    ensures
        r.at(squares_onto(base, v), x + dot(xs, xs), e + (v.len() as real) * c),
    decreases v.len(),
{
    let mm = most * most;
    if v.len() == 0 {
        assert(0real * c == 0real) by (nonlinear_arith);
    } else {
        let (w, ys) = (v.drop_last(), xs.drop_last());
        let j = w.len() as real;
        assert(v.len() as real == j + 1real);
        assert((j + 1real) * mm == j * mm + mm) by (nonlinear_arith);
        assert((j + 1real) * c == j * c + c) by (nonlinear_arith);
        assert(mm >= 0real) by (nonlinear_arith)
            requires
                mm == most * most,
        ;
        let ms = most * s;
        assert(ms >= 0real && s * s >= 0real) by (nonlinear_arith)
            requires
                ms == most * s,
                most >= 0real,
                s >= 0real,
        ;
        assert(c >= 0real);
        assert forall|i: int| 0 <= i < w.len() implies r.at(#[trigger] w[i], ys[i], s) && size(
            ys[i],
        ) <= most by {
            assert(r.at(v[i], xs[i], s));
            assert(w[i] == v[i]);
        }
        lemma_squares_round(r, base, x, e, w, ys, s, most, c);
        let (last, z) = (v[v.len() - 1], xs[xs.len() - 1]);
        assert(r.at(last, z, s) && size(z) <= most);
        r.lemma_prod(last, z, s, most, last, z, s, most);
        assert forall|i: int| 0 <= i < ys.len() implies size(#[trigger] ys[i]) <= most by {
            assert(r.at(v[i], xs[i], s));
            assert(ys[i] == xs[i]);
        }
        lemma_dot_bound(ys, most);
        lemma_size_prod(z, most, z, most);
        r.lemma_sum(
            squares_onto(base, w),
            x + dot(ys, ys),
            e + j * c,
            last.prod(last),
            z * z,
            ms + ms + s * s + r.unit,
        );
    }
}

/// Whether the accumulator holds the sums of the vectors, up to so many units for each
/// component and for the squares.
spec fn holds_for<F: Arith>(
    r: Rounding<F>,
    w: Cloud<F>,
    ps: Seq<Seq<real>>,
    dim: nat,
    e: real,
    f: real,
) -> bool {
    &&& w.n == ps.len()
    &&& w.sum.len() == dim
    &&& forall|i: int| 0 <= i < dim ==> r.at(#[trigger] w.sum[i], column(ps, i), e * r.unit)
    &&& r.at(w.sumsq, squares(ps), f * r.unit)
}

spec fn bounded(ps: Seq<Seq<real>>, dim: nat, most: real) -> bool {
    forall|i: int, j: int|
        0 <= i < ps.len() && 0 <= j < dim ==> size(#[trigger] ps[i][j]) <= most
}

proof fn lemma_column_bound(ps: Seq<Seq<real>>, dim: nat, most: real, j: int)
    requires
        bounded(ps, dim, most),
        0 <= j < dim,
    ensures
        size(column(ps, j)) <= (ps.len() as real) * most,
    decreases ps.len(),
{
    if ps.len() == 0 {
        assert(0real * most == 0real) by (nonlinear_arith);
    } else {
        let before = ps.drop_last();
        assert forall|i: int, t: int| 0 <= i < before.len() && 0 <= t < dim implies size(
            #[trigger] before[i][t],
        ) <= most by {
            assert(size(ps[i][t]) <= most);
        }
        lemma_column_bound(before, dim, most, j);
        assert(size(ps[ps.len() - 1][j]) <= most);
        let k = before.len() as real;
        assert((k + 1real) * most == k * most + most) by (nonlinear_arith);
        assert(ps.len() as real == k + 1real);
    }
}

proof fn lemma_squares_bound(ps: Seq<Seq<real>>, dim: nat, most: real)
    requires
        most >= 0real,
        all_of_dim(ps, dim),
        bounded(ps, dim, most),
    ensures
        0real <= squares(ps) <= (ps.len() as real) * ((dim as real) * (most * most)),
    decreases ps.len(),
{
    let each = (dim as real) * (most * most);
    if ps.len() == 0 {
        assert(0real * each == 0real) by (nonlinear_arith);
    } else {
        let before = ps.drop_last();
        assert forall|i: int, t: int| 0 <= i < before.len() && 0 <= t < dim implies size(
            #[trigger] before[i][t],
        ) <= most by {
            assert(size(ps[i][t]) <= most);
        }
        assert forall|i: int| 0 <= i < before.len() implies (
        #[trigger] before[i]).len() == dim by {
            assert(before[i] == ps[i]);
        }
        lemma_squares_bound(before, dim, most);
        let last = ps[ps.len() - 1];
        assert(last.len() == dim);
        assert forall|t: int| 0 <= t < last.len() implies size(#[trigger] last[t]) <= most by {
            assert(size(ps[ps.len() - 1][t]) <= most);
        }
        lemma_dot_bound(last, most);
        let k = before.len() as real;
        assert((k + 1real) * each == k * each + each) by (nonlinear_arith);
        assert(ps.len() as real == k + 1real);
    }
}

proof fn lemma_points<F: Arith>(r: Rounding<F>, vs: Seq<Seq<F>>, dim: nat, most: real)
    requires
        all_within(r, vs, dim, most),
    ensures
        all_of_dim(points(r, vs), dim),
        bounded(points(r, vs), dim, most),
{
    let ps = points(r, vs);
    assert forall|i: int| 0 <= i < ps.len() implies (#[trigger] ps[i]).len() == dim by {
        assert(vs[i].len() == dim);
    }
    assert forall|i: int, j: int| 0 <= i < ps.len() && 0 <= j < dim implies size(
        #[trigger] ps[i][j],
    ) <= most by {
        assert(vs[i].len() == dim && is_within(r, vs[i], most));
        assert((r.good)(vs[i][j]));
    }
}

proof fn lemma_clouded_rounds<F: Arith>(
    r: Rounding<F>,
    vs: Seq<Seq<F>>,
    to: nat,
    dim: nat,
    most: real,
)
    requires
        r.holds(),
        most >= 0real,
        vs.len() <= to,
        vector_range(to, dim, most) <= r.range,
        all_within(r, vs, dim, most),
    ensures
        holds_for(
            r,
            clouded(vs, dim),
            points(r, vs),
            dim,
            vs.len() as real,
            2real * (dim as real) * (vs.len() as real),
        ),
    decreases vs.len(),
{
    let u = r.unit;
    let (ps, d) = (points(r, vs), dim as real);
    let w = clouded(vs, dim);
    lemma_room(vs.len(), to, dim, most);
    if vs.len() == 0 {
        assert(r.at(F::of_nat(0), 0real, 0real));
        assert(0real * u == 0real) by (nonlinear_arith);
        assert(2real * d * 0real == 0real) by (nonlinear_arith);
    } else {
        let before = vs.drop_last();
        let last = vs[vs.len() - 1];
        assert(last.len() == dim && is_within(r, last, most));
        assert forall|i: int| 0 <= i < before.len() implies (#[trigger] before[i]).len() == dim
            && is_within(r, before[i], most) by {
            assert(before[i] == vs[i]);
            assert(vs[i].len() == dim);
        }
        lemma_clouded_rounds(r, before, to, dim, most);
        lemma_points(r, before, dim, most);
        lemma_room(before.len(), to, dim, most);
        let qs = points(r, before);
        let c = clouded(before, dim);
        let n = before.len() as real;
        let mm = most * most;
        assert(vs.len() as real == n + 1real);
        assert(ps.drop_last() =~= qs);
        assert(ps.last() == point(r, last));
        let e = n * u;
        assert(0real <= e <= n) by (nonlinear_arith)
            requires
                e == n * u,
                n >= 0real,
                0real <= u <= 1real,
        ;
        assert((n + 1real) * u == e + u) by (nonlinear_arith)
            requires
                e == n * u,
        ;
        assert forall|i: int| 0 <= i < dim implies r.at(
            #[trigger] w.sum[i],
            column(ps, i),
            (n + 1real) * u,
        ) by {
            assert(r.at(c.sum[i], column(qs, i), e));
            assert((r.good)(last[i]));
            lemma_column_bound(qs, dim, most, i);
            r.lemma_sum(c.sum[i], column(qs, i), e, last[i], (r.val)(last[i]), 0real);
        }
        let f = 2real * d * n * u;
        let dn = d * n;
        assert(0real <= f <= 2real * dn) by (nonlinear_arith)
            requires
                f == 2real * d * n * u,
                dn == d * n,
                d >= 0real,
                n >= 0real,
                0real <= u <= 1real,
        ;
        assert(2real * d * n == 2real * dn) by (nonlinear_arith)
            requires
                dn == d * n,
        ;
        let xs = point(r, last);
        assert forall|i: int| 0 <= i < last.len() implies r.at(#[trigger] last[i], xs[i], 0real)
            && size(xs[i]) <= most by {
            assert((r.good)(last[i]));
        }
        lemma_squares_bound(qs, dim, most);
        assert(most * 0real == 0real && 0real * 0real == 0real) by (nonlinear_arith);
        let du = d * (2real * u);
        assert(0real <= du <= 2real * d) by (nonlinear_arith)
            requires
                du == d * (2real * u),
                d >= 0real,
                0real <= u <= 1real,
        ;
        lemma_squares_round(
            r,
            c.sumsq,
            squares(qs),
            f,
            last,
            xs,
            0real,
            most,
            2real * u,
        );
        assert(2real * d * (n + 1real) * u == f + du) by (nonlinear_arith)
            requires
                f == 2real * d * n * u,
                du == d * (2real * u),
        ;
    }
}

/// Merging keeps the accumulator close.
proof fn lemma_merge_rounds<F: Arith>(
    r: Rounding<F>,
    a: Cloud<F>,
    b: Cloud<F>,
    ps: Seq<Seq<real>>,
    qs: Seq<Seq<real>>,
    dim: nat,
    most: real,
)
    requires
        r.holds(),
        most >= 0real,
        all_of_dim(ps, dim),
        all_of_dim(qs, dim),
        bounded(ps, dim, most),
        bounded(qs, dim, most),
        vector_range(ps.len() + qs.len(), dim, most) <= r.range,
        holds_for(r, a, ps, dim, ps.len() as real, 2real * (dim as real) * (ps.len() as real)),
        holds_for(r, b, qs, dim, qs.len() as real, 2real * (dim as real) * (qs.len() as real)),
    ensures
        holds_for(
            r,
            a.joined(b),
            ps + qs,
            dim,
            ((ps.len() + qs.len()) as real) + 1real,
            2real * (dim as real) * ((ps.len() + qs.len()) as real) + 1real,
        ),
{
    let u = r.unit;
    let (n, m, d) = (ps.len() as real, qs.len() as real, dim as real);
    let k = (ps.len() + qs.len()) as real;
    assert(k == n + m);
    let mm = most * most;
    let j = a.joined(b);
    lemma_room(ps.len() + qs.len(), ps.len() + qs.len(), dim, most);
    let (e, f) = (n * u, m * u);
    assert(0real <= e <= n && 0real <= f <= m) by (nonlinear_arith)
        requires
            e == n * u,
            f == m * u,
            n >= 0real,
            m >= 0real,
            0real <= u <= 1real,
    ;
    assert((k + 1real) * u == e + f + u) by (nonlinear_arith)
        requires
            k == n + m,
            e == n * u,
            f == m * u,
    ;
    assert(k * most == n * most + m * most) by (nonlinear_arith)
        requires
            k == n + m,
    ;
    assert forall|i: int| 0 <= i < dim implies r.at(
        #[trigger] j.sum[i],
        column(ps + qs, i),
        (k + 1real) * u,
    ) by {
        assert(r.at(a.sum[i], column(ps, i), e));
        assert(r.at(b.sum[i], column(qs, i), f));
        lemma_column_bound(ps, dim, most, i);
        lemma_column_bound(qs, dim, most, i);
        lemma_columns_concat(ps, qs, i);
        r.lemma_sum(a.sum[i], column(ps, i), e, b.sum[i], column(qs, i), f);
    }
    lemma_columns_concat(ps, qs, 0);
    lemma_squares_bound(ps, dim, most);
    lemma_squares_bound(qs, dim, most);
    let each = d * mm;
    assert(k * each == n * each + m * each) by (nonlinear_arith)
        requires
            k == n + m,
    ;
    let (g, h) = (2real * d * n * u, 2real * d * m * u);
    let (dn, dm) = (d * n, d * m);
    assert(0real <= g <= 2real * dn && 0real <= h <= 2real * dm) by {
        assert(g == 2real * (dn * u)) by (nonlinear_arith)
            requires
                g == 2real * d * n * u,
                dn == d * n,
        ;
        assert(h == 2real * (dm * u)) by (nonlinear_arith)
            requires
                h == 2real * d * m * u,
                dm == d * m,
        ;
        assert(dn >= 0real && dm >= 0real) by (nonlinear_arith)
            requires
                dn == d * n,
                dm == d * m,
                d >= 0real,
                n >= 0real,
                m >= 0real,
        ;
        assert(0real <= dn * u <= dn && 0real <= dm * u <= dm) by (nonlinear_arith)
            requires
                dn >= 0real,
                dm >= 0real,
                0real <= u <= 1real,
        ;
    }
    assert(2real * d * k == 2real * dn + 2real * dm) by (nonlinear_arith)
        requires
            k == n + m,
            dn == d * n,
            dm == d * m,
    ;
    r.lemma_sum(a.sumsq, squares(ps), g, b.sumsq, squares(qs), h);
    assert((2real * dn + 2real * dm + 1real) * u == g + h + u) by (nonlinear_arith)
        requires
            g == 2real * d * n * u,
            h == 2real * d * m * u,
            dn == d * n,
            dm == d * m,
    ;
}

/// Sums that are close give a centroid and a spread that are.
proof fn lemma_statistics_round<F: Arith>(
    r: Rounding<F>,
    w: Cloud<F>,
    ps: Seq<Seq<real>>,
    dim: nat,
    most: real,
)
    requires
        r.holds(),
        most >= 0real,
        ps.len() > 0,
        all_of_dim(ps, dim),
        bounded(ps, dim, most),
        vector_range(ps.len(), dim, most) <= r.range,
        holds_for(
            r,
            w,
            ps,
            dim,
            (ps.len() as real) + 1real,
            2real * (dim as real) * (ps.len() as real) + 1real,
        ),
    ensures
        forall|i: int|
            0 <= i < dim ==> r.at(
                #[trigger] w.center()[i],
                middle(ps, dim)[i],
                4real * r.unit,
            ),
        r.at(
            w.variance_of()->0,
            scatter(ps, middle(ps, dim)) / (ps.len() as real),
            variance_error(dim, most) * r.unit,
        ),
{
    let u = r.unit;
    let n = ps.len();
    let (k, d, mm) = (n as real, dim as real, most * most);
    let c = middle(ps, dim);
    let means = w.means();
    lemma_room(n, n, dim, most);
    let e = (k + 1real) * u;
    assert(0real <= e <= k + 1real && e / k <= 2real * u) by {
        assert(0real <= e <= k + 1real) by (nonlinear_arith)
            requires
                e == (k + 1real) * u,
                k >= 1real,
                0real <= u <= 1real,
        ;
        assert(e <= k * (2real * u)) by (nonlinear_arith)
            requires
                e == (k + 1real) * u,
                k >= 1real,
                u >= 0real,
        ;
        let t = 2real * u;
        assert(e / k <= t) by (nonlinear_arith)
            requires
                e <= k * t,
                k >= 1real,
        ;
    }
    assert forall|i: int| 0 <= i < dim implies r.at(#[trigger] means[i], c[i], 3real * u) && size(
        c[i],
    ) <= most && r.at(w.center()[i], c[i], 4real * u) by {
        assert(r.at(w.sum[i], column(ps, i), e));
        lemma_column_bound(ps, dim, most, i);
        r.lemma_quot(w.sum[i], column(ps, i), e, n);
        let (x, y) = (column(ps, i), k * most);
        assert(size(x / k) <= most) by {
            assert(0real - most <= x / k <= most) by (nonlinear_arith)
                requires
                    0real - y <= x <= y,
                    y == k * most,
                    k >= 1real,
            ;
        }
        assert(size((r.val)(means[i])) <= r.range);
        assert(r.at(means[i].single(), (r.val)(means[i]), u));
    }
    assert forall|i: int| 0 <= i < dim implies r.at(
        #[trigger] w.center()[i],
        c[i],
        4real * u,
    ) by {
        assert(r.at(means[i], c[i], 3real * u));
    }
    assert(r.at(F::of_nat(0), 0real, 0real));
    let s = 3real * u;
    let z = (6real * most + 11real) * u;
    assert(most * s + most * s + s * s + 2real * u <= z) by {
        let mu = most * u;
        assert(most * s == 3real * mu) by (nonlinear_arith)
            requires
                s == 3real * u,
                mu == most * u,
        ;
        assert(s * s <= 9real * u) by (nonlinear_arith)
            requires
                s == 3real * u,
                0real <= u <= 1real,
        ;
        assert(z == 6real * mu + 11real * u) by (nonlinear_arith)
            requires
                z == (6real * most + 11real) * u,
                mu == most * u,
        ;
    }
    let m3 = most + 3real;
    let ms = most + s;
    assert(ms * ms <= m3 * m3) by (nonlinear_arith)
        requires
            0real <= ms <= m3,
    ;
    let g = 6real * most + 11real;
    assert(d * z <= d * g && d * z == d * g * u && 0real <= d * z) by (nonlinear_arith)
        requires
            z == g * u,
            0real <= u <= 1real,
            d >= 0real,
            g >= 0real,
    ;
    lemma_squares_round(r, F::of_nat(0), 0real, 0real, means, c, s, most, z);
    let msq = squares_onto(F::of_nat(0), means);
    lemma_squares_bound(ps, dim, most);
    let f = (2real * d * k + 1real) * u;
    let dk = d * k;
    assert(2real * d * k == 2real * dk && dk >= 0real) by (nonlinear_arith)
        requires
            dk == d * k,
            d >= 0real,
            k >= 1real,
    ;
    assert(0real <= f <= 2real * dk + 1real) by (nonlinear_arith)
        requires
            f == (2real * dk + 1real) * u,
            dk >= 0real,
            0real <= u <= 1real,
    ;
    let sq = squares(ps);
    r.lemma_quot(w.sumsq, sq, f, n);
    let d2 = (2real * d + 1real) * u;
    assert(f / k <= d2) by {
        assert(f <= k * d2) by (nonlinear_arith)
            requires
                f == (2real * dk + 1real) * u,
                dk == d * k,
                d2 == (2real * d + 1real) * u,
                k >= 1real,
                u >= 0real,
        ;
        assert(f / k <= d2) by (nonlinear_arith)
            requires
                f <= k * d2,
                k >= 1real,
        ;
    }
    assert(d2 <= 2real * d + 1real) by (nonlinear_arith)
        requires
            d2 == (2real * d + 1real) * u,
            d >= 0real,
            0real <= u <= 1real,
    ;
    let ms2 = w.sumsq.quot(F::of_nat(n));
    assert(r.at(ms2, sq / k, d2 + u));
    let each = d * mm;
    let ke = k * each;
    assert(0real <= sq / k <= each) by (nonlinear_arith)
        requires
            0real <= sq <= ke,
            ke == k * each,
            k >= 1real,
    ;
    assert forall|i: int| 0 <= i < c.len() implies size(#[trigger] c[i]) <= most by {
        assert(r.at(means[i], c[i], 3real * u));
    }
    lemma_dot_bound(c, most);
    r.lemma_diff(ms2, sq / k, d2 + u, msq, 0real + dot(c, c), 0real + d * z);
    lemma_spread(ps, dim);
    let v = ms2.diff(msq);
    let t = variance_error(dim, most) * u;
    assert(d2 + u + d * z + u == t) by {
        assert(d2 == 2real * (d * u) + u) by (nonlinear_arith)
            requires
                d2 == (2real * d + 1real) * u,
        ;
        let du = d * u;
        let dg = d * g;
        assert(dg == 6real * (d * most) + 11real * d) by (nonlinear_arith)
            requires
                dg == d * g,
                g == 6real * most + 11real,
        ;
        assert(d * (6real * most + 13real) == dg + 2real * d) by (nonlinear_arith)
            requires
                dg == d * g,
                g == 6real * most + 11real,
        ;
        assert((dg + 2real * d + 3real) * u == dg * u + 2real * (d * u) + 3real * u)
            by (nonlinear_arith);
    }
    let zero = F::of_nat(0);
    assert(zero.le(v) <==> 0real <= (r.val)(v));
}

/// Merging gives what pushing the vectors of both in one pass gives, up to rounding: the
/// count is the same, every component of the centroid differs by at most eight units,
/// and the spread by at most a multiple of the unit that depends only on the dimension
/// and on how large the components are.
pub proof fn law_merge_matches_single_pass_up_to_rounding<F: Arith>(
    r: Rounding<F>,
    vs: Seq<Seq<F>>,
    us: Seq<Seq<F>>,
    dim: nat,
    most: real,
)
    requires
        r.holds(),
        most >= 0real,
        all_within(r, vs, dim, most),
        all_within(r, us, dim, most),
        vector_range(vs.len() + us.len(), dim, most) <= r.range,
    ensures
        ({
            let (a, w) = (clouded(vs, dim).joined(clouded(us, dim)), clouded(vs + us, dim));
            let some = vs.len() + us.len() > 0;
            &&& a.n == w.n
            &&& a.dim() == w.dim()
            &&& a.dim() == dim
            &&& (a.centroid_of() is Some <==> some) && (w.centroid_of() is Some <==> some)
            &&& (a.variance_of() is Some <==> some) && (w.variance_of() is Some <==> some)
            &&& forall|i: int|
                some && 0 <= i < dim ==> near(
                    (r.val)(#[trigger] a.centroid_of()->0[i]),
                    (r.val)(w.centroid_of()->0[i]),
                    8real * r.unit,
                )
            &&& some ==> near(
                (r.val)(a.variance_of()->0),
                (r.val)(w.variance_of()->0),
                2real * (variance_error(dim, most) * r.unit),
            )
        }),
{
    let u = r.unit;
    let (n, m) = (vs.len(), us.len());
    let all = vs + us;
    let (ps, qs) = (points(r, vs), points(r, us));
    assert forall|i: int| 0 <= i < all.len() implies (#[trigger] all[i]).len() == dim && is_within(
        r,
        all[i],
        most,
    ) by {
        if i < n {
            assert(all[i] == vs[i]);
            assert(vs[i].len() == dim);
        } else {
            assert(all[i] == us[i - n]);
            assert(us[i - n].len() == dim);
        }
    }
    lemma_points(r, vs, dim, most);
    lemma_points(r, us, dim, most);
    lemma_points(r, all, dim, most);
    assert(points(r, all) =~= ps + qs);
    lemma_clouded_rounds(r, vs, n + m, dim, most);
    lemma_clouded_rounds(r, us, n + m, dim, most);
    lemma_clouded_rounds(r, all, n + m, dim, most);
    let (a, w) = (clouded(vs, dim).joined(clouded(us, dim)), clouded(all, dim));
    lemma_merge_rounds(r, clouded(vs, dim), clouded(us, dim), ps, qs, dim, most);
    let (k, d) = ((n + m) as real, dim as real);
    assert(k * u <= (k + 1real) * u) by (nonlinear_arith)
        requires
            u >= 0real,
    ;
    let x = 2real * d * k;
    assert(x * u <= (x + 1real) * u) by (nonlinear_arith)
        requires
            u >= 0real,
    ;
    assert(holds_for(r, w, ps + qs, dim, k + 1real, x + 1real)) by {
        assert forall|i: int| 0 <= i < dim implies r.at(
            #[trigger] w.sum[i],
            column(ps + qs, i),
            (k + 1real) * u,
        ) by {
            assert(r.at(w.sum[i], column(ps + qs, i), k * u));
        }
    }
    if n + m > 0 {
        lemma_statistics_round(r, a, ps + qs, dim, most);
        lemma_statistics_round(r, w, ps + qs, dim, most);
        let mid = middle(ps + qs, dim);
        assert forall|i: int| 0 <= i < dim implies near(
            (r.val)(#[trigger] a.centroid_of()->0[i]),
            (r.val)(w.centroid_of()->0[i]),
            8real * u,
        ) by {
            assert(r.at(a.center()[i], mid[i], 4real * u));
            assert(r.at(w.center()[i], mid[i], 4real * u));
        }
    }
}

} // verus!
