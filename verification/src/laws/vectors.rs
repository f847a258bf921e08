//! Vector accumulators are exact: merging them loses nothing.

use vstd::prelude::*;

use crate::arith::Arith;
use crate::exact::{is_root, lemma_root_of_zero, lemma_root_unique, Exact};
use crate::laws::scalars::{lemma_cancel, lemma_distribute, lemma_times_quotient};
use crate::vector::{distance_sq, offset, squares_onto, Cloud};

verus! {

/// Real numbers, as exact ones.
pub open spec fn lifted(v: Seq<real>) -> Seq<Exact> {
    Seq::new(v.len(), |i: int| Exact::Finite(v[i]))
}

/// The accumulator that the vectors were pushed to, one after the other.
pub open spec fn gathered(vs: Seq<Seq<real>>, dim: nat) -> Cloud<Exact>
    decreases vs.len(),
{
    if vs.len() == 0 {
        Cloud::none(dim)
    } else {
        gathered(vs.drop_last(), dim).with(lifted(vs.last()))
    }
}

pub open spec fn all_of_dim(vs: Seq<Seq<real>>, dim: nat) -> bool {
    forall|i: int| 0 <= i < vs.len() ==> (#[trigger] vs[i]).len() == dim
}

/// The sum of the `i`th components.
pub open spec fn column(vs: Seq<Seq<real>>, i: int) -> real
    decreases vs.len(),
{
    if vs.len() == 0 {
        0real
    } else {
        column(vs.drop_last(), i) + vs.last()[i]
    }
}

/// The scalar product of two vectors.
pub open spec fn dot(a: Seq<real>, b: Seq<real>) -> real
    decreases a.len(),
{
    if a.len() == 0 {
        0real
    } else {
        dot(a.drop_last(), b.drop_last()) + a.last() * b.last()
    }
}

/// The component-wise difference of two vectors.
pub open spec fn less(a: Seq<real>, b: Seq<real>) -> Seq<real> {
    Seq::new(a.len(), |i: int| a[i] - b[i])
}

/// The squares of all components of all vectors, added up.
pub open spec fn squares(vs: Seq<Seq<real>>) -> real
    decreases vs.len(),
{
    if vs.len() == 0 {
        0real
    } else {
        squares(vs.drop_last()) + dot(vs.last(), vs.last())
    }
}

/// The mean of the vectors.
pub open spec fn middle(vs: Seq<Seq<real>>, dim: nat) -> Seq<real> {
    Seq::new(dim, |i: int| column(vs, i) / (vs.len() as real))
}

/// The squared distances of the vectors from `c`, added up.
pub open spec fn scatter(vs: Seq<Seq<real>>, c: Seq<real>) -> real
    decreases vs.len(),
{
    if vs.len() == 0 {
        0real
    } else {
        scatter(vs.drop_last(), c) + dot(less(vs.last(), c), less(vs.last(), c))
    }
}

pub(crate) proof fn lemma_squares_onto(base: real, v: Seq<real>)
    ensures
        squares_onto(Exact::Finite(base), lifted(v)) == Exact::Finite(base + dot(v, v)),
    decreases v.len(),
{
    if v.len() > 0 {
        lemma_squares_onto(base, v.drop_last());
        assert(lifted(v).drop_last() =~= lifted(v.drop_last()));
    }
}

pub(crate) proof fn lemma_gathered(vs: Seq<Seq<real>>, dim: nat)
    requires
        all_of_dim(vs, dim),
    ensures
        gathered(vs, dim).n == vs.len(),
        gathered(vs, dim).sum == Seq::new(dim, |i: int| Exact::Finite(column(vs, i))),
        gathered(vs, dim).sumsq == Exact::Finite(squares(vs)),
    decreases vs.len(),
{
    let sums = Seq::new(dim, |i: int| Exact::Finite(column(vs, i)));
    if vs.len() == 0 {
        assert(gathered(vs, dim).sum =~= sums);
    } else {
        let before = vs.drop_last();
        assert forall|i: int| 0 <= i < before.len() implies (
        #[trigger] before[i]).len() == dim by {
            assert(before[i] == vs[i]);
        }
        lemma_gathered(before, dim);
        assert(vs[vs.len() - 1].len() == dim);
        lemma_squares_onto(squares(before), vs.last());
        assert(gathered(vs, dim).sum =~= sums);
    }
}

pub(crate) proof fn lemma_columns_concat(vs: Seq<Seq<real>>, ws: Seq<Seq<real>>, i: int)
    ensures
        column(vs + ws, i) == column(vs, i) + column(ws, i),
        squares(vs + ws) == squares(vs) + squares(ws),
    decreases ws.len(),
{
    if ws.len() == 0 {
        assert(vs + ws =~= vs);
    } else {
        lemma_columns_concat(vs, ws.drop_last(), i);
        assert((vs + ws).drop_last() =~= vs + ws.drop_last());
    }
}

pub(crate) proof fn lemma_dims_concat(vs: Seq<Seq<real>>, ws: Seq<Seq<real>>, dim: nat)
    requires
        all_of_dim(vs, dim),
        all_of_dim(ws, dim),
    ensures
        all_of_dim(vs + ws, dim),
{
    let all = vs + ws;
    assert forall|i: int| 0 <= i < all.len() implies (#[trigger] all[i]).len() == dim by {
        if i < vs.len() {
            assert(all[i] == vs[i]);
        } else {
            assert(all[i] == ws[i - vs.len()]);
        }
    }
}

/// Merging two accumulators gives what pushing the vectors of both in one pass gives.
pub proof fn law_merge_matches_single_pass(vs: Seq<Seq<real>>, ws: Seq<Seq<real>>, dim: nat)
    requires
        all_of_dim(vs, dim),
        all_of_dim(ws, dim),
    ensures
        gathered(vs, dim).joined(gathered(ws, dim)) == gathered(vs + ws, dim),
{
    lemma_dims_concat(vs, ws, dim);
    lemma_gathered(vs, dim);
    lemma_gathered(ws, dim);
    lemma_gathered(vs + ws, dim);
    let (a, b) = (gathered(vs, dim).joined(gathered(ws, dim)), gathered(vs + ws, dim));
    lemma_columns_concat(vs, ws, 0);
    assert forall|i: int| 0 <= i < dim implies a.sum[i] == b.sum[i] by {
        lemma_columns_concat(vs, ws, i);
    }
    assert(a =~= b);
}

/// Merging is associative: however the vectors are grouped up a ladder, the result
/// is the same.
pub proof fn law_merge_is_associative(
    us: Seq<Seq<real>>,
    vs: Seq<Seq<real>>,
    ws: Seq<Seq<real>>,
    dim: nat,
)
    requires
        all_of_dim(us, dim),
        all_of_dim(vs, dim),
        all_of_dim(ws, dim),
    ensures
        gathered(us, dim).joined(gathered(vs, dim)).joined(gathered(ws, dim)) == gathered(
            us,
            dim,
        ).joined(gathered(vs, dim).joined(gathered(ws, dim))),
{
    lemma_dims_concat(us, vs, dim);
    lemma_dims_concat(vs, ws, dim);
    law_merge_matches_single_pass(us, vs, dim);
    law_merge_matches_single_pass(us + vs, ws, dim);
    law_merge_matches_single_pass(vs, ws, dim);
    law_merge_matches_single_pass(us, vs + ws, dim);
    assert((us + vs) + ws =~= us + (vs + ws));
}

/// The centroid is the mean of the vectors.
pub proof fn law_centroid_is_the_mean(vs: Seq<Seq<real>>, dim: nat)
    requires
        all_of_dim(vs, dim),
        vs.len() > 0,
    ensures
        gathered(vs, dim).centroid_of() == Some(lifted(middle(vs, dim))),
{
    lemma_gathered(vs, dim);
    let c = gathered(vs, dim).center();
    assert(c =~= lifted(middle(vs, dim)));
}

proof fn lemma_dot_less(v: Seq<real>, c: Seq<real>)
    requires
        v.len() == c.len(),
    ensures
        dot(less(v, c), less(v, c)) == dot(v, v) - 2real * dot(v, c) + dot(c, c),
        dot(less(v, c), less(v, c)) >= 0real,
    decreases v.len(),
{
    if v.len() > 0 {
        lemma_dot_less(v.drop_last(), c.drop_last());
        assert(less(v, c).drop_last() =~= less(v.drop_last(), c.drop_last()));
        let (x, y) = (v.last(), c.last());
        assert((x - y) * (x - y) == x * x - 2real * (x * y) + y * y) by (nonlinear_arith);
        assert((x - y) * (x - y) >= 0real) by (nonlinear_arith);
    }
}

/// The scalar products of the vectors with `c`, added up.
spec fn dots(vs: Seq<Seq<real>>, c: Seq<real>) -> real
    decreases vs.len(),
{
    if vs.len() == 0 {
        0real
    } else {
        dots(vs.drop_last(), c) + dot(vs.last(), c)
    }
}

spec fn columns(vs: Seq<Seq<real>>, dim: nat) -> Seq<real> {
    Seq::new(dim, |i: int| column(vs, i))
}

proof fn lemma_dot_added(a: Seq<real>, b: Seq<real>, c: Seq<real>)
    requires
        a.len() == b.len() == c.len(),
    ensures
        dot(Seq::new(a.len(), |i: int| a[i] + b[i]), c) == dot(a, c) + dot(b, c),
    decreases a.len(),
{
    let both = Seq::new(a.len(), |i: int| a[i] + b[i]);
    if a.len() > 0 {
        let (x, y) = (a.drop_last(), b.drop_last());
        lemma_dot_added(x, y, c.drop_last());
        assert(both.drop_last() =~= Seq::new(x.len(), |i: int| x[i] + y[i]));
        lemma_distribute(c.last(), a.last(), b.last());
    }
}

proof fn lemma_dots(vs: Seq<Seq<real>>, c: Seq<real>)
    requires
        all_of_dim(vs, c.len()),
    ensures
        dots(vs, c) == dot(columns(vs, c.len()), c),
    decreases vs.len(),
{
    if vs.len() == 0 {
        lemma_dot_zero(columns(vs, c.len()), c);
    } else {
        let before = vs.drop_last();
        assert forall|i: int| 0 <= i < before.len() implies (
        #[trigger] before[i]).len() == c.len() by {
            assert(before[i] == vs[i]);
        }
        lemma_dots(before, c);
        assert(vs[vs.len() - 1].len() == c.len());
        let (a, b) = (columns(before, c.len()), vs.last());
        lemma_dot_added(a, b, c);
        assert(columns(vs, c.len()) =~= Seq::new(a.len(), |i: int| a[i] + b[i]));
    }
}

proof fn lemma_dot_zero(a: Seq<real>, b: Seq<real>)
    requires
        a.len() == b.len(),
        forall|i: int| 0 <= i < a.len() ==> #[trigger] a[i] == 0real,
    ensures
        dot(a, b) == 0real,
    decreases a.len(),
{
    if a.len() > 0 {
        let (x, y) = (a.drop_last(), b.drop_last());
        assert forall|i: int| 0 <= i < x.len() implies #[trigger] x[i] == 0real by {
            assert(x[i] == a[i]);
        }
        lemma_dot_zero(x, y);
        let z = b.last();
        assert(a[a.len() - 1] == 0real);
        assert(0real * z == 0real) by (nonlinear_arith);
    }
}

proof fn lemma_dot_scaled(a: Seq<real>, b: Seq<real>, k: real)
    requires
        a.len() == b.len(),
        forall|i: int| 0 <= i < a.len() ==> #[trigger] a[i] == k * b[i],
    ensures
        dot(a, b) == k * dot(b, b),
    decreases a.len(),
{
    if a.len() > 0 {
        let (x, y) = (a.drop_last(), b.drop_last());
        assert forall|i: int| 0 <= i < x.len() implies #[trigger] x[i] == k * y[i] by {
            assert(x[i] == a[i]);
        }
        lemma_dot_scaled(x, y, k);
        let z = b.last();
        assert(a[a.len() - 1] == k * z);
        assert((k * z) * z == k * (z * z)) by (nonlinear_arith);
        lemma_distribute(k, dot(y, y), z * z);
    } else {
        assert(k * 0real == 0real) by (nonlinear_arith);
    }
}

proof fn lemma_scatter(vs: Seq<Seq<real>>, c: Seq<real>)
    requires
        all_of_dim(vs, c.len()),
    ensures
        scatter(vs, c) == squares(vs) - 2real * dots(vs, c) + (vs.len() as real) * dot(c, c),
        scatter(vs, c) >= 0real,
    decreases vs.len(),
{
    if vs.len() == 0 {
        let z = dot(c, c);
        assert(0real * z == 0real) by (nonlinear_arith);
    } else {
        let before = vs.drop_last();
        assert forall|i: int| 0 <= i < before.len() implies (
        #[trigger] before[i]).len() == c.len() by {
            assert(before[i] == vs[i]);
        }
        lemma_scatter(before, c);
        assert(vs[vs.len() - 1].len() == c.len());
        lemma_dot_less(vs.last(), c);
        let k = before.len() as real;
        assert(vs.len() as real == k + 1real);
        lemma_distribute(dot(c, c), k, 1real);
        assert(dot(c, c) * k == k * dot(c, c));
    }
}

/// The mean square less the square of the mean is the mean squared distance.
pub(crate) proof fn lemma_spread(vs: Seq<Seq<real>>, dim: nat)
    requires
        all_of_dim(vs, dim),
        vs.len() > 0,
    ensures
        ({
            let c = middle(vs, dim);
            let k = vs.len() as real;
            &&& squares(vs) / k - dot(c, c) == scatter(vs, c) / k
            &&& scatter(vs, c) / k >= 0real
            &&& scatter(vs, c) >= 0real
        }),
{
    let c = middle(vs, dim);
    let k = vs.len() as real;
    lemma_scatter(vs, c);
    lemma_dots(vs, c);
    assert forall|i: int| 0 <= i < dim implies #[trigger] columns(vs, dim)[i] == k * c[i] by {
        lemma_times_quotient(column(vs, i), k);
    }
    lemma_dot_scaled(columns(vs, dim), c, k);
    let (q, z, t) = (squares(vs), dot(c, c), scatter(vs, c));
    assert(t == q - k * z);
    let v = q / k - z;
    assert(k * v == t) by {
        lemma_times_quotient(q, k);
        lemma_distribute(k, v, z);
    }
    lemma_times_quotient(t, k);
    lemma_cancel(k, v, t / k);
    assert(v >= 0real) by (nonlinear_arith)
        requires
            k > 0real,
            k * v == t,
            t >= 0real,
    ;
}

/// The spread is the mean squared distance of the vectors from their centroid.
pub proof fn law_spread_is_the_mean_squared_distance(vs: Seq<Seq<real>>, dim: nat)
    requires
        all_of_dim(vs, dim),
        vs.len() > 0,
    ensures
        gathered(vs, dim).variance_of() == Some(
            Exact::Finite(scatter(vs, middle(vs, dim)) / (vs.len() as real)),
        ),
        scatter(vs, middle(vs, dim)) >= 0real,
{
    lemma_gathered(vs, dim);
    let c = middle(vs, dim);
    assert(gathered(vs, dim).means() =~= lifted(c));
    lemma_squares_onto(0real, c);
    lemma_spread(vs, dim);
}

/// The squared distance of two points is the sum, over all their components, of the
/// squared differences.
pub proof fn law_distance_is_over_all_components(x: Seq<real>, y: Seq<real>)
    requires
        x.len() == y.len(),
    ensures
        distance_sq(lifted(x), lifted(y)) == Exact::Finite(dot(less(x, y), less(x, y))),
{
    assert(offset(lifted(x), lifted(y)) =~= lifted(less(x, y)));
    lemma_squares_onto(0real, less(x, y));
}

/// One more component adds the square of its difference to the squared distance, in
/// whatever arithmetic; and points without components are no distance apart.
pub proof fn law_each_component_adds_to_the_distance<F: Arith>(a: Seq<F>, b: Seq<F>, x: F, y: F)
    requires
        a.len() == b.len(),
    ensures
        distance_sq(Seq::<F>::empty(), Seq::empty()) == F::of_nat(0),
        distance_sq(a.push(x), b.push(y)) == distance_sq(a, b).sum(
            x.diff(y).single().prod(x.diff(y).single()),
        ),
{
    assert(offset(a.push(x), b.push(y)).drop_last() =~= offset(a, b));
    assert(offset(Seq::<F>::empty(), Seq::empty()) =~= Seq::empty());
}

/// The drift is the distance from the centroid to where it is measured from.
pub proof fn law_drift_is_the_distance_from_the_baseline(
    vs: Seq<Seq<real>>,
    dim: nat,
    from: Seq<real>,
    d: real,
)
    requires
        all_of_dim(vs, dim),
        vs.len() > 0,
        from.len() == dim,
        is_root(d, dot(less(middle(vs, dim), from), less(middle(vs, dim), from))),
    ensures
        gathered(vs, dim).drift_of(lifted(from)) == Some(Exact::Finite(d)),
{
    let c = middle(vs, dim);
    law_centroid_is_the_mean(vs, dim);
    law_distance_is_over_all_components(c, from);
    let q = dot(less(c, from), less(c, from));
    lemma_dot_less(c, from);
    lemma_root_unique(d, q);
}

/// An accumulator counts what is pushed and merged. Without vectors it has no centroid, no
/// spread and no drift, and otherwise its centroid is the sum over the count, component
/// by component and in single precision, and its drift the root of the squared distance,
/// in whatever arithmetic.
pub proof fn law_vectors_are_counted<F: Arith>(
    a: Cloud<F>,
    b: Cloud<F>,
    v: Seq<F>,
    baseline: Seq<F>,
    i: int,
)
    requires
        0 <= i < a.sum.len(),
        b.sum.len() == a.sum.len(),
        v.len() == a.sum.len(),
    ensures
        a.with(v).n == a.n + 1,
        a.joined(b).n == a.n + b.n,
        a.with(v).sum.len() == a.sum.len(),
        a.joined(b).sum.len() == a.sum.len(),
        a.dim() == a.sum.len(),
        a.with(v).sum[i] == a.sum[i].sum(v[i]),
        a.with(v).sumsq == squares_onto(a.sumsq, v),
        a.joined(b).sum[i] == a.sum[i].sum(b.sum[i]),
        a.joined(b).sumsq == a.sumsq.sum(b.sumsq),
        a.centroid_of() is Some <==> a.n > 0,
        a.variance_of() is Some <==> a.n > 0,
        a.drift_of(baseline) is Some <==> a.n > 0,
        a.centroid_of() matches Some(c) ==> {
            &&& c.len() == a.sum.len()
            &&& c == a.center()
            &&& c[i] == a.sum[i].quot(F::of_nat(a.n)).single()
            &&& a.drift_of(baseline) == Some(distance_sq(c, baseline).root())
        },
{
}

/// The spread is the mean square less the square of the mean, and nothing where that comes
/// out below zero, in whatever arithmetic.
pub proof fn law_spread_is_never_below_zero<F: Arith>(a: Cloud<F>)
    requires
        a.n > 0,
    ensures
        ({
            let n = F::of_nat(a.n);
            let means = a.sum.map_values(|x: F| x.quot(n));
            let v = a.sumsq.quot(n).diff(squares_onto(F::of_nat(0), means));
            &&& F::of_nat(0).le(v) ==> a.variance_of() == Some(v)
            &&& !F::of_nat(0).le(v) ==> a.variance_of() == Some(F::of_nat(0))
        }),
{
    assert(a.means() =~= a.sum.map_values(|x: F| x.quot(F::of_nat(a.n))));
}

/// The square of one more component is added to those before it, in whatever arithmetic.
pub proof fn law_squares_add_up<F: Arith>(base: F, v: Seq<F>, x: F)
    ensures
        squares_onto(base, Seq::<F>::empty()) == base,
        squares_onto(base, v.push(x)) == squares_onto(base, v).sum(x.prod(x)),
{
    assert(v.push(x).drop_last() =~= v);
}

/// Nothing has drifted from where it is.
pub proof fn law_no_drift_from_own_centroid(vs: Seq<Seq<real>>, dim: nat)
    requires
        all_of_dim(vs, dim),
        vs.len() > 0,
    ensures
        gathered(vs, dim).drift_of(gathered(vs, dim).centroid_of()->0) == Some(
            Exact::Finite(0real),
        ),
{
    law_centroid_is_the_mean(vs, dim);
    let c = middle(vs, dim);
    let d = less(c, c);
    assert(offset(lifted(c), lifted(c)) =~= lifted(d));
    lemma_squares_onto(0real, d);
    lemma_dot_zero(d, d);
    lemma_root_of_zero();
}

} // verus!
