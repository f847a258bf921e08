//! A codebook keeps its bound, and pairing its centroids loses nothing of the whole.

use vstd::prelude::*;

use crate::arith::Arith;
use crate::clusters::{
    all_filled, clouds_count, clouds_total, compacted, lemma_compacted_keeps,
    lemma_count_of_concat, lemma_nearest_is_a_pair, lemma_total_counts, nearest, nearest_before,
    paired, Codebook,
};
use crate::exact::Exact;
use crate::laws::scalars::ranks;
use crate::laws::vectors::{
    all_of_dim, dot, gathered, law_distance_is_over_all_components, lemma_squares_onto, less,
    lifted,
};
use crate::vector::{distance_sq, Cloud};

verus! {

/// The codebook that the vectors were pushed to, one after the other.
pub open spec fn booked<F: Arith>(vs: Seq<Seq<F>>, k: nat, dim: nat) -> Codebook<F>
    decreases vs.len(),
{
    if vs.len() == 0 {
        Codebook::none(k, dim)
    } else {
        booked(vs.drop_last(), k, dim).with(vs.last())
    }
}

/// Whether a cloud is made of real numbers, `dim` of them and a sum of squares.
pub open spec fn is_finite(c: Cloud<Exact>, dim: nat) -> bool {
    &&& c.sum.len() == dim
    &&& c.sumsq is Finite
    &&& forall|i: int| 0 <= i < dim ==> (#[trigger] c.sum[i]) is Finite
}

/// Whether every cloud is made of real numbers.
pub open spec fn all_finite(items: Seq<Cloud<Exact>>, dim: nat) -> bool {
    forall|i: int| 0 <= i < items.len() ==> is_finite(#[trigger] items[i], dim)
}

/// A number of every cloud, added up.
pub open spec fn tally<F>(items: Seq<Cloud<F>>, f: spec_fn(Cloud<F>) -> real) -> real
    decreases items.len(),
{
    if items.len() == 0 {
        0real
    } else {
        tally(items.drop_last(), f) + f(items.last())
    }
}

/// The `i`th component of the sum of a cloud.
pub open spec fn component(i: int) -> spec_fn(Cloud<Exact>) -> real {
    |c: Cloud<Exact>| c.sum[i]->Finite_0
}

/// The sum of the squares behind a cloud.
pub open spec fn weight() -> spec_fn(Cloud<Exact>) -> real {
    |c: Cloud<Exact>| c.sumsq->Finite_0
}

pub(crate) proof fn lemma_tally_push<F>(
    items: Seq<Cloud<F>>,
    c: Cloud<F>,
    f: spec_fn(Cloud<F>) -> real,
)
    ensures
        tally(items.push(c), f) == tally(items, f) + f(c),
{
    assert(items.push(c).drop_last() =~= items);
}

pub(crate) proof fn lemma_tally_remove<F>(
    items: Seq<Cloud<F>>,
    i: int,
    f: spec_fn(Cloud<F>) -> real,
)
    requires
        0 <= i < items.len(),
    ensures
        tally(items.remove(i), f) + f(items[i]) == tally(items, f),
    decreases items.len(),
{
    if i == items.len() - 1 {
        assert(items.remove(i) =~= items.drop_last());
    } else {
        lemma_tally_remove(items.drop_last(), i, f);
        assert(items.remove(i).drop_last() =~= items.drop_last().remove(i));
        assert(items.remove(i).last() == items.last());
    }
}

proof fn lemma_tally_concat(
    a: Seq<Cloud<Exact>>,
    b: Seq<Cloud<Exact>>,
    f: spec_fn(Cloud<Exact>) -> real,
)
    ensures
        tally(a + b, f) == tally(a, f) + tally(b, f),
    decreases b.len(),
{
    if b.len() == 0 {
        assert(a + b =~= a);
    } else {
        lemma_tally_concat(a, b.drop_last(), f);
        assert((a + b).drop_last() =~= a + b.drop_last());
    }
}

/// The total of finite clouds is finite, and its numbers are the sums of theirs.
proof fn lemma_total_tally(dim: nat, items: Seq<Cloud<Exact>>)
    requires
        all_finite(items, dim),
    ensures
        clouds_total(dim, items).sum == Seq::new(
            dim,
            |i: int| Exact::Finite(tally(items, component(i))),
        ),
        clouds_total(dim, items).sumsq == Exact::Finite(tally(items, weight())),
        clouds_total(dim, items).n == clouds_count(items),
    decreases items.len(),
{
    let sums = Seq::new(dim, |i: int| Exact::Finite(tally(items, component(i))));
    lemma_total_counts(dim, items);
    if items.len() > 0 {
        let before = items.drop_last();
        assert forall|i: int| 0 <= i < before.len() implies is_finite(
            #[trigger] before[i],
            dim,
        ) by {
            assert(before[i] == items[i]);
        }
        lemma_total_tally(dim, before);
        let last = items.last();
        assert(is_finite(items[items.len() - 1], dim));
        let all = clouds_total(dim, items);
        assert forall|i: int| 0 <= i < dim implies all.sum[i] == sums[i] by {
            assert(last.sum[i] is Finite);
        }
    }
    assert(clouds_total(dim, items).sum =~= sums);
}

/// Lists of clouds with the same sums have the same total.
proof fn lemma_same_total(dim: nat, a: Seq<Cloud<Exact>>, b: Seq<Cloud<Exact>>)
    requires
        all_finite(a, dim),
        all_finite(b, dim),
        clouds_count(a) == clouds_count(b),
        tally(a, weight()) == tally(b, weight()),
        forall|i: int|
            0 <= i < dim ==> tally(a, #[trigger] component(i)) == tally(b, component(i)),
    ensures
        clouds_total(dim, a) == clouds_total(dim, b),
{
    lemma_total_tally(dim, a);
    lemma_total_tally(dim, b);
    let (x, y) = (clouds_total(dim, a), clouds_total(dim, b));
    assert forall|i: int| 0 <= i < dim implies x.sum[i] == y.sum[i] by {
        assert(tally(a, component(i)) == tally(b, component(i)));
    }
    assert(x =~= y);
}

proof fn lemma_paired_total(dim: nat, items: Seq<Cloud<Exact>>)
    requires
        items.len() >= 2,
        all_finite(items, dim),
    ensures
        all_finite(paired(items), dim),
        clouds_total(dim, paired(items)) == clouds_total(dim, items),
{
    lemma_nearest_is_a_pair(items);
    let (i, j) = nearest(items);
    let rest = items.remove(j).remove(i);
    let (a, b) = (items[i], items[j]);
    let both = a.joined(b);
    let after = paired(items);
    assert(is_finite(items[i], dim) && is_finite(items[j], dim));
    assert(items.remove(j)[i] == a);
    assert forall|t: int| 0 <= t < dim implies (#[trigger] both.sum[t]) is Finite by {
        assert(a.sum[t] is Finite && b.sum[t] is Finite);
    }
    assert forall|t: int| 0 <= t < after.len() implies is_finite(#[trigger] after[t], dim) by {
        if t < rest.len() {
            let u = if t < i {
                t
            } else {
                t + 1
            };
            let w = if u < j {
                u
            } else {
                u + 1
            };
            assert(after[t] == items[w]);
        }
    }
    lemma_paired_tally(items, weight());
    assert forall|t: int| 0 <= t < dim implies tally(after, #[trigger] component(t)) == tally(
        items,
        component(t),
    ) by {
        assert(a.sum[t] is Finite && b.sum[t] is Finite);
        lemma_paired_tally(items, component(t));
    }
    lemma_paired_count(items);
    lemma_same_total(dim, after, items);
}

proof fn lemma_paired_tally(items: Seq<Cloud<Exact>>, f: spec_fn(Cloud<Exact>) -> real)
    requires
        items.len() >= 2,
        f(items[nearest(items).0].joined(items[nearest(items).1])) == f(items[nearest(items).0])
            + f(items[nearest(items).1]),
    ensures
        tally(paired(items), f) == tally(items, f),
{
    lemma_nearest_is_a_pair(items);
    let (i, j) = nearest(items);
    lemma_tally_remove(items, j, f);
    lemma_tally_remove(items.remove(j), i, f);
    lemma_tally_push(items.remove(j).remove(i), items[i].joined(items[j]), f);
    assert(items.remove(j)[i] == items[i]);
}

proof fn lemma_count_is_a_tally(items: Seq<Cloud<Exact>>)
    ensures
        clouds_count(items) as real == tally(items, |c: Cloud<Exact>| c.n as real),
    decreases items.len(),
{
    if items.len() > 0 {
        lemma_count_is_a_tally(items.drop_last());
    }
}

proof fn lemma_paired_count(items: Seq<Cloud<Exact>>)
    requires
        items.len() >= 2,
    ensures
        clouds_count(paired(items)) == clouds_count(items),
{
    let f = |c: Cloud<Exact>| c.n as real;
    lemma_paired_tally(items, f);
    lemma_count_is_a_tally(items);
    lemma_count_is_a_tally(paired(items));
}

proof fn lemma_compacted_total(dim: nat, items: Seq<Cloud<Exact>>, k: nat)
    requires
        all_finite(items, dim),
    ensures
        all_finite(compacted(items, k), dim),
        clouds_total(dim, compacted(items, k)) == clouds_total(dim, items),
    decreases items.len(),
{
    if k > 0 && items.len() > k {
        lemma_nearest_is_a_pair(items);
        lemma_paired_total(dim, items);
        lemma_compacted_total(dim, paired(items), k);
    }
}

/// Merging two codebooks merges their totals: which centroids were paired does not
/// show in the whole.
pub proof fn law_merge_keeps_the_total(a: Codebook<Exact>, b: Codebook<Exact>)
    requires
        a.dim == b.dim,
        all_finite(a.items, a.dim),
        all_finite(b.items, b.dim),
    ensures
        a.joined(b).total_of() == a.total_of().joined(b.total_of()),
        all_finite(a.joined(b).items, a.dim),
{
    let both = a.items + b.items;
    let dim = a.dim;
    assert forall|i: int| 0 <= i < both.len() implies is_finite(#[trigger] both[i], dim) by {
        if i < a.items.len() {
            assert(both[i] == a.items[i]);
        } else {
            assert(both[i] == b.items[i - a.items.len()]);
        }
    }
    lemma_compacted_total(dim, both, a.k);
    lemma_total_tally(dim, both);
    lemma_total_tally(dim, a.items);
    lemma_total_tally(dim, b.items);
    lemma_count_of_concat(a.items, b.items);
    lemma_tally_concat(a.items, b.items, weight());
    let (x, y) = (clouds_total(dim, both), a.total_of().joined(b.total_of()));
    assert forall|i: int| 0 <= i < dim implies x.sum[i] == y.sum[i] by {
        lemma_tally_concat(a.items, b.items, component(i));
    }
    assert(x =~= y);
}

proof fn lemma_none_with_finite(dim: nat, v: Seq<real>)
    requires
        v.len() == dim,
    ensures
        is_finite(Cloud::<Exact>::none(dim).with(lifted(v)), dim),
{
    lemma_squares_onto(0real, v);
}

/// A codebook's total is the accumulator of all the vectors that were pushed to it,
/// however they were paired.
pub proof fn law_total_is_of_all_vectors(vs: Seq<Seq<real>>, k: nat, dim: nat)
    requires
        all_of_dim(vs, dim),
    ensures
        booked(vs.map_values(|v: Seq<real>| lifted(v)), k, dim).total_of() == gathered(vs, dim),
        all_finite(booked(vs.map_values(|v: Seq<real>| lifted(v)), k, dim).items, dim),
        booked(vs.map_values(|v: Seq<real>| lifted(v)), k, dim).dim == dim,
    decreases vs.len(),
{
    let all = vs.map_values(|v: Seq<real>| lifted(v));
    if vs.len() > 0 {
        let before = vs.drop_last();
        let v = vs.last();
        assert forall|i: int| 0 <= i < before.len() implies (
        #[trigger] before[i]).len() == dim by {
            assert(before[i] == vs[i]);
        }
        assert(vs[vs.len() - 1].len() == dim);
        law_total_is_of_all_vectors(before, k, dim);
        assert(all.drop_last() =~= before.map_values(|v: Seq<real>| lifted(v)));
        let b = booked(all.drop_last(), k, dim);
        let one = Cloud::<Exact>::none(dim).with(lifted(v));
        let items = b.items.push(one);
        lemma_none_with_finite(dim, v);
        assert forall|i: int| 0 <= i < items.len() implies is_finite(#[trigger] items[i], dim) by {
            if i < b.items.len() {
                assert(items[i] == b.items[i]);
            }
        }
        lemma_compacted_total(dim, items, b.k);
        assert(items.drop_last() =~= b.items);
        lemma_total_tally(dim, b.items);
        let t = b.total_of();
        let q = tally(b.items, weight());
        lemma_squares_onto(0real, v);
        lemma_squares_onto(q, v);
        assert(t.joined(one) =~= t.with(lifted(v)));
    }
}

/// The total of a codebook counts the samples behind all of its clouds, and its sums are
/// the sums of theirs.
pub proof fn law_total_adds_up_the_clouds(b: Codebook<Exact>, i: int)
    requires
        all_finite(b.items, b.dim),
        0 <= i < b.dim,
    ensures
        b.total_of().sum.len() == b.dim,
        b.total_of().sum[i] == Exact::Finite(tally(b.items, component(i))),
        b.total_of().sumsq == Exact::Finite(tally(b.items, weight())),
        b.total_of().n as real == tally(b.items, |c: Cloud<Exact>| c.n as real),
        b.count() == b.total_of().n,
{
    lemma_total_tally(b.dim, b.items);
    lemma_count_is_a_tally(b.items);
}

/// Pairing replaces the two nearest clouds by their join, which comes last, and leaves the
/// others as they are and in order, in whatever arithmetic.
pub proof fn law_pairing_joins_two_and_leaves_the_others<F: Arith>(items: Seq<Cloud<F>>, t: int)
    requires
        items.len() >= 2,
    ensures
        ({
            let (x, y) = nearest(items);
            let after = paired(items);
            &&& 0 <= x < y < items.len()
            &&& after.len() == items.len() - 1
            &&& 0 <= t < x ==> after[t] == items[t]
            &&& x <= t < y - 1 ==> after[t] == items[t + 1]
            &&& y - 1 <= t < items.len() - 2 ==> after[t] == items[t + 2]
            &&& after.last().n == items[x].n + items[y].n
            &&& after.last().sumsq == items[x].sumsq.sum(items[y].sumsq)
            &&& after.last().sum.len() == items[x].sum.len()
            &&& forall|i: int|
                0 <= i < items[x].sum.len() ==> #[trigger] after.last().sum[i]
                    == items[x].sum[i].sum(items[y].sum[i])
        }),
{
    lemma_nearest_is_a_pair(items);
}

/// Compacting by one pairs once. Compacting by more goes one pairing at a time: stopping
/// on the way makes no difference.
pub proof fn law_compaction_pairs_one_at_a_time<F: Arith>(
    items: Seq<Cloud<F>>,
    j: nat,
    k: nat,
)
    requires
        0 < k <= j,
    ensures
        items.len() >= 2 ==> compacted(items, (items.len() - 1) as nat) == paired(items),
        compacted(compacted(items, j), k) == compacted(items, k),
    decreases items.len(),
{
    if items.len() >= 2 {
        lemma_nearest_is_a_pair(items);
        let less = (items.len() - 1) as nat;
        assert(paired(items).len() == less);
        assert(compacted(paired(items), less) == paired(items));
    }
    if items.len() > j {
        law_compaction_pairs_one_at_a_time(paired(items), j, k);
    }
}

/// A pushed vector is one more cloud, of that vector alone, behind the others. While there
/// is room for it that is all; where there is none, the clouds are compacted to the
/// bound. The bound and the dimension never change, in whatever arithmetic.
pub proof fn law_a_pushed_vector_is_one_more_cloud<F: Arith>(b: Codebook<F>, v: Seq<F>)
    requires
        v.len() == b.dim,
    ensures
        ({
            let zero = F::of_nat(0);
            let one = Cloud { n: 0, sum: Seq::new(b.dim, |i: int| zero), sumsq: zero };
            let all = b.items.push(one.with(v));
            &&& b.with(v).k == b.k && b.with(v).dim == b.dim
            &&& one.with(v).n == 1
            &&& b.with(v).items == compacted(all, b.k)
            &&& b.items.len() < b.k ==> b.with(v).items == all
            &&& Codebook::<F>::none(b.k, b.dim).items.len() == 0
            &&& Codebook::<F>::none(b.k, b.dim).k == b.k
            &&& Codebook::<F>::none(b.k, b.dim).dim == b.dim
        }),
{
}

/// The cloud of one vector is at that vector.
pub proof fn law_a_lone_vector_is_its_own_centroid(v: Seq<real>)
    ensures
        Cloud::<Exact>::none(v.len()).with(lifted(v)).centroid_of() == Some(lifted(v)),
{
    let c = Cloud::<Exact>::none(v.len()).with(lifted(v));
    assert forall|i: int| 0 <= i < v.len() implies c.center()[i] == lifted(v)[i] by {
        let x = v[i];
        assert(x / 1real == x) by (nonlinear_arith);
    }
    assert(c.center() =~= lifted(v));
}

/// Merging another codebook puts its clouds behind one's own, and compacts them to one's
/// own bound where they do not fit, in whatever arithmetic.
pub proof fn law_merging_puts_the_clouds_together<F: Arith>(a: Codebook<F>, b: Codebook<F>)
    ensures
        a.joined(b).k == a.k && a.joined(b).dim == a.dim,
        a.joined(b).items == compacted(a.items + b.items, a.k),
        a.items.len() + b.items.len() <= a.k ==> a.joined(b).items == a.items + b.items,
{
}

/// Compacting leaves the lesser of what there was and what there is room for. What fits
/// is left as it is; no sample is lost, and nothing is left without samples, in whatever
/// arithmetic.
pub proof fn law_compaction_leaves_what_fits<F: Arith>(
    items: Seq<Cloud<F>>,
    k: nat,
    dim: nat,
)
    requires
        k > 0,
        all_filled(items, dim),
    ensures
        compacted(items, k).len() == if items.len() < k {
            items.len()
        } else {
            k
        },
        items.len() <= k ==> compacted(items, k) == items,
        clouds_count(compacted(items, k)) == clouds_count(items),
        clouds_total(dim, compacted(items, k)).n == clouds_total(dim, items).n,
        all_filled(compacted(items, k), dim),
{
    lemma_compacted_keeps(items, k, dim);
    lemma_total_counts(dim, items);
    lemma_total_counts(dim, compacted(items, k));
}

/// Compacting keeps the total, and so the centroid and the spread of the whole.
pub proof fn law_compaction_keeps_the_total(items: Seq<Cloud<Exact>>, k: nat, dim: nat)
    requires
        all_finite(items, dim),
    ensures
        clouds_total(dim, compacted(items, k)) == clouds_total(dim, items),
        all_finite(compacted(items, k), dim),
{
    lemma_compacted_total(dim, items, k);
}

/// A codebook holds one centroid for each vector until its bound is reached, and never
/// more than that; and every vector pushed to it is counted, in whatever arithmetic.
pub proof fn law_codebook_is_bounded<F: Arith>(vs: Seq<Seq<F>>, k: nat, dim: nat)
    requires
        k > 0,
        forall|i: int| 0 <= i < vs.len() ==> (#[trigger] vs[i]).len() == dim,
    ensures
        booked(vs, k, dim).items.len() == if vs.len() < k {
            vs.len()
        } else {
            k
        },
        booked(vs, k, dim).count() == vs.len(),
        all_filled(booked(vs, k, dim).items, dim),
        booked(vs, k, dim).k == k,
        booked(vs, k, dim).dim == dim,
    decreases vs.len(),
{
    if vs.len() > 0 {
        let before = vs.drop_last();
        assert forall|i: int| 0 <= i < before.len() implies (
        #[trigger] before[i]).len() == dim by {
            assert(before[i] == vs[i]);
        }
        law_codebook_is_bounded(before, k, dim);
        let b = booked(before, k, dim);
        let one = Cloud::<F>::none(dim).with(vs.last());
        let items = b.items.push(one);
        assert(items.drop_last() =~= b.items);
        assert forall|t: int| 0 <= t < items.len() implies (#[trigger] items[t]).n > 0
            && items[t].dim() == dim by {
            if t < b.items.len() {
                assert(items[t] == b.items[t]);
            }
        }
        lemma_compacted_keeps(items, k, dim);
    }
}

/// Where a cloud of real numbers is: the sum of every component over the count.
pub open spec fn position(c: Cloud<Exact>) -> Seq<real> {
    Seq::new(c.sum.len(), |t: int| c.sum[t]->Finite_0 / (c.n as real))
}

/// The squared distance between two clouds, over all components.
pub open spec fn apart(items: Seq<Cloud<Exact>>, i: int, j: int) -> real {
    let d = less(position(items[i]), position(items[j]));
    dot(d, d)
}

proof fn lemma_apart(items: Seq<Cloud<Exact>>, dim: nat, i: int, j: int)
    requires
        all_finite(items, dim),
        all_filled(items, dim),
        0 <= i < items.len(),
        0 <= j < items.len(),
    ensures
        distance_sq(items[i].center(), items[j].center()) == Exact::Finite(apart(items, i, j)),
{
    let (a, b) = (items[i], items[j]);
    assert(is_finite(items[i], dim) && is_finite(items[j], dim));
    assert(items[i].n > 0 && items[j].n > 0);
    assert forall|t: int| 0 <= t < dim implies #[trigger] a.center()[t] == Exact::Finite(
        position(a)[t],
    ) && b.center()[t] == Exact::Finite(position(b)[t]) by {
        assert(a.sum[t] is Finite && b.sum[t] is Finite);
    }
    assert(a.center() =~= lifted(position(a)));
    assert(b.center() =~= lifted(position(b)));
    law_distance_is_over_all_components(position(a), position(b));
}

/// Whether the pair `(a, b)` comes before `(i, j)`: its first is earlier, or the same and
/// its second is.
pub open spec fn precedes(a: int, b: int, i: int, j: int) -> bool {
    a < i || a == i && b < j
}

/// How far apart two centroids are found to be.
pub open spec fn separation<F: Arith>(items: Seq<Cloud<F>>, a: int, b: int) -> F {
    distance_sq(items[a].center(), items[b].center())
}

/// Whether all separations are `good`, and none is less than itself.
pub open spec fn all_separate<F: Arith>(items: Seq<Cloud<F>>, good: spec_fn(F) -> bool) -> bool {
    &&& forall|a: int, b: int|
        0 <= a < b < items.len() ==> good(#[trigger] separation(items, a, b))
    &&& forall|x: F| #[trigger] good(x) ==> !x.lt(x)
}

proof fn lemma_first_before<F: Arith>(
    items: Seq<Cloud<F>>,
    good: spec_fn(F) -> bool,
    i: nat,
    j: nat,
    a: int,
    b: int,
)
    requires
        ranks(good),
        all_separate(items, good),
        i <= items.len(),
        j <= items.len(),
    ensures
        ({
            let best = nearest_before(items, i, j);
            let found = {
                &&& 0 <= best.0 < best.1 < items.len()
                &&& best.2 == separation(items, best.0, best.1)
                &&& precedes(best.0, best.1, i as int, j as int)
            };
            &&& found || best.2 == F::top()
            &&& 0 <= a < b < items.len() && precedes(a, b, i as int, j as int) ==> {
                &&& found
                &&& !separation(items, a, b).lt(best.2)
                &&& precedes(a, b, best.0, best.1) ==> best.2.lt(separation(items, a, b))
            }
        }),
    decreases i, j,
{
    if j <= i + 1 {
        if i > 0 {
            lemma_first_before(items, good, (i - 1) as nat, items.len(), a, b);
        }
    } else {
        lemma_first_before(items, good, i, (j - 1) as nat, a, b);
        let best = nearest_before(items, i, (j - 1) as nat);
        let (d, e) = (separation(items, i as int, j - 1), separation(items, a, b));
        assert(good(d));
        if 0 <= a < b < items.len() && precedes(a, b, i as int, j - 1) {
            assert(good(e) && good(best.2));
            if d.lt(best.2) {
                assert(!e.lt(d));
                assert(d.lt(e));
            }
        }
    }
}

/// The two centroids that are paired are the first of the nearest, in whatever
/// arithmetic ranks how far they are apart: no pair is nearer, and none that comes
/// before is as near.
pub proof fn law_the_first_of_the_nearest_are_paired<F: Arith>(
    items: Seq<Cloud<F>>,
    good: spec_fn(F) -> bool,
    a: int,
    b: int,
)
    requires
        ranks(good),
        all_separate(items, good),
        0 <= a < b < items.len(),
    ensures
        ({
            let (x, y) = nearest(items);
            &&& 0 <= x < y < items.len()
            &&& !separation(items, a, b).lt(separation(items, x, y))
            &&& precedes(a, b, x, y) ==> separation(items, x, y).lt(separation(items, a, b))
        }),
{
    lemma_first_before(items, good, items.len(), 0, a, b);
}

/// So they are in exact arithmetic.
pub proof fn law_the_nearest_are_paired(items: Seq<Cloud<Exact>>, dim: nat, a: int, b: int)
    requires
        all_finite(items, dim),
        all_filled(items, dim),
        0 <= a < b < items.len(),
    ensures
        0 <= nearest(items).0 < nearest(items).1 < items.len(),
        apart(items, nearest(items).0, nearest(items).1) <= apart(items, a, b),
        precedes(a, b, nearest(items).0, nearest(items).1) ==> apart(
            items,
            nearest(items).0,
            nearest(items).1,
        ) < apart(items, a, b),
{
    let good = |x: Exact| x is Finite;
    assert forall|c: int, d: int| 0 <= c < d < items.len() implies good(
        #[trigger] separation(items, c, d),
    ) by {
        lemma_apart(items, dim, c, d);
    }
    law_the_first_of_the_nearest_are_paired(items, good, a, b);
    lemma_apart(items, dim, a, b);
    lemma_apart(items, dim, nearest(items).0, nearest(items).1);
}

} // verus!
