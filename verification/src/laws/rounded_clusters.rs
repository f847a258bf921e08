//! Codebooks in an arithmetic that rounds: pairing centroids keeps the total, up to
//! rounding.

use vstd::prelude::*;

use crate::arith::Arith;
use crate::clusters::{
    all_filled, clouds_count, clouds_total, compacted, lemma_compacted_keeps,
    lemma_nearest_is_a_pair, lemma_paired_keeps, lemma_total_counts, nearest, paired,
};
use crate::laws::clusters::{lemma_tally_push, lemma_tally_remove, tally};
use crate::laws::rounding::{lemma_near_quot, near, size, Rounding};
use crate::vector::Cloud;

verus! {

/// What the `i`th component of the sum of a cloud stands for.
pub open spec fn part<F: Arith>(r: Rounding<F>, i: int) -> spec_fn(Cloud<F>) -> real {
    |c: Cloud<F>| (r.val)(c.sum[i])
}

/// How large it is.
pub open spec fn weight<F: Arith>(r: Rounding<F>, i: int) -> spec_fn(Cloud<F>) -> real {
    |c: Cloud<F>| size((r.val)(c.sum[i]))
}

/// Whether the sums of the clouds have `dim` components, which stand for numbers that
/// come to no more than `most` over all clouds.
pub open spec fn all_bounded<F: Arith>(
    r: Rounding<F>,
    items: Seq<Cloud<F>>,
    dim: nat,
    most: real,
) -> bool {
    &&& forall|t: int|
        0 <= t < items.len() ==> (#[trigger] items[t]).sum.len() == dim && is_good(r, items[t])
    &&& forall|i: int| 0 <= i < dim ==> tally(items, #[trigger] weight(r, i)) <= most
}

/// Whether the components of the sum of a cloud stand for numbers.
pub open spec fn is_good<F: Arith>(r: Rounding<F>, c: Cloud<F>) -> bool {
    forall|i: int| 0 <= i < c.sum.len() ==> (r.good)(#[trigger] c.sum[i])
}

proof fn lemma_tally_weight<F: Arith>(r: Rounding<F>, items: Seq<Cloud<F>>, i: int)
    ensures
        size(tally(items, part(r, i))) <= tally(items, weight(r, i)),
        0real <= tally(items, weight(r, i)),
    decreases items.len(),
{
    if items.len() > 0 {
        lemma_tally_weight(r, items.drop_last(), i);
    }
}

/// Pairing two clouds moves a sum by at most the unit.
proof fn lemma_pair_rounds<F: Arith>(
    r: Rounding<F>,
    items: Seq<Cloud<F>>,
    dim: nat,
    most: real,
)
    requires
        r.holds(),
        items.len() >= 2,
        all_bounded(r, items, dim, most),
        most <= r.range,
    ensures
        all_bounded(r, paired(items), dim, most + r.unit),
        forall|i: int|
            0 <= i < dim ==> near(
                tally(paired(items), #[trigger] part(r, i)),
                tally(items, part(r, i)),
                r.unit,
            ),
{
    lemma_nearest_is_a_pair(items);
    let (x, y) = nearest(items);
    let (a, b) = (items[x], items[y]);
    let less = items.remove(y);
    let rest = less.remove(x);
    let both = a.joined(b);
    let after = paired(items);
    assert(items[x].sum.len() == dim && items[y].sum.len() == dim);
    assert(less[x] == a);
    assert(is_good(r, items[x]) && is_good(r, items[y]));
    assert forall|i: int| 0 <= i < dim implies {
        &&& (r.good)(#[trigger] both.sum[i])
        &&& near(tally(after, part(r, i)), tally(items, part(r, i)), r.unit)
        &&& tally(after, weight(r, i)) <= most + r.unit
    } by {
        let (f, g) = (part(r, i), weight(r, i));
        lemma_tally_remove(items, y, f);
        lemma_tally_remove(less, x, f);
        lemma_tally_push(rest, both, f);
        lemma_tally_remove(items, y, g);
        lemma_tally_remove(less, x, g);
        lemma_tally_push(rest, both, g);
        lemma_tally_weight(r, rest, i);
        assert(tally(items, g) <= most);
        assert((r.good)(a.sum[i]) && (r.good)(b.sum[i]));
        assert(r.at(
            a.sum[i].sum(b.sum[i]),
            (r.val)(a.sum[i]) + (r.val)(b.sum[i]),
            r.unit,
        ));
    }
    assert forall|i: int| 0 <= i < dim implies near(
        tally(after, #[trigger] part(r, i)),
        tally(items, part(r, i)),
        r.unit,
    ) by {
        assert((r.good)(both.sum[i]));
    }
    assert forall|i: int| 0 <= i < dim implies tally(after, #[trigger] weight(r, i)) <= most
        + r.unit by {
        assert((r.good)(both.sum[i]));
    }
    assert forall|t: int| 0 <= t < after.len() implies (#[trigger] after[t]).sum.len() == dim
        && is_good(r, after[t]) by {
        if t < rest.len() {
            let u = if t < x {
                t
            } else {
                t + 1
            };
            let w = if u < y {
                u
            } else {
                u + 1
            };
            assert(after[t] == items[w]);
        }
    }
}

proof fn lemma_compaction_rounds<F: Arith>(
    r: Rounding<F>,
    items: Seq<Cloud<F>>,
    k: nat,
    dim: nat,
    most: real,
)
    requires
        r.holds(),
        k > 0,
        all_filled(items, dim),
        all_bounded(r, items, dim, most),
        most + (items.len() as real) * r.unit <= r.range,
    ensures
        ({
            let left = compacted(items, k);
            let e = ((items.len() - left.len()) as real) * r.unit;
            &&& left.len() <= items.len()
            &&& all_bounded(r, left, dim, most + e)
            &&& forall|i: int|
                0 <= i < dim ==> near(
                    tally(left, #[trigger] part(r, i)),
                    tally(items, part(r, i)),
                    e,
                )
        }),
    decreases items.len(),
{
    let u = r.unit;
    let left = compacted(items, k);
    lemma_compacted_keeps(items, k, dim);
    if items.len() > k {
        let (n, j) = (items.len() as real, (items.len() - 1) as real);
        assert(n == j + 1real);
        assert((j + 1real) * u == j * u + u && j * u >= 0real) by (nonlinear_arith)
            requires
                j >= 0real,
                u >= 0real,
        ;
        lemma_nearest_is_a_pair(items);
        lemma_pair_rounds(r, items, dim, most);
        lemma_paired_keeps(items, dim);
        lemma_compaction_rounds(r, paired(items), k, dim, most + u);
        lemma_compacted_keeps(paired(items), k, dim);
        let (p, q) = (
            (items.len() - left.len()) as real,
            (paired(items).len() - left.len()) as real,
        );
        assert(p == q + 1real);
        assert((q + 1real) * u == q * u + u) by (nonlinear_arith);
        assert forall|i: int| 0 <= i < dim implies near(
            tally(left, #[trigger] part(r, i)),
            tally(items, part(r, i)),
            p * u,
        ) by {
            assert(near(
                tally(left, part(r, i)),
                tally(paired(items), part(r, i)),
                q * u,
            ));
            assert(near(tally(paired(items), part(r, i)), tally(items, part(r, i)), u));
        }
    } else {
        assert(((items.len() - left.len()) as real) * u == 0real) by (nonlinear_arith)
            requires
                items.len() == left.len(),
        ;
    }
}

/// The total is the sum of the clouds, up to one unit for each.
proof fn lemma_total_rounds<F: Arith>(
    r: Rounding<F>,
    items: Seq<Cloud<F>>,
    dim: nat,
    i: int,
)
    requires
        r.holds(),
        0 <= i < dim,
        forall|t: int|
            0 <= t < items.len() ==> (#[trigger] items[t]).sum.len() == dim && is_good(
                r,
                items[t],
            ),
        tally(items, weight(r, i)) + (items.len() as real) * r.unit <= r.range,
        0real <= r.range,
    ensures
        clouds_total(dim, items).sum.len() == dim,
        r.at(
            clouds_total(dim, items).sum[i],
            tally(items, part(r, i)),
            (items.len() as real) * r.unit,
        ),
    decreases items.len(),
{
    let u = r.unit;
    lemma_total_counts(dim, items);
    if items.len() == 0 {
        assert(r.at(F::of_nat(0), 0real, 0real));
        assert(0real * u == 0real) by (nonlinear_arith);
    } else {
        let before = items.drop_last();
        let last = items[items.len() - 1];
        let j = before.len() as real;
        assert(items.len() as real == j + 1real);
        assert((j + 1real) * u == j * u + u && j * u >= 0real) by (nonlinear_arith)
            requires
                j >= 0real,
                u >= 0real,
        ;
        assert forall|t: int| 0 <= t < before.len() implies (#[trigger] before[t]).sum.len() == dim
            && is_good(r, before[t]) by {
            assert(before[t] == items[t]);
            assert(items[t].sum.len() == dim);
        }
        assert(last.sum.len() == dim && is_good(r, last));
        lemma_total_rounds(r, before, dim, i);
        lemma_tally_weight(r, before, i);
        assert((r.good)(last.sum[i]));
        r.lemma_sum(
            clouds_total(dim, before).sum[i],
            tally(before, part(r, i)),
            j * u,
            last.sum[i],
            (r.val)(last.sum[i]),
            0real,
        );
    }
}

proof fn lemma_count_at_least<F: Arith>(items: Seq<Cloud<F>>, dim: nat)
    requires
        all_filled(items, dim),
    ensures
        clouds_count(items) >= items.len(),
    decreases items.len(),
{
    if items.len() > 0 {
        let before = items.drop_last();
        assert forall|t: int| 0 <= t < before.len() implies (#[trigger] before[t]).n > 0
            && before[t].dim() == dim by {
            assert(before[t] == items[t]);
        }
        lemma_count_at_least(before, dim);
        assert(items[items.len() - 1].n > 0);
    }
}

/// Compacting keeps the total up to rounding: the count is the same, a component of the
/// sum differs by at most two units for each cloud there was, and one of the centroid by
/// at most six.
pub proof fn law_compaction_keeps_the_total_up_to_rounding<F: Arith>(
    r: Rounding<F>,
    items: Seq<Cloud<F>>,
    k: nat,
    dim: nat,
    most: real,
    i: int,
)
    requires
        r.holds(),
        k > 0,
        items.len() > 0,
        all_filled(items, dim),
        all_bounded(r, items, dim, most),
        most + (items.len() as real) + 1real <= r.range,
        clouds_count(items) as real <= r.range,
        0 <= i < dim,
    ensures
        ({
            let (a, w) = (clouds_total(dim, compacted(items, k)), clouds_total(dim, items));
            &&& a.n == w.n
            &&& near(
                (r.val)(a.sum[i]),
                (r.val)(w.sum[i]),
                2real * ((items.len() as real) * r.unit),
            )
            &&& near(
                (r.val)(a.centroid_of()->0[i]),
                (r.val)(w.centroid_of()->0[i]),
                6real * r.unit,
            )
        }),
{
    let u = r.unit;
    let left = compacted(items, k);
    let (a, w) = (clouds_total(dim, left), clouds_total(dim, items));
    lemma_compacted_keeps(items, k, dim);
    lemma_total_counts(dim, items);
    lemma_total_counts(dim, left);
    lemma_count_at_least(items, dim);
    lemma_tally_weight(r, items, i);
    assert(tally(items, weight(r, i)) <= most);
    let n = items.len() as real;
    let nu = n * u;
    assert(0real <= nu <= n) by (nonlinear_arith)
        requires
            nu == n * u,
            n >= 0real,
            0real <= u <= 1real,
    ;
    lemma_compaction_rounds(r, items, k, dim, most);
    let (p, q) = ((items.len() - left.len()) as real, left.len() as real);
    assert(n == p + q);
    assert(p * u + q * u == nu && p * u >= 0real && q * u >= 0real) by (nonlinear_arith)
        requires
            n == p + q,
            nu == n * u,
            p >= 0real,
            q >= 0real,
            u >= 0real,
    ;
    assert(tally(left, weight(r, i)) <= most + p * u);
    assert(near(tally(left, part(r, i)), tally(items, part(r, i)), p * u));
    lemma_total_rounds(r, items, dim, i);
    lemma_total_rounds(r, left, dim, i);
    let s = tally(items, part(r, i));
    assert(r.at(a.sum[i], s, nu) && r.at(w.sum[i], s, nu));
    let c = w.n;
    let cr = c as real;
    assert(cr >= n);
    let (x, y) = ((r.val)(a.sum[i]), (r.val)(w.sum[i]));
    r.lemma_quot(a.sum[i], x, 0real, c);
    r.lemma_quot(w.sum[i], y, 0real, c);
    assert(0real / cr == 0real) by (nonlinear_arith)
        requires
            cr >= 1real,
    ;
    lemma_near_quot(x, y, 2real * nu, cr);
    lemma_near_quot(y, y, 0real, cr);
    let t = 2real * u;
    assert((2real * nu) / cr <= t) by {
        assert(2real * nu <= cr * t) by (nonlinear_arith)
            requires
                nu == n * u,
                n <= cr,
                u >= 0real,
                t == 2real * u,
        ;
        let z = 2real * nu;
        assert(z / cr <= t) by (nonlinear_arith)
            requires
                z <= cr * t,
                cr >= 1real,
        ;
    }
    let (f, g) = (a.sum[i].quot(F::of_nat(c)), w.sum[i].quot(F::of_nat(c)));
    assert(r.at(f, x / cr, u) && r.at(g, y / cr, u));
    assert(r.at(f.single(), (r.val)(f), u));
    assert(r.at(g.single(), (r.val)(g), u));
    assert(a.center()[i] == f.single());
    assert(w.center()[i] == g.single());
}

} // verus!
