//! A bounded codebook of weighted centroids.

use vstd::prelude::*;

use crate::arith::{Arith, Real};
use crate::vector::{distance_sq, gap, Cloud, VecAccum};

verus! {

/// The samples behind all of `items`.
pub open spec fn clouds_count<F>(items: Seq<Cloud<F>>) -> nat
    decreases items.len(),
{
    if items.len() == 0 {
        0
    } else {
        clouds_count(items.drop_last()) + items.last().n
    }
}

/// All of `items`, joined in order to no samples of `dim` components.
pub open spec fn clouds_total<F: Arith>(dim: nat, items: Seq<Cloud<F>>) -> Cloud<F>
    decreases items.len(),
{
    if items.len() == 0 {
        Cloud::none(dim)
    } else {
        clouds_total(dim, items.drop_last()).joined(items.last())
    }
}

/// The nearest pair among those before `(i, j)`, where pairs `(a, b)` with
/// `a < b` are gone through row by row. A later pair displaces an earlier one
/// only where it is strictly nearer.
pub open spec fn nearest_before<F: Arith>(items: Seq<Cloud<F>>, i: nat, j: nat) -> (int, int, F)
    decreases i, j,
{
    if j <= i + 1 {
        if i == 0 {
            (0, 1, F::top())
        } else {
            nearest_before(items, (i - 1) as nat, items.len())
        }
    } else {
        let best = nearest_before(items, i, (j - 1) as nat);
        let d = distance_sq(items[i as int].center(), items[j - 1].center());
        if d.lt(best.2) {
            (i as int, j - 1, d)
        } else {
            best
        }
    }
}

/// The nearest pair of all.
pub open spec fn nearest<F: Arith>(items: Seq<Cloud<F>>) -> (int, int) {
    let best = nearest_before(items, items.len(), 0);
    (best.0, best.1)
}

/// The items with the nearest pair replaced by its join, which comes last.
pub open spec fn paired<F: Arith>(items: Seq<Cloud<F>>) -> Seq<Cloud<F>> {
    let (i, j) = nearest(items);
    items.remove(j).remove(i).push(items[i].joined(items[j]))
}

/// The items, paired until no more than `k` of them are left.
pub open spec fn compacted<F: Arith>(items: Seq<Cloud<F>>, k: nat) -> Seq<Cloud<F>>
    decreases items.len(),
{
    if k == 0 || items.len() <= k {
        items
    } else {
        proof {
            lemma_nearest_is_a_pair(items);
        }
        compacted(paired(items), k)
    }
}

/// What a codebook holds: at most `k` clouds of `dim` components.
#[verifier::ext_equal]
pub struct Codebook<F> {
    pub k: nat,
    pub dim: nat,
    pub items: Seq<Cloud<F>>,
}

/// Whether every item has samples, of `dim` components.
pub open spec fn all_filled<F: Arith>(items: Seq<Cloud<F>>, dim: nat) -> bool {
    forall|i: int| 0 <= i < items.len() ==> (#[trigger] items[i]).n > 0 && items[i].dim() == dim
}

impl<F: Arith> Codebook<F> {
    pub open spec fn none(k: nat, dim: nat) -> Self {
        Codebook { k, dim, items: Seq::empty() }
    }

    /// The bound is kept, and there is nothing in the book without samples.
    pub open spec fn wf(self) -> bool {
        &&& self.k > 0
        &&& self.items.len() <= self.k
        &&& all_filled(self.items, self.dim)
        &&& clouds_count(self.items) <= u64::MAX
    }

    /// The samples behind the book.
    pub open spec fn count(self) -> nat {
        clouds_count(self.items)
    }

    pub open spec fn with(self, v: Seq<F>) -> Self {
        Codebook {
            items: compacted(self.items.push(Cloud::none(self.dim).with(v)), self.k),
            ..self
        }
    }

    pub open spec fn joined(self, other: Self) -> Self {
        Codebook { items: compacted(self.items + other.items, self.k), ..self }
    }

    /// The book as one cloud.
    pub open spec fn total_of(self) -> Cloud<F> {
        clouds_total(self.dim, self.items)
    }
}

proof fn lemma_nearest_before_is_a_pair<F: Arith>(items: Seq<Cloud<F>>, i: nat, j: nat)
    requires
        items.len() >= 2,
        i <= items.len(),
        j <= items.len(),
    ensures
        0 <= nearest_before(items, i, j).0 < nearest_before(items, i, j).1 < items.len(),
    decreases i, j,
{
    if j <= i + 1 {
        if i > 0 {
            lemma_nearest_before_is_a_pair(items, (i - 1) as nat, items.len());
        }
    } else {
        lemma_nearest_before_is_a_pair(items, i, (j - 1) as nat);
    }
}

/// The nearest pair is made of two different items.
pub proof fn lemma_nearest_is_a_pair<F: Arith>(items: Seq<Cloud<F>>)
    requires
        items.len() >= 2,
    ensures
        0 <= nearest(items).0 < nearest(items).1 < items.len(),
        paired(items).len() == items.len() - 1,
{
    lemma_nearest_before_is_a_pair(items, items.len(), 0);
}

proof fn lemma_count_of_push<F>(items: Seq<Cloud<F>>, c: Cloud<F>)
    ensures
        clouds_count(items.push(c)) == clouds_count(items) + c.n,
{
    assert(items.push(c).drop_last() =~= items);
}

proof fn lemma_count_of_remove<F>(items: Seq<Cloud<F>>, i: int)
    requires
        0 <= i < items.len(),
    ensures
        clouds_count(items.remove(i)) + items[i].n == clouds_count(items),
    decreases items.len(),
{
    if i == items.len() - 1 {
        assert(items.remove(i) =~= items.drop_last());
    } else {
        lemma_count_of_remove(items.drop_last(), i);
        assert(items.remove(i).drop_last() =~= items.drop_last().remove(i));
        assert(items.remove(i).last() == items.last());
    }
}

/// The samples behind two lists of items are those behind both.
pub proof fn lemma_count_of_concat<F>(a: Seq<Cloud<F>>, b: Seq<Cloud<F>>)
    ensures
        clouds_count(a + b) == clouds_count(a) + clouds_count(b),
    decreases b.len(),
{
    if b.len() == 0 {
        assert(a + b =~= a);
    } else {
        lemma_count_of_concat(a, b.drop_last());
        assert((a + b).drop_last() =~= a + b.drop_last());
    }
}

pub proof fn lemma_paired_keeps<F: Arith>(items: Seq<Cloud<F>>, dim: nat)
    requires
        items.len() >= 2,
        all_filled(items, dim),
    ensures
        all_filled(paired(items), dim),
        clouds_count(paired(items)) == clouds_count(items),
        items[nearest(items).0].n + items[nearest(items).1].n <= clouds_count(items),
{
    lemma_nearest_is_a_pair(items);
    let (i, j) = nearest(items);
    let rest = items.remove(j).remove(i);
    lemma_count_of_remove(items, j);
    lemma_count_of_remove(items.remove(j), i);
    lemma_count_of_push(rest, items[i].joined(items[j]));
    let after = paired(items);
    assert forall|t: int| 0 <= t < after.len() implies (#[trigger] after[t]).n > 0
        && after[t].dim() == dim by {
        if t < rest.len() {
            let u = if t < i {
                t
            } else {
                t + 1
            };
            let w = if u < j {
                u
            } else {
                u + 1
            };
            assert(after[t] == items[w]);
        }
    }
}

/// Pairing leaves as many items as there is room for, and loses no sample.
pub proof fn lemma_compacted_keeps<F: Arith>(items: Seq<Cloud<F>>, k: nat, dim: nat)
    requires
        k > 0,
        all_filled(items, dim),
    ensures
        compacted(items, k).len() == if items.len() < k {
            items.len()
        } else {
            k
        },
        all_filled(compacted(items, k), dim),
        clouds_count(compacted(items, k)) == clouds_count(items),
    decreases items.len(),
{
    if items.len() > k {
        lemma_nearest_is_a_pair(items);
        lemma_paired_keeps(items, dim);
        lemma_compacted_keeps(paired(items), k, dim);
    }
}

/// The total counts the samples behind the items, and has their dimension.
pub proof fn lemma_total_counts<F: Arith>(dim: nat, items: Seq<Cloud<F>>)
    ensures
        clouds_total(dim, items).n == clouds_count(items),
        clouds_total(dim, items).dim() == dim,
    decreases items.len(),
{
    if items.len() > 0 {
        lemma_total_counts(dim, items.drop_last());
    }
}

/// The models of a list of accumulators.
pub open spec fn clouds<R>(items: Seq<VecAccum<R>>) -> Seq<Cloud<R>> {
    items.map_values(|a: VecAccum<R>| a@)
}

proof fn lemma_clouds_of_push<R>(items: Seq<VecAccum<R>>, a: VecAccum<R>)
    ensures
        clouds(items.push(a)) == clouds(items).push(a@),
{
    assert(clouds(items.push(a)) =~= clouds(items).push(a@));
}

/// A bounded set of weighted micro-centroids, so cluster structure survives
/// consolidation.
///
/// Merging is a greedy pairing on centroid distance followed by a weighted
/// combine — a streaming centroidal-tessellation step over a fixed codebook.
/// This is the one place the algebra is lossy: the result depends on merge
/// order, so cluster counts derived from it are approximate and must be declared
/// so.
#[derive(Debug)]
pub struct MicroCentroids<R> {
    k: usize,
    dim: usize,
    items: Vec<VecAccum<R>>,
}

impl<R> View for MicroCentroids<R> {
    type V = Codebook<R>;

    closed spec fn view(&self) -> Codebook<R> {
        Codebook { k: self.k as nat, dim: self.dim as nat, items: clouds(self.items@) }
    }
}

impl<R: Real> Clone for MicroCentroids<R> {
    fn clone(&self) -> (r: Self)
        ensures
            r@ == self@,
    {
        let n: usize = self.items.len();
        let mut items: Vec<VecAccum<R>> = Vec::new();
        let mut i: usize = 0;
        while i < n
            invariant
                i <= n == self.items.len(),
                clouds(items@) == clouds(self.items@).take(i as int),
            decreases n - i,
        {
            let a: VecAccum<R> = self.items[i].clone();
            proof {
                lemma_clouds_of_push(items@, a);
                assert(clouds(self.items@).take(i as int).push(a@) =~= clouds(self.items@).take(
                    i + 1,
                ));
            }
            items.push(a);
            i = i + 1;
        }
        assert(clouds(self.items@).take(n as int) =~= clouds(self.items@));
        MicroCentroids { k: self.k, dim: self.dim, items }
    }
}

impl<R: Real> MicroCentroids<R> {
    pub fn new(k: usize, dim: usize) -> (r: Self)
        requires
            k > 0,
        ensures
            r@ == Codebook::<R>::none(k as nat, dim as nat),
            r@.wf(),
    {
        let items: Vec<VecAccum<R>> = Vec::new();
        assert(clouds(items@) =~= Seq::<Cloud<R>>::empty());
        MicroCentroids { k, dim, items }
    }

    pub fn push(&mut self, v: &[R])
        requires
            old(self)@.wf(),
            v@.len() == old(self)@.dim,
            old(self)@.count() < u64::MAX,
        ensures
            final(self)@ == old(self)@.with(v@),
            final(self)@.wf(),
            final(self)@.count() == old(self)@.count() + 1,
    {
        let mut a: VecAccum<R> = VecAccum::new(self.dim);
        a.push(v);
        let ghost before = clouds(self.items@);
        let ghost added = a@;
        self.items.push(a);
        proof {
            assert(clouds(self.items@) =~= before.push(added));
            lemma_count_of_push(before, added);
        }
        self.compact();
    }

    pub fn merge(&mut self, other: &MicroCentroids<R>)
        requires
            old(self)@.wf(),
            other@.wf(),
            old(self)@.dim == other@.dim,
            old(self)@.count() + other@.count() <= u64::MAX,
        ensures
            final(self)@ == old(self)@.joined(other@),
            final(self)@.wf(),
            final(self)@.count() == old(self)@.count() + other@.count(),
    {
        let ghost before = clouds(self.items@);
        let ghost theirs = clouds(other.items@);
        let ghost (k, dim) = (self.k, self.dim);
        let n: usize = other.items.len();
        let mut i: usize = 0;
        while i < n
            invariant
                i <= n == other.items.len(),
                self.k == k,
                self.dim == dim,
                theirs == clouds(other.items@),
                clouds(self.items@) == before + theirs.take(i as int),
            decreases n - i,
        {
            let a: VecAccum<R> = other.items[i].clone();
            proof {
                lemma_clouds_of_push(self.items@, a);
                assert((before + theirs.take(i as int)).push(a@) =~= before + theirs.take(i + 1));
            }
            self.items.push(a);
            i = i + 1;
        }
        proof {
            assert(theirs.take(n as int) =~= theirs);
            lemma_count_of_concat(before, theirs);
            let all = before + theirs;
            assert forall|t: int| 0 <= t < all.len() implies (#[trigger] all[t]).n > 0
                && all[t].dim() == dim by {
                if t >= before.len() {
                    assert(all[t] == theirs[t - before.len()]);
                }
            }
        }
        self.compact();
    }

    pub fn len(&self) -> (r: usize)
        ensures
            r == self@.items.len(),
    {
        self.items.len()
    }

    pub fn is_empty(&self) -> (r: bool)
        ensures
            r == (self@.items.len() == 0),
    {
        self.items.len() == 0
    }

    /// Every micro-centroid with the number of samples behind it.
    pub fn centroids(&self) -> (r: Vec<(u64, Vec<R>)>)
        requires
            self@.wf(),
        ensures
            r@.len() == self@.items.len(),
            forall|i: int|
                0 <= i < r@.len() ==> (#[trigger] r@[i]).0 == self@.items[i].n && r@[i].1@
                    == self@.items[i].center(),
    {
        let n: usize = self.items.len();
        let mut out: Vec<(u64, Vec<R>)> = Vec::new();
        let mut i: usize = 0;
        while i < n
            invariant
                i <= n == self.items.len(),
                self@.wf(),
                out@.len() == i,
                forall|t: int|
                    0 <= t < i ==> (#[trigger] out@[t]).0 == self@.items[t].n && out@[t].1@
                        == self@.items[t].center(),
            decreases n - i,
        {
            assert(self@.items[i as int] == self.items@[i as int]@);
            match self.items[i].centroid() {
                Some(c) => {
                    out.push((self.items[i].count(), c));
                },
                None => {},
            }
            i = i + 1;
        }
        out
    }

    /// Collapses to the single overall accumulator. Exact — the total is
    /// unaffected by how the micro-centroids were paired.
    pub fn total(&self) -> (r: VecAccum<R>)
        requires
            self@.wf(),
        ensures
            r@ == self@.total_of(),
            r@.n == self@.count(),
            r@.dim() == self@.dim,
    {
        let n: usize = self.items.len();
        let ghost all = clouds(self.items@);
        let mut out: VecAccum<R> = VecAccum::new(self.dim);
        let mut i: usize = 0;
        assert(all.take(0) =~= Seq::<Cloud<R>>::empty());
        while i < n
            invariant
                i <= n == self.items.len(),
                self@.wf(),
                all == clouds(self.items@),
                out@ == clouds_total(self.dim as nat, all.take(i as int)),
            decreases n - i,
        {
            proof {
                assert(all.take(i + 1).drop_last() =~= all.take(i as int));
                assert(all.take(i + 1).last() == self.items@[i as int]@);
                lemma_total_counts(self.dim as nat, all.take(i as int));
                lemma_count_of_concat(all.take(i + 1), all.skip(i + 1));
                assert(all.take(i + 1) + all.skip(i + 1) =~= all);
                assert(self@.items[i as int].dim() == self.dim);
            }
            out.merge(&self.items[i]);
            i = i + 1;
        }
        proof {
            assert(all.take(n as int) =~= all);
            lemma_total_counts(self.dim as nat, all);
        }
        out
    }

    fn compact(&mut self)
        requires
            old(self)@.k > 0,
            all_filled(old(self)@.items, old(self)@.dim),
            clouds_count(old(self)@.items) <= u64::MAX,
        ensures
            final(self)@ == (Codebook {
                items: compacted(old(self)@.items, old(self)@.k),
                ..old(self)@
            }),
            final(self)@.wf(),
            final(self)@.count() == clouds_count(old(self)@.items),
            final(self)@.items.len() == if old(self)@.items.len() < old(self)@.k {
                old(self)@.items.len()
            } else {
                old(self)@.k
            },
    {
        let ghost start = self@;
        proof {
            lemma_compacted_keeps(start.items, start.k, start.dim);
        }
        while self.items.len() > self.k
            invariant
                self@.k == start.k,
                self@.dim == start.dim,
                start.k > 0,
                all_filled(self@.items, start.dim),
                clouds_count(self@.items) <= u64::MAX,
                compacted(self@.items, start.k) == compacted(start.items, start.k),
            decreases self.items.len(),
        {
            let ghost items = self@.items;
            proof {
                lemma_nearest_is_a_pair(items);
                lemma_paired_keeps(items, start.dim);
            }
            let (i, j): (usize, usize) = self.closest_pair();
            proof {
                assert(items[i as int] == self.items@[i as int]@);
                assert(items[j as int] == self.items@[j as int]@);
                assert(items[i as int].dim() == items[j as int].dim());
            }
            let mut merged: VecAccum<R> = self.items[i].clone();
            merged.merge(&self.items[j]);
            // Remove the higher index first so the lower one stays valid.
            self.items.remove(j);
            self.items.remove(i);
            self.items.push(merged);
            assert(self@.items =~= paired(items));
        }
    }

    fn closest_pair(&self) -> (r: (usize, usize))
        requires
            self@.items.len() >= 2,
            all_filled(self@.items, self@.dim),
        ensures
            (r.0 as int, r.1 as int) == nearest(self@.items),
            r.0 < r.1 < self@.items.len(),
    {
        let n: usize = self.items.len();
        let ghost items = self@.items;
        let mut cs: Vec<Vec<R>> = Vec::new();
        let mut t: usize = 0;
        while t < n
            invariant
                t <= n == self.items.len(),
                items == self@.items,
                all_filled(items, self@.dim),
                cs@.len() == t,
                forall|u: int| 0 <= u < t ==> (#[trigger] cs@[u])@ == items[u].center(),
            decreases n - t,
        {
            assert(items[t as int] == self.items@[t as int]@);
            match self.items[t].centroid() {
                Some(c) => {
                    cs.push(c);
                },
                None => {},
            }
            t = t + 1;
        }
        let mut a: usize = 0;
        let mut b: usize = 1;
        let mut near = R::highest();
        let mut i: usize = 0;
        while i < n
            invariant
                i <= n == items.len(),
                n >= 2,
                cs@.len() == n,
                forall|u: int| 0 <= u < n ==> (#[trigger] cs@[u])@ == items[u].center(),
                forall|u: int| 0 <= u < n ==> (#[trigger] items[u]).dim() == self@.dim,
                (a as int, b as int, near) == nearest_before(items, i as nat, 0),
            decreases n - i,
        {
            let mut j: usize = i + 1;
            assert(nearest_before(items, i as nat, j as nat) == nearest_before(
                items,
                i as nat,
                0,
            ));
            while j < n
                invariant
                    i < n == items.len(),
                    i < j <= n,
                    cs@.len() == n,
                    forall|u: int| 0 <= u < n ==> (#[trigger] cs@[u])@ == items[u].center(),
                    forall|u: int| 0 <= u < n ==> (#[trigger] items[u]).dim() == self@.dim,
                    (a as int, b as int, near) == nearest_before(items, i as nat, j as nat),
                decreases n - j,
            {
                assert(cs@[i as int]@ == items[i as int].center());
                assert(cs@[j as int]@ == items[j as int].center());
                assert(items[i as int].dim() == items[j as int].dim());
                let d = gap(cs[i].as_slice(), cs[j].as_slice());
                if d.less(near) {
                    a = i;
                    b = j;
                    near = d;
                }
                j = j + 1;
            }
            assert(nearest_before(items, (i + 1) as nat, 0) == nearest_before(
                items,
                i as nat,
                items.len(),
            ));
            i = i + 1;
        }
        proof {
            lemma_nearest_is_a_pair(items);
        }
        (a, b)
    }
}

} // verus!
