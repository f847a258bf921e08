//! One consolidated bucket, of whichever kind.

use vstd::prelude::*;

use crate::arith::{Arith, Real};
use crate::categorical::{
    counts_addable, counts_joined, counts_total, lemma_addable_within, lemma_total_of_joined,
    Categorical,
};
use crate::clusters::{lemma_compacted_keeps, lemma_count_of_concat, Codebook, MicroCentroids};
use crate::vector::{Cloud, VecAccum};
use crate::welford::{Moments, Welford};

verus! {

/// What a slot remembers of its observations.
#[verifier::ext_equal]
pub enum Summary<F> {
    Scalar(Moments<F>),
    Categorical(Seq<u64>),
    Vector(Cloud<F>),
    Clusters(Codebook<F>),
}

/// What two slots must share to be merged, for good: the kind, and the size that
/// goes with it.
pub enum Shape {
    Scalar,
    Categorical { classes: nat },
    Vector { dim: nat },
    Clusters { k: nat, dim: nat },
}

impl<F: Arith> Summary<F> {
    pub open spec fn shape(self) -> Shape {
        match self {
            Summary::Scalar(_) => Shape::Scalar,
            Summary::Categorical(c) => Shape::Categorical { classes: c.len() },
            Summary::Vector(v) => Shape::Vector { dim: v.dim() },
            Summary::Clusters(b) => Shape::Clusters { k: b.k, dim: b.dim },
        }
    }

    /// The observations behind the slot.
    pub open spec fn count(self) -> nat {
        match self {
            Summary::Scalar(m) => m.n,
            Summary::Categorical(c) => counts_total(c),
            Summary::Vector(v) => v.n,
            Summary::Clusters(b) => b.count(),
        }
    }

    /// The observations can be counted, and a codebook keeps its bound.
    pub open spec fn wf(self) -> bool {
        &&& self.count() <= u64::MAX
        &&& self.bounded()
    }

    /// A codebook keeps its bound.
    pub open spec fn bounded(self) -> bool {
        self matches Summary::Clusters(b) ==> b.wf()
    }

    /// Whether merging is defined: the same kind and size, and no counter that
    /// would pass the largest count.
    pub open spec fn addable(self, other: Self) -> bool {
        match (self, other) {
            (Summary::Scalar(a), Summary::Scalar(b)) => a.n + b.n <= u64::MAX,
            (Summary::Categorical(a), Summary::Categorical(b)) => counts_addable(a, b),
            (Summary::Vector(a), Summary::Vector(b)) => a.dim() == b.dim() && a.n + b.n
                <= u64::MAX,
            (Summary::Clusters(a), Summary::Clusters(b)) => {
                a.wf() && b.wf() && a.dim == b.dim && a.count() + b.count() <= u64::MAX
            },
            _ => false,
        }
    }

    /// The observations of both.
    pub open spec fn joined(self, other: Self) -> Self {
        match (self, other) {
            (Summary::Scalar(a), Summary::Scalar(b)) => Summary::Scalar(a.joined(b)),
            (Summary::Categorical(a), Summary::Categorical(b)) => Summary::Categorical(
                counts_joined(a, b),
            ),
            (Summary::Vector(a), Summary::Vector(b)) => Summary::Vector(a.joined(b)),
            (Summary::Clusters(a), Summary::Clusters(b)) => Summary::Clusters(a.joined(b)),
            _ => self,
        }
    }
}

/// A merged slot keeps its shape, and counts the observations of both.
pub proof fn lemma_addable<F: Arith>(a: Summary<F>, b: Summary<F>)
    requires
        a.addable(b),
    ensures
        a.joined(b).shape() == a.shape(),
        a.joined(b).count() == a.count() + b.count(),
        a.joined(b).bounded(),
{
    match (a, b) {
        (Summary::Categorical(x), Summary::Categorical(y)) => {
            lemma_total_of_joined(x, y);
        },
        (Summary::Clusters(x), Summary::Clusters(y)) => {
            lemma_count_of_concat(x.items, y.items);
            let all = x.items + y.items;
            assert forall|t: int| 0 <= t < all.len() implies (#[trigger] all[t]).n > 0
                && all[t].dim() == x.dim by {
                if t >= x.items.len() {
                    assert(all[t] == y.items[t - x.items.len()]);
                }
            }
            lemma_compacted_keeps(all, x.k, x.dim);
        },
        _ => {},
    }
}

/// Slots of one shape can be merged as long as their observations can be counted
/// together, and the merged slot has that shape and counts them all.
pub proof fn lemma_joined<F: Arith>(a: Summary<F>, b: Summary<F>)
    requires
        a.wf(),
        b.wf(),
        a.shape() == b.shape(),
        a.count() + b.count() <= u64::MAX,
    ensures
        a.addable(b),
        a.joined(b).wf(),
        a.joined(b).shape() == a.shape(),
        a.joined(b).count() == a.count() + b.count(),
{
    match (a, b) {
        (Summary::Categorical(x), Summary::Categorical(y)) => {
            lemma_addable_within(x, y);
        },
        _ => {},
    }
    lemma_addable(a, b);
}

/// One consolidated bucket. Which variant a slot uses follows from the signal
/// type in the declaration.
#[derive(Debug)]
pub enum Slot<R> {
    Scalar(Welford<R>),
    Categorical(Categorical),
    Vector(VecAccum<R>),
    Clusters(MicroCentroids<R>),
}

impl<R> View for Slot<R> {
    type V = Summary<R>;

    open spec fn view(&self) -> Summary<R> {
        match self {
            Slot::Scalar(a) => Summary::Scalar(a@),
            Slot::Categorical(a) => Summary::Categorical(a@),
            Slot::Vector(a) => Summary::Vector(a@),
            Slot::Clusters(a) => Summary::Clusters(a@),
        }
    }
}

impl<R: Real> Clone for Slot<R> {
    fn clone(&self) -> (r: Self)
        ensures
            r@ == self@,
    {
        match self {
            Slot::Scalar(a) => Slot::Scalar(a.clone()),
            Slot::Categorical(a) => Slot::Categorical(a.clone()),
            Slot::Vector(a) => Slot::Vector(a.clone()),
            Slot::Clusters(a) => Slot::Clusters(a.clone()),
        }
    }
}

impl<R: Real> Slot<R> {
    pub fn merge(&mut self, other: &Slot<R>)
        requires
            old(self)@.addable(other@),
        ensures
            final(self)@ == old(self)@.joined(other@),
            final(self)@.shape() == old(self)@.shape(),
            final(self)@.count() == old(self)@.count() + other@.count(),
    {
        proof {
            lemma_addable(self@, other@);
        }
        match (self, other) {
            (Slot::Scalar(a), Slot::Scalar(b)) => a.merge(b),
            (Slot::Categorical(a), Slot::Categorical(b)) => a.merge(b),
            (Slot::Vector(a), Slot::Vector(b)) => a.merge(b),
            (Slot::Clusters(a), Slot::Clusters(b)) => a.merge(b),
            _ => {},
        }
    }

    /// Whether another slot is of the same kind and size, and can be merged without a
    /// counter passing what can be counted.
    pub fn can_merge(&self, other: &Slot<R>) -> (r: bool)
        requires
            self@.bounded(),
            other@.bounded(),
        ensures
            r == self@.addable(other@),
    {
        match (self, other) {
            (Slot::Scalar(a), Slot::Scalar(b)) => a.count() <= u64::MAX - b.count(),
            (Slot::Categorical(a), Slot::Categorical(b)) => a.can_merge(b),
            (Slot::Vector(a), Slot::Vector(b)) => a.dim() == b.dim() && a.count() <= u64::MAX
                - b.count(),
            (Slot::Clusters(a), Slot::Clusters(b)) => {
                let (x, y): (VecAccum<R>, VecAccum<R>) = (a.total(), b.total());
                x.dim() == y.dim() && x.count() <= u64::MAX - y.count()
            },
            _ => false,
        }
    }

    pub fn count(&self) -> (r: u64)
        requires
            self@.wf(),
        ensures
            r == self@.count(),
    {
        match self {
            Slot::Scalar(a) => a.count(),
            Slot::Categorical(a) => a.total(),
            Slot::Vector(a) => a.count(),
            Slot::Clusters(a) => a.total().count(),
        }
    }
}

/// What a slot that may be absent remembers.
pub open spec fn summary_of<R>(slot: Option<Slot<R>>) -> Option<Summary<R>> {
    match slot {
        Some(s) => Some(s@),
        None => None,
    }
}

/// A copy of a slot that may be absent.
pub(crate) fn copy_of<R: Real>(slot: &Option<Slot<R>>) -> (r: Option<Slot<R>>)
    ensures
        summary_of(r) == summary_of(*slot),
{
    match slot {
        Some(s) => Some(s.clone()),
        None => None,
    }
}

} // verus!
