//! Running statistics of an embedding signal.

use vstd::prelude::*;

use crate::arith::{Arith, Real};

verus! {

/// The squares of the components of `v`, added to `base` from the first on.
pub open spec fn squares_onto<F: Arith>(base: F, v: Seq<F>) -> F
    decreases v.len(),
{
    if v.len() == 0 {
        base
    } else {
        squares_onto(base, v.drop_last()).sum(v.last().prod(v.last()))
    }
}

/// The components of `a` less those of `b`, each in single precision.
pub open spec fn offset<F: Arith>(a: Seq<F>, b: Seq<F>) -> Seq<F> {
    Seq::new(a.len(), |i: int| a[i].diff(b[i]).single())
}

/// The square of the distance between two points.
pub open spec fn distance_sq<F: Arith>(a: Seq<F>, b: Seq<F>) -> F {
    squares_onto(F::of_nat(0), offset(a, b))
}

/// Two vectors, added component by component.
pub open spec fn added<F: Arith>(a: Seq<F>, b: Seq<F>) -> Seq<F> {
    Seq::new(a.len(), |i: int| a[i].sum(b[i]))
}

/// What a vector accumulator remembers of its samples: how many there were, their
/// componentwise sum, and the sum of the squares of all their components.
#[verifier::ext_equal]
pub struct Cloud<F> {
    pub n: nat,
    pub sum: Seq<F>,
    pub sumsq: F,
}

impl<F: Arith> Cloud<F> {
    /// No samples of `dim` components.
    pub open spec fn none(dim: nat) -> Self {
        Cloud { n: 0, sum: Seq::new(dim, |i: int| F::of_nat(0)), sumsq: F::of_nat(0) }
    }

    pub open spec fn dim(self) -> nat {
        self.sum.len()
    }

    /// One more sample.
    pub open spec fn with(self, v: Seq<F>) -> Self {
        Cloud { n: self.n + 1, sum: added(self.sum, v), sumsq: squares_onto(self.sumsq, v) }
    }

    /// The samples of both.
    pub open spec fn joined(self, other: Self) -> Self {
        Cloud {
            n: self.n + other.n,
            sum: added(self.sum, other.sum),
            sumsq: self.sumsq.sum(other.sumsq),
        }
    }

    /// The mean of every component, in the precision it was divided in.
    pub open spec fn means(self) -> Seq<F> {
        Seq::new(self.sum.len(), |i: int| self.sum[i].quot(F::of_nat(self.n)))
    }

    /// The mean of every component, in single precision.
    pub open spec fn center(self) -> Seq<F> {
        Seq::new(self.sum.len(), |i: int| self.sum[i].quot(F::of_nat(self.n)).single())
    }

    pub open spec fn centroid_of(self) -> Option<Seq<F>> {
        if self.n == 0 {
            None
        } else {
            Some(self.center())
        }
    }

    /// The mean square less the square of the mean, and never below zero.
    pub open spec fn variance_of(self) -> Option<F> {
        if self.n == 0 {
            None
        } else {
            let zero = F::of_nat(0);
            let v = self.sumsq.quot(F::of_nat(self.n)).diff(squares_onto(zero, self.means()));
            Some(
                if zero.le(v) {
                    v
                } else {
                    zero
                },
            )
        }
    }

    /// The distance from the centroid to `baseline`.
    pub open spec fn drift_of(self, baseline: Seq<F>) -> Option<F> {
        if self.n == 0 {
            None
        } else {
            Some(distance_sq(self.center(), baseline).root())
        }
    }
}

fn copied<R: Real>(v: &Vec<R>) -> (r: Vec<R>)
    ensures
        r@ == v@,
{
    let n: usize = v.len();
    let mut out: Vec<R> = Vec::new();
    let mut i: usize = 0;
    while i < n
        invariant
            i <= n == v.len(),
            out@ == v@.take(i as int),
        decreases n - i,
    {
        out.push(v[i]);
        i = i + 1;
        assert(out@ =~= v@.take(i as int));
    }
    assert(v@.take(n as int) =~= v@);
    out
}

/// The squared distance between two points of the same dimension.
pub(crate) fn gap<R: Real>(a: &[R], b: &[R]) -> (r: R)
    requires
        a@.len() == b@.len(),
    ensures
        r == distance_sq(a@, b@),
{
    let n: usize = a.len();
    let mut total = R::from_count(0);
    let mut i: usize = 0;
    while i < n
        invariant
            i <= n == a@.len() == b@.len(),
            total == squares_onto(R::of_nat(0), offset(a@, b@).take(i as int)),
        decreases n - i,
    {
        let d = a[i].minus(b[i]).rounded();
        proof {
            let all = offset(a@, b@);
            assert(all.take(i + 1).drop_last() =~= all.take(i as int));
            assert(all.take(i + 1).last() == d);
        }
        total = total.plus(d.times(d));
        i = i + 1;
    }
    assert(offset(a@, b@).take(n as int) =~= offset(a@, b@));
    total
}

/// Embedding accumulator: count and componentwise sum.
///
/// The centroid ladder is exact because merging is addition. Sums are carried at
/// full precision regardless of the storage quantisation declared for the
/// archive, so grouping order does not change the result beyond rounding.
#[derive(Debug, PartialEq)]
pub struct VecAccum<R> {
    n: u64,
    sum: Vec<R>,
    sumsq: R,
}

impl<R> View for VecAccum<R> {
    type V = Cloud<R>;

    closed spec fn view(&self) -> Cloud<R> {
        Cloud { n: self.n as nat, sum: self.sum@, sumsq: self.sumsq }
    }
}

impl<R: Real> Clone for VecAccum<R> {
    fn clone(&self) -> (r: Self)
        ensures
            r@ == self@,
    {
        VecAccum { n: self.n, sum: copied(&self.sum), sumsq: self.sumsq }
    }
}

impl<R: Real> VecAccum<R> {
    pub fn new(dim: usize) -> (r: Self)
        ensures
            r@ == Cloud::<R>::none(dim as nat),
    {
        let zero = R::from_count(0);
        let mut sum: Vec<R> = Vec::new();
        let mut i: usize = 0;
        while i < dim
            invariant
                i <= dim,
                zero == R::of_nat(0),
                sum@ == Cloud::<R>::none(i as nat).sum,
            decreases dim - i,
        {
            sum.push(zero);
            i = i + 1;
            assert(sum@ =~= Cloud::<R>::none(i as nat).sum);
        }
        VecAccum { n: 0, sum, sumsq: zero }
    }

    pub fn dim(&self) -> (r: usize)
        ensures
            r == self@.dim(),
    {
        self.sum.len()
    }

    pub fn push(&mut self, v: &[R])
        requires
            v@.len() == old(self)@.dim(),
            old(self)@.n < u64::MAX,
        ensures
            final(self)@ == old(self)@.with(v@),
    {
        let n: usize = self.sum.len();
        let ghost before = *self;
        self.n = self.n + 1;
        let mut i: usize = 0;
        while i < n
            invariant
                i <= n == self.sum.len() == v@.len(),
                before.sum@.len() == n,
                self.n == before.n + 1,
                self.sumsq == squares_onto(before.sumsq, v@.take(i as int)),
                forall|j: int| 0 <= j < i ==> self.sum@[j] == before.sum@[j].sum(v@[j]),
                forall|j: int| i <= j < n ==> self.sum@[j] == before.sum@[j],
            decreases n - i,
        {
            let x = v[i];
            proof {
                assert(v@.take(i + 1).drop_last() =~= v@.take(i as int));
                assert(v@.take(i + 1).last() == x);
            }
            let s = self.sum[i].plus(x);
            self.sum.set(i, s);
            self.sumsq = self.sumsq.plus(x.times(x));
            i = i + 1;
        }
        assert(v@.take(n as int) =~= v@);
        assert(self.sum@ =~= added(before.sum@, v@));
    }

    pub fn merge(&mut self, other: &VecAccum<R>)
        requires
            old(self)@.dim() == other@.dim(),
            old(self)@.n + other@.n <= u64::MAX,
        ensures
            final(self)@ == old(self)@.joined(other@),
    {
        let n: usize = self.sum.len();
        let ghost before = *self;
        self.n = self.n + other.n;
        let mut i: usize = 0;
        while i < n
            invariant
                i <= n == self.sum.len() == other.sum.len(),
                before.sum@.len() == n,
                self.n == before.n + other.n,
                self.sumsq == before.sumsq,
                forall|j: int| 0 <= j < i ==> self.sum@[j] == before.sum@[j].sum(other.sum@[j]),
                forall|j: int| i <= j < n ==> self.sum@[j] == before.sum@[j],
            decreases n - i,
        {
            let s = self.sum[i].plus(other.sum[i]);
            self.sum.set(i, s);
            i = i + 1;
        }
        self.sumsq = self.sumsq.plus(other.sumsq);
        assert(self.sum@ =~= added(before.sum@, other.sum@));
    }

    pub fn count(&self) -> (r: u64)
        ensures
            r == self@.n,
    {
        self.n
    }

    /// The centroid of samples that there are.
    fn center(&self) -> (r: Vec<R>)
        ensures
            r@ == self@.center(),
    {
        let n = R::from_count(self.n);
        let dim: usize = self.sum.len();
        let mut out: Vec<R> = Vec::new();
        let mut i: usize = 0;
        while i < dim
            invariant
                i <= dim == self.sum.len(),
                n == R::of_nat(self.n as nat),
                out@ == self@.center().take(i as int),
            decreases dim - i,
        {
            out.push(self.sum[i].over(n).rounded());
            i = i + 1;
            assert(out@ =~= self@.center().take(i as int));
        }
        assert(self@.center().take(dim as int) =~= self@.center());
        out
    }

    pub fn centroid(&self) -> (r: Option<Vec<R>>)
        ensures
            match (r, self@.centroid_of()) {
                (Some(c), Some(s)) => c@ == s,
                (None, None) => true,
                _ => false,
            },
    {
        if self.n == 0 {
            return None;
        }
        Some(self.center())
    }

    /// Mean squared deviation from the centroid, summed over components. Cheap
    /// because it follows from the sum of squares rather than a second pass.
    pub fn variance(&self) -> (r: Option<R>)
        ensures
            r == self@.variance_of(),
    {
        if self.n == 0 {
            return None;
        }
        let n = R::from_count(self.n);
        let zero = R::from_count(0);
        let dim: usize = self.sum.len();
        let mut mean_sq = zero;
        let mut i: usize = 0;
        while i < dim
            invariant
                i <= dim == self.sum.len(),
                n == R::of_nat(self.n as nat),
                mean_sq == squares_onto(R::of_nat(0), self@.means().take(i as int)),
            decreases dim - i,
        {
            let m = self.sum[i].over(n);
            proof {
                let all = self@.means();
                assert(all.take(i + 1).drop_last() =~= all.take(i as int));
                assert(all.take(i + 1).last() == m);
            }
            mean_sq = mean_sq.plus(m.times(m));
            i = i + 1;
        }
        assert(self@.means().take(dim as int) =~= self@.means());
        let v = self.sumsq.over(n).minus(mean_sq);
        if zero.at_most(v) {
            Some(v)
        } else {
            Some(zero)
        }
    }

    /// Euclidean distance from this accumulator's centroid to a pinned baseline.
    /// This is drift; it inherits the exactness of the centroid.
    pub fn drift_from(&self, baseline: &[R]) -> (r: Option<R>)
        requires
            self@.n > 0 ==> baseline@.len() == self@.dim(),
        ensures
            r == self@.drift_of(baseline@),
    {
        match self.centroid() {
            Some(c) => Some(gap(c.as_slice(), baseline).sqrt()),
            None => None,
        }
    }
}

} // verus!
