//! Running statistics of a scalar signal.

use vstd::prelude::*;

use crate::arith::{Arith, Real};

verus! {

/// What a scalar accumulator remembers of its samples: how many there were, their
/// mean, the sum of their squared deviations from it, and the least and the
/// greatest of them.
#[verifier::ext_equal]
pub struct Moments<F> {
    pub n: nat,
    pub mean: F,
    pub m2: F,
    pub min: F,
    pub max: F,
}

impl<F: Arith> Moments<F> {
    /// No samples.
    pub open spec fn none() -> Self {
        Moments {
            n: 0,
            mean: F::of_nat(0),
            m2: F::of_nat(0),
            min: F::top(),
            max: F::bottom(),
        }
    }

    /// One more sample: the mean moves by its share of the distance to it.
    pub open spec fn with(self, x: F) -> Self {
        let n = self.n + 1;
        let delta = x.diff(self.mean);
        let mean = self.mean.sum(delta.quot(F::of_nat(n)));
        Moments {
            n,
            mean,
            m2: self.m2.sum(delta.prod(x.diff(mean))),
            min: if x.lt(self.min) {
                x
            } else {
                self.min
            },
            max: if self.max.lt(x) {
                x
            } else {
                self.max
            },
        }
    }

    /// The samples of both, by Chan's parallel form. Nothing joined to nothing
    /// changes a thing.
    pub open spec fn joined(self, other: Self) -> Self {
        if other.n == 0 {
            self
        } else if self.n == 0 {
            other
        } else {
            let na = F::of_nat(self.n);
            let nb = F::of_nat(other.n);
            let total = na.sum(nb);
            let delta = other.mean.diff(self.mean);
            Moments {
                n: self.n + other.n,
                mean: self.mean.sum(delta.prod(nb).quot(total)),
                m2: self.m2.sum(
                    other.m2.sum(delta.prod(delta).prod(na).prod(nb).quot(total)),
                ),
                min: if other.min.lt(self.min) {
                    other.min
                } else {
                    self.min
                },
                max: if self.max.lt(other.max) {
                    other.max
                } else {
                    self.max
                },
            }
        }
    }

    /// `x`, unless there are no samples to speak of.
    pub open spec fn known(self, x: F) -> Option<F> {
        if self.n > 0 {
            Some(x)
        } else {
            None
        }
    }

    pub open spec fn mean_of(self) -> Option<F> {
        self.known(self.mean)
    }

    /// Population variance.
    pub open spec fn variance_of(self) -> Option<F> {
        self.known(self.m2.quot(F::of_nat(self.n)))
    }

    pub open spec fn min_of(self) -> Option<F> {
        self.known(self.min)
    }

    pub open spec fn max_of(self) -> Option<F> {
        self.known(self.max)
    }
}

/// Running scalar statistics that merge exactly.
///
/// Mean and variance use Chan's parallel form, so combining two accumulators
/// gives the same result as accumulating the underlying samples in one pass, to
/// the rounding of the arithmetic.
#[derive(Debug, PartialEq)]
pub struct Welford<R> {
    n: u64,
    mean: R,
    m2: R,
    min: R,
    max: R,
}

impl<R> View for Welford<R> {
    type V = Moments<R>;

    closed spec fn view(&self) -> Moments<R> {
        Moments { n: self.n as nat, mean: self.mean, m2: self.m2, min: self.min, max: self.max }
    }
}

impl<R: Real> Clone for Welford<R> {
    fn clone(&self) -> (r: Self)
        ensures
            r@ == self@,
    {
        Welford { n: self.n, mean: self.mean, m2: self.m2, min: self.min, max: self.max }
    }
}

/// The least and the greatest start beyond every sample, so the first one moves
/// them both.
impl<R: Real> Default for Welford<R> {
    fn default() -> (r: Self)
        ensures
            r@ == Moments::<R>::none(),
    {
        Welford::new()
    }
}

impl<R: Real> Welford<R> {
    pub fn new() -> (r: Self)
        ensures
            r@ == Moments::<R>::none(),
    {
        Welford {
            n: 0,
            mean: R::from_count(0),
            m2: R::from_count(0),
            min: R::highest(),
            max: R::lowest(),
        }
    }

    pub fn push(&mut self, x: R)
        requires
            old(self)@.n < u64::MAX,
        ensures
            final(self)@ == old(self)@.with(x),
    {
        self.n = self.n + 1;
        let delta = x.minus(self.mean);
        self.mean = self.mean.plus(delta.over(R::from_count(self.n)));
        self.m2 = self.m2.plus(delta.times(x.minus(self.mean)));
        if x.less(self.min) {
            self.min = x;
        }
        if self.max.less(x) {
            self.max = x;
        }
    }

    pub fn merge(&mut self, other: &Welford<R>)
        requires
            old(self)@.n + other@.n <= u64::MAX,
        ensures
            final(self)@ == old(self)@.joined(other@),
    {
        if other.n == 0 {
            return ;
        }
        if self.n == 0 {
            *self = other.clone();
            return ;
        }
        let na = R::from_count(self.n);
        let nb = R::from_count(other.n);
        let total = na.plus(nb);
        let delta = other.mean.minus(self.mean);
        self.mean = self.mean.plus(delta.times(nb).over(total));
        self.m2 = self.m2.plus(other.m2.plus(delta.times(delta).times(na).times(nb).over(total)));
        self.n = self.n + other.n;
        if other.min.less(self.min) {
            self.min = other.min;
        }
        if self.max.less(other.max) {
            self.max = other.max;
        }
    }

    pub fn count(&self) -> (r: u64)
        ensures
            r == self@.n,
    {
        self.n
    }

    pub fn mean(&self) -> (r: Option<R>)
        ensures
            r == self@.mean_of(),
    {
        if self.n > 0 {
            Some(self.mean)
        } else {
            None
        }
    }

    /// Population variance.
    pub fn variance(&self) -> (r: Option<R>)
        ensures
            r == self@.variance_of(),
    {
        if self.n > 0 {
            Some(self.m2.over(R::from_count(self.n)))
        } else {
            None
        }
    }

    pub fn min(&self) -> (r: Option<R>)
        ensures
            r == self@.min_of(),
    {
        if self.n > 0 {
            Some(self.min)
        } else {
            None
        }
    }

    pub fn max(&self) -> (r: Option<R>)
        ensures
            r == self@.max_of(),
    {
        if self.n > 0 {
            Some(self.max)
        } else {
            None
        }
    }
}

} // verus!
