//! The arithmetic that the accumulators are written in.
//!
//! A store summarises numbers, and which numbers is the caller's choice: binary
//! floating point, fixed point, anything with these operations. Every formula of
//! the library is stated over the operations of [`Arith`], so a contract says
//! exactly which operations are carried out and in which order, and leaves the
//! rounding to the arithmetic itself.

use vstd::prelude::*;

verus! {

/// Some operation, of which nothing is known but that it is a function of its
/// arguments. Each `op` is another one.
spec fn some_operation<A, B>(op: int, args: A) -> B {
    arbitrary::<spec_fn(int, A) -> B>()(op, args)
}

/// What the operations of an arithmetic give, as mathematics.
///
/// An arithmetic that leaves an operation out says nothing of it: what is proved of
/// the library then holds for whatever function of its arguments the operation is.
pub trait Arith: Sized {
    /// The number that stands for a count.
    closed spec fn of_nat(n: nat) -> Self {
        some_operation(0, n)
    }

    /// A number that starts a running minimum.
    closed spec fn top() -> Self {
        some_operation(1, ())
    }

    /// A number that starts a running maximum.
    closed spec fn bottom() -> Self {
        some_operation(2, ())
    }

    closed spec fn sum(self, other: Self) -> Self {
        some_operation(3, (self, other))
    }

    closed spec fn diff(self, other: Self) -> Self {
        some_operation(4, (self, other))
    }

    closed spec fn prod(self, other: Self) -> Self {
        some_operation(5, (self, other))
    }

    closed spec fn quot(self, other: Self) -> Self {
        some_operation(6, (self, other))
    }

    /// Strictly less.
    closed spec fn lt(self, other: Self) -> bool {
        some_operation(7, (self, other))
    }

    /// Less or equal.
    closed spec fn le(self, other: Self) -> bool {
        some_operation(8, (self, other))
    }

    /// Square root.
    closed spec fn root(self) -> Self {
        some_operation(9, self)
    }

    /// Natural logarithm.
    closed spec fn log(self) -> Self {
        some_operation(10, self)
    }

    /// The number as a reading of single precision carries it.
    closed spec fn single(self) -> Self {
        some_operation(11, self)
    }
}

/// An arithmetic that can be computed with.
///
/// Every operation is total: it returns for all arguments, and what it returns is
/// a function of them.
pub trait Real: Arith + Copy {
    fn from_count(n: u64) -> (r: Self)
        ensures
            r == Self::of_nat(n as nat),
    ;

    fn highest() -> (r: Self)
        ensures
            r == Self::top(),
    ;

    fn lowest() -> (r: Self)
        ensures
            r == Self::bottom(),
    ;

    fn plus(self, other: Self) -> (r: Self)
        ensures
            r == self.sum(other),
    ;

    fn minus(self, other: Self) -> (r: Self)
        ensures
            r == self.diff(other),
    ;

    fn times(self, other: Self) -> (r: Self)
        ensures
            r == self.prod(other),
    ;

    fn over(self, other: Self) -> (r: Self)
        ensures
            r == self.quot(other),
    ;

    fn less(self, other: Self) -> (r: bool)
        ensures
            r == self.lt(other),
    ;

    fn at_most(self, other: Self) -> (r: bool)
        ensures
            r == self.le(other),
    ;

    fn sqrt(self) -> (r: Self)
        ensures
            r == self.root(),
    ;

    fn ln(self) -> (r: Self)
        ensures
            r == self.log(),
    ;

    fn rounded(self) -> (r: Self)
        ensures
            r == self.single(),
    ;
}

} // verus!
