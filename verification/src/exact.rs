//! Exact arithmetic, to state what the formulas compute when nothing is rounded.

use vstd::prelude::*;

use crate::arith::Arith;

verus! {

/// A real number, one of the two ends beyond them all, or what an operation gives
/// that has no answer.
pub enum Exact {
    Low,
    Finite(real),
    High,
    Undefined,
}

/// Whether `f` is the natural logarithm: it turns products into sums, and lies below its
/// tangent at one. The first leaves only its scale open, and the second fixes that.
pub open spec fn is_logarithm(f: spec_fn(real) -> real) -> bool {
    &&& forall|a: real, b: real|
        #![trigger f(a * b)]
        #![trigger f(a), f(b)]
        a > 0real && b > 0real ==> f(a * b) == f(a) + f(b)
    &&& forall|x: real| x > 0real ==> #[trigger] f(x) <= x - 1real
}

/// Whether there is a natural logarithm. That is a fact of analysis: it rests on the
/// completeness of the real numbers, which is more than their arithmetic says, so what
/// speaks of the logarithm asks for it.
pub open spec fn has_logarithm() -> bool {
    exists|f: spec_fn(real) -> real| is_logarithm(f)
}

/// The natural logarithm.
pub open spec fn logarithm(x: real) -> real {
    (choose|f: spec_fn(real) -> real| is_logarithm(f))(x)
}

/// Whether `r` is the square root of `x`.
pub open spec fn is_root(r: real, x: real) -> bool {
    r >= 0real && r * r == x
}

/// The square root of `x`, where it has one.
pub open spec fn root_of(x: real) -> real {
    choose|r: real| is_root(r, x)
}

impl Arith for Exact {
    open spec fn of_nat(n: nat) -> Self {
        Exact::Finite(n as real)
    }

    open spec fn top() -> Self {
        Exact::High
    }

    open spec fn bottom() -> Self {
        Exact::Low
    }

    open spec fn sum(self, other: Self) -> Self {
        match (self, other) {
            (Exact::Finite(a), Exact::Finite(b)) => Exact::Finite(a + b),
            _ => Exact::Undefined,
        }
    }

    open spec fn diff(self, other: Self) -> Self {
        match (self, other) {
            (Exact::Finite(a), Exact::Finite(b)) => Exact::Finite(a - b),
            _ => Exact::Undefined,
        }
    }

    open spec fn prod(self, other: Self) -> Self {
        match (self, other) {
            (Exact::Finite(a), Exact::Finite(b)) => Exact::Finite(a * b),
            _ => Exact::Undefined,
        }
    }

    open spec fn quot(self, other: Self) -> Self {
        match (self, other) {
            (Exact::Finite(a), Exact::Finite(b)) => if b == 0real {
                Exact::Undefined
            } else {
                Exact::Finite(a / b)
            },
            _ => Exact::Undefined,
        }
    }

    open spec fn lt(self, other: Self) -> bool {
        match (self, other) {
            (Exact::Finite(a), Exact::Finite(b)) => a < b,
            (Exact::Low, Exact::Finite(_)) => true,
            (Exact::Low, Exact::High) => true,
            (Exact::Finite(_), Exact::High) => true,
            _ => false,
        }
    }

    open spec fn le(self, other: Self) -> bool {
        self.lt(other) || self == other && self != Exact::Undefined
    }

    open spec fn root(self) -> Self {
        match self {
            Exact::Finite(x) => if x >= 0real {
                Exact::Finite(root_of(x))
            } else {
                Exact::Undefined
            },
            _ => Exact::Undefined,
        }
    }

    open spec fn log(self) -> Self {
        match self {
            Exact::Finite(x) => if x > 0real {
                Exact::Finite(logarithm(x))
            } else {
                Exact::Undefined
            },
            _ => Exact::Undefined,
        }
    }

    /// Nothing is lost.
    open spec fn single(self) -> Self {
        self
    }
}

/// The logarithm of a product is the sum of the logarithms, that of one is zero, and
/// none is above its tangent at one.
pub proof fn lemma_logarithm(a: real, b: real)
    requires
        has_logarithm(),
        a > 0real,
        b > 0real,
    ensures
        logarithm(a * b) == logarithm(a) + logarithm(b),
        logarithm(1real) == 0real,
        logarithm(a) <= a - 1real,
{
    let f = choose|f: spec_fn(real) -> real| is_logarithm(f);
    assert(is_logarithm(f));
    assert(f(a * b) == f(a) + f(b));
    assert(f(1real * 1real) == f(1real) + f(1real));
    assert(1real * 1real == 1real);
    assert(f(a) <= a - 1real);
}

/// The logarithm is positive above one.
pub proof fn lemma_logarithm_positive(x: real)
    requires
        has_logarithm(),
        x > 0real,
    ensures
        logarithm(x) >= 1real - 1real / x,
        x > 1real ==> logarithm(x) > 0real,
{
    let y = 1real / x;
    assert(y > 0real && x * y == 1real) by (nonlinear_arith)
        requires
            x > 0real,
            y == 1real / x,
    ;
    lemma_logarithm(x, y);
    lemma_logarithm(y, x);
    assert(x > 1real ==> y < 1real) by (nonlinear_arith)
        requires
            x * y == 1real,
            y > 0real,
    ;
}

/// There is one root.
pub proof fn lemma_root_unique(r: real, x: real)
    requires
        is_root(r, x),
    ensures
        root_of(x) == r,
{
    let s = root_of(x);
    assert(is_root(s, x));
    assert(s == r) by (nonlinear_arith)
        requires
            s >= 0real,
            r >= 0real,
            s * s == r * r,
    ;
}

/// The root of zero is zero.
pub proof fn lemma_root_of_zero()
    ensures
        root_of(0real) == 0real,
{
    assert(0real * 0real == 0real) by (nonlinear_arith);
    assert(is_root(0real, 0real));
    let r = root_of(0real);
    assert(is_root(r, 0real));
    assert(r == 0real) by (nonlinear_arith)
        requires
            r * r == 0real,
    ;
}

} // verus!
