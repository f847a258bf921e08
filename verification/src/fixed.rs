//! Signed fixed point: an arithmetic whose every operation is proved.

use vstd::prelude::*;

use crate::arith::{Arith, Real};

verus! {

/// How many raw units make one.
pub const UNIT: u64 = 1_048_576;

/// The binary digits behind the point: [`UNIT`] is two to this power.
pub const FRACTION_BITS: i128 = 20;

/// One, in the units that logarithms are worked out in.
pub const ONE: u64 = 1_073_741_824;

/// The natural logarithm of two, in raw units.
pub const LN_2: i128 = 726_817;

/// A number held as a whole count of 1/1048576. Results that do not fit are held
/// at the nearest end of the range, and products and quotients drop what lies
/// behind the last binary digit.
#[derive(Clone, Copy, Debug, PartialEq, Eq)]
pub struct Fixed {
    pub raw: i64,
}

/// The fixed-point number nearest to `raw` units.
pub open spec fn clamped(raw: int) -> Fixed {
    if raw > i64::MAX {
        Fixed { raw: i64::MAX }
    } else if raw < i64::MIN {
        Fixed { raw: i64::MIN }
    } else {
        Fixed { raw: raw as i64 }
    }
}

/// The size of a number without its sign.
pub open spec fn magnitude(x: int) -> nat {
    if x < 0 {
        (-x) as nat
    } else {
        x as nat
    }
}

/// `size`, negative where exactly one of the two factors was.
pub open spec fn signed(a: int, b: int, size: nat) -> int {
    if (a < 0) != (b < 0) {
        -(size as int)
    } else {
        size as int
    }
}

/// Whether `r` is the whole part of the square root of `x`.
pub open spec fn is_whole_root(r: nat, x: nat) -> bool {
    r * r <= x && x < (r + 1) * (r + 1)
}

/// The whole part of the square root of `x`.
pub open spec fn whole_root(x: nat) -> nat {
    choose|r: nat| is_whole_root(r, x)
}

/// How often `x` can be halved before it is one.
pub open spec fn halvings(x: nat) -> nat
    decreases x,
{
    if x <= 1 {
        0
    } else {
        1 + halvings(x / 2)
    }
}

/// The largest power of two that is not above `x`.
pub open spec fn peak(x: nat) -> nat
    decreases x,
{
    if x <= 1 {
        1
    } else {
        2 * peak(x / 2)
    }
}

/// The binary logarithm of a number between one and two, in raw units. The number is
/// held in units of 1/1073741824. Squaring it doubles the logarithm, so the next digit
/// is one where the square passes two; `digits` holds those so far, of which there are
/// as many as `place` has.
pub open spec fn digits_of(m: nat, digits: nat, place: nat) -> nat
    decreases 2 * UNIT - place,
{
    if place == 0 || place >= UNIT {
        digits
    } else {
        let square = m * m / (ONE as nat);
        if square >= 2 * ONE {
            digits_of(square / 2, 2 * digits + 1, 2 * place)
        } else {
            digits_of(square, 2 * digits, 2 * place)
        }
    }
}

/// The binary logarithm of `x` raw units, in raw units: the halvings before the point,
/// and the digits of what is left of one behind it.
pub open spec fn binary_log(x: nat) -> int {
    (halvings(x) - FRACTION_BITS) * UNIT + digits_of(x * (ONE as nat) / peak(x), 0, 1)
}

pub(crate) proof fn lemma_peak(x: nat)
    requires
        x >= 1,
    ensures
        1 <= peak(x) <= x < 2 * peak(x),
    decreases x,
{
    if x > 1 {
        lemma_peak(x / 2);
    }
}

/// The square of a number between one and two is between one and four.
proof fn lemma_square(m: nat)
    requires
        ONE <= m < 2 * ONE,
    ensures
        m * m <= 0x8000_0000 * 0x8000_0000,
        ONE <= m * m / (ONE as nat) < 4 * ONE,
{
    assert(m * m <= 0x8000_0000 * 0x8000_0000) by (nonlinear_arith)
        requires
            m < 0x8000_0000,
    ;
    assert(0x4000_0000 * 0x4000_0000 <= m * m < 0x8000_0000 * 0x8000_0000) by (nonlinear_arith)
        requires
            0x4000_0000 <= m < 0x8000_0000,
    ;
}

proof fn lemma_whole_root_unique(r: nat, s: nat, x: nat)
    requires
        is_whole_root(r, x),
        is_whole_root(s, x),
    ensures
        r == s,
{
    assert(r < s ==> (r + 1) * (r + 1) <= s * s) by (nonlinear_arith);
    assert(s < r ==> (s + 1) * (s + 1) <= r * r) by (nonlinear_arith);
}

impl Arith for Fixed {
    open spec fn of_nat(n: nat) -> Self {
        clamped(n * UNIT)
    }

    open spec fn top() -> Self {
        Fixed { raw: i64::MAX }
    }

    open spec fn bottom() -> Self {
        Fixed { raw: i64::MIN }
    }

    open spec fn sum(self, other: Self) -> Self {
        clamped(self.raw + other.raw)
    }

    open spec fn diff(self, other: Self) -> Self {
        clamped(self.raw - other.raw)
    }

    open spec fn prod(self, other: Self) -> Self {
        let size = magnitude(self.raw as int) * magnitude(other.raw as int) / (UNIT as nat);
        clamped(signed(self.raw as int, other.raw as int, size))
    }

    /// Division by zero gives the end of the range on the dividend's side, and
    /// zero over zero is zero.
    open spec fn quot(self, other: Self) -> Self {
        if other.raw == 0 {
            if self.raw == 0 {
                self
            } else if self.raw > 0 {
                Fixed { raw: i64::MAX }
            } else {
                Fixed { raw: i64::MIN }
            }
        } else {
            let size = magnitude(self.raw as int) * (UNIT as nat) / magnitude(other.raw as int);
            clamped(signed(self.raw as int, other.raw as int, size))
        }
    }

    open spec fn lt(self, other: Self) -> bool {
        self.raw < other.raw
    }

    open spec fn le(self, other: Self) -> bool {
        self.raw <= other.raw
    }

    /// The whole part, in raw units; zero for what has no root.
    open spec fn root(self) -> Self {
        if self.raw <= 0 {
            Fixed { raw: 0 }
        } else {
            clamped(whole_root((self.raw * UNIT) as nat) as int)
        }
    }

    /// The binary logarithm times the logarithm of two; the low end of the range for
    /// what has no logarithm.
    open spec fn log(self) -> Self {
        if self.raw <= 0 {
            Fixed { raw: i64::MIN }
        } else {
            let binary = binary_log(self.raw as nat);
            clamped(signed(binary, 1, magnitude(binary) * (LN_2 as nat) / (UNIT as nat)))
        }
    }

    /// There is one precision only.
    open spec fn single(self) -> Self {
        self
    }
}

fn clamp(raw: i128) -> (r: Fixed)
    ensures
        r == clamped(raw as int),
{
    if raw > 9_223_372_036_854_775_807 {
        Fixed { raw: i64::MAX }
    } else if raw < -9_223_372_036_854_775_808 {
        Fixed { raw: i64::MIN }
    } else {
        Fixed { raw: raw as i64 }
    }
}

fn size_of(x: i64) -> (r: u128)
    ensures
        r == magnitude(x as int),
        r <= 0x8000_0000_0000_0000,
{
    if x < 0 {
        (-(x as i128)) as u128
    } else {
        x as u128
    }
}

fn with_sign(a: i64, b: i64, size: u128) -> (r: Fixed)
    requires
        size <= 0x7fff_ffff_ffff_ffff_ffff_ffff_ffff_ffff,
    ensures
        r == clamped(signed(a as int, b as int, size as nat)),
{
    if (a < 0) != (b < 0) {
        clamp(-(size as i128))
    } else {
        clamp(size as i128)
    }
}

fn digits(m: u64) -> (r: u64)
    requires
        ONE <= m < 2 * ONE,
    ensures
        r == digits_of(m as nat, 0, 1),
        r < 2 * UNIT,
{
    let mut m: u64 = m;
    let mut digits: u64 = 0;
    let mut place: u64 = 1;
    let ghost goal = digits_of(m as nat, 0, 1);
    while place < UNIT
        invariant
            ONE <= m < 2 * ONE,
            digits < place,
            1 <= place,
            place < 2 * UNIT,
            goal == digits_of(m as nat, digits as nat, place as nat),
        decreases 2 * UNIT - place,
    {
        proof {
            lemma_square(m as nat);
        }
        let square: u64 = m * m / ONE;
        if square >= 2 * ONE {
            m = square / 2;
            digits = 2 * digits + 1;
        } else {
            m = square;
            digits = 2 * digits;
        }
        place = 2 * place;
    }
    digits
}

fn binary_log_of(x: i64) -> (r: i128)
    requires
        x > 0,
    ensures
        r == binary_log(x as nat),
        -0x100_0000_0000_0000_0000_0000 <= r <= 0x100_0000_0000_0000_0000_0000,
{
    let mut left: i64 = x;
    let mut count: i128 = 0;
    let mut power: u128 = 1;
    proof {
        lemma_peak(x as nat);
    }
    while left > 1
        invariant
            x > 0,
            left >= 1,
            0 <= count,
            count + left <= x,
            1 <= power,
            power * left <= x,
            power * peak(left as nat) == peak(x as nat),
            count + halvings(left as nat) == halvings(x as nat),
        decreases left,
    {
        proof {
            let (p, half) = (power as int, left as int / 2);
            let q = peak(half as nat) as int;
            assert((p * 2) * half <= p * left) by (nonlinear_arith)
                requires
                    half * 2 <= left,
                    p >= 1,
            ;
            assert((p * 2) * q == p * (2 * q)) by (nonlinear_arith);
            assert(p * 2 <= p * left) by (nonlinear_arith)
                requires
                    left >= 2,
                    p >= 1,
            ;
        }
        left = left / 2;
        count = count + 1;
        power = power * 2;
    }
    let scaled: u128 = (x as u128) * (ONE as u128);
    let m: u128 = scaled / power;
    proof {
        let (p, one) = (power as int, ONE as int);
        assert(p == peak(x as nat));
        assert(one <= (x as int) * one / p < 2 * one) by (nonlinear_arith)
            requires
                1 <= p <= x < 2 * p,
                one == 1_073_741_824,
        ;
    }
    (count - FRACTION_BITS) * (UNIT as i128) + digits(m as u64) as i128
}

impl Real for Fixed {
    fn from_count(n: u64) -> (r: Self) {
        assert(n * UNIT <= 0xffff_ffff_ffff_ffff * 1_048_576);
        clamp((n as i128) * (UNIT as i128))
    }

    fn highest() -> (r: Self) {
        Fixed { raw: i64::MAX }
    }

    fn lowest() -> (r: Self) {
        Fixed { raw: i64::MIN }
    }

    fn plus(self, other: Self) -> (r: Self) {
        clamp(self.raw as i128 + other.raw as i128)
    }

    fn minus(self, other: Self) -> (r: Self) {
        clamp(self.raw as i128 - other.raw as i128)
    }

    fn times(self, other: Self) -> (r: Self) {
        let a: u128 = size_of(self.raw);
        let b: u128 = size_of(other.raw);
        assert(a * b <= 0x8000_0000_0000_0000 * 0x8000_0000_0000_0000) by (nonlinear_arith)
            requires
                a <= 0x8000_0000_0000_0000,
                b <= 0x8000_0000_0000_0000,
        ;
        with_sign(self.raw, other.raw, a * b / (UNIT as u128))
    }

    fn over(self, other: Self) -> (r: Self) {
        if other.raw == 0 {
            if self.raw == 0 {
                self
            } else if self.raw > 0 {
                Fixed { raw: i64::MAX }
            } else {
                Fixed { raw: i64::MIN }
            }
        } else {
            let a: u128 = size_of(self.raw);
            let b: u128 = size_of(other.raw);
            assert(a * UNIT <= 0x8000_0000_0000_0000 * 1_048_576) by (nonlinear_arith)
                requires
                    a <= 0x8000_0000_0000_0000,
                    UNIT == 1_048_576,
            ;
            let scaled: u128 = a * (UNIT as u128);
            assert(scaled / b <= scaled) by (nonlinear_arith)
                requires
                    b > 0,
            ;
            with_sign(self.raw, other.raw, scaled / b)
        }
    }

    fn less(self, other: Self) -> (r: bool) {
        self.raw < other.raw
    }

    fn at_most(self, other: Self) -> (r: bool) {
        self.raw <= other.raw
    }

    fn sqrt(self) -> (r: Self) {
        if self.raw <= 0 {
            return Fixed { raw: 0 };
        }
        let x: u128 = (self.raw as u128) * (UNIT as u128);
        let mut low: u128 = 0;
        let mut high: u128 = 0x1000_0000_0000;
        while low + 1 < high
            invariant
                low < high <= 0x1000_0000_0000,
                low * low <= x < high * high,
            decreases high - low,
        {
            let mid: u128 = low + (high - low) / 2;
            assert(mid * mid <= 0x1000_0000_0000 * 0x1000_0000_0000) by (nonlinear_arith)
                requires
                    mid <= 0x1000_0000_0000,
            ;
            if mid * mid <= x {
                low = mid;
            } else {
                high = mid;
            }
        }
        proof {
            assert(high == low + 1);
            assert(is_whole_root(low as nat, x as nat));
            lemma_whole_root_unique(low as nat, whole_root(x as nat), x as nat);
            assert((self.raw * UNIT) as nat == x as nat);
        }
        clamp(low as i128)
    }

    fn ln(self) -> (r: Self) {
        if self.raw <= 0 {
            return Fixed { raw: i64::MIN };
        }
        let binary: i128 = binary_log_of(self.raw);
        let size: i128 = if binary < 0 {
            -binary
        } else {
            binary
        };
        let scaled: i128 = size * LN_2 / (UNIT as i128);
        if binary < 0 {
            clamp(-scaled)
        } else {
            clamp(scaled)
        }
    }

    fn rounded(self) -> (r: Self) {
        self
    }
}

} // verus!
