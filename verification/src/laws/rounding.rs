//! Arithmetics that round: what the operations lose, and what becomes of it.
//!
//! An arithmetic that rounds gives every result within some unit of the exact one, as
//! long as it stays in range. Binary floating point does on any bounded range, and so
//! does [`Fixed`]. In such an arithmetic merging gives what one pass gives up to a
//! multiple of that unit, where the multiple depends on how many samples there were and
//! how large, and on nothing else.

use vstd::prelude::*;

use crate::arith::Arith;
use crate::fixed::{
    binary_log, clamped, digits_of, halvings, is_whole_root, lemma_peak, magnitude, peak, signed,
    whole_root, Fixed, FRACTION_BITS, ONE, UNIT,
};

verus! {

/// The size of a number without its sign.
pub open spec fn size(x: real) -> real {
    if x < 0real {
        0real - x
    } else {
        x
    }
}

/// Whether `a` is within `e` of `x`.
pub open spec fn near(a: real, x: real, e: real) -> bool {
    x - e <= a <= x + e
}

/// How an arithmetic stands for the real numbers.
#[verifier::reject_recursive_types(F)]
pub struct Rounding<F> {
    /// The real number that a number stands for.
    pub val: spec_fn(F) -> real,
    /// Whether a number stands for one.
    pub good: spec_fn(F) -> bool,
    /// No operation is asked for a larger result than this.
    pub range: real,
    /// No operation is further than this from the exact result.
    pub unit: real,
}

impl<F: Arith> Rounding<F> {
    /// Whether `a` stands for a number within `e` of `x`.
    pub open spec fn at(self, a: F, x: real, e: real) -> bool {
        (self.good)(a) && near((self.val)(a), x, e)
    }

    /// Counts are exact, and so are their sums.
    pub open spec fn counts(self) -> bool {
        &&& forall|n: nat|
            n as real <= self.range ==> self.at(#[trigger] F::of_nat(n), n as real, 0real)
        &&& forall|n: nat, m: nat|
            (n + m) as real <= self.range ==> #[trigger] F::of_nat(n).sum(F::of_nat(m))
                == F::of_nat(n + m)
    }

    /// Sums and differences round by at most the unit.
    pub open spec fn sums(self) -> bool {
        &&& forall|a: F, b: F|
            (self.good)(a) && (self.good)(b) && size((self.val)(a) + (self.val)(b)) <= self.range
                ==> self.at(#[trigger] a.sum(b), (self.val)(a) + (self.val)(b), self.unit)
        &&& forall|a: F, b: F|
            (self.good)(a) && (self.good)(b) && size((self.val)(a) - (self.val)(b)) <= self.range
                ==> self.at(#[trigger] a.diff(b), (self.val)(a) - (self.val)(b), self.unit)
    }

    /// Products and quotients round by at most the unit.
    pub open spec fn products(self) -> bool {
        &&& forall|a: F, b: F|
            (self.good)(a) && (self.good)(b) && size((self.val)(a) * (self.val)(b)) <= self.range
                ==> self.at(#[trigger] a.prod(b), (self.val)(a) * (self.val)(b), self.unit)
        &&& forall|a: F, b: F|
            (self.good)(a) && (self.good)(b) && (self.val)(b) != 0real && size(
                (self.val)(a) / (self.val)(b),
            ) <= self.range ==> self.at(
                #[trigger] a.quot(b),
                (self.val)(a) / (self.val)(b),
                self.unit,
            )
    }

    /// Numbers compare as what they stand for, and lie between the two ends.
    pub open spec fn order(self) -> bool {
        &&& forall|a: F, b: F|
            (self.good)(a) && (self.good)(b) ==> (#[trigger] a.lt(b) <==> (self.val)(a) < (
            self.val)(b))
        &&& forall|a: F, b: F|
            (self.good)(a) && (self.good)(b) ==> (#[trigger] a.le(b) <==> (self.val)(a) <= (
            self.val)(b))
        &&& forall|a: F| #[trigger] (self.good)(a) ==> a.lt(F::top()) && F::bottom().lt(a)
    }

    /// Single precision rounds by at most the unit.
    pub open spec fn singles(self) -> bool {
        forall|a: F|
            (self.good)(a) && size((self.val)(a)) <= self.range ==> self.at(
                #[trigger] a.single(),
                (self.val)(a),
                self.unit,
            )
    }

    /// Whether the arithmetic rounds by at most the unit wherever it stays in range.
    pub open spec fn holds(self) -> bool {
        &&& 0real <= self.unit <= 1real
        &&& self.counts()
        &&& self.sums()
        &&& self.products()
        &&& self.order()
        &&& self.singles()
    }
}

pub(crate) proof fn lemma_size_prod(x: real, a: real, y: real, b: real)
    requires
        size(x) <= a,
        size(y) <= b,
    ensures
        size(x * y) <= a * b,
        0real <= a * b,
{
    let (s, t) = (size(x), size(y));
    assert(s * t <= a * b && 0real <= a * b) by (nonlinear_arith)
        requires
            0real <= s <= a,
            0real <= t <= b,
    ;
    assert(x * y <= s * t && 0real - x * y <= s * t) by (nonlinear_arith)
        requires
            0real - s <= x <= s,
            0real - t <= y <= t,
            s == x || s == 0real - x,
            t == y || t == 0real - y,
            s >= 0real,
            t >= 0real,
    ;
}

/// The product of numbers that are near two others is near the product of those.
pub(crate) proof fn lemma_near_prod(
    a: real,
    x: real,
    e: real,
    xs: real,
    b: real,
    y: real,
    f: real,
    ys: real,
)
    requires
        near(a, x, e),
        near(b, y, f),
        size(x) <= xs,
        size(y) <= ys,
    ensures
        near(a * b, x * y, xs * f + ys * e + e * f),
        size(a * b) <= (xs + e) * (ys + f),
{
    let (s, t) = (a - x, b - y);
    lemma_size_prod(x, xs, t, f);
    lemma_size_prod(y, ys, s, e);
    lemma_size_prod(s, e, t, f);
    lemma_size_prod(a, xs + e, b, ys + f);
    assert((x + s) * (y + t) == x * y + x * t + y * s + s * t) by (nonlinear_arith);
    assert(x + s == a && y + t == b);
}

/// The quotient by a count.
pub(crate) proof fn lemma_near_quot(a: real, x: real, e: real, k: real)
    requires
        near(a, x, e),
        k >= 1real,
    ensures
        near(a / k, x / k, e / k),
        size(a / k) <= size(a),
        0real <= e / k <= e,
{
    assert(x / k - e / k <= a / k <= x / k + e / k) by (nonlinear_arith)
        requires
            x - e <= a <= x + e,
            k >= 1real,
    ;
    assert(e >= 0real);
    assert(0real <= e / k <= e) by (nonlinear_arith)
        requires
            e >= 0real,
            k >= 1real,
    ;
    let s = size(a);
    assert(a / k <= s && 0real - s <= a / k) by (nonlinear_arith)
        requires
            0real - s <= a <= s,
            s >= 0real,
            k >= 1real,
    ;
}

impl<F: Arith> Rounding<F> {
    pub(crate) proof fn lemma_sum(self, a: F, x: real, e: real, b: F, y: real, f: real)
        requires
            self.holds(),
            self.at(a, x, e),
            self.at(b, y, f),
            size(x) + size(y) + e + f <= self.range,
        ensures
            self.at(a.sum(b), x + y, e + f + self.unit),
    {
        assert(self.at(a.sum(b), (self.val)(a) + (self.val)(b), self.unit));
    }

    pub(crate) proof fn lemma_diff(self, a: F, x: real, e: real, b: F, y: real, f: real)
        requires
            self.holds(),
            self.at(a, x, e),
            self.at(b, y, f),
            size(x) + size(y) + e + f <= self.range,
        ensures
            self.at(a.diff(b), x - y, e + f + self.unit),
    {
        assert(self.at(a.diff(b), (self.val)(a) - (self.val)(b), self.unit));
    }

    pub(crate) proof fn lemma_prod(
        self,
        a: F,
        x: real,
        e: real,
        xs: real,
        b: F,
        y: real,
        f: real,
        ys: real,
    )
        requires
            self.holds(),
            self.at(a, x, e),
            self.at(b, y, f),
            size(x) <= xs,
            size(y) <= ys,
            (xs + e) * (ys + f) <= self.range,
        ensures
            self.at(a.prod(b), x * y, xs * f + ys * e + e * f + self.unit),
    {
        lemma_near_prod((self.val)(a), x, e, xs, (self.val)(b), y, f, ys);
        assert(self.at(a.prod(b), (self.val)(a) * (self.val)(b), self.unit));
    }

    pub(crate) proof fn lemma_quot(self, a: F, x: real, e: real, k: nat)
        requires
            self.holds(),
            self.at(a, x, e),
            k >= 1,
            k as real <= self.range,
            size(x) + e <= self.range,
        ensures
            self.at(a.quot(F::of_nat(k)), x / (k as real), e / (k as real) + self.unit),
            0real <= e / (k as real) <= e,
    {
        lemma_near_quot((self.val)(a), x, e, k as real);
        assert(self.at(F::of_nat(k), k as real, 0real));
        assert((self.val)(F::of_nat(k)) == k as real);
        assert(self.at(a.quot(F::of_nat(k)), (self.val)(a) / (k as real), self.unit));
    }
}

/// How fixed point stands for the real numbers: in steps of 1/1048576, as long as what
/// comes out is small enough not to stop at an end of the range.
pub open spec fn fixed_rounding() -> Rounding<Fixed> {
    Rounding {
        val: |a: Fixed| (a.raw as real) / 1_048_576real,
        good: |a: Fixed| -0x4000_0000_0000_0000 <= a.raw <= 0x4000_0000_0000_0000,
        range: 4_000_000_000_000real,
        unit: 1real / 1_048_576real,
    }
}

proof fn lemma_real_product(a: int, b: int)
    ensures
        (a * b) as real == (a as real) * (b as real),
{
    assert((a * b) as real == (a as real) * (b as real)) by (nonlinear_arith);
}

proof fn lemma_fixed_prod(a: Fixed, b: Fixed)
    requires
        size(((a.raw as real) / 1_048_576real) * ((b.raw as real) / 1_048_576real))
            <= 4_000_000_000_000real,
    ensures
        fixed_rounding().at(
            a.prod(b),
            ((a.raw as real) / 1_048_576real) * ((b.raw as real) / 1_048_576real),
            1real / 1_048_576real,
        ),
{
    let (x, y) = (a.raw as int, b.raw as int);
    let (p, q) = (magnitude(x) as int, magnitude(y) as int);
    let whole = p * q;
    let s = whole / (UNIT as int);
    assert(whole >= 0) by (nonlinear_arith)
        requires
            p >= 0,
            q >= 0,
            whole == p * q,
    ;
    let (u, v) = (x as real, y as real);
    let w = u * v;
    assert((u / 1_048_576real) * (v / 1_048_576real) == w / 1_099_511_627_776real)
        by (nonlinear_arith)
        requires
            w == u * v,
    ;
    lemma_real_product(x, y);
    assert(x * y == if (x < 0) != (y < 0) {
        0 - whole
    } else {
        whole
    }) by (nonlinear_arith)
        requires
            p == if x < 0 {
                0 - x
            } else {
                x
            },
            q == if y < 0 {
                0 - y
            } else {
                y
            },
            whole == p * q,
    ;
    let r = signed(x, y, s as nat);
    assert(whole as real <= 4_398_046_511_104_000_000_000_000real);
    assert(s <= 4_194_304_000_000_000_000);
    assert(clamped(r) == a.prod(b));
    assert(a.prod(b).raw == r);
}

proof fn lemma_fixed_quot(a: Fixed, b: Fixed)
    requires
        b.raw != 0,
        size(((a.raw as real) / 1_048_576real) / ((b.raw as real) / 1_048_576real))
            <= 4_000_000_000_000real,
    ensures
        fixed_rounding().at(
            a.quot(b),
            ((a.raw as real) / 1_048_576real) / ((b.raw as real) / 1_048_576real),
            1real / 1_048_576real,
        ),
{
    let (x, y) = (a.raw as int, b.raw as int);
    let (p, q) = (magnitude(x) as int, magnitude(y) as int);
    let scaled = p * (UNIT as int);
    let s = scaled / q;
    assert(s * q <= scaled < s * q + q && s >= 0) by (nonlinear_arith)
        requires
            q > 0,
            scaled >= 0,
            s == scaled / q,
    ;
    let (u, v) = (x as real, y as real);
    let t = u / v;
    assert((u / 1_048_576real) / (v / 1_048_576real) == t) by (nonlinear_arith)
        requires
            v != 0real,
            t == u / v,
    ;
    let (pr, qr, sr) = (p as real, q as real, s as real);
    lemma_real_product(s, q);
    let z = pr / qr;
    assert(z * 1_048_576real - 1real < sr <= z * 1_048_576real) by (nonlinear_arith)
        requires
            qr > 0real,
            z == pr / qr,
            sr * qr <= pr * 1_048_576real < sr * qr + qr,
    ;
    assert(t == if (x < 0) != (y < 0) {
        0real - z
    } else {
        z
    }) by (nonlinear_arith)
        requires
            z == pr / qr,
            t == u / v,
            qr > 0real,
            u < 0real <==> x < 0,
            v < 0real <==> y < 0,
            pr == if x < 0 {
                0real - u
            } else {
                u
            },
            qr == if y < 0 {
                0real - v
            } else {
                v
            },
    ;
    assert(z >= 0real) by (nonlinear_arith)
        requires
            z == pr / qr,
            qr > 0real,
            pr >= 0real,
    ;
    assert(s <= 4_194_304_000_000_000_000);
    assert(a.quot(b).raw == signed(x, y, s as nat));
}

/// Fixed point rounds by at most its unit, and its unit is 1/1048576.
pub proof fn law_fixed_point_rounds()
    ensures
        fixed_rounding().holds(),
{
    let r = fixed_rounding();
    assert(r.counts()) by {
        assert forall|n: nat| n as real <= r.range implies r.at(
            #[trigger] Fixed::of_nat(n),
            n as real,
            0real,
        ) by {
            assert(n <= 4_000_000_000_000);
            assert(Fixed::of_nat(n).raw == n * 1_048_576);
        }
        assert forall|n: nat, m: nat|
            (n + m) as real <= r.range implies #[trigger] Fixed::of_nat(n).sum(Fixed::of_nat(m))
            == Fixed::of_nat(n + m) by {
            assert(n + m <= 4_000_000_000_000);
            assert((n + m) * (UNIT as int) == n * UNIT + m * UNIT) by (nonlinear_arith);
        }
    }
    assert(r.sums());
    assert(r.products()) by {
        assert forall|a: Fixed, b: Fixed|
            (r.good)(a) && (r.good)(b) && size((r.val)(a) * (r.val)(b)) <= r.range implies r.at(
            #[trigger] a.prod(b),
            (r.val)(a) * (r.val)(b),
            r.unit,
        ) by {
            lemma_fixed_prod(a, b);
        }
        assert forall|a: Fixed, b: Fixed|
            (r.good)(a) && (r.good)(b) && (r.val)(b) != 0real && size((r.val)(a) / (r.val)(b))
                <= r.range implies r.at(
            #[trigger] a.quot(b),
            (r.val)(a) / (r.val)(b),
            r.unit,
        ) by {
            lemma_fixed_quot(a, b);
        }
    }
    assert(r.order());
    assert(r.singles());
}

proof fn lemma_whole_root_is_there(x: nat)
    ensures
        exists|r: nat| #[trigger] is_whole_root(r, x) && r <= x,
    decreases x,
{
    if x == 0 {
        assert(0nat * 0nat <= 0nat && 0nat < (0nat + 1nat) * (0nat + 1nat))
            by (nonlinear_arith);
        assert(is_whole_root(0, x));
    } else {
        lemma_whole_root_is_there((x - 1) as nat);
        let r = choose|r: nat| #[trigger] is_whole_root(r, (x - 1) as nat) && r <= x - 1;
        if x < (r + 1) * (r + 1) {
            assert(is_whole_root(r, x));
        } else {
            let s = r + 1;
            assert(x < (s + 1) * (s + 1)) by (nonlinear_arith)
                requires
                    x - 1 < s * s,
                    s >= 1,
            ;
            assert(is_whole_root(s, x));
        }
    }
}

/// The root of a fixed-point number is the greatest whose square is not above it; what has
/// no root has zero.
pub proof fn law_fixed_roots_are_rounded_down(x: Fixed)
    ensures
        x.raw <= 0 ==> x.root() == (Fixed { raw: 0 }),
        x.raw > 0 ==> {
            let r = x.root().raw as int;
            &&& 0 <= r
            &&& r * r <= x.raw * UNIT
            &&& x.raw * UNIT < (r + 1) * (r + 1)
        },
{
    if x.raw > 0 {
        let n = (x.raw * UNIT) as nat;
        lemma_whole_root_is_there(n);
        let r = whole_root(n);
        assert(is_whole_root(r, n));
        assert(r <= 0x7fff_ffff_ffff_ffff) by (nonlinear_arith)
            requires
                r * r <= n,
                n <= 0x7fff_ffff_ffff_ffff * 1_048_576,
        ;
    }
}

/// Doubling adds one to the binary logarithm, and that of one is zero: in fixed point,
/// exactly.
pub proof fn law_doubling_adds_one_to_the_binary_logarithm(x: nat)
    requires
        x >= 1,
    ensures
        binary_log(2 * x) == binary_log(x) + UNIT,
        binary_log(UNIT as nat) == 0,
{
    let (p, q) = (peak(x), peak(2 * x));
    assert((2 * x) / 2 == x);
    assert(q == 2 * p);
    assert(halvings(2 * x) == halvings(x) + 1);
    let a = x * (ONE as nat);
    lemma_peak(x);
    assert((2 * x) * (ONE as nat) == 2 * a) by (nonlinear_arith)
        requires
            a == x * (ONE as nat),
    ;
    vstd::arithmetic::div_mod::lemma_div_denominator(2 * a as int, 2, p as int);
    assert((2 * a) / (2 * p) == a / p);
    let (h, u) = (halvings(x) - FRACTION_BITS, UNIT as int);
    assert((h + 1) * u == h * u + u) by (nonlinear_arith);
    reveal_with_fuel(halvings, 22);
    reveal_with_fuel(peak, 22);
    assert(halvings(1_048_576) == 20);
    assert(peak(1_048_576) == 1_048_576);
    assert(1_048_576 * (ONE as nat) / 1_048_576 == ONE);
    lemma_digits_of_one(0, 1);
}

proof fn lemma_digits_of_one(digits: nat, place: nat)
    requires
        digits == 0,
    ensures
        digits_of(ONE as nat, digits, place) == 0,
    decreases 2 * UNIT - place,
{
    if place > 0 && place < UNIT {
        assert((ONE as nat) * (ONE as nat) / (ONE as nat) == ONE) by (nonlinear_arith);
        lemma_digits_of_one(0, 2 * place);
    }
}

} // verus!
