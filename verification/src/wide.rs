//! Exact comparison of products of two 128-bit numbers. The products need
//! up to 256 bits, which are kept as two 128-bit halves.

use vstd::prelude::*;

verus! {

/// Two to the power 64: the base of the digits that a 128-bit number is
/// split into.
pub const BASE: u128 = 0x1_0000_0000_0000_0000;

/// Two to the power 128, as a mathematical integer.
pub open spec fn base_squared() -> int {
    BASE * BASE
}

/// A number below two to the power 256: `hi * 2^128 + lo`.
#[derive(Clone, Copy, Debug)]
pub struct Wide {
    pub hi: u128,
    pub lo: u128,
}

impl Wide {
    /// The number that the two halves stand for.
    pub open spec fn value(self) -> int {
        self.hi * base_squared() + self.lo
    }

    /// Whether `self` is at most `other`, as numbers.
    pub fn le(self, other: Wide) -> (r: bool)
        ensures
            r == (self.value() <= other.value()),
    {
        assert(base_squared() == 0x1_0000_0000_0000_0000_0000_0000_0000_0000int);
        if self.hi == other.hi {
            self.lo <= other.lo
        } else {
            self.hi < other.hi
        }
    }
}

/// The product of two digits fits in 128 bits, with room to spare.
proof fn lemma_digit_product(a: int, b: int)
    requires
        0 <= a < BASE,
        0 <= b < BASE,
    ensures
        0 <= a * b <= (BASE - 1) * (BASE - 1),
{
    assert(0 <= a * b <= (BASE - 1) * (BASE - 1)) by (nonlinear_arith)
        requires
            0 <= a <= BASE - 1,
            0 <= b <= BASE - 1,
    ;
}

/// The schoolbook expansion of a product of two two-digit numbers.
proof fn lemma_expand(x1: int, x0: int, y1: int, y0: int, b: int)
    ensures
        (x1 * b + x0) * (y1 * b + y0) == (x1 * y1) * (b * b) + (x0 * y1 + x1 * y0) * b + x0 * y0,
{
    let u = x1 * b;
    let v = y1 * b;
    assert((u + x0) * (v + y0) == u * v + u * y0 + x0 * v + x0 * y0) by (nonlinear_arith);
    assert(u * v == (x1 * y1) * (b * b)) by (nonlinear_arith)
        requires
            u == x1 * b,
            v == y1 * b,
    ;
    assert(u * y0 == (x1 * y0) * b) by (nonlinear_arith)
        requires
            u == x1 * b,
    ;
    assert(x0 * v == (x0 * y1) * b) by (nonlinear_arith)
        requires
            v == y1 * b,
    ;
    assert((x0 * y1 + x1 * y0) * b == (x0 * y1) * b + (x1 * y0) * b) by (nonlinear_arith);
}

/// The full product of `x` and `y`.
pub fn wide_mul(x: u128, y: u128) -> (w: Wide)
    ensures
        w.value() == x * y,
{
    let x1: u128 = x / BASE;
    let x0: u128 = x % BASE;
    let y1: u128 = y / BASE;
    let y0: u128 = y % BASE;
    proof {
        lemma_digit_product(x0 as int, y0 as int);
        lemma_digit_product(x0 as int, y1 as int);
        lemma_digit_product(x1 as int, y0 as int);
        lemma_digit_product(x1 as int, y1 as int);
        lemma_expand(x1 as int, x0 as int, y1 as int, y0 as int, BASE as int);
    }
    let low_low: u128 = x0 * y0;
    let low_high: u128 = x0 * y1;
    let high_low: u128 = x1 * y0;
    let high_high: u128 = x1 * y1;
    let mid: u128 = low_low / BASE + low_high % BASE + high_low % BASE;
    let lo: u128 = (mid % BASE) * BASE + low_low % BASE;
    let hi: u128 = high_high + low_high / BASE + high_low / BASE + mid / BASE;
    let w = Wide { hi, lo };
    proof {
        let b = BASE as int;
        assert(x == x1 * b + x0);
        assert(y == y1 * b + y0);
        assert(x * y == high_high * (b * b) + (low_high + high_low) * b + low_low);
        assert((low_high + high_low) * b == (low_high / BASE + high_low / BASE) * (b * b) + (low_high % BASE + high_low % BASE)
            * b) by {
            assert(low_high == (low_high / BASE) * b + low_high % BASE);
            assert(high_low == (high_low / BASE) * b + high_low % BASE);
            assert(((low_high / BASE) * b + low_high % BASE + (high_low / BASE) * b + high_low % BASE) * b == (low_high
                / BASE + high_low / BASE) * (b * b) + (low_high % BASE + high_low % BASE) * b)
                by (nonlinear_arith);
        }
        assert(mid * b == (mid / BASE) * (b * b) + (mid % BASE) * b) by {
            assert(mid == (mid / BASE) * b + mid % BASE);
            assert(((mid / BASE) * b + mid % BASE) * b == (mid / BASE) * (b * b) + (mid % BASE)
                * b) by (nonlinear_arith);
        }
        assert(hi * (b * b) == high_high * (b * b) + (low_high / BASE + high_low / BASE) * (b * b) + (mid / BASE)
            * (b * b)) by (nonlinear_arith)
            requires
                hi == high_high + low_high / BASE + high_low / BASE + mid / BASE,
        ;
        assert((low_low / BASE + low_high % BASE + high_low % BASE) * b == (low_low / BASE) * b + (low_high % BASE
            + high_low % BASE) * b) by (nonlinear_arith);
    }
    w
}

/// Whether `a * b <= c * d`, with no bound on the four factors.
pub fn product_le(a: u128, b: u128, c: u128, d: u128) -> (r: bool)
    ensures
        r == (a * b <= c * d),
{
    wide_mul(a, b).le(wide_mul(c, d))
}

} // verus!
