use vstd::prelude::*;

verus! {

/// Raw units in one: a `Fixed` holds twelve decimal places.
pub const SCALE: i64 = 1_000_000_000_000;

/// Division that rounds toward zero, as integer division does in Rust.
pub open spec fn tdiv(a: int, b: int) -> int {
    if b > 0 {
        if a >= 0 { a / b } else { -((-a) / b) }
    } else {
        if a >= 0 { -(a / (-b)) } else { (-a) / (-b) }
    }
}

/// The raw integers that a `Fixed` can hold.
pub open spec fn fits_i64(x: int) -> bool {
    i64::MIN <= x <= i64::MAX
}

/// Product of two numbers given by their raw units, rounded toward zero.
pub open spec fn fixed_mul(a: int, b: int) -> int {
    tdiv(a * b, SCALE as int)
}

/// Quotient of two numbers given by their raw units, rounded toward zero.
pub open spec fn fixed_div(a: int, b: int) -> int {
    tdiv(a * SCALE, b)
}

/// Bound on the operands of `div_trunc` (2^126).
pub open spec fn wide_bound() -> int {
    0x4000_0000_0000_0000_0000_0000_0000_0000
}

/// `|a * b| <= ba * bb` whenever `|a| <= ba` and `|b| <= bb`.
pub proof fn lemma_abs_mul_bound(a: int, b: int, ba: int, bb: int)
    requires
        -ba <= a <= ba,
        -bb <= b <= bb,
    ensures
        -(ba * bb) <= a * b <= ba * bb,
{
    assert(-(ba * bb) <= a * b <= ba * bb) by (nonlinear_arith)
        requires -ba <= a <= ba, -bb <= b <= bb;
}

/// Dividing by a whole number of at least one never grows a magnitude.
pub proof fn lemma_div_whole_bound(r: int, d: int)
    requires
        d >= 1,
    ensures
        -r <= fixed_div(r, d * SCALE) <= r || r <= fixed_div(r, d * SCALE) <= -r,
{
    let s = SCALE as int;
    assert(d * s > 0) by (nonlinear_arith)
        requires d >= 1, s > 0;
    if r >= 0 {
        assert(0 <= r * s / (d * s) <= r) by (nonlinear_arith)
            requires r >= 0, d >= 1, s > 0;
    } else {
        assert(0 <= (-(r * s)) / (d * s) <= -r) by (nonlinear_arith)
            requires r < 0, d >= 1, s > 0;
    }
}

/// Integer division rounded toward zero on wide integers.
pub fn div_trunc(a: i128, b: i128) -> (q: i128)
    requires
        b != 0,
        -wide_bound() <= a <= wide_bound(),
        -wide_bound() <= b <= wide_bound(),
    ensures
        q == tdiv(a as int, b as int),
{
    let ua: i128 = if a >= 0 { a } else { -a };
    let ub: i128 = if b >= 0 { b } else { -b };
    let uq: i128 = ua / ub;
    proof {
        assert(uq <= ua) by (nonlinear_arith)
            requires ub >= 1, ua >= 0, uq == ua / ub;
    }
    if (a >= 0) == (b >= 0) {
        uq
    } else {
        -uq
    }
}

/// A signed number with twelve decimal places, held as an integer count of
/// `1 / SCALE` units.
#[derive(Clone, Copy, Debug, PartialEq, Eq, Structural)]
pub struct Fixed {
    pub raw: i64,
}

impl View for Fixed {
    type V = int;

    /// The number of `1 / SCALE` units.
    open spec fn view(&self) -> int {
        self.raw as int
    }
}

impl Fixed {
    /// The number with the given raw units.
    pub fn from_raw(raw: i64) -> (r: Fixed)
        ensures
            r@ == raw,
    {
        Fixed { raw }
    }

    /// The raw units of the number.
    pub fn to_raw(self) -> (r: i64)
        ensures
            r == self@,
    {
        self.raw
    }

    /// The whole number `n`.
    pub fn from_int(n: i64) -> (r: Fixed)
        requires
            fits_i64(n * SCALE),
        ensures
            r@ == n * SCALE,
    {
        Fixed { raw: n * SCALE }
    }

    /// The fraction `num / den`, rounded toward zero to twelve places.
    pub fn from_ratio(num: i64, den: i64) -> (r: Fixed)
        requires
            den != 0,
            fits_i64(tdiv(num * SCALE, den as int)),
        ensures
            r@ == tdiv(num * SCALE, den as int),
    {
        let a = (num as i128) * (SCALE as i128);
        let q = div_trunc(a, den as i128);
        Fixed { raw: q as i64 }
    }

    /// Zero.
    pub fn zero() -> (r: Fixed)
        ensures
            r@ == 0,
    {
        Fixed { raw: 0 }
    }

    /// The sum, where it fits.
    pub fn add(self, other: Fixed) -> (r: Fixed)
        requires
            fits_i64(self@ + other@),
        ensures
            r@ == self@ + other@,
    {
        Fixed { raw: self.raw + other.raw }
    }

    /// The difference, where it fits.
    pub fn sub(self, other: Fixed) -> (r: Fixed)
        requires
            fits_i64(self@ - other@),
        ensures
            r@ == self@ - other@,
    {
        Fixed { raw: self.raw - other.raw }
    }

    /// The product, rounded toward zero, where it fits.
    pub fn mul(self, other: Fixed) -> (r: Fixed)
        requires
            fits_i64(fixed_mul(self@, other@)),
        ensures
            r@ == fixed_mul(self@, other@),
    {
        let a = self.raw as i128;
        let b = other.raw as i128;
        proof {
            lemma_abs_mul_bound(a as int, b as int, 0x8000_0000_0000_0000, 0x8000_0000_0000_0000);
        }
        let q = div_trunc(a * b, SCALE as i128);
        Fixed { raw: q as i64 }
    }

    /// The quotient, rounded toward zero, where it fits.
    pub fn div(self, other: Fixed) -> (r: Fixed)
        requires
            other@ != 0,
            fits_i64(fixed_div(self@, other@)),
        ensures
            r@ == fixed_div(self@, other@),
    {
        let a = self.raw as i128;
        let b = other.raw as i128;
        let q = div_trunc(a * (SCALE as i128), b);
        Fixed { raw: q as i64 }
    }
}

} // verus!
