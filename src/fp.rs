//! Fixed-point scalars and vectors: 96 integer bits and 32 fractional bits,
//! stored as the raw two's complement bits of the value times 2^32.
use vstd::prelude::*;

verus! {

/// The number of raw units in one whole unit.
pub const FRAC_ONE: i128 = 0x1_0000_0000;

pub open spec fn i128_fits(v: int) -> bool {
    i128::MIN <= v <= i128::MAX
}

/// Raw bits of the product of two raw values, rounded down.
pub open spec fn mul_bits(a: int, b: int) -> int {
    (a * b) / (FRAC_ONE as int)
}

/// Integer division rounded towards zero.
pub open spec fn div_trunc(n: int, d: int) -> int
    recommends
        d != 0,
{
    let q = abs(n) / abs(d);
    if (n >= 0) == (d > 0) {
        q
    } else {
        -q
    }
}

pub open spec fn abs(v: int) -> int {
    if v < 0 {
        -v
    } else {
        v
    }
}

/// Raw bits of the quotient of two raw values, rounded towards zero.
pub open spec fn div_bits(a: int, b: int) -> int {
    div_trunc(a * (FRAC_ONE as int), b)
}

/// Relies on `FixedI128::mean`: the mean of two values, rounded down, which
/// never overflows.
#[verifier::external_body]
fn mean_bits(a: i128, b: i128) -> (r: i128)
    ensures
        r as int == (a + b) / 2,
{
    fixed::types::I96F32::from_bits(a).mean(fixed::types::I96F32::from_bits(b)).to_bits()
}

/// Relies on `FixedI128::checked_mul`: the exact product shifted right by the
/// fractional bits (rounded down), or `None` where that does not fit.
#[verifier::external_body]
fn checked_mul_bits(a: i128, b: i128) -> (r: Option<i128>)
    ensures
        r matches Some(v) ==> v as int == mul_bits(a as int, b as int),
        r is None ==> !i128_fits(mul_bits(a as int, b as int)),
{
    match fixed::types::I96F32::from_bits(a).checked_mul(fixed::types::I96F32::from_bits(b)) {
        Some(v) => Some(v.to_bits()),
        None => None,
    }
}

/// Relies on `FixedI128::checked_div`: the quotient rounded towards zero, or
/// `None` for a zero divisor or where the quotient does not fit.
#[verifier::external_body]
fn checked_div_bits(a: i128, b: i128) -> (r: Option<i128>)
    ensures
        r matches Some(v) ==> b != 0 && v as int == div_bits(a as int, b as int),
        r is None ==> b == 0 || !i128_fits(div_bits(a as int, b as int)),
{
    match fixed::types::I96F32::from_bits(a).checked_div(fixed::types::I96F32::from_bits(b)) {
        Some(v) => Some(v.to_bits()),
        None => None,
    }
}

/// Relies on `FixedI128::sqrt`: the square root rounded down, within one raw
/// unit; it panics on a negative input only.
#[verifier::external_body]
fn sqrt_bits(a: i128) -> (r: i128)
    requires
        a >= 0,
    ensures
        r >= 0,
        r * r <= a * FRAC_ONE < (r + 1) * (r + 1),
{
    fixed::types::I96F32::from_bits(a).sqrt().to_bits()
}

/// A signed fixed-point number; its value is `bits / 2^32`.
#[derive(Clone, Copy, Debug, PartialEq, Eq, Structural, Hash)]
pub struct FP128 {
    pub bits: i128,
}

impl FP128 {
    pub open spec fn val(self) -> int {
        self.bits as int
    }

    pub fn from_bits(bits: i128) -> (r: FP128)
        ensures
            r.bits == bits,
    {
        FP128 { bits }
    }

    /// The whole number `n` as a fixed-point value.
    pub fn from_int(n: i64) -> (r: FP128)
        ensures
            r.val() == n * FRAC_ONE,
    {
        FP128 { bits: n as i128 * FRAC_ONE }
    }

    /// The larger of two values.
    pub fn max(self, other: FP128) -> (r: FP128)
        ensures
            r.bits == if self.bits >= other.bits { self.bits } else { other.bits },
    {
        if self.bits >= other.bits {
            self
        } else {
            other
        }
    }

    /// The mean of two values, rounded down to a raw unit.
    pub fn mean(self, other: FP128) -> (r: FP128)
        ensures
            r.val() == (self.val() + other.val()) / 2,
    {
        FP128 { bits: mean_bits(self.bits, other.bits) }
    }

    /// The product, rounded down to a raw unit, or `None` on overflow.
    pub fn checked_mul(self, other: FP128) -> (r: Option<FP128>)
        ensures
            r matches Some(v) ==> v.val() == mul_bits(self.val(), other.val()),
            r is None <==> !i128_fits(mul_bits(self.val(), other.val())),
    {
        match checked_mul_bits(self.bits, other.bits) {
            Some(v) => Some(FP128 { bits: v }),
            None => None,
        }
    }

    /// The quotient, rounded towards zero, or `None` for a zero divisor or on
    /// overflow.
    pub fn checked_div(self, other: FP128) -> (r: Option<FP128>)
        ensures
            r matches Some(v) ==> v.val() == div_bits(self.val(), other.val()),
            r is None <==> other.bits == 0 || !i128_fits(div_bits(self.val(), other.val())),
    {
        match checked_div_bits(self.bits, other.bits) {
            Some(v) => Some(FP128 { bits: v }),
            None => None,
        }
    }

    /// The square root of a non-negative value, rounded down to a raw unit.
    pub fn sqrt(self) -> (r: FP128)
        requires
            self.bits >= 0,
        ensures
            r.bits >= 0,
            r.val() * r.val() <= self.val() * FRAC_ONE < (r.val() + 1) * (r.val() + 1),
    {
        FP128 { bits: sqrt_bits(self.bits) }
    }
}

/// A vector of three fixed-point components.
#[derive(Clone, Copy, Debug, PartialEq, Eq, Structural, Hash)]
pub struct Vec3F {
    pub x: FP128,
    pub y: FP128,
    pub z: FP128,
}

pub open spec fn add_fits(a: Vec3F, b: Vec3F) -> bool {
    &&& i128_fits(a.x.val() + b.x.val())
    &&& i128_fits(a.y.val() + b.y.val())
    &&& i128_fits(a.z.val() + b.z.val())
}

pub open spec fn sub_fits(a: Vec3F, b: Vec3F) -> bool {
    &&& i128_fits(a.x.val() - b.x.val())
    &&& i128_fits(a.y.val() - b.y.val())
    &&& i128_fits(a.z.val() - b.z.val())
}

pub open spec fn mul_fits(a: Vec3F, b: Vec3F) -> bool {
    &&& i128_fits(mul_bits(a.x.val(), b.x.val()))
    &&& i128_fits(mul_bits(a.y.val(), b.y.val()))
    &&& i128_fits(mul_bits(a.z.val(), b.z.val()))
}

pub open spec fn scale_fits(a: Vec3F, s: FP128) -> bool {
    &&& i128_fits(mul_bits(a.x.val(), s.val()))
    &&& i128_fits(mul_bits(a.y.val(), s.val()))
    &&& i128_fits(mul_bits(a.z.val(), s.val()))
}

pub open spec fn div_fits(a: Vec3F, s: FP128) -> bool {
    &&& s.bits != 0
    &&& i128_fits(div_bits(a.x.val(), s.val()))
    &&& i128_fits(div_bits(a.y.val(), s.val()))
    &&& i128_fits(div_bits(a.z.val(), s.val()))
}

/// Raw bits of the dot product, each product rounded down before the sum.
pub open spec fn dot_bits(a: Vec3F, b: Vec3F) -> int {
    mul_bits(a.x.val(), b.x.val()) + mul_bits(a.y.val(), b.y.val()) + mul_bits(a.z.val(), b.z.val())
}

pub open spec fn dot_fits(a: Vec3F, b: Vec3F) -> bool {
    &&& mul_fits(a, b)
    &&& i128_fits(mul_bits(a.x.val(), b.x.val()) + mul_bits(a.y.val(), b.y.val()))
    &&& i128_fits(dot_bits(a, b))
}

/// Raw bits of `a * d - b * c`, each product rounded down.
pub open spec fn cross_term(a: FP128, d: FP128, b: FP128, c: FP128) -> int {
    mul_bits(a.val(), d.val()) - mul_bits(b.val(), c.val())
}

pub open spec fn cross_term_fits(a: FP128, d: FP128, b: FP128, c: FP128) -> bool {
    &&& i128_fits(mul_bits(a.val(), d.val()))
    &&& i128_fits(mul_bits(b.val(), c.val()))
    &&& i128_fits(cross_term(a, d, b, c))
}

pub open spec fn cross_fits(a: Vec3F, b: Vec3F) -> bool {
    &&& cross_term_fits(a.y, b.z, a.z, b.y)
    &&& cross_term_fits(a.z, b.x, a.x, b.z)
    &&& cross_term_fits(a.x, b.y, a.y, b.x)
}

proof fn lemma_square_bits_nonneg(a: int)
    ensures
        mul_bits(a, a) >= 0,
{
    assert(a * a >= 0) by (nonlinear_arith);
    assert((a * a) / (FRAC_ONE as int) >= 0) by (nonlinear_arith)
        requires
            a * a >= 0,
    ;
}

fn mul_exact(a: FP128, b: FP128) -> (r: FP128)
    requires
        i128_fits(mul_bits(a.val(), b.val())),
    ensures
        r.val() == mul_bits(a.val(), b.val()),
{
    match a.checked_mul(b) {
        Some(v) => v,
        None => a,
    }
}

fn div_exact(a: FP128, b: FP128) -> (r: FP128)
    requires
        b.bits != 0,
        i128_fits(div_bits(a.val(), b.val())),
    ensures
        r.val() == div_bits(a.val(), b.val()),
{
    match a.checked_div(b) {
        Some(v) => v,
        None => a,
    }
}

impl Vec3F {
    pub fn new(x: FP128, y: FP128, z: FP128) -> (r: Vec3F)
        ensures
            r.x == x && r.y == y && r.z == z,
    {
        Vec3F { x, y, z }
    }

    pub fn splat(f: FP128) -> (r: Vec3F)
        ensures
            r.x == f && r.y == f && r.z == f,
    {
        Vec3F { x: f, y: f, z: f }
    }

    /// The vector with every component zero.
    pub fn zero() -> (r: Vec3F)
        ensures
            r.x.bits == 0 && r.y.bits == 0 && r.z.bits == 0,
    {
        Vec3F::splat(FP128 { bits: 0 })
    }

    /// The first three values of a slice as a vector.
    pub fn from_slice(arr: &[FP128]) -> (r: Vec3F)
        requires
            arr@.len() >= 3,
        ensures
            r.x == arr@[0] && r.y == arr@[1] && r.z == arr@[2],
    {
        Vec3F { x: arr[0], y: arr[1], z: arr[2] }
    }

    pub fn to_array(&self) -> (r: [FP128; 3])
        ensures
            r@ == seq![self.x, self.y, self.z],
    {
        let r = [self.x, self.y, self.z];
        assert(r@ =~= seq![self.x, self.y, self.z]);
        r
    }

    pub fn add(self, rhs: Vec3F) -> (r: Vec3F)
        requires
            add_fits(self, rhs),
        ensures
            r.x.val() == self.x.val() + rhs.x.val(),
            r.y.val() == self.y.val() + rhs.y.val(),
            r.z.val() == self.z.val() + rhs.z.val(),
    {
        Vec3F {
            x: FP128 { bits: self.x.bits + rhs.x.bits },
            y: FP128 { bits: self.y.bits + rhs.y.bits },
            z: FP128 { bits: self.z.bits + rhs.z.bits },
        }
    }

    pub fn sub(self, rhs: Vec3F) -> (r: Vec3F)
        requires
            sub_fits(self, rhs),
        ensures
            r.x.val() == self.x.val() - rhs.x.val(),
            r.y.val() == self.y.val() - rhs.y.val(),
            r.z.val() == self.z.val() - rhs.z.val(),
    {
        Vec3F {
            x: FP128 { bits: self.x.bits - rhs.x.bits },
            y: FP128 { bits: self.y.bits - rhs.y.bits },
            z: FP128 { bits: self.z.bits - rhs.z.bits },
        }
    }

    /// The componentwise product.
    pub fn mul(self, rhs: Vec3F) -> (r: Vec3F)
        requires
            mul_fits(self, rhs),
        ensures
            r.x.val() == mul_bits(self.x.val(), rhs.x.val()),
            r.y.val() == mul_bits(self.y.val(), rhs.y.val()),
            r.z.val() == mul_bits(self.z.val(), rhs.z.val()),
    {
        Vec3F { x: mul_exact(self.x, rhs.x), y: mul_exact(self.y, rhs.y), z: mul_exact(self.z, rhs.z) }
    }

    /// Every component multiplied by a scalar.
    pub fn mul_scalar(self, s: FP128) -> (r: Vec3F)
        requires
            scale_fits(self, s),
        ensures
            r.x.val() == mul_bits(self.x.val(), s.val()),
            r.y.val() == mul_bits(self.y.val(), s.val()),
            r.z.val() == mul_bits(self.z.val(), s.val()),
    {
        Vec3F { x: mul_exact(self.x, s), y: mul_exact(self.y, s), z: mul_exact(self.z, s) }
    }

    /// Every component divided by a scalar, rounded towards zero.
    pub fn div_scalar(self, s: FP128) -> (r: Vec3F)
        requires
            div_fits(self, s),
        ensures
            r.x.val() == div_bits(self.x.val(), s.val()),
            r.y.val() == div_bits(self.y.val(), s.val()),
            r.z.val() == div_bits(self.z.val(), s.val()),
    {
        Vec3F { x: div_exact(self.x, s), y: div_exact(self.y, s), z: div_exact(self.z, s) }
    }

    pub fn neg(self) -> (r: Vec3F)
        requires
            self.x.bits != i128::MIN && self.y.bits != i128::MIN && self.z.bits != i128::MIN,
        ensures
            r.x.val() == -self.x.val(),
            r.y.val() == -self.y.val(),
            r.z.val() == -self.z.val(),
    {
        Vec3F {
            x: FP128 { bits: -self.x.bits },
            y: FP128 { bits: -self.y.bits },
            z: FP128 { bits: -self.z.bits },
        }
    }

    pub fn abs(&self) -> (r: Vec3F)
        requires
            self.x.bits != i128::MIN && self.y.bits != i128::MIN && self.z.bits != i128::MIN,
        ensures
            r.x.val() == abs(self.x.val()),
            r.y.val() == abs(self.y.val()),
            r.z.val() == abs(self.z.val()),
    {
        Vec3F {
            x: FP128 { bits: if self.x.bits < 0 { -self.x.bits } else { self.x.bits } },
            y: FP128 { bits: if self.y.bits < 0 { -self.y.bits } else { self.y.bits } },
            z: FP128 { bits: if self.z.bits < 0 { -self.z.bits } else { self.z.bits } },
        }
    }

    /// The largest component.
    pub fn max(&self) -> (r: FP128)
        ensures
            r == self.x || r == self.y || r == self.z,
            r.bits >= self.x.bits && r.bits >= self.y.bits && r.bits >= self.z.bits,
    {
        self.x.max(self.y.max(self.z))
    }

    pub fn dot(&self, other: Vec3F) -> (r: FP128)
        requires
            dot_fits(*self, other),
        ensures
            r.val() == dot_bits(*self, other),
    {
        let a = mul_exact(self.x, other.x);
        let b = mul_exact(self.y, other.y);
        let c = mul_exact(self.z, other.z);
        FP128 { bits: a.bits + b.bits + c.bits }
    }

    pub fn cross(&self, other: Vec3F) -> (r: Vec3F)
        requires
            cross_fits(*self, other),
        ensures
            r.x.val() == cross_term(self.y, other.z, self.z, other.y),
            r.y.val() == cross_term(self.z, other.x, self.x, other.z),
            r.z.val() == cross_term(self.x, other.y, self.y, other.x),
    {
        Vec3F {
            x: FP128 { bits: mul_exact(self.y, other.z).bits - mul_exact(self.z, other.y).bits },
            y: FP128 { bits: mul_exact(self.z, other.x).bits - mul_exact(self.x, other.z).bits },
            z: FP128 { bits: mul_exact(self.x, other.y).bits - mul_exact(self.y, other.x).bits },
        }
    }

    pub fn length_squared(&self) -> (r: FP128)
        requires
            dot_fits(*self, *self),
        ensures
            r.val() == dot_bits(*self, *self),
    {
        self.dot(*self)
    }

    pub fn add_assign(&mut self, rhs: Vec3F)
        requires
            add_fits(*old(self), rhs),
        ensures
            final(self).x.val() == old(self).x.val() + rhs.x.val(),
            final(self).y.val() == old(self).y.val() + rhs.y.val(),
            final(self).z.val() == old(self).z.val() + rhs.z.val(),
    {
        *self = self.add(rhs);
    }

    pub fn sub_assign(&mut self, rhs: Vec3F)
        requires
            sub_fits(*old(self), rhs),
        ensures
            final(self).x.val() == old(self).x.val() - rhs.x.val(),
            final(self).y.val() == old(self).y.val() - rhs.y.val(),
            final(self).z.val() == old(self).z.val() - rhs.z.val(),
    {
        *self = self.sub(rhs);
    }

    pub fn mul_assign(&mut self, rhs: Vec3F)
        requires
            mul_fits(*old(self), rhs),
        ensures
            final(self).x.val() == mul_bits(old(self).x.val(), rhs.x.val()),
            final(self).y.val() == mul_bits(old(self).y.val(), rhs.y.val()),
            final(self).z.val() == mul_bits(old(self).z.val(), rhs.z.val()),
    {
        *self = self.mul(rhs);
    }

    pub fn mul_scalar_assign(&mut self, s: FP128)
        requires
            scale_fits(*old(self), s),
        ensures
            final(self).x.val() == mul_bits(old(self).x.val(), s.val()),
            final(self).y.val() == mul_bits(old(self).y.val(), s.val()),
            final(self).z.val() == mul_bits(old(self).z.val(), s.val()),
    {
        *self = self.mul_scalar(s);
    }

    pub fn div_scalar_assign(&mut self, s: FP128)
        requires
            div_fits(*old(self), s),
        ensures
            final(self).x.val() == div_bits(old(self).x.val(), s.val()),
            final(self).y.val() == div_bits(old(self).y.val(), s.val()),
            final(self).z.val() == div_bits(old(self).z.val(), s.val()),
    {
        *self = self.div_scalar(s);
    }

    /// The Euclidean length, rounded down to a raw unit.
    pub fn length(&self) -> (r: FP128)
        requires
            dot_fits(*self, *self),
        ensures
            r.bits >= 0,
            r.val() * r.val() <= dot_bits(*self, *self) * FRAC_ONE < (r.val() + 1) * (r.val() + 1),
    {
        let sq = self.length_squared();
        proof {
            lemma_square_bits_nonneg(self.x.val());
            lemma_square_bits_nonneg(self.y.val());
            lemma_square_bits_nonneg(self.z.val());
        }
        sq.sqrt()
    }
}

impl Default for Vec3F {
    fn default() -> (r: Vec3F)
        ensures
            r.x.bits == 0 && r.y.bits == 0 && r.z.bits == 0,
    {
        Vec3F::zero()
    }
}

} // verus!
