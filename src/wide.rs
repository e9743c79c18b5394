//! Exact products of two `u128` values as 256-bit numbers, and their order.
use vstd::prelude::*;

verus! {

pub const TWO_64: u128 = 0x1_0000_0000_0000_0000;

pub open spec fn two_128() -> int {
    TWO_64 as int * TWO_64 as int
}

/// The value of the 256-bit number with high half `hi` and low half `lo`.
pub open spec fn wide_value(hi: u128, lo: u128) -> int {
    hi * two_128() + lo
}

proof fn lemma_expand(a1: int, a0: int, b1: int, b0: int, k: int)
    ensures
        (a1 * k + a0) * (b1 * k + b0) == (a1 * b1) * (k * k) + (a0 * b1 + a1 * b0) * k + a0 * b0,
{
    let x = a1 * k;
    let y = b1 * k;
    vstd::arithmetic::mul::lemma_mul_is_distributive_add_other_way(b1 * k + b0, x, a0);
    vstd::arithmetic::mul::lemma_mul_is_distributive_add(x, y, b0);
    vstd::arithmetic::mul::lemma_mul_is_distributive_add(a0, y, b0);
    assert(x * y == (a1 * b1) * (k * k)) by (nonlinear_arith)
        requires
            x == a1 * k,
            y == b1 * k,
    ;
    assert(x * b0 == (a1 * b0) * k) by (nonlinear_arith)
        requires
            x == a1 * k,
    ;
    assert(a0 * y == (a0 * b1) * k) by (nonlinear_arith)
        requires
            y == b1 * k,
    ;
    vstd::arithmetic::mul::lemma_mul_is_distributive_add_other_way(k, a0 * b1, a1 * b0);
}

proof fn lemma_product_bound(x: int, y: int, m: int)
    requires
        0 <= x < m,
        0 <= y < m,
    ensures
        x * y < m * m,
        x * y <= (m - 1) * (m - 1),
{
    assert(x * y <= (m - 1) * (m - 1)) by (nonlinear_arith)
        requires
            0 <= x <= m - 1,
            0 <= y <= m - 1,
    ;
    assert((m - 1) * (m - 1) < m * m) by (nonlinear_arith)
        requires
            m >= 1,
    ;
}

/// The full product of `a` and `b`, as its high and low 128 bits.
pub fn wide_mul(a: u128, b: u128) -> (r: (u128, u128))
    ensures
        wide_value(r.0, r.1) == a * b,
{
    let a0 = a % TWO_64;
    let a1 = a / TWO_64;
    let b0 = b % TWO_64;
    let b1 = b / TWO_64;
    proof {
        let k = TWO_64 as int;
        lemma_product_bound(a0 as int, b0 as int, k);
        lemma_product_bound(a0 as int, b1 as int, k);
        lemma_product_bound(a1 as int, b0 as int, k);
        lemma_product_bound(a1 as int, b1 as int, k);
    }
    let p00 = a0 * b0;
    let p01 = a0 * b1;
    let p10 = a1 * b0;
    let p11 = a1 * b1;
    let t = p00 / TWO_64 + p01 % TWO_64 + p10 % TWO_64;
    let lo = p00 % TWO_64 + (t % TWO_64) * TWO_64;
    let ghost k = TWO_64 as int;
    let ghost hi_i = p11 as int + p01 as int / k + p10 as int / k + t as int / k;
    proof {
        lemma_expand(a1 as int, a0 as int, b1 as int, b0 as int, k);
        assert(a as int == a1 * k + a0 && b as int == b1 * k + b0);
        let ab = a as int * b as int;
        assert(ab == p11 * (k * k) + (p01 + p10) * k + p00);
        assert(hi_i * (k * k) + lo == ab);
        lemma_product_bound(a as int, b as int, k * k);
        if hi_i >= k * k {
            assert(hi_i * (k * k) >= (k * k) * (k * k)) by (nonlinear_arith)
                requires
                    hi_i >= k * k,
                    k * k > 0,
            ;
        }
    }
    let hi = p11 + p01 / TWO_64 + p10 / TWO_64 + t / TWO_64;
    (hi, lo)
}

/// Compares two 256-bit numbers.
pub fn wide_gt(ah: u128, al: u128, bh: u128, bl: u128) -> (r: bool)
    ensures
        r == (wide_value(ah, al) > wide_value(bh, bl)),
{
    proof {
        let k = two_128();
        if ah > bh {
            assert(ah * k + al > bh * k + bl) by (nonlinear_arith)
                requires
                    ah >= bh + 1,
                    0 <= al,
                    bl < k,
                    bh >= 0,
            ;
        } else if ah < bh {
            assert(ah * k + al < bh * k + bl) by (nonlinear_arith)
                requires
                    bh >= ah + 1,
                    0 <= bl,
                    al < k,
                    ah >= 0,
            ;
        }
    }
    ah > bh || (ah == bh && al > bl)
}

} // verus!
