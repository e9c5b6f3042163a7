//! Products of two numbers of 128 bits, compared without rounding.

use vstd::prelude::*;

verus! {

/// Half of the 128 bits.
const HALF: u128 = 0x1_0000_0000_0000_0000;

/// The product of two numbers, from the products of their halves.
proof fn lemma_halves(x1: int, x0: int, y1: int, y0: int, h: int)
    ensures
        (x1 * h + x0) * (y1 * h + y0) == (x1 * y1) * (h * h) + (x0 * y1) * h + (x1 * y0) * h + x0
            * y0,
{
    let (x, y) = (x1 * h, y1 * h);
    assert((x + x0) * (y + y0) == x * y + x * y0 + x0 * y + x0 * y0) by (nonlinear_arith);
    assert((x1 * h) * (y1 * h) == (x1 * y1) * (h * h)) by (nonlinear_arith);
    assert((x1 * h) * y0 == (x1 * y0) * h) by (nonlinear_arith);
    assert(x0 * (y1 * h) == (x0 * y1) * h) by (nonlinear_arith);
}

/// The product of two numbers: its upper and its lower 128 bits.
fn product(a: u128, b: u128) -> (r: (u128, u128))
    ensures
        a * b == r.0 * 0x1_0000_0000_0000_0000_0000_0000_0000_0000int + r.1,
{
    let (a1, a0) = (a / HALF, a % HALF);
    let (b1, b0) = (b / HALF, b % HALF);
    proof {
        let h = HALF as int;
        assert(a1 < h && b1 < h);
        assert(a0 * b0 <= (h - 1) * (h - 1) && a0 * b1 <= (h - 1) * (h - 1) && a1 * b0 <= (h - 1)
            * (h - 1) && a1 * b1 <= (h - 1) * (h - 1)) by (nonlinear_arith)
            requires
                0 <= a0 < h,
                0 <= a1 < h,
                0 <= b0 < h,
                0 <= b1 < h,
        ;
        assert(0 <= a0 * b0 && 0 <= a0 * b1 && 0 <= a1 * b0 && 0 <= a1 * b1) by (nonlinear_arith)
            requires
                0 <= a0,
                0 <= a1,
                0 <= b0,
                0 <= b1,
        ;
    }
    let low: u128 = a0 * b0;
    let left: u128 = a0 * b1;
    let right: u128 = a1 * b0;
    let high: u128 = a1 * b1;
    let mid: u128 = low / HALF + left % HALF + right % HALF;
    proof {
        let (x1, x0, y1, y0, h) = (a1 as int, a0 as int, b1 as int, b0 as int, HALF as int);
        lemma_halves(x1, x0, y1, y0, h);
        assert(h * h == 0x1_0000_0000_0000_0000_0000_0000_0000_0000int) by (nonlinear_arith)
            requires
                h == 0x1_0000_0000_0000_0000,
        ;
        assert(high * (h * h) == high * 0x1_0000_0000_0000_0000_0000_0000_0000_0000int);
        assert((x0 * y1) * h == left * 0x1_0000_0000_0000_0000);
        assert((x1 * y0) * h == right * 0x1_0000_0000_0000_0000);
        assert(a == x1 * h + x0);
        assert(b == y1 * h + y0);
    }
    (high + left / HALF + right / HALF + mid / HALF, (mid % HALF) * HALF + low % HALF)
}

/// Whether `a * b <= c * d`.
pub fn product_le(a: u128, b: u128, c: u128, d: u128) -> (r: bool)
    ensures
        r == (a * b <= c * d),
{
    let (x1, x0) = product(a, b);
    let (y1, y0) = product(c, d);
    x1 < y1 || (x1 == y1 && x0 <= y0)
}

} // verus!
