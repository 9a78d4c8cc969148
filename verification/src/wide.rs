//! Exact comparison of products that exceed 128 bits.
//!
//! The subdivision test compares `x^2` against `y^2 * w`, whose values reach
//! past any machine integer. Both sides are evaluated exactly in base `2^64`
//! limbs and compared lexicographically.

use vstd::prelude::*;
use vstd::arithmetic::div_mod::lemma_fundamental_div_mod;

verus! {

/// Value of four base-`2^64` limbs, least significant first.
pub open spec fn val4(a: [u64; 4]) -> int {
    a[0] + a[1] * 0x1_0000_0000_0000_0000 + a[2] * 0x1_0000_0000_0000_0000_0000_0000_0000_0000
        + a[3] * 0x1_0000_0000_0000_0000_0000_0000_0000_0000_0000_0000_0000_0000
}

/// Value of five base-`2^64` limbs, least significant first.
pub open spec fn val5(a: [u64; 5]) -> int {
    a[0] + a[1] * 0x1_0000_0000_0000_0000 + a[2] * 0x1_0000_0000_0000_0000_0000_0000_0000_0000
        + a[3] * 0x1_0000_0000_0000_0000_0000_0000_0000_0000_0000_0000_0000_0000 + a[4]
        * 0x1_0000_0000_0000_0000_0000_0000_0000_0000_0000_0000_0000_0000_0000_0000_0000_0000
}

/// The exact square of a `u128`, in four limbs.
pub fn square(x: u128) -> (r: [u64; 4])
    ensures
        val4(r) == x * x,
{
    let xh = x / 0x1_0000_0000_0000_0000;
    let xl = x % 0x1_0000_0000_0000_0000;
    proof {
        lemma_fundamental_div_mod(x as int, 0x1_0000_0000_0000_0000);
        assert(xh < 0x1_0000_0000_0000_0000) by (nonlinear_arith)
            requires
                xh == x as int / 0x1_0000_0000_0000_0000,
                x <= 0xffff_ffff_ffff_ffff_ffff_ffff_ffff_ffff,
        ;
        lemma_mul_lt_128(xh as int, xh as int);
        lemma_mul_lt_128(xh as int, xl as int);
        lemma_mul_lt_128(xl as int, xl as int);
    }
    let hh = xh * xh;
    let mid = xh * xl;
    let ll = xl * xl;
    proof {
        assert(x as int * x as int == hh as int * 0x1_0000_0000_0000_0000_0000_0000_0000_0000 + 2
            * mid as int * 0x1_0000_0000_0000_0000 + ll as int) by (nonlinear_arith)
            requires
                x as int == xh as int * 0x1_0000_0000_0000_0000 + xl as int,
                hh == xh as int * xh as int,
                mid == xh as int * xl as int,
                ll == xl as int * xl as int,
        ;
        lemma_fundamental_div_mod(ll as int, 0x1_0000_0000_0000_0000);
        lemma_fundamental_div_mod(mid as int, 0x1_0000_0000_0000_0000);
        lemma_fundamental_div_mod(hh as int, 0x1_0000_0000_0000_0000);
    }
    let l0 = ll % 0x1_0000_0000_0000_0000;
    let acc1 = ll / 0x1_0000_0000_0000_0000 + 2 * (mid % 0x1_0000_0000_0000_0000);
    let l1 = acc1 % 0x1_0000_0000_0000_0000;
    let acc2 = acc1 / 0x1_0000_0000_0000_0000 + 2 * (mid / 0x1_0000_0000_0000_0000) + hh
        % 0x1_0000_0000_0000_0000;
    let l2 = acc2 % 0x1_0000_0000_0000_0000;
    let acc3 = acc2 / 0x1_0000_0000_0000_0000 + hh / 0x1_0000_0000_0000_0000;
    proof {
        lemma_fundamental_div_mod(acc1 as int, 0x1_0000_0000_0000_0000);
        lemma_fundamental_div_mod(acc2 as int, 0x1_0000_0000_0000_0000);
        assert(l0 + l1 * 0x1_0000_0000_0000_0000 + l2
            * 0x1_0000_0000_0000_0000_0000_0000_0000_0000 + acc3
            * 0x1_0000_0000_0000_0000_0000_0000_0000_0000_0000_0000_0000_0000 == x as int
            * x as int) by (nonlinear_arith)
            requires
                x as int * x as int == hh as int * 0x1_0000_0000_0000_0000_0000_0000_0000_0000 + 2
                    * mid as int * 0x1_0000_0000_0000_0000 + ll as int,
                ll as int == 0x1_0000_0000_0000_0000 * (ll as int / 0x1_0000_0000_0000_0000)
                    + l0 as int,
                l0 == ll as int % 0x1_0000_0000_0000_0000,
                mid as int == 0x1_0000_0000_0000_0000 * (mid as int / 0x1_0000_0000_0000_0000) + (
                mid as int % 0x1_0000_0000_0000_0000),
                hh as int == 0x1_0000_0000_0000_0000 * (hh as int / 0x1_0000_0000_0000_0000) + (
                hh as int % 0x1_0000_0000_0000_0000),
                acc1 as int == ll as int / 0x1_0000_0000_0000_0000 + 2 * (mid as int
                    % 0x1_0000_0000_0000_0000),
                acc1 as int == 0x1_0000_0000_0000_0000 * (acc1 as int / 0x1_0000_0000_0000_0000)
                    + l1 as int,
                l1 == acc1 as int % 0x1_0000_0000_0000_0000,
                acc2 as int == acc1 as int / 0x1_0000_0000_0000_0000 + 2 * (mid as int
                    / 0x1_0000_0000_0000_0000) + hh as int % 0x1_0000_0000_0000_0000,
                acc2 as int == 0x1_0000_0000_0000_0000 * (acc2 as int / 0x1_0000_0000_0000_0000)
                    + l2 as int,
                l2 == acc2 as int % 0x1_0000_0000_0000_0000,
                acc3 as int == acc2 as int / 0x1_0000_0000_0000_0000 + hh as int
                    / 0x1_0000_0000_0000_0000,
        ;
        // The top limb fits: the square is below 2^256.
        assert((x as int * x as int) < 0x1_0000_0000_0000_0000_0000_0000_0000_0000_0000_0000_0000_0000
            * 0x1_0000_0000_0000_0000) by (nonlinear_arith)
            requires
                x <= 0xffff_ffff_ffff_ffff_ffff_ffff_ffff_ffff,
        ;
        assert(acc3 < 0x1_0000_0000_0000_0000) by (nonlinear_arith)
            requires
                l0 + l1 * 0x1_0000_0000_0000_0000 + l2
                    * 0x1_0000_0000_0000_0000_0000_0000_0000_0000 + acc3 as int
                    * 0x1_0000_0000_0000_0000_0000_0000_0000_0000_0000_0000_0000_0000 == x as int
                    * x as int,
                (x as int * x as int)
                    < 0x1_0000_0000_0000_0000_0000_0000_0000_0000_0000_0000_0000_0000
                    * 0x1_0000_0000_0000_0000,
                l0 >= 0,
                l1 >= 0,
                l2 >= 0,
                acc3 >= 0,
        ;
    }
    let r = [l0 as u64, l1 as u64, l2 as u64, acc3 as u64];
    proof {
        assert(val4(r) == x * x);
    }
    r
}

/// The exact product of four limbs and a single factor, in five limbs.
pub fn scale(a: [u64; 4], m: u64) -> (r: [u64; 5])
    ensures
        val5(r) == val4(a) * m,
{
    proof {
        lemma_mul_lt_128(a[0] as int, m as int);
        lemma_mul_lt_128(a[1] as int, m as int);
        lemma_mul_lt_128(a[2] as int, m as int);
        lemma_mul_lt_128(a[3] as int, m as int);
    }
    let t0 = a[0] as u128 * m as u128;
    let t1 = a[1] as u128 * m as u128;
    let t2 = a[2] as u128 * m as u128;
    let t3 = a[3] as u128 * m as u128;
    proof {
        assert(val4(a) * m == t0 as int + t1 as int * 0x1_0000_0000_0000_0000 + t2 as int
            * 0x1_0000_0000_0000_0000_0000_0000_0000_0000 + t3 as int
            * 0x1_0000_0000_0000_0000_0000_0000_0000_0000_0000_0000_0000_0000) by (nonlinear_arith)
            requires
                t0 == a[0] as int * m as int,
                t1 == a[1] as int * m as int,
                t2 == a[2] as int * m as int,
                t3 == a[3] as int * m as int,
                val4(a) == a[0] + a[1] * 0x1_0000_0000_0000_0000 + a[2]
                    * 0x1_0000_0000_0000_0000_0000_0000_0000_0000 + a[3]
                    * 0x1_0000_0000_0000_0000_0000_0000_0000_0000_0000_0000_0000_0000,
        ;
        lemma_fundamental_div_mod(t0 as int, 0x1_0000_0000_0000_0000);
        lemma_div_fits(t0 as int);
    }
    let l0 = t0 % 0x1_0000_0000_0000_0000;
    let acc1 = t0 / 0x1_0000_0000_0000_0000 + t1;
    proof {
        lemma_fundamental_div_mod(acc1 as int, 0x1_0000_0000_0000_0000);
        lemma_div_fits(acc1 as int);
    }
    let l1 = acc1 % 0x1_0000_0000_0000_0000;
    let acc2 = acc1 / 0x1_0000_0000_0000_0000 + t2;
    proof {
        lemma_fundamental_div_mod(acc2 as int, 0x1_0000_0000_0000_0000);
        lemma_div_fits(acc2 as int);
    }
    let l2 = acc2 % 0x1_0000_0000_0000_0000;
    let acc3 = acc2 / 0x1_0000_0000_0000_0000 + t3;
    proof {
        lemma_fundamental_div_mod(acc3 as int, 0x1_0000_0000_0000_0000);
        lemma_div_fits(acc3 as int);
    }
    let l3 = acc3 % 0x1_0000_0000_0000_0000;
    let l4 = acc3 / 0x1_0000_0000_0000_0000;
    let r = [l0 as u64, l1 as u64, l2 as u64, l3 as u64, l4 as u64];
    proof {
        assert(val5(r) == val4(a) * m);
    }
    r
}

/// Whether `val5(a) <= val5(b)`, by comparing limbs from the top.
pub fn le5(a: [u64; 5], b: [u64; 5]) -> (r: bool)
    ensures
        r == (val5(a) <= val5(b)),
{
    proof {
        if a[4] != b[4] {
            lemma_val5_top(a, b, 4);
        } else if a[3] != b[3] {
            lemma_val5_top(a, b, 3);
        } else if a[2] != b[2] {
            lemma_val5_top(a, b, 2);
        } else if a[1] != b[1] {
            lemma_val5_top(a, b, 1);
        }
    }
    if a[4] != b[4] {
        a[4] < b[4]
    } else if a[3] != b[3] {
        a[3] < b[3]
    } else if a[2] != b[2] {
        a[2] < b[2]
    } else if a[1] != b[1] {
        a[1] < b[1]
    } else {
        a[0] <= b[0]
    }
}

/// A product of two numbers below `2^64` stays below `2^128`.
proof fn lemma_mul_lt_128(a: int, b: int)
    requires
        0 <= a < 0x1_0000_0000_0000_0000,
        0 <= b < 0x1_0000_0000_0000_0000,
    ensures
        0 <= a * b <= 0xffff_ffff_ffff_ffff * 0xffff_ffff_ffff_ffff,
{
    assert(0 <= a * b && a * b <= 0xffff_ffff_ffff_ffff * 0xffff_ffff_ffff_ffff)
        by (nonlinear_arith)
        requires
            0 <= a <= 0xffff_ffff_ffff_ffff,
            0 <= b <= 0xffff_ffff_ffff_ffff,
    ;
}

/// The quotient of a `u128` by `2^64` fits far below `u128`'s limit, so a
/// carry added to a fresh product cannot overflow.
proof fn lemma_div_fits(t: int)
    requires
        0 <= t <= 0xffff_ffff_ffff_ffff_ffff_ffff_ffff_ffff,
    ensures
        0 <= t / 0x1_0000_0000_0000_0000 <= 0xffff_ffff_ffff_ffff,
        0 <= t % 0x1_0000_0000_0000_0000 < 0x1_0000_0000_0000_0000,
{
    lemma_fundamental_div_mod(t, 0x1_0000_0000_0000_0000);
    assert(t / 0x1_0000_0000_0000_0000 <= 0xffff_ffff_ffff_ffff) by (nonlinear_arith)
        requires
            t == 0x1_0000_0000_0000_0000 * (t / 0x1_0000_0000_0000_0000) + t
                % 0x1_0000_0000_0000_0000,
            t <= 0xffff_ffff_ffff_ffff_ffff_ffff_ffff_ffff,
            0 <= t % 0x1_0000_0000_0000_0000,
    ;
    assert(t / 0x1_0000_0000_0000_0000 >= 0) by (nonlinear_arith)
        requires
            t == 0x1_0000_0000_0000_0000 * (t / 0x1_0000_0000_0000_0000) + t
                % 0x1_0000_0000_0000_0000,
            t >= 0,
            t % 0x1_0000_0000_0000_0000 < 0x1_0000_0000_0000_0000,
    ;
}

/// If two limb arrays agree above position `k` and differ there, the one with
/// the smaller limb at `k` has the strictly smaller value: the limbs below
/// `k` are together worth less than one step of the limb at `k`.
proof fn lemma_val5_top(a: [u64; 5], b: [u64; 5], k: int)
    requires
        1 <= k <= 4,
        forall|j: int| k < j <= 4 ==> a[j] == b[j],
        a[k] != b[k],
    ensures
        val5(a) <= val5(b) <==> a[k] < b[k],
{
}

} // verus!
