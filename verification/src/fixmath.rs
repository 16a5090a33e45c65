//! Exact fixed-point arithmetic helpers.
//!
//! Values carry 20 fractional bits (`FP` is the representation of 1).  The
//! optimizer's gain schedule needs real-valued powers `t^(num / 2^logden)`
//! with an exponent below one; they are computed exactly as a chain of
//! integer square roots, and every function here is pinned to a deterministic
//! specification of that computation.

use vstd::prelude::*;

verus! {

/// Fixed-point scale: 2^20.
pub const FP: u64 = 0x100000;

/// `v` forced into the closed interval `[lo, hi]`.
pub open spec fn clamp_i(v: int, lo: int, hi: int) -> int {
    if v < lo {
        lo
    } else if v > hi {
        hi
    } else {
        v
    }
}

/// 2^k.
pub open spec fn pow2(k: nat) -> int
    decreases k,
{
    if k == 0 {
        1
    } else {
        2 * pow2((k - 1) as nat)
    }
}

/// The largest `r` with `r * r <= x` (0 for negative `x`).
pub open spec fn sqrt_floor(x: int) -> int
    decreases x,
{
    if x < 1 {
        0
    } else {
        let h = 2 * sqrt_floor(x / 4);
        if (h + 1) * (h + 1) <= x {
            h + 1
        } else {
            h
        }
    }
}

/// `sqrt_floor` really is the floor of the square root.
pub proof fn lemma_sqrt_floor(x: int)
    requires
        x >= 0,
    ensures
        sqrt_floor(x) >= 0,
        sqrt_floor(x) * sqrt_floor(x) <= x,
        x < (sqrt_floor(x) + 1) * (sqrt_floor(x) + 1),
    decreases x,
{
    if x < 1 {
    } else {
        lemma_sqrt_floor(x / 4);
        let h = sqrt_floor(x / 4);
        assert(x == 4 * (x / 4) + x % 4 && 0 <= x % 4 < 4) by (nonlinear_arith)
            requires x >= 1;
        assert((2 * h) * (2 * h) <= 4 * (x / 4)) by (nonlinear_arith)
            requires h * h <= x / 4;
        assert(4 * ((h + 1) * (h + 1)) <= (2 * h + 2) * (2 * h + 2)) by (nonlinear_arith);
        assert(x < (2 * h + 2) * (2 * h + 2)) by (nonlinear_arith)
            requires
                x / 4 < (h + 1) * (h + 1),
                x == 4 * (x / 4) + x % 4,
                0 <= x % 4 < 4,
        ;
    }
}

/// Only one value satisfies the floor-square-root bracketing.
pub proof fn lemma_sqrt_unique(x: int, r: int)
    requires
        x >= 0,
        r >= 0,
        r * r <= x,
        x < (r + 1) * (r + 1),
    ensures
        r == sqrt_floor(x),
{
    lemma_sqrt_floor(x);
    let s = sqrt_floor(x);
    if r < s {
        assert((r + 1) * (r + 1) <= s * s) by (nonlinear_arith)
            requires 0 <= r, r + 1 <= s;
        assert(false);
    }
    if s < r {
        assert((s + 1) * (s + 1) <= r * r) by (nonlinear_arith)
            requires 0 <= s, s + 1 <= r;
        assert(false);
    }
}

/// Exact integer square root by bisection.
pub fn isqrt(x: u128) -> (r: u64)
    requires
        (x as int) < pow2(72),
    ensures
        r as int == sqrt_floor(x as int),
        (r as int) * (r as int) <= x as int,
        (x as int) < (r as int + 1) * (r as int + 1),
{
    proof {
        assert(pow2(72) == 0x1000000000000000000 && pow2(37) == 0x2000000000) by {
            reveal_with_fuel(pow2, 73);
        }
    }
    let mut lo: u64 = 0;
    let mut hi: u64 = 0x2000000000;
    assert((hi as int) * (hi as int) > x as int) by (nonlinear_arith)
        requires hi as int == pow2(37), (x as int) < pow2(72), pow2(72) < pow2(37) * pow2(37);
    while hi - lo > 1
        invariant
            lo < hi <= 0x2000000000,
            (lo as int) * (lo as int) <= x as int,
            (x as int) < (hi as int) * (hi as int),
        decreases hi - lo,
    {
        let mid: u64 = lo + (hi - lo) / 2;
        assert((mid as int) * (mid as int) <= 0x2000000000 * 0x2000000000) by (nonlinear_arith)
            requires 0 <= mid as int <= 0x2000000000;
        if (mid as u128) * (mid as u128) <= x {
            lo = mid;
        } else {
            hi = mid;
        }
    }
    proof {
        lemma_sqrt_unique(x as int, lo as int);
    }
    lo
}

/// 2^k is monotone in k.
pub proof fn lemma_pow2_mono(a: nat, b: nat)
    requires
        a <= b,
    ensures
        1 <= pow2(a) <= pow2(b),
    decreases b,
{
    if b > 0 {
        if a == b {
            lemma_pow2_mono((a - 1) as nat, (b - 1) as nat);
        } else {
            lemma_pow2_mono(a, (b - 1) as nat);
        }
    }
}

/// The accumulator ranges are at least one and fit a 64-bit word.
proof fn lemma_abound_small(i: nat)
    requires
        i <= 7,
    ensures
        0x100000 <= abound(i) < 0x10000000000000000,
{
    reveal_with_fuel(abound, 9);
    assert(abound(0) == 0x100000);
    assert(abound(1) == 0xfffffffff);
    assert(abound(2) == 0xffffffeff00);
    assert(abound(3) == 0xfffffeeff000);
    assert(abound(4) == 0xfffffdeff0011);
    assert(abound(5) == 0xfffffceff00320);
    assert(abound(6) == 0xfffffbeff006300);
    assert(abound(7) == 0xfffffaeff00a400f);
    if i == 0 {
    } else if i == 1 {
    } else if i == 2 {
    } else if i == 3 {
    } else if i == 4 {
    } else if i == 5 {
    } else if i == 6 {
    } else {
    }
}

/// Exec power of two.
fn pow2_u32(k: u32) -> (r: u32)
    requires
        k <= 7,
    ensures
        r as int == pow2(k as nat),
{
    proof {
        reveal_with_fuel(pow2, 9);
    }
    let mut r: u32 = 1;
    let mut j: u32 = 0;
    while j < k
        invariant
            j <= k <= 7,
            r as int == pow2(j as nat),
            r <= 128,
        decreases k - j,
    {
        proof {
            lemma_pow2_mono(j as nat, 6);
            reveal_with_fuel(pow2, 9);
        }
        r = r * 2;
        j = j + 1;
    }
    r
}

/// Bit `k` of a nonnegative number.
pub open spec fn bit_at(num: int, k: nat) -> bool {
    (num / pow2(k)) % 2 == 1
}

/// The chain of iterated square roots: `chain_y(t, i)` is the fixed-point
/// representation of `t` to the power `1 / 2^i`.
pub open spec fn chain_y(t: int, i: nat) -> int
    decreases i,
{
    if i == 0 {
        t * 0x100000
    } else {
        sqrt_floor(chain_y(t, (i - 1) as nat) * 0x100000)
    }
}

/// Range of one chain member.
pub open spec fn ybound(i: nat) -> int {
    if i == 0 {
        0x10000000000000  // 2^52
    } else if i == 1 {
        0x1000000000  // 2^36
    } else if i == 2 {
        0x10000000  // 2^28
    } else {
        0x1000000  // 2^24
    }
}

/// Every chain member is at least one and within its range.
pub proof fn lemma_chain_y_bounds(t: int, i: nat)
    requires
        1 <= t < 0x100000000,
    ensures
        0x100000 <= chain_y(t, i) < ybound(i),
    decreases i,
{
    if i == 0 {
        assert(t * 0x100000 < 0x10000000000000) by (nonlinear_arith)
            requires t < 0x100000000;
        assert(t * 0x100000 >= 0x100000) by (nonlinear_arith)
            requires t >= 1;
    } else {
        lemma_chain_y_bounds(t, (i - 1) as nat);
        let prev = chain_y(t, (i - 1) as nat);
        let y = sqrt_floor(prev * 0x100000);
        lemma_sqrt_floor(prev * 0x100000);
        assert(prev * 0x100000 >= 0x100000 * 0x100000) by (nonlinear_arith)
            requires prev >= 0x100000;
        if y < 0x100000 {
            assert((y + 1) * (y + 1) <= 0x100000 * 0x100000) by (nonlinear_arith)
                requires 0 <= y, y + 1 <= 0x100000;
            assert(false);
        }
        let b = ybound((i - 1) as nat);
        assert(prev * 0x100000 < b * 0x100000) by (nonlinear_arith)
            requires prev < b;
        if i == 1 {
            // arg < 2^72, so the root is below 2^36
            if y >= 0x1000000000 {
                assert(y * y >= 0x1000000000 * 0x1000000000) by (nonlinear_arith)
                    requires y >= 0x1000000000;
                assert(false);
            }
        } else if i == 2 {
            if y >= 0x10000000 {
                assert(y * y >= 0x10000000 * 0x10000000) by (nonlinear_arith)
                    requires y >= 0x10000000;
                assert(false);
            }
        } else {
            // arg < 2^48, so the root is below 2^24
            assert(prev * 0x100000 < 0x10000000 * 0x100000) by (nonlinear_arith)
                requires prev < 0x10000000;
            if y >= 0x1000000 {
                assert(y * y >= 0x1000000 * 0x1000000) by (nonlinear_arith)
                    requires y >= 0x1000000;
                assert(false);
            }
        }
    }
}

/// The accumulated dyadic power after the first `i` chain members.
pub open spec fn pow_frac_rec(t: int, num: int, logden: nat, i: nat) -> int
    decreases i,
{
    if i == 0 {
        0x100000
    } else {
        let prev = pow_frac_rec(t, num, logden, (i - 1) as nat);
        if bit_at(num, (logden - i) as nat) {
            prev * chain_y(t, i) / 0x100000
        } else {
            prev
        }
    }
}

/// Fixed-point `t` to the power `num / 2^logden`.
pub open spec fn pow_frac(t: int, num: int, logden: nat) -> int {
    pow_frac_rec(t, num, logden, logden)
}

/// Range of the accumulated power after `i` chain members: the exact worst
/// case of the accumulator recurrence.
pub open spec fn abound(i: nat) -> int
    decreases i,
{
    if i == 0 {
        0x100000
    } else {
        abound((i - 1) as nat) * (ybound(i) - 1) / 0x100000
    }
}

/// The accumulated power stays at least one and within range.
pub proof fn lemma_pow_frac_bounds(t: int, num: int, logden: nat, i: nat)
    requires
        1 <= t < 0x100000000,
        i <= 7,
    ensures
        0x100000 <= pow_frac_rec(t, num, logden, i) <= abound(i),
    decreases i,
{
    if i == 0 {
    } else {
        lemma_pow_frac_bounds(t, num, logden, (i - 1) as nat);
        lemma_chain_y_bounds(t, i);
        lemma_abound_small((i - 1) as nat);
        let prev = pow_frac_rec(t, num, logden, (i - 1) as nat);
        let y = chain_y(t, i);
        let ap = abound((i - 1) as nat);
        let ac = abound(i);
        let yb = ybound(i);
        assert(ac == ap * (yb - 1) / 0x100000);
        assert(yb - 1 >= 0x100000);
        // the range itself grows: dividing the product back down still
        // leaves at least the previous range
        assert(ap * (yb - 1) >= ap * 0x100000) by (nonlinear_arith)
            requires yb - 1 >= 0x100000, ap >= 0;
        vstd::arithmetic::div_mod::lemma_div_is_ordered(ap * 0x100000, ap * (yb - 1), 0x100000);
        assert(ap * 0x100000 / 0x100000 == ap) by (nonlinear_arith);
        assert(ac >= ap);
        if bit_at(num, (logden - i) as nat) {
            assert(prev * y >= prev * 0x100000) by (nonlinear_arith)
                requires y >= 0x100000, prev >= 0;
            vstd::arithmetic::div_mod::lemma_div_is_ordered(
                prev * 0x100000,
                prev * y,
                0x100000,
            );
            assert(prev * 0x100000 / 0x100000 == prev) by (nonlinear_arith);
            assert(prev * y <= ap * (yb - 1)) by (nonlinear_arith)
                requires
                    0 <= prev <= ap,
                    0 <= y <= yb - 1,
            ;
            vstd::arithmetic::div_mod::lemma_div_is_ordered(
                prev * y,
                ap * (yb - 1),
                0x100000,
            );
        } else {
        }
    }
}

/// Exec mirror of the dyadic power: `t` to the power `num / 2^logden`, in
/// fixed point.
#[verifier::rlimit(100)]
pub fn pow_dyadic(t: u64, num: u32, logden: u32) -> (r: u64)
    requires
        1 <= t < 0x100000000,
        1 <= logden <= 7,
    ensures
        r as int == pow_frac(t as int, num as int, logden as nat),
        0x100000 <= r,
{
    proof {
        lemma_chain_y_bounds(t as int, 0);
    }
    let mut y: u64 = t * FP;
    let mut acc: u64 = FP;
    let mut i: u32 = 1;
    while i <= logden
        invariant
            1 <= i <= logden + 1,
            1 <= logden <= 7,
            1 <= t < 0x100000000,
            y as int == chain_y(t as int, (i - 1) as nat),
            acc as int == pow_frac_rec(t as int, num as int, logden as nat, (i - 1) as nat),
        decreases logden + 1 - i,
    {
        proof {
            lemma_chain_y_bounds(t as int, (i - 1) as nat);
            lemma_pow_frac_bounds(t as int, num as int, logden as nat, (i - 1) as nat);
            assert((y as int) * 0x100000 < 0x10000000000000 * 0x100000) by (nonlinear_arith)
                requires (y as int) < 0x10000000000000;
            reveal_with_fuel(pow2, 73);
        }
        let yi: u64 = isqrt((y as u128) * (FP as u128));
        proof {
            assert(yi as int == chain_y(t as int, i as nat));
            lemma_chain_y_bounds(t as int, i as nat);
        }
        let p: u32 = pow2_u32(logden - i);
        if (num / p) % 2 == 1 {
            proof {
                lemma_pow_frac_bounds(t as int, num as int, logden as nat, i as nat);
                lemma_abound_small((i - 1) as nat);
                lemma_abound_small(i as nat);
                let ap = abound((i - 1) as nat);
                let yb = ybound(i as nat);
                assert((acc as int) * (yi as int) <= ap * (yb - 1)) by (nonlinear_arith)
                    requires
                        0 <= (acc as int) <= ap,
                        0 <= (yi as int) <= yb - 1,
                ;
                assert((acc as int) * (yi as int) >= 0) by (nonlinear_arith)
                    requires (acc as int) >= 0 && (yi as int) >= 0;
                assert((acc as int) * (yi as int) < 0x100000000000000000000000000000000)
                    by (nonlinear_arith)
                    requires
                        0 <= (acc as int) < 0x10000000000000000,
                        0 <= (yi as int) < 0x10000000000000000,
                ;
                assert(bit_at(num as int, (logden - i) as nat));
            }
            let prod: u128 = (acc as u128) * (yi as u128);
            let q: u128 = prod / (FP as u128);
            proof {
                let ap = abound((i - 1) as nat);
                let yb = ybound(i as nat);
                assert(q as int == ((acc as int) * (yi as int)) / 0x100000);
                vstd::arithmetic::div_mod::lemma_div_is_ordered(
                    (acc as int) * (yi as int),
                    ap * (yb - 1),
                    0x100000,
                );
                assert(q as int <= abound(i as nat));
                assert(q as int == pow_frac_rec(t as int, num as int, logden as nat, i as nat));
            }
            acc = q as u64;
        }
        y = yi;
        i = i + 1;
    }
    proof {
        lemma_pow_frac_bounds(t as int, num as int, logden as nat, logden as nat);
    }
    acc
}

/// Fixed-point `x / t^(num / 2^logden)`: one member of the gain schedule.
pub fn gain_div(x: u64, t: u64, num: u32, logden: u32) -> (r: u64)
    requires
        x <= 1000000000,
        1 <= t < 0x100000000,
        1 <= logden <= 7,
    ensures
        r as int == (x as int * 0x100000) / pow_frac(t as int, num as int, logden as nat),
        r <= x,
{
    let d: u64 = pow_dyadic(t, num, logden);
    let top: u128 = (x as u128) * (FP as u128);
    let q: u128 = top / (d as u128);
    proof {
        assert((x as int) * 0x100000 < ((x as int) + 1) * (d as int)) by (nonlinear_arith)
            requires d as int >= 0x100000, x as int >= 0;
        assert(q <= x as int) by (nonlinear_arith)
            requires
                q == ((x as int) * 0x100000) / (d as int),
                (x as int) * 0x100000 < ((x as int) + 1) * (d as int),
                (x as int) * 0x100000 >= 0,
                d as int >= 1,
        ;
    }
    q as u64
}

} // verus!
