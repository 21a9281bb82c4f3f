//! The torsion exponent `t`: coefficients are tracked modulo `2^t`.
use vstd::prelude::*;

verus! {

/// Floor of the binary logarithm; `0` for `0` and `1`.
pub open spec fn log2(x: nat) -> nat
    decreases x,
{
    if x <= 1 {
        0
    } else {
        1 + log2(x / 2)
    }
}

pub open spec fn pow2(e: nat) -> nat
    decreases e,
{
    if e == 0 {
        1
    } else {
        2 * pow2((e - 1) as nat)
    }
}

/// `2^log2(x) <= x < 2^(log2(x) + 1)` for positive `x`.
pub proof fn lemma_log2_bounds(x: nat)
    requires
        x >= 1,
    ensures
        pow2(log2(x)) <= x < 2 * pow2(log2(x)),
    decreases x,
{
    if x > 1 {
        lemma_log2_bounds(x / 2);
    }
}

/// `x < 2^(y + 1)` bounds the logarithm by `y`.
pub proof fn lemma_log2_le(x: nat, y: nat)
    requires
        1 <= x < pow2(y + 1),
    ensures
        log2(x) <= y,
    decreases y,
{
    if x > 1 {
        if y == 0 {
            assert(pow2(1) == 2) by {
                reveal_with_fuel(pow2, 2);
            }
        } else {
            assert(pow2(y + 1) == 2 * pow2(y));
            lemma_log2_le(x / 2, (y - 1) as nat);
        }
    }
}

/// The triangular count `n(n+1)/2 + 1` stays below `2^(n+1)`.
proof fn lemma_triangle_below_pow2(n: nat)
    ensures
        n * (n + 1) / 2 + 1 < pow2(n + 1),
    decreases n,
{
    if n == 0 {
        assert(pow2(1) == 2) by {
            reveal_with_fuel(pow2, 2);
        }
    } else {
        let m = (n - 1) as nat;
        lemma_triangle_below_pow2(m);
        assert(n * (n + 1) / 2 == m * (m + 1) / 2 + n) by (nonlinear_arith)
            requires
                n == m + 1,
        ;
        assert(pow2(n + 1) == 2 * pow2(n));
        assert(n <= m * (m + 1) / 2 + 1) by (nonlinear_arith)
            requires
                n == m + 1,
        ;
    }
}

/// The baseline part of the torsion exponent: `n - log2(n(n+1)/2 + 1)`.
pub open spec fn torsion_base(n: nat) -> int {
    n - log2(n * (n + 1) / 2 + 1)
}

/// The torsion exponent of family `n`, by recursion on `n - 2^log2(n)`.
pub open spec fn torsion(n: nat) -> nat
    decreases n,
{
    if n == 0 {
        0
    } else {
        let e = log2(n);
        let b = n - pow2(e);
        if 0 <= b < n {
            let extra: int = if 2 * b + 3 <= e + torsion(b as nat) {
                1
            } else {
                0
            };
            let r = torsion_base(n) + extra;
            if r >= 0 {
                r as nat
            } else {
                0
            }
        } else {
            0
        }
    }
}

/// The torsion exponent never exceeds the family index.
pub proof fn lemma_torsion_le(n: nat)
    ensures
        torsion(n) <= n,
{
    if n > 0 {
        lemma_log2_bounds(n);
        assert(log2(n * (n + 1) / 2 + 1) >= 1) by {
            assert(n * (n + 1) / 2 + 1 >= 2) by (nonlinear_arith)
                requires
                    n >= 1,
            ;
        }
    }
}

/// Floor of the binary logarithm of a positive number.
fn floor_log2(x: u16) -> (r: u16)
    requires
        x >= 1,
    ensures
        r as nat == log2(x as nat),
        r < 16,
{
    proof {
        assert(pow2(16) == 65536) by {
            reveal_with_fuel(pow2, 17);
        }
        lemma_log2_le(x as nat, 15);
    }
    let mut y: u16 = x;
    let mut r: u16 = 0;
    while y > 1
        invariant
            y >= 1,
            log2(x as nat) == r + log2(y as nat),
            log2(x as nat) <= 15,
        decreases y,
    {
        y = y / 2;
        r = r + 1;
    }
    r
}

/// `2^e` for small `e`.
fn power_of_two(e: u16) -> (r: u16)
    requires
        e < 16,
    ensures
        r as nat == pow2(e as nat),
{
    let mut r: u16 = 1;
    let mut i: u16 = 0;
    proof {
        lemma_pow2_monotone(0, 15);
    }
    while i < e
        invariant
            i <= e < 16,
            r as nat == pow2(i as nat),
            r as nat <= pow2(15),
        decreases e - i,
    {
        proof {
            lemma_pow2_monotone((i + 1) as nat, 15);
            assert(pow2(15) == 32768) by {
                reveal_with_fuel(pow2, 16);
            }
        }
        r = r * 2;
        i = i + 1;
    }
    r
}

proof fn lemma_pow2_monotone(a: nat, b: nat)
    requires
        a <= b,
    ensures
        pow2(a) <= pow2(b),
    decreases b,
{
    if a < b {
        lemma_pow2_monotone(a, (b - 1) as nat);
    }
}

/// The exponent `t` such that coefficients are tracked modulo `2^t` for
/// family `n`.
pub fn torsion_exponent(n: u8) -> (r: u8)
    ensures
        r as nat == torsion(n as nat),
    decreases n,
{
    if n == 0 {
        return 0;
    }
    let n_ = n as u16;
    proof {
        lemma_log2_bounds(n as nat);
        lemma_triangle_below_pow2(n as nat);
        assert(n_ * (n_ + 1) <= 255 * 256) by (nonlinear_arith)
            requires
                n_ <= 255,
        ;
        assert(n_ * (n_ + 1) / 2 + 1 >= 1);
    }
    let tri: u16 = n_ * (n_ + 1) / 2 + 1;
    let l = floor_log2(tri);
    proof {
        lemma_log2_le(tri as nat, n as nat);
    }
    let temp: u16 = n_ - l;
    let e = floor_log2(n_);
    let p = power_of_two(e);
    let b = n - (p as u8);
    let tb = torsion_exponent(b);
    let exceptional = 2 * (b as u16) + 3 <= e + (tb as u16);
    proof {
        lemma_torsion_le(n as nat);
    }
    if exceptional {
        (temp + 1) as u8
    } else {
        temp as u8
    }
}

} // verus!
