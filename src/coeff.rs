//! Coefficients modulo `2^t`.
use crate::torsion::pow2;
use vstd::arithmetic::div_mod::{lemma_fundamental_div_mod, lemma_fundamental_div_mod_converse};
use vstd::prelude::*;

verus! {

/// `2^t` as a machine integer.
pub fn modulus(t: u8) -> (r: i64)
    requires
        t <= 30,
    ensures
        r == pow2(t as nat),
        1 <= r <= 0x4000_0000,
{
    let mut r: i64 = 1;
    let mut i: u8 = 0;
    assert(pow2(30) == 0x4000_0000) by {
        reveal_with_fuel(pow2, 31);
    }
    while i < t
        invariant
            i <= t <= 30,
            r == pow2(i as nat),
            1 <= r <= 0x4000_0000,
            pow2(i as nat) * pow2((30 - i) as nat) == 0x4000_0000,
        decreases t - i,
    {
        proof {
            assert(pow2((30 - i) as nat) == 2 * pow2((30 - i - 1) as nat));
            assert(pow2((30 - i - 1) as nat) >= 1) by {
                lemma_pow2_pos((30 - i - 1) as nat);
            }
            assert(pow2((i + 1) as nat) * pow2((30 - (i + 1)) as nat) == 0x4000_0000) by (
            nonlinear_arith)
                requires
                    pow2((i + 1) as nat) == 2 * pow2(i as nat),
                    pow2((30 - i) as nat) == 2 * pow2((30 - i - 1) as nat),
                    pow2(i as nat) * pow2((30 - i) as nat) == 0x4000_0000,
                    (30 - (i + 1)) == 30 - i - 1,
            ;
            assert(pow2((i + 1) as nat) <= 0x4000_0000) by (nonlinear_arith)
                requires
                    pow2((i + 1) as nat) * pow2((30 - (i + 1)) as nat) == 0x4000_0000,
                    pow2((30 - (i + 1)) as nat) >= 1,
                    pow2((i + 1) as nat) >= 1,
            ;
            lemma_pow2_pos((i + 1) as nat);
            assert(pow2((30 - (i + 1)) as nat) >= 1) by {
                lemma_pow2_pos((30 - (i + 1)) as nat);
            }
        }
        r = r * 2;
        i = i + 1;
    }
    r
}

pub proof fn lemma_pow2_pos(e: nat)
    ensures
        pow2(e) >= 1,
    decreases e,
{
    if e > 0 {
        lemma_pow2_pos((e - 1) as nat);
    }
}

/// `2^t <= 2^30` for `t <= 30`.
pub proof fn lemma_pow2_le_30(t: nat)
    requires
        t <= 30,
    ensures
        pow2(t) <= 0x4000_0000,
    decreases 30 - t,
{
    if t == 30 {
        assert(pow2(30) == 0x4000_0000) by {
            reveal_with_fuel(pow2, 31);
        }
    } else {
        lemma_pow2_le_30(t + 1);
        lemma_pow2_pos(t);
    }
}

/// The residue of `x` in `[0, 2^t)`.
pub fn reduce(x: i64, t: u8) -> (r: i64)
    requires
        t <= 30,
        -0x4000_0000_0000_0000 <= x <= 0x4000_0000_0000_0000,
    ensures
        r == (x as int) % (pow2(t as nat) as int),
        0 <= r < pow2(t as nat),
{
    let md = modulus(t);
    if x >= 0 {
        let r = ((x as u64) % (md as u64)) as i64;
        r
    } else {
        let q = ((-x) as u64) % (md as u64);
        let d = ((-x) as u64) / (md as u64);
        proof {
            lemma_fundamental_div_mod(-(x as int), md as int);
            assert(q as int == (-(x as int)) % (md as int));
            assert(d as int == (-(x as int)) / (md as int));
            assert(-(x as int) == (d as int) * (md as int) + (q as int)) by (nonlinear_arith)
                requires
                    -(x as int) == (md as int) * ((-(x as int)) / (md as int)) + (-(x as int)) % (md as int),
                    q as int == (-(x as int)) % (md as int),
                    d as int == (-(x as int)) / (md as int),
            ;
        }
        if q == 0 {
            proof {
                assert((x as int) == (-(d as int)) * (md as int) + 0) by (nonlinear_arith)
                    requires
                        -(x as int) == (d as int) * (md as int) + (q as int),
                        q == 0,
                ;
                lemma_fundamental_div_mod_converse(x as int, md as int, -(d as int), 0);
            }
            0
        } else {
            proof {
                assert((x as int) == (-(d as int) - 1) * (md as int) + (md - q)) by (nonlinear_arith)
                    requires
                        -(x as int) == (d as int) * (md as int) + (q as int),
                ;
                lemma_fundamental_div_mod_converse(x as int, md as int, -(d as int) - 1, md - q);
            }
            md - (q as i64)
        }
    }
}

} // verus!
