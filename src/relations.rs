//! The relation table: for each exterior generator `z_k`, the element that
//! `z_k^2` equals.
use crate::algebra::{Element, relation_ok};
use crate::basis::{
    BasisElement, gen_weight, weight, lemma_pair_gen, lemma_single_gen, present, with_gen, within,
};
use crate::coeff::reduce;
use crate::fxmap::{fx_insert, fx_new};
use crate::torsion::pow2;
use vstd::prelude::*;

verus! {

/// The mask holding the generators listed in `zs`.
pub open spec fn mask_of(zs: Seq<u8>) -> u32
    decreases zs.len(),
{
    if zs.len() == 0 {
        0
    } else {
        with_gen(mask_of(zs.drop_last()), zs.last() as nat)
    }
}

/// The term `c * v_1^v1 * v_2^v2 * prod_{i in zs} z_i`, or `None` when one of
/// its generators does not exist in family `n`.
pub fn term(c: i64, v1: u8, v2: u8, zs: &[u8], n: u8) -> (r: Option<(BasisElement, i64)>)
    requires
        n <= 32,
        forall|i: int| 0 <= i < zs@.len() ==> 1 <= #[trigger] zs@[i],
    ensures
        r is Some <==> forall|i: int| 0 <= i < zs@.len() ==> #[trigger] zs@[i] <= n,
        r matches Some(p) ==> p == (BasisElement { v1, v2, zs: mask_of(zs@) }, c),
{
    let mut mask: u32 = 0;
    let mut i: usize = 0;
    while i < zs.len()
        invariant
            0 <= i <= zs@.len(),
            n <= 32,
            forall|j: int| 0 <= j < zs@.len() ==> 1 <= #[trigger] zs@[j],
            forall|j: int| 0 <= j < i ==> #[trigger] zs@[j] <= n,
            mask == mask_of(zs@.subrange(0, i as int)),
        decreases zs@.len() - i,
    {
        if zs[i] > n {
            return None;
        }
        assert(zs@.subrange(0, i + 1).drop_last() == zs@.subrange(0, i as int));
        mask = mask | (1u32 << (zs[i] - 1) as u32);
        i = i + 1;
    }
    assert(zs@.subrange(0, i as int) == zs@);
    Some((BasisElement { v1, v2, zs: mask }, c))
}

/// The mask of a list of generators up to `n` uses generators up to `n`.
pub proof fn lemma_mask_within(zs: Seq<u8>, n: nat)
    requires
        forall|i: int| 0 <= i < zs.len() ==> 1 <= #[trigger] zs[i] <= n,
        n <= 32,
    ensures
        within(mask_of(zs), n),
    decreases zs.len(),
{
    if zs.len() == 0 {
        lemma_single_gen(1);
        assert forall|k: nat| n < k <= 32 implies !#[trigger] present(0u32, k) by {
            assert(present(with_gen(0, 1), k) <==> k == 1);
            let kk = (k - 1) as u32;
            assert((0u32 >> kk) & 1u32 == 0u32) by (bit_vector);
        }
    } else {
        lemma_mask_within(zs.drop_last(), n);
        crate::basis::lemma_gen_membership(mask_of(zs.drop_last()), zs.last() as nat);
    }
}

/// Division rounding toward zero, as machine integers divide.
pub open spec fn trunc_div(x: int, d: int) -> int {
    if x >= 0 {
        x / d
    } else {
        -((-x) / d)
    }
}

/// Division rounding toward zero.
fn div_toward_zero(x: i64, d: i64) -> (r: i64)
    requires
        d > 0,
        -0x1_0000_0000_0000 <= x <= 0x1_0000_0000_0000,
    ensures
        r == trunc_div(x as int, d as int),
        -0x1_0000_0000_0000 <= r <= 0x1_0000_0000_0000,
{
    if x >= 0 {
        ((x as u64) / (d as u64)) as i64
    } else {
        -((((-x) as u64) / (d as u64)) as i64)
    }
}

/// `(-1)^e`.
pub open spec fn sign(e: int) -> int {
    if e % 2 == 0 {
        1
    } else {
        -1
    }
}

fn sign_of(e: u8) -> (r: i64)
    ensures
        r == sign(e as int),
{
    if e % 2 == 0 {
        1
    } else {
        -1
    }
}

/// `x^2`, `x^3` and `x^4` for a small `x`.
fn powers(x: i64) -> (r: (i64, i64, i64))
    requires
        -64 <= x <= 64,
    ensures
        r.0 == x * x,
        r.1 == x * x * x,
        r.2 == x * x * x * x,
        0 <= r.0 <= 4096,
        -262144 <= r.1 <= 262144,
        0 <= r.2 <= 16777216,
{
    proof {
        assert(0 <= x * x <= 4096) by (nonlinear_arith)
            requires
                -64 <= x <= 64,
        ;
        assert(-262144 <= x * x * x <= 262144) by (nonlinear_arith)
            requires
                -64 <= x <= 64,
                0 <= x * x <= 4096,
        ;
        assert(0 <= x * x * x * x <= 16777216) by (nonlinear_arith)
            requires
                -64 <= x <= 64,
                0 <= x * x <= 4096,
        ;
    }
    (x * x, x * x * x, x * x * x * x)
}

/// The generators of a relation term for `z_k^2`: one generator `z_i` with
/// `i >= 2k`, or two generators `z_i z_j` with `i < j` and `i + j >= 2k`.
/// Each such monomial weighs less than `z_k * z_k`.
pub open spec fn heavier_than_square(zs: Seq<u8>, k: nat) -> bool {
    &&& 1 <= zs.len() <= 2
    &&& 1 <= zs[0]
    &&& zs.len() == 1 ==> zs[0] >= 2 * k
    &&& zs.len() == 2 ==> zs[0] < zs[1] && zs[0] + zs[1] >= 2 * k
}

/// `e` with the term `c * v_1^v1 * v_2^v2 * prod_{i in zs} z_i` put in, its
/// coefficient reduced modulo `2^t`, when its generators exist in family `n`
/// and the reduced coefficient is not zero.
pub open spec fn with_term(
    e: Map<BasisElement, i32>,
    c: int,
    v1: u8,
    v2: u8,
    zs: Seq<u8>,
    n: nat,
    t: nat,
) -> Map<BasisElement, i32> {
    let v = c % (pow2(t) as int);
    if (forall|j: int| 0 <= j < zs.len() ==> #[trigger] zs[j] <= n) && v != 0 {
        e.insert(BasisElement { v1, v2, zs: mask_of(zs) }, v as i32)
    } else {
        e
    }
}

/// Adds `sign * c * v_1^v1 * v_2^v2 * prod_{i in zs} z_i` to the relation for
/// `z_k^2`, unless a generator does not exist in family `n` or the reduced
/// coefficient is zero.
fn put(
    e: &mut Element,
    sign: i64,
    c: i64,
    v1: u8,
    v2: u8,
    zs: &[u8],
    n: u8,
    t: u8,
    Ghost(k): Ghost<nat>,
)
    requires
        relation_ok(old(e)@, k, n as nat, t as nat, 4),
        1 <= k <= 32,
        n <= 32,
        t <= 30,
        v1 + 3 * v2 <= 4,
        sign == 1 || sign == -1,
        -0x1_0000_0000_0000 <= c <= 0x1_0000_0000_0000,
        heavier_than_square(zs@, k),
    ensures
        relation_ok(final(e)@, k, n as nat, t as nat, 4),
        final(e)@ == with_term(old(e)@, sign * c, v1, v2, zs@, n as nat, t as nat),
{
    let r = term(c, v1, v2, zs, n);
    if let Some((b, cc)) = r {
        assert(cc == c);
        let v = reduce(if sign == 1 { cc } else { -cc }, t);
        if v != 0 {
            proof {
                let z = zs@;
                if z.len() == 1 {
                    assert(z.drop_last() =~= Seq::<u8>::empty());
                    assert(mask_of(z.drop_last()) == 0);
                    assert(b.zs == with_gen(0, z[0] as nat));
                    lemma_single_gen(z[0] as nat);
                    let a = z[0] as nat;
                    assert(gen_weight(a) < 2 * gen_weight(k)) by (nonlinear_arith)
                        requires
                            a >= 2 * k,
                            k >= 1,
                    ;
                    assert(z[0] <= n);
                } else {
                    assert(z.drop_last().drop_last() =~= Seq::<u8>::empty());
                    assert(z.drop_last().last() == z[0]);
                    assert(mask_of(z.drop_last().drop_last()) == 0);
                    assert(mask_of(z.drop_last()) == with_gen(0, z[0] as nat));
                    assert(b.zs == with_gen(with_gen(0, z[0] as nat), z[1] as nat));
                    lemma_pair_gen(z[0] as nat, z[1] as nat);
                    let a = z[0] as nat;
                    let c = z[1] as nat;
                    assert(gen_weight(a) + gen_weight(c) < 2 * gen_weight(k)) by (nonlinear_arith)
                        requires
                            a < c,
                            a + c >= 2 * k,
                            k >= 1,
                    ;
                    assert(z[0] <= n);
                    assert(z[1] <= n);
                }
                crate::coeff::lemma_pow2_le_30(t as nat);
                assert(within(b.zs, n as nat));
                assert(weight(b.zs) < 2 * gen_weight(k));
                assert(b.v1 + 3 * b.v2 <= 4);
            }
            fx_insert(e, b, v as i32);
        }
    }
}

/// The relation for `z_1^2` of family `n`, modulo `2^t`.
pub open spec fn first_square(n: nat, t: nat) -> Map<BasisElement, i32> {
    with_term(with_term(with_term(with_term(with_term(with_term(with_term(with_term(with_term(with_term(with_term(with_term(with_term(with_term(with_term(Map::empty(), 1int, 0, 0, seq![2u8], n, t), 1int, 1, 0, seq![3u8], n, t), 2int, 2, 0, seq![4u8], n, t), -2int, 2, 0, seq![1u8, 3u8], n, t), 1int, 3, 0, seq![5u8], n, t), 4int, 3, 0, seq![1u8, 4u8], n, t), 1int, 3, 0, seq![2u8, 3u8], n, t), -1int, 0, 1, seq![5u8], n, t), 4int, 0, 1, seq![1u8, 4u8], n, t), 1int, 0, 1, seq![2u8, 3u8], n, t), 16int, 4, 0, seq![6u8], n, t), -26int, 4, 0, seq![1u8, 5u8], n, t), 17int, 1, 1, seq![6u8], n, t), -32int, 1, 1, seq![1u8, 5u8], n, t), 2int, 1, 1, seq![2u8, 4u8], n, t)
}

/// The relation for `z_1^2`.
fn square_of_first(n: u8, t: u8) -> (r: Element)
    requires
        1 <= n <= 32,
        t <= 30,
    ensures
        relation_ok(r@, 1, n as nat, t as nat, 4),
        r@ == first_square(n as nat, t as nat),
{
    let mut e: Element = fx_new();
    let z: [u8; 1] = [2];
    assert(z@ =~= seq![2u8]);
    put(&mut e, 1, 1, 0, 0, z.as_slice(), n, t, Ghost(1));
    let z: [u8; 1] = [3];
    assert(z@ =~= seq![3u8]);
    put(&mut e, 1, 1, 1, 0, z.as_slice(), n, t, Ghost(1));
    let z: [u8; 1] = [4];
    assert(z@ =~= seq![4u8]);
    put(&mut e, 1, 2, 2, 0, z.as_slice(), n, t, Ghost(1));
    let z: [u8; 2] = [1, 3];
    assert(z@ =~= seq![1u8, 3u8]);
    put(&mut e, 1, -2, 2, 0, z.as_slice(), n, t, Ghost(1));
    let z: [u8; 1] = [5];
    assert(z@ =~= seq![5u8]);
    put(&mut e, 1, 1, 3, 0, z.as_slice(), n, t, Ghost(1));
    let z: [u8; 2] = [1, 4];
    assert(z@ =~= seq![1u8, 4u8]);
    put(&mut e, 1, 4, 3, 0, z.as_slice(), n, t, Ghost(1));
    let z: [u8; 2] = [2, 3];
    assert(z@ =~= seq![2u8, 3u8]);
    put(&mut e, 1, 1, 3, 0, z.as_slice(), n, t, Ghost(1));
    let z: [u8; 1] = [5];
    assert(z@ =~= seq![5u8]);
    put(&mut e, 1, -1, 0, 1, z.as_slice(), n, t, Ghost(1));
    let z: [u8; 2] = [1, 4];
    assert(z@ =~= seq![1u8, 4u8]);
    put(&mut e, 1, 4, 0, 1, z.as_slice(), n, t, Ghost(1));
    let z: [u8; 2] = [2, 3];
    assert(z@ =~= seq![2u8, 3u8]);
    put(&mut e, 1, 1, 0, 1, z.as_slice(), n, t, Ghost(1));
    let z: [u8; 1] = [6];
    assert(z@ =~= seq![6u8]);
    put(&mut e, 1, 16, 4, 0, z.as_slice(), n, t, Ghost(1));
    let z: [u8; 2] = [1, 5];
    assert(z@ =~= seq![1u8, 5u8]);
    put(&mut e, 1, -26, 4, 0, z.as_slice(), n, t, Ghost(1));
    let z: [u8; 1] = [6];
    assert(z@ =~= seq![6u8]);
    put(&mut e, 1, 17, 1, 1, z.as_slice(), n, t, Ghost(1));
    let z: [u8; 2] = [1, 5];
    assert(z@ =~= seq![1u8, 5u8]);
    put(&mut e, 1, -32, 1, 1, z.as_slice(), n, t, Ghost(1));
    let z: [u8; 2] = [2, 4];
    assert(z@ =~= seq![2u8, 4u8]);
    put(&mut e, 1, 2, 1, 1, z.as_slice(), n, t, Ghost(1));
    e
}

/// The relation for `z_2^2` of family `n`, modulo `2^t`.
pub open spec fn second_square(n: nat, t: nat) -> Map<BasisElement, i32> {
    with_term(with_term(with_term(with_term(with_term(with_term(with_term(with_term(with_term(with_term(with_term(with_term(with_term(with_term(with_term(with_term(with_term(with_term(with_term(with_term(with_term(Map::empty(), -1int, 0, 0, seq![4u8], n, t), 2int, 0, 0, seq![1u8, 3u8], n, t), -2int, 1, 0, seq![5u8], n, t), 2int, 1, 0, seq![1u8, 4u8], n, t), -1int, 1, 0, seq![2u8, 3u8], n, t), -2int, 2, 0, seq![6u8], n, t), 1int, 2, 0, seq![2u8, 4u8], n, t), -6int, 3, 0, seq![1u8, 6u8], n, t), 8int, 3, 0, seq![2u8, 5u8], n, t), -7int, 3, 0, seq![3u8, 4u8], n, t), -2int, 0, 1, seq![1u8, 6u8], n, t), 4int, 0, 1, seq![2u8, 5u8], n, t), -6int, 0, 1, seq![3u8, 4u8], n, t), -7int, 4, 0, seq![8u8], n, t), 8int, 4, 0, seq![1u8, 7u8], n, t), -7int, 4, 0, seq![2u8, 6u8], n, t), 12int, 4, 0, seq![3u8, 5u8], n, t), -13int, 1, 1, seq![8u8], n, t), 20int, 1, 1, seq![1u8, 7u8], n, t), -17int, 1, 1, seq![2u8, 6u8], n, t), 18int, 1, 1, seq![3u8, 5u8], n, t)
}

/// The relation for `z_2^2`.
fn square_of_second(n: u8, t: u8) -> (r: Element)
    requires
        2 <= n <= 32,
        t <= 30,
    ensures
        relation_ok(r@, 2, n as nat, t as nat, 4),
        r@ == second_square(n as nat, t as nat),
{
    let mut e: Element = fx_new();
    let z: [u8; 1] = [4];
    assert(z@ =~= seq![4u8]);
    put(&mut e, -1, 1, 0, 0, z.as_slice(), n, t, Ghost(2));
    let z: [u8; 2] = [1, 3];
    assert(z@ =~= seq![1u8, 3u8]);
    put(&mut e, -1, -2, 0, 0, z.as_slice(), n, t, Ghost(2));
    let z: [u8; 1] = [5];
    assert(z@ =~= seq![5u8]);
    put(&mut e, -1, 2, 1, 0, z.as_slice(), n, t, Ghost(2));
    let z: [u8; 2] = [1, 4];
    assert(z@ =~= seq![1u8, 4u8]);
    put(&mut e, -1, -2, 1, 0, z.as_slice(), n, t, Ghost(2));
    let z: [u8; 2] = [2, 3];
    assert(z@ =~= seq![2u8, 3u8]);
    put(&mut e, -1, 1, 1, 0, z.as_slice(), n, t, Ghost(2));
    let z: [u8; 1] = [6];
    assert(z@ =~= seq![6u8]);
    put(&mut e, -1, 2, 2, 0, z.as_slice(), n, t, Ghost(2));
    let z: [u8; 2] = [2, 4];
    assert(z@ =~= seq![2u8, 4u8]);
    put(&mut e, -1, -1, 2, 0, z.as_slice(), n, t, Ghost(2));
    let z: [u8; 2] = [1, 6];
    assert(z@ =~= seq![1u8, 6u8]);
    put(&mut e, -1, 6, 3, 0, z.as_slice(), n, t, Ghost(2));
    let z: [u8; 2] = [2, 5];
    assert(z@ =~= seq![2u8, 5u8]);
    put(&mut e, -1, -8, 3, 0, z.as_slice(), n, t, Ghost(2));
    let z: [u8; 2] = [3, 4];
    assert(z@ =~= seq![3u8, 4u8]);
    put(&mut e, -1, 7, 3, 0, z.as_slice(), n, t, Ghost(2));
    let z: [u8; 2] = [1, 6];
    assert(z@ =~= seq![1u8, 6u8]);
    put(&mut e, -1, 2, 0, 1, z.as_slice(), n, t, Ghost(2));
    let z: [u8; 2] = [2, 5];
    assert(z@ =~= seq![2u8, 5u8]);
    put(&mut e, -1, -4, 0, 1, z.as_slice(), n, t, Ghost(2));
    let z: [u8; 2] = [3, 4];
    assert(z@ =~= seq![3u8, 4u8]);
    put(&mut e, -1, 6, 0, 1, z.as_slice(), n, t, Ghost(2));
    let z: [u8; 1] = [8];
    assert(z@ =~= seq![8u8]);
    put(&mut e, -1, 7, 4, 0, z.as_slice(), n, t, Ghost(2));
    let z: [u8; 2] = [1, 7];
    assert(z@ =~= seq![1u8, 7u8]);
    put(&mut e, -1, -8, 4, 0, z.as_slice(), n, t, Ghost(2));
    let z: [u8; 2] = [2, 6];
    assert(z@ =~= seq![2u8, 6u8]);
    put(&mut e, -1, 7, 4, 0, z.as_slice(), n, t, Ghost(2));
    let z: [u8; 2] = [3, 5];
    assert(z@ =~= seq![3u8, 5u8]);
    put(&mut e, -1, -12, 4, 0, z.as_slice(), n, t, Ghost(2));
    let z: [u8; 1] = [8];
    assert(z@ =~= seq![8u8]);
    put(&mut e, -1, 13, 1, 1, z.as_slice(), n, t, Ghost(2));
    let z: [u8; 2] = [1, 7];
    assert(z@ =~= seq![1u8, 7u8]);
    put(&mut e, -1, -20, 1, 1, z.as_slice(), n, t, Ghost(2));
    let z: [u8; 2] = [2, 6];
    assert(z@ =~= seq![2u8, 6u8]);
    put(&mut e, -1, 17, 1, 1, z.as_slice(), n, t, Ghost(2));
    let z: [u8; 2] = [3, 5];
    assert(z@ =~= seq![3u8, 5u8]);
    put(&mut e, -1, -18, 1, 1, z.as_slice(), n, t, Ghost(2));
    e
}

/// `(-1)^e * x`.
fn with_sign(e: u8, x: i64) -> (r: i64)
    requires
        -0x1_0000_0000_0000 <= x <= 0x1_0000_0000_0000,
    ensures
        r == sign(e as int) * x,
        -0x1_0000_0000_0000 <= r <= 0x1_0000_0000_0000,
{
    if e % 2 == 0 {
        x
    } else {
        -x
    }
}

/// `e` with the terms `z_i z_(2*k-i)` of `low_terms` put in, for `i` from the given
/// one up to `k - 1`.
pub open spec fn low_pairs(e: Map<BasisElement, i32>, k: int, n: nat, t: nat, s: int, i: int) -> Map<
    BasisElement,
    i32,
>
    decreases k - i,
{
    if i <= k - 1 {
        let c = s * (sign(i) * 2);
        low_pairs(with_term(e, c, 0, 0, seq![i as u8, (2 * k - i) as u8], n, t), k, n, t, s, i + 1)
    } else {
        e
    }
}

/// `e` with the terms `z_i z_(2*k+1-i)` of `low_terms` put in, for `i` from the given
/// one up to `k`.
pub open spec fn linear_pairs(e: Map<BasisElement, i32>, k: int, n: nat, t: nat, s: int, i: int) -> Map<
    BasisElement,
    i32,
>
    decreases k + 1 - i,
{
    if i <= k {
        let c = s * (sign(i) * (2 * (k - i) + 1));
        linear_pairs(with_term(e, c, 1, 0, seq![i as u8, (2 * k + 1 - i) as u8], n, t), k, n, t, s, i + 1)
    } else {
        e
    }
}

/// `e` with the terms of `z_k^2` without ordinary generators and with `v_1`.
pub open spec fn low_terms(e: Map<BasisElement, i32>, k: int, n: nat, t: nat, s: int) -> Map<
    BasisElement,
    i32,
> {
    let e = with_term(e, s * (1), 0, 0, seq![(2 * k) as u8], n, t);
    let e = low_pairs(e, k, n, t, s, 1);
    let e = with_term(e, s * (k), 1, 0, seq![(2 * k + 1) as u8], n, t);
    let e = with_term(e, s * (-(2 * k - 2)), 1, 0, seq![1u8, (2 * k) as u8], n, t);
    let e = linear_pairs(e, k, n, t, s, 2);
    e
}

/// The terms of `z_k^2` without ordinary generators and with `v_1`.
fn put_low_terms(e: &mut Element, s: i64, k: u8, n: u8, t: u8)
    requires
        relation_ok(old(e)@, k as nat, n as nat, t as nat, 4),
        3 <= k <= n <= 32,
        t <= 30,
        s == 1 || s == -1,
    ensures
        relation_ok(final(e)@, k as nat, n as nat, t as nat, 4),
        final(e)@ == low_terms(old(e)@, k as int, n as nat, t as nat, s as int),
{
    let g = Ghost(k as nat);
    let kk = k as i64;
    let z: [u8; 1] = [2 * k];
    assert(z@ =~= seq![(2 * k) as u8]);
    put(e, s, 1, 0, 0, z.as_slice(), n, t, g);
    let ghost e0 = e@;
    let mut i: u8 = 1;
    while i <= k - 1
        invariant
            1 <= i <= k,
            3 <= k <= n <= 32,
            t <= 30,
            s == 1 || s == -1,
            kk == k as i64,
            g@ == k as nat,
            relation_ok(e@, k as nat, n as nat, t as nat, 4),
            low_pairs(e0, k as int, n as nat, t as nat, s as int, 1) == low_pairs(
                e@,
                k as int,
                n as nat,
                t as nat,
                s as int,
                i as int,
            ),
        decreases k - i,
    {
        let z: [u8; 2] = [i, 2 * k - i];
        assert(z@ =~= seq![i as u8, (2 * k - i) as u8]);
        put(e, s, with_sign(i, 2), 0, 0, z.as_slice(), n, t, g);
        i = i + 1;
    }
    let z: [u8; 1] = [2 * k + 1];
    assert(z@ =~= seq![(2 * k + 1) as u8]);
    put(e, s, kk, 1, 0, z.as_slice(), n, t, g);
    let z: [u8; 2] = [1, 2 * k];
    assert(z@ =~= seq![1u8, (2 * k) as u8]);
    put(e, s, -(2 * kk - 2), 1, 0, z.as_slice(), n, t, g);
    let ghost e0 = e@;
    let mut i: u8 = 2;
    while i <= k
        invariant
            2 <= i <= k + 1,
            3 <= k <= n <= 32,
            t <= 30,
            s == 1 || s == -1,
            kk == k as i64,
            g@ == k as nat,
            relation_ok(e@, k as nat, n as nat, t as nat, 4),
            linear_pairs(e0, k as int, n as nat, t as nat, s as int, 2) == linear_pairs(
                e@,
                k as int,
                n as nat,
                t as nat,
                s as int,
                i as int,
            ),
        decreases k + 1 - i,
    {
        let d = kk - i as i64;
        let z: [u8; 2] = [i, 2 * k + 1 - i];
        assert(z@ =~= seq![i as u8, (2 * k + 1 - i) as u8]);
        put(e, s, with_sign(i, 2 * d + 1), 1, 0, z.as_slice(), n, t, g);
        i = i + 1;
    }
}

/// `e` with the terms `z_i z_(2*k+2-i)` of `square_terms` put in, for `i` from the given
/// one up to `k`.
pub open spec fn square_pairs(e: Map<BasisElement, i32>, k: int, n: nat, t: nat, s: int, i: int) -> Map<
    BasisElement,
    i32,
>
    decreases k + 1 - i,
{
    if i <= k {
        let c = s * (sign(i) * ((k - i) * (k - i) + 2 * (k - i) + 1));
        square_pairs(with_term(e, c, 2, 0, seq![i as u8, (2 * k + 2 - i) as u8], n, t), k, n, t, s, i + 1)
    } else {
        e
    }
}

/// `e` with the terms of `z_k^2` with `v_1^2`.
pub open spec fn square_terms(e: Map<BasisElement, i32>, k: int, n: nat, t: nat, s: int) -> Map<
    BasisElement,
    i32,
> {
    let e = with_term(e, s * (trunc_div(k * k + k - 2, 2)), 2, 0, seq![(2 * k + 2) as u8], n, t);
    let e = with_term(e, s * (-(k * k - k - 2)), 2, 0, seq![1u8, (2 * k + 1) as u8], n, t);
    let e = with_term(e, s * (k * k - 2 * k - 1), 2, 0, seq![2u8, (2 * k) as u8], n, t);
    let e = square_pairs(e, k, n, t, s, 3);
    e
}

/// The terms of `z_k^2` with `v_1^2`.
fn put_square_terms(e: &mut Element, s: i64, k: u8, n: u8, t: u8)
    requires
        relation_ok(old(e)@, k as nat, n as nat, t as nat, 4),
        3 <= k <= n <= 32,
        t <= 30,
        s == 1 || s == -1,
    ensures
        relation_ok(final(e)@, k as nat, n as nat, t as nat, 4),
        final(e)@ == square_terms(old(e)@, k as int, n as nat, t as nat, s as int),
{
    let g = Ghost(k as nat);
    let kk = k as i64;
    let (k2, _k3, _k4) = powers(kk);
    let z: [u8; 1] = [2 * k + 2];
    assert(z@ =~= seq![(2 * k + 2) as u8]);
    put(e, s, div_toward_zero(k2 + kk - 2, 2), 2, 0, z.as_slice(), n, t, g);
    let z: [u8; 2] = [1, 2 * k + 1];
    assert(z@ =~= seq![1u8, (2 * k + 1) as u8]);
    put(e, s, -(k2 - kk - 2), 2, 0, z.as_slice(), n, t, g);
    let z: [u8; 2] = [2, 2 * k];
    assert(z@ =~= seq![2u8, (2 * k) as u8]);
    put(e, s, k2 - 2 * kk - 1, 2, 0, z.as_slice(), n, t, g);
    let ghost e0 = e@;
    let mut i: u8 = 3;
    while i <= k
        invariant
            3 <= i <= k + 1,
            3 <= k <= n <= 32,
            t <= 30,
            s == 1 || s == -1,
            kk == k as i64,
            g@ == k as nat,
            relation_ok(e@, k as nat, n as nat, t as nat, 4),
            square_pairs(e0, k as int, n as nat, t as nat, s as int, 3) == square_pairs(
                e@,
                k as int,
                n as nat,
                t as nat,
                s as int,
                i as int,
            ),
        decreases k + 1 - i,
    {
        let d = kk - i as i64;
        let (d2, _d3, _d4) = powers(d);
        let z: [u8; 2] = [i, 2 * k + 2 - i];
        assert(z@ =~= seq![i as u8, (2 * k + 2 - i) as u8]);
        put(e, s, with_sign(i, d2 + 2 * d + 1), 2, 0, z.as_slice(), n, t, g);
        i = i + 1;
    }
}

/// `e` with the terms `z_i z_(2*k+3-i)` of `cube_terms` put in, for `i` from the given
/// one up to `k + 1`.
pub open spec fn cube_pairs(e: Map<BasisElement, i32>, k: int, n: nat, t: nat, s: int, i: int) -> Map<
    BasisElement,
    i32,
>
    decreases k + 2 - i,
{
    if i <= k + 1 {
        let c = s * (trunc_div(sign(i) * (2 * ((k - i) * (k - i) * (k - i)) + 9 * ((k - i) * (k - i)) + 25 * (k - i) + 24), 6));
        cube_pairs(with_term(e, c, 3, 0, seq![i as u8, (2 * k + 3 - i) as u8], n, t), k, n, t, s, i + 1)
    } else {
        e
    }
}

/// `e` with the terms of `z_k^2` with `v_1^3`.
pub open spec fn cube_terms(e: Map<BasisElement, i32>, k: int, n: nat, t: nat, s: int) -> Map<
    BasisElement,
    i32,
> {
    let e = with_term(e, s * (trunc_div(k * k * k + 3 * (k * k) + 2 * k - 24, 6)), 3, 0, seq![(2 * k + 3) as u8], n, t);
    let e = with_term(e, s * (trunc_div(-(k * k * k - k - 24), 3)), 3, 0, seq![1u8, (2 * k + 2) as u8], n, t);
    let e = with_term(e, s * (trunc_div(2 * (k * k * k) - 3 * (k * k) + k - 54, 6)), 3, 0, seq![2u8, (2 * k + 1) as u8], n, t);
    let e = with_term(e, s * (trunc_div(-(2 * (k * k * k) - 9 * (k * k) + 25 * k - 72), 6)), 3, 0, seq![3u8, (2 * k) as u8], n, t);
    let e = cube_pairs(e, k, n, t, s, 4);
    e
}

/// The terms of `z_k^2` with `v_1^3`.
fn put_cube_terms(e: &mut Element, s: i64, k: u8, n: u8, t: u8)
    requires
        relation_ok(old(e)@, k as nat, n as nat, t as nat, 4),
        3 <= k <= n <= 32,
        t <= 30,
        s == 1 || s == -1,
    ensures
        relation_ok(final(e)@, k as nat, n as nat, t as nat, 4),
        final(e)@ == cube_terms(old(e)@, k as int, n as nat, t as nat, s as int),
{
    let g = Ghost(k as nat);
    let kk = k as i64;
    let (k2, k3, _k4) = powers(kk);
    let z: [u8; 1] = [2 * k + 3];
    assert(z@ =~= seq![(2 * k + 3) as u8]);
    put(e, s, div_toward_zero(k3 + 3 * k2 + 2 * kk - 24, 6), 3, 0, z.as_slice(), n, t, g);
    let z: [u8; 2] = [1, 2 * k + 2];
    assert(z@ =~= seq![1u8, (2 * k + 2) as u8]);
    put(e, s, div_toward_zero(-(k3 - kk - 24), 3), 3, 0, z.as_slice(), n, t, g);
    let z: [u8; 2] = [2, 2 * k + 1];
    assert(z@ =~= seq![2u8, (2 * k + 1) as u8]);
    put(e, s, div_toward_zero(2 * k3 - 3 * k2 + kk - 54, 6), 3, 0, z.as_slice(), n, t, g);
    let z: [u8; 2] = [3, 2 * k];
    assert(z@ =~= seq![3u8, (2 * k) as u8]);
    put(e, s, div_toward_zero(-(2 * k3 - 9 * k2 + 25 * kk - 72), 6), 3, 0, z.as_slice(), n, t, g);
    let ghost e0 = e@;
    let mut i: u8 = 4;
    while i <= k + 1
        invariant
            4 <= i <= k + 2,
            3 <= k <= n <= 32,
            t <= 30,
            s == 1 || s == -1,
            kk == k as i64,
            g@ == k as nat,
            relation_ok(e@, k as nat, n as nat, t as nat, 4),
            cube_pairs(e0, k as int, n as nat, t as nat, s as int, 4) == cube_pairs(
                e@,
                k as int,
                n as nat,
                t as nat,
                s as int,
                i as int,
            ),
        decreases k + 2 - i,
    {
        let d = kk - i as i64;
        let (d2, d3, _d4) = powers(d);
        let z: [u8; 2] = [i, 2 * k + 3 - i];
        assert(z@ =~= seq![i as u8, (2 * k + 3 - i) as u8]);
        put(e, s, div_toward_zero(with_sign(i, 2 * d3 + 9 * d2 + 25 * d + 24), 6), 3, 0, z.as_slice(), n, t, g);
        i = i + 1;
    }
}

/// `e` with the terms `z_i z_(2*k+3-i)` of `second_terms` put in, for `i` from the given
/// one up to `k + 1`.
pub open spec fn second_pairs(e: Map<BasisElement, i32>, k: int, n: nat, t: nat, s: int, i: int) -> Map<
    BasisElement,
    i32,
>
    decreases k + 2 - i,
{
    if i <= k + 1 {
        let c = s * (sign(i) * (2 * (k - i) + 3));
        second_pairs(with_term(e, c, 0, 1, seq![i as u8, (2 * k + 3 - i) as u8], n, t), k, n, t, s, i + 1)
    } else {
        e
    }
}

/// `e` with the terms of `z_k^2` with `v_2`.
pub open spec fn second_terms(e: Map<BasisElement, i32>, k: int, n: nat, t: nat, s: int) -> Map<
    BasisElement,
    i32,
> {
    let e = with_term(e, s * (k - 2), 0, 1, seq![(2 * k + 3) as u8], n, t);
    let e = with_term(e, s * (-(2 * k - 6)), 0, 1, seq![1u8, (2 * k + 2) as u8], n, t);
    let e = with_term(e, s * (2 * k - 8), 0, 1, seq![2u8, (2 * k + 1) as u8], n, t);
    let e = with_term(e, s * (-(2 * k - 10)), 0, 1, seq![3u8, (2 * k) as u8], n, t);
    let e = second_pairs(e, k, n, t, s, 4);
    e
}

/// The terms of `z_k^2` with `v_2`.
fn put_second_terms(e: &mut Element, s: i64, k: u8, n: u8, t: u8)
    requires
        relation_ok(old(e)@, k as nat, n as nat, t as nat, 4),
        3 <= k <= n <= 32,
        t <= 30,
        s == 1 || s == -1,
    ensures
        relation_ok(final(e)@, k as nat, n as nat, t as nat, 4),
        final(e)@ == second_terms(old(e)@, k as int, n as nat, t as nat, s as int),
{
    let g = Ghost(k as nat);
    let kk = k as i64;
    let z: [u8; 1] = [2 * k + 3];
    assert(z@ =~= seq![(2 * k + 3) as u8]);
    put(e, s, kk - 2, 0, 1, z.as_slice(), n, t, g);
    let z: [u8; 2] = [1, 2 * k + 2];
    assert(z@ =~= seq![1u8, (2 * k + 2) as u8]);
    put(e, s, -(2 * kk - 6), 0, 1, z.as_slice(), n, t, g);
    let z: [u8; 2] = [2, 2 * k + 1];
    assert(z@ =~= seq![2u8, (2 * k + 1) as u8]);
    put(e, s, 2 * kk - 8, 0, 1, z.as_slice(), n, t, g);
    let z: [u8; 2] = [3, 2 * k];
    assert(z@ =~= seq![3u8, (2 * k) as u8]);
    put(e, s, -(2 * kk - 10), 0, 1, z.as_slice(), n, t, g);
    let ghost e0 = e@;
    let mut i: u8 = 4;
    while i <= k + 1
        invariant
            4 <= i <= k + 2,
            3 <= k <= n <= 32,
            t <= 30,
            s == 1 || s == -1,
            kk == k as i64,
            g@ == k as nat,
            relation_ok(e@, k as nat, n as nat, t as nat, 4),
            second_pairs(e0, k as int, n as nat, t as nat, s as int, 4) == second_pairs(
                e@,
                k as int,
                n as nat,
                t as nat,
                s as int,
                i as int,
            ),
        decreases k + 2 - i,
    {
        let d = kk - i as i64;
        let z: [u8; 2] = [i, 2 * k + 3 - i];
        assert(z@ =~= seq![i as u8, (2 * k + 3 - i) as u8]);
        put(e, s, with_sign(i, 2 * d + 3), 0, 1, z.as_slice(), n, t, g);
        i = i + 1;
    }
}

/// `e` with the terms `z_i z_(2*k+4-i)` of `fourth_terms` put in, for `i` from the given
/// one up to `k + 1`.
pub open spec fn fourth_pairs(e: Map<BasisElement, i32>, k: int, n: nat, t: nat, s: int, i: int) -> Map<
    BasisElement,
    i32,
>
    decreases k + 2 - i,
{
    if i <= k + 1 {
        let c = s * (trunc_div(sign(i) * ((k - i) * (k - i) * (k - i) * (k - i) + 8 * ((k - i) * (k - i) * (k - i)) + 47 * ((k - i) * (k - i)) + 124 * (k - i) + 108), 12));
        fourth_pairs(with_term(e, c, 4, 0, seq![i as u8, (2 * k + 4 - i) as u8], n, t), k, n, t, s, i + 1)
    } else {
        e
    }
}

/// `e` with the terms of `z_k^2` with `v_1^4`.
pub open spec fn fourth_terms(e: Map<BasisElement, i32>, k: int, n: nat, t: nat, s: int) -> Map<
    BasisElement,
    i32,
> {
    let e = with_term(e, s * (trunc_div(2 * (k * k * k * k) + 12 * (k * k * k) + 46 * (k * k) - 108 * k - 1008, 48)), 4, 0, seq![(2 * k + 4) as u8], n, t);
    let e = with_term(e, s * (trunc_div(-(k * k * k * k + 2 * (k * k * k) + 11 * (k * k) - 86 * k - 432), 12)), 4, 0, seq![1u8, (2 * k + 3) as u8], n, t);
    let e = with_term(e, s * (trunc_div(k * k * k * k + 11 * (k * k) - 108 * k - 384, 12)), 4, 0, seq![2u8, (2 * k + 2) as u8], n, t);
    let e = with_term(e, s * (trunc_div(-(k * k * k * k - 4 * (k * k * k) + 29 * (k * k) - 146 * k - 288), 12)), 4, 0, seq![3u8, (2 * k + 1) as u8], n, t);
    let e = with_term(e, s * (trunc_div(k * k * k * k - 8 * (k * k * k) + 47 * (k * k) - 124 * k - 204, 12)), 4, 0, seq![4u8, (2 * k) as u8], n, t);
    let e = fourth_pairs(e, k, n, t, s, 5);
    e
}

/// The terms of `z_k^2` with `v_1^4`.
fn put_fourth_terms(e: &mut Element, s: i64, k: u8, n: u8, t: u8)
    requires
        relation_ok(old(e)@, k as nat, n as nat, t as nat, 4),
        3 <= k <= n <= 32,
        t <= 30,
        s == 1 || s == -1,
    ensures
        relation_ok(final(e)@, k as nat, n as nat, t as nat, 4),
        final(e)@ == fourth_terms(old(e)@, k as int, n as nat, t as nat, s as int),
{
    let g = Ghost(k as nat);
    let kk = k as i64;
    let (k2, k3, k4) = powers(kk);
    let z: [u8; 1] = [2 * k + 4];
    assert(z@ =~= seq![(2 * k + 4) as u8]);
    put(e, s, div_toward_zero(2 * k4 + 12 * k3 + 46 * k2 - 108 * kk - 1008, 48), 4, 0, z.as_slice(), n, t, g);
    let z: [u8; 2] = [1, 2 * k + 3];
    assert(z@ =~= seq![1u8, (2 * k + 3) as u8]);
    put(e, s, div_toward_zero(-(k4 + 2 * k3 + 11 * k2 - 86 * kk - 432), 12), 4, 0, z.as_slice(), n, t, g);
    let z: [u8; 2] = [2, 2 * k + 2];
    assert(z@ =~= seq![2u8, (2 * k + 2) as u8]);
    put(e, s, div_toward_zero(k4 + 11 * k2 - 108 * kk - 384, 12), 4, 0, z.as_slice(), n, t, g);
    let z: [u8; 2] = [3, 2 * k + 1];
    assert(z@ =~= seq![3u8, (2 * k + 1) as u8]);
    put(e, s, div_toward_zero(-(k4 - 4 * k3 + 29 * k2 - 146 * kk - 288), 12), 4, 0, z.as_slice(), n, t, g);
    let z: [u8; 2] = [4, 2 * k];
    assert(z@ =~= seq![4u8, (2 * k) as u8]);
    put(e, s, div_toward_zero(k4 - 8 * k3 + 47 * k2 - 124 * kk - 204, 12), 4, 0, z.as_slice(), n, t, g);
    let ghost e0 = e@;
    let mut i: u8 = 5;
    while i <= k + 1
        invariant
            5 <= i <= k + 2,
            3 <= k <= n <= 32,
            t <= 30,
            s == 1 || s == -1,
            kk == k as i64,
            g@ == k as nat,
            relation_ok(e@, k as nat, n as nat, t as nat, 4),
            fourth_pairs(e0, k as int, n as nat, t as nat, s as int, 5) == fourth_pairs(
                e@,
                k as int,
                n as nat,
                t as nat,
                s as int,
                i as int,
            ),
        decreases k + 2 - i,
    {
        let d = kk - i as i64;
        let (d2, d3, d4) = powers(d);
        let z: [u8; 2] = [i, 2 * k + 4 - i];
        assert(z@ =~= seq![i as u8, (2 * k + 4 - i) as u8]);
        put(e, s, div_toward_zero(with_sign(i, d4 + 8 * d3 + 47 * d2 + 124 * d + 108), 12), 4, 0, z.as_slice(), n, t, g);
        i = i + 1;
    }
}

/// `e` with the terms `z_i z_(2*k+4-i)` of `mixed_terms` put in, for `i` from the given
/// one up to `k + 1`.
pub open spec fn mixed_pairs(e: Map<BasisElement, i32>, k: int, n: nat, t: nat, s: int, i: int) -> Map<
    BasisElement,
    i32,
>
    decreases k + 2 - i,
{
    if i <= k + 1 {
        let c = s * (sign(i) * (2 * ((k - i) * (k - i)) + 8 * (k - i) + 8));
        mixed_pairs(with_term(e, c, 1, 1, seq![i as u8, (2 * k + 4 - i) as u8], n, t), k, n, t, s, i + 1)
    } else {
        e
    }
}

/// `e` with the terms of `z_k^2` with `v_1 v_2`.
pub open spec fn mixed_terms(e: Map<BasisElement, i32>, k: int, n: nat, t: nat, s: int) -> Map<
    BasisElement,
    i32,
> {
    let e = with_term(e, s * (k * k - 21), 1, 1, seq![(2 * k + 4) as u8], n, t);
    let e = with_term(e, s * (-(2 * (k * k) - 4 * k - 40)), 1, 1, seq![1u8, (2 * k + 3) as u8], n, t);
    let e = with_term(e, s * (2 * (k * k) - 7 * k - 37), 1, 1, seq![2u8, (2 * k + 2) as u8], n, t);
    let e = with_term(e, s * (-(2 * (k * k) - 11 * k - 28)), 1, 1, seq![3u8, (2 * k + 1) as u8], n, t);
    let e = with_term(e, s * (2 * (k * k) - 8 * k - 22), 1, 1, seq![4u8, (2 * k) as u8], n, t);
    let e = mixed_pairs(e, k, n, t, s, 5);
    e
}

/// The terms of `z_k^2` with `v_1 v_2`.
fn put_mixed_terms(e: &mut Element, s: i64, k: u8, n: u8, t: u8)
    requires
        relation_ok(old(e)@, k as nat, n as nat, t as nat, 4),
        3 <= k <= n <= 32,
        t <= 30,
        s == 1 || s == -1,
    ensures
        relation_ok(final(e)@, k as nat, n as nat, t as nat, 4),
        final(e)@ == mixed_terms(old(e)@, k as int, n as nat, t as nat, s as int),
{
    let g = Ghost(k as nat);
    let kk = k as i64;
    let (k2, _k3, _k4) = powers(kk);
    let z: [u8; 1] = [2 * k + 4];
    assert(z@ =~= seq![(2 * k + 4) as u8]);
    put(e, s, k2 - 21, 1, 1, z.as_slice(), n, t, g);
    let z: [u8; 2] = [1, 2 * k + 3];
    assert(z@ =~= seq![1u8, (2 * k + 3) as u8]);
    put(e, s, -(2 * k2 - 4 * kk - 40), 1, 1, z.as_slice(), n, t, g);
    let z: [u8; 2] = [2, 2 * k + 2];
    assert(z@ =~= seq![2u8, (2 * k + 2) as u8]);
    put(e, s, 2 * k2 - 7 * kk - 37, 1, 1, z.as_slice(), n, t, g);
    let z: [u8; 2] = [3, 2 * k + 1];
    assert(z@ =~= seq![3u8, (2 * k + 1) as u8]);
    put(e, s, -(2 * k2 - 11 * kk - 28), 1, 1, z.as_slice(), n, t, g);
    let z: [u8; 2] = [4, 2 * k];
    assert(z@ =~= seq![4u8, (2 * k) as u8]);
    put(e, s, 2 * k2 - 8 * kk - 22, 1, 1, z.as_slice(), n, t, g);
    let ghost e0 = e@;
    let mut i: u8 = 5;
    while i <= k + 1
        invariant
            5 <= i <= k + 2,
            3 <= k <= n <= 32,
            t <= 30,
            s == 1 || s == -1,
            kk == k as i64,
            g@ == k as nat,
            relation_ok(e@, k as nat, n as nat, t as nat, 4),
            mixed_pairs(e0, k as int, n as nat, t as nat, s as int, 5) == mixed_pairs(
                e@,
                k as int,
                n as nat,
                t as nat,
                s as int,
                i as int,
            ),
        decreases k + 2 - i,
    {
        let d = kk - i as i64;
        let (d2, _d3, _d4) = powers(d);
        let z: [u8; 2] = [i, 2 * k + 4 - i];
        assert(z@ =~= seq![i as u8, (2 * k + 4 - i) as u8]);
        put(e, s, with_sign(i, 2 * d2 + 8 * d + 8), 1, 1, z.as_slice(), n, t, g);
        i = i + 1;
    }
}

/// The relation for `z_k^2` with `k >= 3` by the general formula; every
/// coefficient carries the sign `(-1)^(k+1)`.
pub open spec fn general_square(k: nat, n: nat, t: nat) -> Map<BasisElement, i32> {
    let s = sign(k + 1 as int);
    let k = k as int;
    mixed_terms(
        fourth_terms(
            second_terms(
                cube_terms(square_terms(low_terms(Map::empty(), k, n, t, s), k, n, t, s), k, n, t, s),
                k,
                n,
                t,
                s,
            ),
            k,
            n,
            t,
            s,
        ),
        k,
        n,
        t,
        s,
    )
}

/// The relation for `z_k^2` of family `n`, modulo `2^t`.
pub open spec fn square_spec(k: nat, n: nat, t: nat) -> Map<BasisElement, i32> {
    if k == 1 {
        first_square(n, t)
    } else if k == 2 {
        second_square(n, t)
    } else {
        general_square(k, n, t)
    }
}

/// The relation for `z_k^2` with `k >= 3`, by the general formula.
fn square_of_general(k: u8, n: u8, t: u8) -> (r: Element)
    requires
        3 <= k <= n <= 32,
        t <= 30,
    ensures
        relation_ok(r@, k as nat, n as nat, t as nat, 4),
        r@ == general_square(k as nat, n as nat, t as nat),
{
    let s = sign_of(k + 1);
    let mut e: Element = fx_new();
    put_low_terms(&mut e, s, k, n, t);
    put_square_terms(&mut e, s, k, n, t);
    put_cube_terms(&mut e, s, k, n, t);
    put_second_terms(&mut e, s, k, n, t);
    put_fourth_terms(&mut e, s, k, n, t);
    put_mixed_terms(&mut e, s, k, n, t);
    e
}

/// The truncation bound of this family of relations: `v1 + 3 v2 <= 4`.
pub const DEGREE_BOUND: u8 = 4;

/// The relations `z_k^2 = squares[k - 1]` of family `n`, coefficients reduced
/// modulo `2^t`; terms with a generator beyond `n`, or with a coefficient that
/// vanishes modulo `2^t`, are left out.
pub fn relation_table(n: u8, t: u8) -> (r: Vec<Element>)
    requires
        n <= 32,
        t <= 30,
    ensures
        r@.len() == n,
        forall|i: int|
            0 <= i < n ==> relation_ok(#[trigger] r@[i]@, (i + 1) as nat, n as nat, t as nat, 4),
        forall|i: int| 0 <= i < n ==> (#[trigger] r@[i])@ == square_spec((i + 1) as nat, n as nat, t as nat),
{
    let mut r: Vec<Element> = Vec::new();
    let mut k: u8 = 1;
    while k <= n
        invariant
            1 <= k <= n + 1,
            n <= 32,
            t <= 30,
            r@.len() == k - 1,
            forall|i: int|
                0 <= i < k - 1 ==> relation_ok(#[trigger] r@[i]@, (i + 1) as nat, n as nat, t as nat, 4),
            forall|i: int| 0 <= i < k - 1 ==> (#[trigger] r@[i])@ == square_spec((i + 1) as nat, n as nat, t as nat),
        decreases n + 1 - k,
    {
        let e = if k == 1 {
            square_of_first(n, t)
        } else if k == 2 {
            square_of_second(n, t)
        } else {
            square_of_general(k, n, t)
        };
        r.push(e);
        k = k + 1;
    }
    r
}

} // verus!
