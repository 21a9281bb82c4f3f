//! Basis monomials `v_1^p v_2^s z_I` and their exterior-generator masks.
use vstd::prelude::*;

verus! {

/// One monomial of the algebra: `v_1^v1 * v_2^v2 * prod_{i in zs} z_i`, where
/// bit `i - 1` of `zs` marks the exterior generator `z_i`.
#[derive(Clone, Copy, PartialEq, Eq, Hash, Debug, Structural)]
pub struct BasisElement {
    pub v1: u8,
    pub v2: u8,
    pub zs: u32,
}

/// Whether exterior generator `z_k` (`1 <= k <= 32`) is present in `zs`.
pub open spec fn present(zs: u32, k: nat) -> bool {
    1 <= k <= 32 && (zs >> ((k - 1) as u32)) & 1u32 == 1u32
}

/// Every exterior generator of `zs` has index at most `n`.
pub open spec fn within(zs: u32, n: nat) -> bool {
    forall|k: nat| n < k <= 32 ==> !#[trigger] present(zs, k)
}

/// The mask with generator `k` added.
pub open spec fn with_gen(zs: u32, k: nat) -> u32 {
    zs | (1u32 << ((k - 1) as u32))
}

/// The mask with generator `k` removed.
pub open spec fn without_gen(zs: u32, k: nat) -> u32 {
    zs & !(1u32 << ((k - 1) as u32))
}

/// The weight `1025 - k^2` of exterior generator `z_k`; positive for `k <= 32`.
pub open spec fn gen_weight(k: nat) -> int {
    1025 - k * k
}

/// The weight of the generators of `zs` with index at most `i`.
pub open spec fn weight_upto(zs: u32, i: nat) -> int
    decreases i,
{
    if i == 0 {
        0
    } else {
        weight_upto(zs, (i - 1) as nat) + if present(zs, i) {
            gen_weight(i)
        } else {
            0
        }
    }
}

/// The total weight of a mask. A relation `z_k^2 = ...` only produces
/// monomials of weight below `2 * gen_weight(k)`, so each substitution lowers
/// the weight still to be multiplied out; this measure bounds the recursion.
pub open spec fn weight(zs: u32) -> int {
    weight_upto(zs, 32)
}

pub proof fn lemma_weight_upto_nonneg(zs: u32, i: nat)
    requires
        i <= 32,
    ensures
        0 <= weight_upto(zs, i),
    decreases i,
{
    if i > 0 {
        lemma_weight_upto_nonneg(zs, (i - 1) as nat);
        assert(i * i <= 32 * 32) by (nonlinear_arith)
            requires
                i <= 32,
        ;
    }
}

/// No mask weighs more than `32 * 1024`.
pub proof fn lemma_weight_upto_max(zs: u32, i: nat)
    requires
        i <= 32,
    ensures
        weight_upto(zs, i) <= 1024 * i,
    decreases i,
{
    if i > 0 {
        lemma_weight_upto_max(zs, (i - 1) as nat);
        assert(i * i >= 1) by (nonlinear_arith)
            requires
                i >= 1,
        ;
    }
}

proof fn lemma_bit_set(a: u32, kk: u32, jj: u32)
    requires
        kk < 32,
        jj < 32,
    ensures
        ((a | (1u32 << kk)) >> jj) & 1u32 == if jj == kk {
            1u32
        } else {
            (a >> jj) & 1u32
        },
        ((a & !(1u32 << kk)) >> jj) & 1u32 == if jj == kk {
            0u32
        } else {
            (a >> jj) & 1u32
        },
{
    assert(((a | (1u32 << kk)) >> jj) & 1u32 == if jj == kk {
        1u32
    } else {
        (a >> jj) & 1u32
    }) by (bit_vector)
        requires
            kk < 32,
            jj < 32,
    ;
    assert(((a & !(1u32 << kk)) >> jj) & 1u32 == if jj == kk {
        0u32
    } else {
        (a >> jj) & 1u32
    }) by (bit_vector)
        requires
            kk < 32,
            jj < 32,
    ;
}

/// Adding or removing generator `k` changes only its own membership.
pub proof fn lemma_gen_membership(zs: u32, k: nat)
    requires
        1 <= k <= 32,
    ensures
        present(with_gen(zs, k), k),
        !present(without_gen(zs, k), k),
        forall|j: nat| j != k ==> #[trigger] present(with_gen(zs, k), j) == present(zs, j),
        forall|j: nat| j != k ==> #[trigger] present(without_gen(zs, k), j) == present(zs, j),
{
    assert forall|j: nat| 1 <= j <= 32 implies #[trigger] present(with_gen(zs, k), j) == if j == k {
        true
    } else {
        present(zs, j)
    } by {
        lemma_bit_set(zs, (k - 1) as u32, (j - 1) as u32);
    }
    assert forall|j: nat| 1 <= j <= 32 implies #[trigger] present(without_gen(zs, k), j) == if j
        == k {
        false
    } else {
        present(zs, j)
    } by {
        lemma_bit_set(zs, (k - 1) as u32, (j - 1) as u32);
    }
}

/// Masks that differ only in generator `k` differ in weight by `gen_weight(k)`.
proof fn lemma_weight_upto_step(a: u32, b: u32, k: nat, i: nat)
    requires
        1 <= k <= 32,
        present(a, k),
        !present(b, k),
        forall|j: nat| j != k ==> #[trigger] present(a, j) == present(b, j),
    ensures
        weight_upto(a, i) == weight_upto(b, i) + if k <= i {
            gen_weight(k)
        } else {
            0
        },
    decreases i,
{
    if i > 0 {
        lemma_weight_upto_step(a, b, k, (i - 1) as nat);
    }
}

/// The weight of a mask grows by `gen_weight(k)` when `z_k` is added.
pub proof fn lemma_weight_gen(zs: u32, k: nat)
    requires
        1 <= k <= 32,
    ensures
        present(zs, k) ==> weight(zs) == weight(without_gen(zs, k)) + gen_weight(k),
        !present(zs, k) ==> weight(with_gen(zs, k)) == weight(zs) + gen_weight(k),
        present(zs, k) ==> without_gen(zs, k) < zs,
{
    lemma_gen_membership(zs, k);
    if present(zs, k) {
        lemma_weight_upto_step(zs, without_gen(zs, k), k, 32);
        let kk = (k - 1) as u32;
        assert((zs >> kk) & 1u32 == 1u32 ==> zs & !(1u32 << kk) < zs) by (bit_vector)
            requires
                kk < 32,
        ;
    } else {
        lemma_weight_upto_step(with_gen(zs, k), zs, k, 32);
    }
}

/// Removing a present generator and adding it back restores the mask.
pub proof fn lemma_restore_gen(zs: u32, k: nat)
    requires
        1 <= k <= 32,
        present(zs, k),
    ensures
        with_gen(without_gen(zs, k), k) == zs,
{
    let kk = (k - 1) as u32;
    assert((zs >> kk) & 1u32 == 1u32 && kk < 32 ==> (zs & !(1u32 << kk)) | (1u32 << kk) == zs)
        by (bit_vector);
}

/// A mask of one generator.
pub proof fn lemma_single_gen(k: nat)
    requires
        1 <= k <= 32,
    ensures
        weight(with_gen(0, k)) == gen_weight(k),
        forall|j: nat| #[trigger] present(with_gen(0, k), j) <==> j == k,
{
    lemma_gen_membership(0, k);
    assert forall|j: nat| !#[trigger] present(0u32, j) by {
        if 1 <= j <= 32 {
            let jj = (j - 1) as u32;
            assert((0u32 >> jj) & 1u32 == 0u32) by (bit_vector);
        }
    }
    lemma_weight_zero(32);
    lemma_weight_gen(0, k);
}

proof fn lemma_weight_zero(i: nat)
    ensures
        weight_upto(0, i) == 0,
    decreases i,
{
    if i > 0 {
        lemma_weight_zero((i - 1) as nat);
        if 1 <= i <= 32 {
            let jj = (i - 1) as u32;
            assert((0u32 >> jj) & 1u32 == 0u32) by (bit_vector);
        }
    }
}

/// A mask of two distinct generators.
pub proof fn lemma_pair_gen(i: nat, j: nat)
    requires
        1 <= i <= 32,
        1 <= j <= 32,
        i != j,
    ensures
        weight(with_gen(with_gen(0, i), j)) == gen_weight(i) + gen_weight(j),
        forall|x: nat| #[trigger] present(with_gen(with_gen(0, i), j), x) <==> (x == i || x == j),
{
    lemma_single_gen(i);
    lemma_gen_membership(with_gen(0, i), j);
    lemma_weight_gen(with_gen(0, i), j);
}

/// Whether generator `k` is present, computed.
pub fn has_gen(zs: u32, k: u8) -> (r: bool)
    requires
        1 <= k <= 32,
    ensures
        r == present(zs, k as nat),
{
    (zs >> (k - 1) as u32) & 1 == 1
}

/// The mask with generator `k` added.
pub fn add_gen(zs: u32, k: u8) -> (r: u32)
    requires
        1 <= k <= 32,
    ensures
        r == with_gen(zs, k as nat),
{
    zs | (1u32 << (k - 1) as u32)
}

/// The mask with generator `k` removed.
pub fn remove_gen(zs: u32, k: u8) -> (r: u32)
    requires
        1 <= k <= 32,
    ensures
        r == without_gen(zs, k as nat),
{
    zs & !(1u32 << (k - 1) as u32)
}

} // verus!
