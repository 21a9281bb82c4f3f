//! The evaluation driver: the factors of a rational element, their product,
//! and which (degree, subset) pairs are evaluated.
use crate::algebra::{Algebra, Element, keys_ok};
use crate::basis::BasisElement;
use crate::coeff::reduce;
use crate::fxmap::{fx_insert, fx_new};
use crate::model::element_times_element;
use crate::relations::{DEGREE_BOUND, mask_of, term};
use crate::torsion::pow2;
use vstd::prelude::*;

verus! {

/// `e` with the raw term `c * v_1^v1 * v_2^v2 * prod_{i in zs} z_i` put in,
/// when its generators exist in family `n`.
pub open spec fn with_raw_term(
    e: Map<BasisElement, i32>,
    c: int,
    v1: u8,
    v2: u8,
    zs: Seq<u8>,
    n: nat,
) -> Map<BasisElement, i32> {
    if forall|j: int| 0 <= j < zs.len() ==> #[trigger] zs[j] <= n {
        e.insert(BasisElement { v1, v2, zs: mask_of(zs) }, c as i32)
    } else {
        e
    }
}

/// `e` with the term `(-1)^(i+1) * c * v_1^v1 * v_2^v2 * prod_{i in zs} z_i`
/// put in, its coefficient reduced modulo `2^t`, when its generators exist in
/// family `n` and the coefficient does not vanish.
pub open spec fn with_class_term(
    e: Map<BasisElement, i32>,
    i: nat,
    c: int,
    v1: u8,
    v2: u8,
    zs: Seq<u8>,
    n: nat,
    t: nat,
) -> Map<BasisElement, i32> {
    let v = (if i % 2 == 1 {
        c
    } else {
        -c
    }) % (pow2(t) as int);
    if (forall|j: int| 0 <= j < zs.len() ==> #[trigger] zs[j] <= n) && v != 0 {
        e.insert(BasisElement { v1, v2, zs: mask_of(zs) }, v as i32)
    } else {
        e
    }
}

/// The factor `u`: `-z_1 - v_1^2 z_1 z_2 + 5 v_1^3 z_4 - ...`, with the terms
/// whose generators exist in family `n`.
pub open spec fn seed_spec(n: nat) -> Map<BasisElement, i32> {
    with_raw_term(with_raw_term(with_raw_term(with_raw_term(with_raw_term(with_raw_term(with_raw_term(with_raw_term(with_raw_term(with_raw_term(with_raw_term(with_raw_term(Map::empty(), -1, 0, 0, seq![1u8], n), -1, 2, 0, seq![1u8, 2u8], n), 5, 3, 0, seq![4u8], n), -1, 3, 0, seq![1u8, 3u8], n), 4, 0, 1, seq![4u8], n), -1, 0, 1, seq![1u8, 3u8], n), -4, 4, 0, seq![5u8], n), -6, 4, 0, seq![1u8, 4u8], n), -1, 4, 0, seq![2u8, 3u8], n), -6, 1, 1, seq![5u8], n), -8, 1, 1, seq![1u8, 4u8], n), 1, 1, 1, seq![2u8, 3u8], n)
}

/// The factor `c_i^*`: `(-1)^(i+1) (2 z_i - v_1 z_(i+1) + 2 v_1^2 z_(i+2) - ...)`
/// modulo `2^t`, with the terms whose generators exist in family `n`.
pub open spec fn class_spec(i: nat, n: nat, t: nat) -> Map<BasisElement, i32> {
    with_class_term(with_class_term(with_class_term(with_class_term(with_class_term(with_class_term(with_class_term(Map::empty(), i, 2, 0, 0, seq![(i) as u8], n, t), i, -1, 1, 0, seq![(i + 1) as u8], n, t), i, 2, 2, 0, seq![(i + 2) as u8], n, t), i, -8, 3, 0, seq![(i + 3) as u8], n, t), i, -7, 0, 1, seq![(i + 3) as u8], n, t), i, 26, 4, 0, seq![(i + 4) as u8], n, t), i, 30, 1, 1, seq![(i + 4) as u8], n, t)
}

/// The unit `1` of the algebra as an element.
pub open spec fn one() -> Map<BasisElement, i32> {
    map![identity() => 1i32]
}

/// `1 * c_(cs[last])^* * ... * c_(cs[0])^*`, multiplied in from the right,
/// the last class first.
pub open spec fn classes_product(
    squares: Seq<Map<BasisElement, i32>>,
    t: nat,
    bound: nat,
    cs: Seq<u8>,
    n: nat,
) -> Map<BasisElement, i32>
    decreases cs.len(),
{
    if cs.len() == 0 {
        one()
    } else {
        element_times_element(
            squares,
            t,
            bound,
            classes_product(squares, t, bound, cs.skip(1), n),
            class_spec(cs[0] as nat, n, t),
        )
    }
}

/// `base * u^k`.
pub open spec fn times_seed_power(
    squares: Seq<Map<BasisElement, i32>>,
    t: nat,
    bound: nat,
    base: Map<BasisElement, i32>,
    n: nat,
    k: nat,
) -> Map<BasisElement, i32>
    decreases k,
{
    if k == 0 {
        base
    } else {
        element_times_element(
            squares,
            t,
            bound,
            times_seed_power(squares, t, bound, base, n, (k - 1) as nat),
            seed_spec(n),
        )
    }
}

/// The rational element `u^k c_(cs[0])^* ... c_(cs[last])^*`.
pub open spec fn rational_spec(
    squares: Seq<Map<BasisElement, i32>>,
    t: nat,
    bound: nat,
    k: nat,
    cs: Seq<u8>,
    n: nat,
) -> Map<BasisElement, i32> {
    times_seed_power(squares, t, bound, classes_product(squares, t, bound, cs, n), n, k)
}

/// Adds the raw term `c * v_1^v1 * v_2^v2 * prod_{i in zs} z_i` to `e` when
/// its generators exist in family `n`.
fn put_raw(e: &mut Element, c: i64, v1: u8, v2: u8, zs: &[u8], n: u8)
    requires
        keys_ok(old(e)@, n as nat, DEGREE_BOUND as nat),
        n <= 32,
        v1 + 3 * v2 <= DEGREE_BOUND,
        -0x8000_0000 <= c < 0x8000_0000,
        forall|i: int| 0 <= i < zs@.len() ==> 1 <= #[trigger] zs@[i],
    ensures
        keys_ok(final(e)@, n as nat, DEGREE_BOUND as nat),
        final(e)@ == with_raw_term(old(e)@, c as int, v1, v2, zs@, n as nat),
{
    if let Some((b, cc)) = term(c, v1, v2, zs, n) {
        proof {
            crate::relations::lemma_mask_within(zs@, n as nat);
        }
        fx_insert(e, b, cc as i32);
    }
}

/// Adds the term `(-1)^(i+1) * c * v_1^v1 * v_2^v2 * prod_{i in zs} z_i`
/// with its coefficient reduced modulo `2^t`, unless a generator does not
/// exist in family `n` or the coefficient vanishes.
fn put_reduced(e: &mut Element, i: u8, c: i64, v1: u8, v2: u8, zs: &[u8], n: u8, t: u8)
    requires
        keys_ok(old(e)@, n as nat, DEGREE_BOUND as nat),
        n <= 32,
        t <= 30,
        v1 + 3 * v2 <= DEGREE_BOUND,
        -0x8000_0000 <= c < 0x8000_0000,
        forall|i: int| 0 <= i < zs@.len() ==> 1 <= #[trigger] zs@[i],
    ensures
        keys_ok(final(e)@, n as nat, DEGREE_BOUND as nat),
        final(e)@ == with_class_term(old(e)@, i as nat, c as int, v1, v2, zs@, n as nat, t as nat),
{
    if let Some((b, cc)) = term(c, v1, v2, zs, n) {
        let signed = if i % 2 == 1 {
            cc
        } else {
            -cc
        };
        let v = reduce(signed, t);
        if v != 0 {
            proof {
                crate::relations::lemma_mask_within(zs@, n as nat);
                crate::coeff::lemma_pow2_le_30(t as nat);
            }
            fx_insert(e, b, v as i32);
        }
    }
}

/// The factor `u` of a rational element, with its raw coefficients.
pub fn seed_factor(n: u8) -> (r: Element)
    requires
        n <= 32,
    ensures
        keys_ok(r@, n as nat, DEGREE_BOUND as nat),
        r@ == seed_spec(n as nat),
{
    let mut e: Element = fx_new();
    let z: [u8; 1] = [1];
    assert(z@ =~= seq![1u8]);
    put_raw(&mut e, -1, 0, 0, z.as_slice(), n);
    put_raw(&mut e, -1, 2, 0, &[1, 2], n);
    let z: [u8; 1] = [4];
    assert(z@ =~= seq![4u8]);
    put_raw(&mut e, 5, 3, 0, z.as_slice(), n);
    put_raw(&mut e, -1, 3, 0, &[1, 3], n);
    let z: [u8; 1] = [4];
    assert(z@ =~= seq![4u8]);
    put_raw(&mut e, 4, 0, 1, z.as_slice(), n);
    put_raw(&mut e, -1, 0, 1, &[1, 3], n);
    let z: [u8; 1] = [5];
    assert(z@ =~= seq![5u8]);
    put_raw(&mut e, -4, 4, 0, z.as_slice(), n);
    put_raw(&mut e, -6, 4, 0, &[1, 4], n);
    put_raw(&mut e, -1, 4, 0, &[2, 3], n);
    let z: [u8; 1] = [5];
    assert(z@ =~= seq![5u8]);
    put_raw(&mut e, -6, 1, 1, z.as_slice(), n);
    put_raw(&mut e, -8, 1, 1, &[1, 4], n);
    put_raw(&mut e, 1, 1, 1, &[2, 3], n);
    e
}

/// The factor `c_i^*` of a rational element, coefficients reduced modulo
/// `2^t` and zero terms dropped.
pub fn class_factor(i: u8, n: u8, t: u8) -> (r: Element)
    requires
        1 <= i <= 32,
        n <= 32,
        t <= 30,
    ensures
        keys_ok(r@, n as nat, DEGREE_BOUND as nat),
        r@ == class_spec(i as nat, n as nat, t as nat),
{
    let mut e: Element = fx_new();
    let z: [u8; 1] = [i];
    assert(z@ =~= seq![(i) as u8]);
    put_reduced(&mut e, i, 2, 0, 0, z.as_slice(), n, t);
    let z: [u8; 1] = [i + 1];
    assert(z@ =~= seq![(i + 1) as u8]);
    put_reduced(&mut e, i, -1, 1, 0, z.as_slice(), n, t);
    let z: [u8; 1] = [i + 2];
    assert(z@ =~= seq![(i + 2) as u8]);
    put_reduced(&mut e, i, 2, 2, 0, z.as_slice(), n, t);
    let z: [u8; 1] = [i + 3];
    assert(z@ =~= seq![(i + 3) as u8]);
    put_reduced(&mut e, i, -8, 3, 0, z.as_slice(), n, t);
    let z: [u8; 1] = [i + 3];
    assert(z@ =~= seq![(i + 3) as u8]);
    put_reduced(&mut e, i, -7, 0, 1, z.as_slice(), n, t);
    let z: [u8; 1] = [i + 4];
    assert(z@ =~= seq![(i + 4) as u8]);
    put_reduced(&mut e, i, 26, 4, 0, z.as_slice(), n, t);
    let z: [u8; 1] = [i + 4];
    assert(z@ =~= seq![(i + 4) as u8]);
    put_reduced(&mut e, i, 30, 1, 1, z.as_slice(), n, t);
    e
}

/// The unit `1` of the algebra.
pub open spec fn identity() -> BasisElement {
    BasisElement { v1: 0, v2: 0, zs: 0 }
}

/// The rational element `u^k * c_{cs[0]}^* * ... * c_{cs[last]}^*`: the
/// factors are multiplied into the unit from the right, the last one first.
pub fn rational_element(k: u16, cs: &[u8], alg: &mut Algebra) -> (r: Element)
    requires
        old(alg).wf(),
        old(alg).bound == DEGREE_BOUND,
        forall|j: int| 0 <= j < cs@.len() ==> 1 <= #[trigger] cs@[j] <= 32,
    ensures
        final(alg).wf(),
        final(alg).same_rules(old(alg)),
        r@ == rational_spec(
            old(alg).relations(),
            old(alg).t as nat,
            old(alg).bound as nat,
            k as nat,
            cs@,
            old(alg).n as nat,
        ),
        k == 0 && cs@.len() == 0 ==> r@ == one(),
        k > 0 || cs@.len() > 0 ==> final(alg).ok(r@),
{
    let ghost rel = alg.relations();
    let n = alg.n;
    let t = alg.t;
    let mut acc: Element = fx_new();
    fx_insert(&mut acc, BasisElement { v1: 0, v2: 0, zs: 0 }, 1);
    proof {
        assert(acc@ =~= one());
        assert(cs@.skip(cs@.len() as int) =~= Seq::<u8>::empty());
        crate::relations::lemma_mask_within(Seq::<u8>::empty(), n as nat);
        assert(crate::basis::within(0, n as nat));
    }
    let mut j: usize = cs.len();
    while j > 0
        invariant
            j <= cs@.len(),
            alg.wf(),
            alg.same_rules(old(alg)),
            alg.bound == DEGREE_BOUND,
            n == alg.n,
            t == alg.t,
            forall|l: int| 0 <= l < cs@.len() ==> 1 <= #[trigger] cs@[l] <= 32,
            keys_ok(acc@, n as nat, DEGREE_BOUND as nat),
            j == cs@.len() ==> acc@ == one(),
            j < cs@.len() ==> alg.ok(acc@),
            rel == alg.relations(),
            acc@ == classes_product(rel, t as nat, DEGREE_BOUND as nat, cs@.skip(j as int), n as nat),
        decreases j,
    {
        j = j - 1;
        let f = class_factor(cs[j], n, t);
        acc = alg.multiply_element_element(&acc, &f);
        assert(cs@.skip(j as int).skip(1) =~= cs@.skip(j + 1));
    }
    assert(cs@.skip(0) =~= cs@);
    let ghost base = acc@;
    if k > 0 {
        let u = seed_factor(n);
        let mut i: u16 = 0;
        while i < k
            invariant
                i <= k,
                alg.wf(),
                alg.same_rules(old(alg)),
                alg.bound == DEGREE_BOUND,
                n == alg.n,
                keys_ok(u@, n as nat, DEGREE_BOUND as nat),
                keys_ok(acc@, n as nat, DEGREE_BOUND as nat),
                i == 0 && cs@.len() == 0 ==> acc@ == one(),
                i > 0 || cs@.len() > 0 ==> alg.ok(acc@),
                rel == alg.relations(),
                t == alg.t,
                u@ == seed_spec(n as nat),
                acc@ == times_seed_power(rel, t as nat, DEGREE_BOUND as nat, base, n as nat, i as nat),
            decreases k - i,
        {
            acc = alg.multiply_element_element(&acc, &u);
            i = i + 1;
        }
    }
    acc
}

/// The indices `i` in `from..=n` with bit `i - 2` of `mask` set, ascending.
pub open spec fn members_from(mask: u32, from: nat, n: nat) -> Seq<u8>
    decreases n + 1 - from,
{
    if from > n || from < 2 || n > 32 {
        Seq::empty()
    } else {
        let head: Seq<u8> = if (mask >> ((from - 2) as u32)) & 1u32 == 1u32 {
            seq![from as u8]
        } else {
            Seq::empty()
        };
        head + members_from(mask, from + 1, n)
    }
}

/// The subset of `{2, ..., n}` that `mask` encodes: `i` is in it when bit
/// `i - 2` is set.
pub open spec fn members(mask: u32, n: nat) -> Seq<u8> {
    members_from(mask, 2, n)
}

pub open spec fn seq_sum(s: Seq<u8>) -> int
    decreases s.len(),
{
    if s.len() == 0 {
        0
    } else {
        s[0] + seq_sum(s.skip(1))
    }
}

/// The total degree `n(n+1)/2` of family `n`.
pub open spec fn total_degree(n: nat) -> int {
    (n * (n + 1) / 2) as int
}

/// The degrees `d1` evaluated for a subset of weight `w`: from
/// `max(0, max(d - 4, 0) - w)` up to `d - w`, so that `d1 + w` lies in the
/// top window of the total degree `d`.
pub open spec fn lowest_degree(d: int, w: int) -> int {
    let floor = if d >= 4 {
        d - 4
    } else {
        0
    };
    if floor >= w {
        floor - w
    } else {
        0
    }
}

/// The (degree, subset mask) pairs evaluated for one mask, degree ascending.
pub open spec fn rows(n: nat, mask: u32) -> Seq<(u16, u32)> {
    let d = total_degree(n);
    let w = seq_sum(members(mask, n));
    let lo = lowest_degree(d, w);
    let count = d - w + 1 - lo;
    Seq::new(
        if count > 0 {
            count as nat
        } else {
            0
        },
        |j: int| ((lo + j) as u16, mask),
    )
}

/// The rows for the masks from `top - 1` down to `m`.
pub open spec fn rows_down(n: nat, top: nat, m: nat) -> Seq<(u16, u32)>
    decreases top - m,
{
    if m >= top {
        Seq::empty()
    } else {
        rows_down(n, top, m + 1) + rows(n, m as u32)
    }
}

/// Every evaluated (degree, mask) pair of family `n`: the masks of subsets of
/// `{2, ..., n}` from the largest down, and for each the degrees ascending.
pub open spec fn schedule_spec(n: nat) -> Seq<(u16, u32)> {
    rows_down(n, pow2_u32((n - 1) as nat) as nat, 0)
}

pub open spec fn pow2_u32(e: nat) -> u32 {
    (1u32 << (e as u32))
}

proof fn lemma_members_range(mask: u32, from: nat, n: nat)
    ensures
        forall|j: int|
            0 <= j < members_from(mask, from, n).len() ==> from <= #[trigger] members_from(
                mask,
                from,
                n,
            )[j] <= n,
    decreases n + 1 - from,
{
    if !(from > n || from < 2 || n > 32) {
        lemma_members_range(mask, from + 1, n);
        let head: Seq<u8> = if (mask >> ((from - 2) as u32)) & 1u32 == 1u32 {
            seq![from as u8]
        } else {
            Seq::empty()
        };
        let tail = members_from(mask, from + 1, n);
        assert forall|j: int| 0 <= j < members_from(mask, from, n).len() implies from
            <= #[trigger] members_from(mask, from, n)[j] <= n by {
            assert(members_from(mask, from, n) == head + tail);
            if j >= head.len() {
                assert(members_from(mask, from, n)[j] == tail[j - head.len()]);
            }
        }
    }
}

/// The subset of `{2, ..., n}` encoded by `mask`, ascending.
pub fn members_of(mask: u32, n: u8) -> (r: Vec<u8>)
    requires
        n <= 32,
    ensures
        r@ == members(mask, n as nat),
        forall|j: int| 0 <= j < r@.len() ==> 2 <= #[trigger] r@[j] <= n,
{
    let mut r: Vec<u8> = Vec::new();
    let mut i: u8 = 2;
    proof {
        lemma_members_range(mask, 2, n as nat);
    }
    while i <= n
        invariant
            2 <= i <= n + 1 || (n < 2 && i == 2),
            n <= 32,
            members(mask, n as nat) == r@ + members_from(mask, i as nat, n as nat),
            forall|j: int| 0 <= j < r@.len() ==> 2 <= #[trigger] r@[j] <= n,
            forall|j: int| 0 <= j < members_from(mask, i as nat, n as nat).len() ==> i <= #[trigger] members_from(mask, i as nat, n as nat)[j] <= n,
        decreases n + 1 - i,
    {
        proof {
            lemma_members_range(mask, (i + 1) as nat, n as nat);
        }
        let tail = Ghost(members_from(mask, (i + 1) as nat, n as nat));
        if (mask >> (i - 2) as u32) & 1 == 1 {
            let ghost before = r@;
            r.push(i);
            proof {
                assert(members_from(mask, i as nat, n as nat) == seq![i] + tail@);
                assert(before + (seq![i] + tail@) =~= r@ + tail@);
            }
        } else {
            assert(members_from(mask, i as nat, n as nat) =~= tail@);
        }
        i = i + 1;
    }
    assert(members_from(mask, i as nat, n as nat) =~= Seq::<u8>::empty());
    assert(r@ + Seq::<u8>::empty() =~= r@);
    r
}

/// A subset of `{from, ..., n}` sums to at most `from + ... + n`.
proof fn lemma_members_sum(mask: u32, from: nat, n: nat)
    requires
        2 <= from <= n + 1,
        n <= 32,
    ensures
        0 <= 2 * seq_sum(members_from(mask, from, n)) <= n * (n + 1) - (from - 1) * from,
    decreases n + 1 - from,
{
    if from <= n {
        lemma_members_sum(mask, from + 1, n);
        let head: Seq<u8> = if (mask >> ((from - 2) as u32)) & 1u32 == 1u32 {
            seq![from as u8]
        } else {
            Seq::empty()
        };
        let tail = members_from(mask, from + 1, n);
        assert(members_from(mask, from, n) == head + tail);
        if head.len() == 1 {
            assert((head + tail).skip(1) =~= tail);
            assert(seq_sum(head + tail) == from + seq_sum(tail));
        } else {
            assert(head + tail =~= tail);
        }
        assert(n * (n + 1) - from * (from + 1) + 2 * from == n * (n + 1) - (from - 1) * from) by (nonlinear_arith);
    } else {
        assert(members_from(mask, from, n) =~= Seq::<u8>::empty());
        assert(n * (n + 1) - (from - 1) * from == 0) by (nonlinear_arith)
            requires
                from == n + 1,
        ;
    }
}

/// The sum of a short list of small numbers.
pub fn sum_of(cs: &[u8]) -> (r: u16)
    requires
        cs@.len() <= 32,
        forall|j: int| 0 <= j < cs@.len() ==> #[trigger] cs@[j] <= 32,
    ensures
        r == seq_sum(cs@),
{
    let mut r: u16 = 0;
    let mut i: usize = cs.len();
    assert(cs@.skip(cs@.len() as int) =~= Seq::<u8>::empty());
    while i > 0
        invariant
            i <= cs@.len() <= 32,
            forall|j: int| 0 <= j < cs@.len() ==> #[trigger] cs@[j] <= 32,
            r == seq_sum(cs@.skip(i as int)),
            r <= 32 * (cs@.len() - i),
        decreases i,
    {
        i = i - 1;
        assert(cs@.skip(i as int).skip(1) =~= cs@.skip(i + 1));
        r = r + cs[i] as u16;
    }
    assert(cs@.skip(0) =~= cs@);
    r
}

/// Every (degree, mask) pair of family `n` whose rational element is
/// evaluated: the masks of subsets of `{2, ..., n}` from the largest down,
/// and for each the degrees `d1` with `d1 + w` in the top window of the total
/// degree, where `w` is the subset's sum.
pub fn schedule(n: u8) -> (r: Vec<(u16, u32)>)
    requires
        1 <= n <= 32,
    ensures
        r@ == schedule_spec(n as nat),
{
    assert((n as u16) * (n as u16 + 1) <= 32 * 33) by (nonlinear_arith)
        requires
            n <= 32,
    ;
    let d: u16 = (n as u16) * (n as u16 + 1) / 2;
    let top: u32 = 1u32 << (n - 1) as u32;
    let mut r: Vec<(u16, u32)> = Vec::new();
    let mut mask: u32 = top;
    assert(d <= 528);
    assert(d == total_degree(n as nat));
    while mask > 0
        invariant
            1 <= n <= 32,
            d == total_degree(n as nat),
            d <= 528,
            top == pow2_u32((n - 1) as nat),
            mask <= top,
            r@ == rows_down(n as nat, top as nat, mask as nat),
        decreases mask,
    {
        mask = mask - 1;
        let cs = members_of(mask, n);
        proof {
            lemma_members_sum(mask, 2, n as nat);
            lemma_members_len(mask, 2, n as nat);
        }
        let w = sum_of(&cs);
        let floor: u16 = if d >= 4 {
            d - 4
        } else {
            0
        };
        let lo: u16 = if floor >= w {
            floor - w
        } else {
            0
        };
        let hi: u16 = d - w;
        let ghost row = rows(n as nat, mask);
        let ghost before = r@;
        assert(row.len() == hi - lo + 1);
        let mut d1: u16 = lo;
        while d1 <= hi
            invariant
                lo <= d1 <= hi + 1,
                hi < 1000,
                row.len() == hi - lo + 1,
                row == rows(n as nat, mask),
                forall|j: int| 0 <= j < row.len() ==> #[trigger] row[j] == ((lo + j) as u16, mask),
                r@ == before + row.take(d1 - lo),
            decreases hi + 1 - d1,
        {
            r.push((d1, mask));
            assert(row.take(d1 + 1 - lo) =~= row.take(d1 - lo).push(row[d1 - lo]));
            d1 = d1 + 1;
        }
        assert(row.take(d1 - lo) =~= row);
        assert(rows_down(n as nat, top as nat, mask as nat) == before + row);
    }
    r
}

/// A subset of `{from, ..., n}` has at most `n + 1 - from` members.
proof fn lemma_members_len(mask: u32, from: nat, n: nat)
    requires
        2 <= from <= n + 1,
        n <= 32,
    ensures
        members_from(mask, from, n).len() <= n + 1 - from,
    decreases n + 1 - from,
{
    if from <= n {
        lemma_members_len(mask, from + 1, n);
    } else {
        assert(members_from(mask, from, n) =~= Seq::<u8>::empty());
    }
}

} // verus!
