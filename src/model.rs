//! The mathematical model of the multiplication: elements as maps from basis
//! elements to residues modulo `2^t`, and products defined by recursion on
//! monomials, independent of any memo table or iteration order.
use crate::basis::{
    BasisElement, gen_weight, lemma_weight_gen, lemma_weight_upto_nonneg, present, weight,
    with_gen, without_gen,
};
use crate::coeff::{lemma_pow2_le_30, lemma_pow2_pos};
use crate::torsion::pow2;
use vstd::arithmetic::div_mod::{lemma_add_mod_noop, lemma_mod_bound};
use vstd::prelude::*;

verus! {

/// The coefficient of `x` in `e`; zero where `x` is absent.
pub open spec fn coef(e: Map<BasisElement, i32>, x: BasisElement) -> int {
    if e.contains_key(x) {
        e[x] as int
    } else {
        0
    }
}

/// `acc + c * p`, each coefficient reduced into `[0, 2^t)`, zero terms
/// dropped.
pub open spec fn add_scaled(
    acc: Map<BasisElement, i32>,
    p: Map<BasisElement, i32>,
    c: int,
    t: nat,
) -> Map<BasisElement, i32> {
    Map::new(
        |x: BasisElement| (coef(acc, x) + c * coef(p, x)) % (pow2(t) as int) != 0,
        |x: BasisElement| ((coef(acc, x) + c * coef(p, x)) % (pow2(t) as int)) as i32,
    )
}

/// `s` lists the entries of `e`, each exactly once.
pub open spec fn is_enumeration(s: Seq<(BasisElement, i32)>, e: Map<BasisElement, i32>) -> bool {
    &&& forall|i: int| 0 <= i < s.len() ==> #[trigger] e.contains_key(s[i].0) && e[s[i].0] == s[i].1
    &&& forall|i: int, j: int| 0 <= i < j < s.len() ==> #[trigger] s[i].0 != #[trigger] s[j].0
    &&& forall|k: BasisElement| #[trigger]
        e.contains_key(k) ==> exists|i: int| 0 <= i < s.len() && #[trigger] s[i].0 == k
}

/// Some listing of the entries of `e`; every sum over it is the same for
/// every listing (`lemma_fold_enumerations`).
pub open spec fn entries(e: Map<BasisElement, i32>) -> Seq<(BasisElement, i32)> {
    choose|s: Seq<(BasisElement, i32)>| is_enumeration(s, e)
}

/// `sum_i c_i * f(b_i)` over the terms `(b_i, c_i)` of `s`, reduced.
pub open spec fn fold_scaled(
    s: Seq<(BasisElement, i32)>,
    f: spec_fn(BasisElement) -> Map<BasisElement, i32>,
    t: nat,
) -> Map<BasisElement, i32>
    decreases s.len(),
{
    if s.len() == 0 {
        Map::empty()
    } else {
        add_scaled(fold_scaled(s.drop_last(), f, t), f(s.last().0), s.last().1 as int, t)
    }
}

/// A map whose coefficients are all non-zero residues.
pub open spec fn residues(e: Map<BasisElement, i32>, t: nat) -> bool {
    forall|x: BasisElement| #[trigger] e.contains_key(x) ==> 0 < e[x] < pow2(t)
}

/// The coefficients of `acc + c * p`.
pub proof fn lemma_coef_add_scaled(
    acc: Map<BasisElement, i32>,
    p: Map<BasisElement, i32>,
    c: int,
    t: nat,
    x: BasisElement,
)
    requires
        t <= 30,
    ensures
        coef(add_scaled(acc, p, c, t), x) == (coef(acc, x) + c * coef(p, x)) % (pow2(t) as int),
        residues(add_scaled(acc, p, c, t), t),
{
    lemma_pow2_le_30(t);
    lemma_pow2_pos(t);
    let m = pow2(t) as int;
    lemma_mod_bound(coef(acc, x) + c * coef(p, x), m);
    assert forall|y: BasisElement| #[trigger]
        add_scaled(acc, p, c, t).contains_key(y) implies 0 < add_scaled(acc, p, c, t)[y] < pow2(
        t,
    ) by {
        lemma_mod_bound(coef(acc, y) + c * coef(p, y), m);
    }
}

/// A sum `acc + c * p` holds only non-zero residues.
pub proof fn lemma_add_scaled_residues(
    acc: Map<BasisElement, i32>,
    p: Map<BasisElement, i32>,
    c: int,
    t: nat,
)
    requires
        t <= 30,
    ensures
        residues(add_scaled(acc, p, c, t), t),
{
    lemma_coef_add_scaled(acc, p, c, t, BasisElement { v1: 0, v2: 0, zs: 0 });
}

/// Two maps of non-zero coefficients with the same coefficients are equal.
pub proof fn lemma_same_coefs(a: Map<BasisElement, i32>, b: Map<BasisElement, i32>, t: nat)
    requires
        residues(a, t),
        residues(b, t),
        forall|x: BasisElement| #[trigger] coef(a, x) == coef(b, x),
    ensures
        a == b,
{
    assert forall|x: BasisElement| a.contains_key(x) <==> b.contains_key(x) by {
        assert(coef(a, x) == coef(b, x));
    }
    assert forall|x: BasisElement| a.contains_key(x) implies a[x] == b[x] by {
        assert(coef(a, x) == coef(b, x));
    }
    assert(a =~= b);
}

pub proof fn lemma_fold_residues(
    s: Seq<(BasisElement, i32)>,
    f: spec_fn(BasisElement) -> Map<BasisElement, i32>,
    t: nat,
)
    requires
        t <= 30,
    ensures
        residues(fold_scaled(s, f, t), t),
{
    if s.len() > 0 {
        lemma_add_scaled_residues(fold_scaled(s.drop_last(), f, t), f(s.last().0), s.last().1 as int, t);
    }
}

/// Adding two scaled terms in either order gives the same result.
proof fn lemma_add_scaled_commute(
    z: Map<BasisElement, i32>,
    p: Map<BasisElement, i32>,
    c1: int,
    q: Map<BasisElement, i32>,
    c2: int,
    t: nat,
)
    requires
        t <= 30,
    ensures
        add_scaled(add_scaled(z, p, c1, t), q, c2, t) == add_scaled(add_scaled(z, q, c2, t), p, c1, t),
{
    let m = pow2(t) as int;
    lemma_pow2_pos(t);
    let a = add_scaled(add_scaled(z, p, c1, t), q, c2, t);
    let b = add_scaled(add_scaled(z, q, c2, t), p, c1, t);
    assert forall|x: BasisElement| #[trigger] coef(a, x) == coef(b, x) by {
        lemma_coef_add_scaled(z, p, c1, t, x);
        lemma_coef_add_scaled(z, q, c2, t, x);
        lemma_coef_add_scaled(add_scaled(z, p, c1, t), q, c2, t, x);
        lemma_coef_add_scaled(add_scaled(z, q, c2, t), p, c1, t, x);
        let u = coef(z, x) + c1 * coef(p, x);
        let v = coef(z, x) + c2 * coef(q, x);
        lemma_add_mod_noop(u, c2 * coef(q, x), m);
        lemma_add_mod_noop(v, c1 * coef(p, x), m);
        lemma_mod_mod_twice(u, m);
        lemma_mod_mod_twice(v, m);
        lemma_add_mod_noop(u % m, c2 * coef(q, x), m);
        lemma_add_mod_noop(v % m, c1 * coef(p, x), m);
        assert(u + c2 * coef(q, x) == v + c1 * coef(p, x));
    }
    lemma_add_scaled_residues(add_scaled(z, p, c1, t), q, c2, t);
    lemma_add_scaled_residues(add_scaled(z, q, c2, t), p, c1, t);
    lemma_same_coefs(a, b, t);
}

proof fn lemma_mod_mod_twice(x: int, m: int)
    requires
        m > 0,
    ensures
        (x % m) % m == x % m,
{
    lemma_mod_bound(x, m);
    vstd::arithmetic::div_mod::lemma_small_mod((x % m) as nat, m as nat);
}

/// Taking the term at `i` out and adding it last gives the same sum.
proof fn lemma_fold_move_to_end(
    s: Seq<(BasisElement, i32)>,
    i: int,
    f: spec_fn(BasisElement) -> Map<BasisElement, i32>,
    t: nat,
)
    requires
        0 <= i < s.len(),
        t <= 30,
    ensures
        fold_scaled(s, f, t) == add_scaled(fold_scaled(s.remove(i), f, t), f(s[i].0), s[i].1 as int, t),
    decreases s.len(),
{
    if i == s.len() - 1 {
        assert(s.remove(i) =~= s.drop_last());
    } else {
        let y = s.last();
        let x = s[i];
        lemma_fold_move_to_end(s.drop_last(), i, f, t);
        let z = fold_scaled(s.drop_last().remove(i), f, t);
        lemma_add_scaled_commute(z, f(x.0), x.1 as int, f(y.0), y.1 as int, t);
        assert(s.remove(i).drop_last() =~= s.drop_last().remove(i));
        assert(s.remove(i).last() == y);
    }
}

/// Every listing of the entries of `e` gives the same sum.
pub proof fn lemma_fold_enumerations(
    s1: Seq<(BasisElement, i32)>,
    s2: Seq<(BasisElement, i32)>,
    e: Map<BasisElement, i32>,
    f: spec_fn(BasisElement) -> Map<BasisElement, i32>,
    t: nat,
)
    requires
        is_enumeration(s1, e),
        is_enumeration(s2, e),
        t <= 30,
    ensures
        fold_scaled(s1, f, t) == fold_scaled(s2, f, t),
    decreases s1.len(),
{
    if s1.len() == 0 {
        if s2.len() > 0 {
            assert(e.contains_key(s2[0].0));
        }
        assert(s2 =~= s1);
    } else {
        let x = s1.last();
        assert(e.contains_key(s1[s1.len() - 1].0));
        let i = choose|i: int| 0 <= i < s2.len() && #[trigger] s2[i].0 == x.0;
        assert(e.contains_key(s2[i].0));
        assert(s2[i] == x);
        let e2 = e.remove(x.0);
        let r1 = s1.drop_last();
        let r2 = s2.remove(i);
        assert(r2.len() == s2.len() - 1);
        assert forall|l: int| 0 <= l < r2.len() implies #[trigger] r2[l] == if l < i {
            s2[l]
        } else {
            s2[l + 1]
        } by {}
        assert forall|l: int| 0 <= l < r1.len() implies #[trigger] e2.contains_key(r1[l].0)
            && e2[r1[l].0] == r1[l].1 by {
            assert(r1[l] == s1[l]);
            assert(e.contains_key(s1[l].0));
            assert(s1[l].0 != s1[s1.len() - 1].0);
        }
        assert forall|a: int, b: int| 0 <= a < b < r1.len() implies #[trigger] r1[a].0
            != #[trigger] r1[b].0 by {
            assert(r1[a] == s1[a] && r1[b] == s1[b]);
        }
        assert forall|k: BasisElement| #[trigger] e2.contains_key(k) implies exists|l: int|
            0 <= l < r1.len() && #[trigger] r1[l].0 == k by {
            assert(e.contains_key(k));
            let l = choose|l: int| 0 <= l < s1.len() && #[trigger] s1[l].0 == k;
            assert(l != s1.len() - 1);
            assert(r1[l] == s1[l]);
        }
        assert forall|l: int| 0 <= l < r2.len() implies #[trigger] e2.contains_key(r2[l].0)
            && e2[r2[l].0] == r2[l].1 by {
            let o = if l < i {
                l
            } else {
                l + 1
            };
            assert(r2[l] == s2[o]);
            assert(e.contains_key(s2[o].0));
            assert(s2[o].0 != s2[i].0);
        }
        assert forall|a: int, b: int| 0 <= a < b < r2.len() implies #[trigger] r2[a].0
            != #[trigger] r2[b].0 by {
            let oa = if a < i {
                a
            } else {
                a + 1
            };
            let ob = if b < i {
                b
            } else {
                b + 1
            };
            assert(r2[a] == s2[oa] && r2[b] == s2[ob]);
        }
        assert forall|k: BasisElement| #[trigger] e2.contains_key(k) implies exists|l: int|
            0 <= l < r2.len() && #[trigger] r2[l].0 == k by {
            assert(e.contains_key(k));
            let o = choose|o: int| 0 <= o < s2.len() && #[trigger] s2[o].0 == k;
            assert(o != i);
            let l = if o < i {
                o
            } else {
                o - 1
            };
            assert(r2[l] == s2[o]);
        }
        lemma_fold_enumerations(r1, r2, e2, f, t);
        lemma_fold_move_to_end(s2, i, f, t);
    }
}

/// The lowest generator of `zs` with index at least `i`; `33` if none.
pub open spec fn lowest_from(zs: u32, i: nat) -> nat
    decreases 33 - i,
{
    if i >= 33 || present(zs, i) {
        i
    } else {
        lowest_from(zs, i + 1)
    }
}

/// The lowest exterior generator of a mask.
pub open spec fn lowest(zs: u32) -> nat {
    lowest_from(zs, 1)
}

/// The monomial `m` with generator `k` added or removed.
pub open spec fn with_z(m: BasisElement, k: nat) -> BasisElement {
    BasisElement { v1: m.v1, v2: m.v2, zs: with_gen(m.zs, k) }
}

pub open spec fn without_z(m: BasisElement, k: nat) -> BasisElement {
    BasisElement { v1: m.v1, v2: m.v2, zs: without_gen(m.zs, k) }
}

/// The element `1 * b`, reduced modulo `2^t`.
pub open spec fn unit_of(b: BasisElement, t: nat) -> Map<BasisElement, i32> {
    if t > 0 {
        map![b => 1i32]
    } else {
        Map::empty()
    }
}

/// `m * z_k` in the algebra whose relations are `z_k^2 = squares[k - 1]`:
/// `m` with `z_k` added when `z_k` is not in `m`, and otherwise the relation
/// for `z_k^2` times `m` without `z_k`.
pub open spec fn times_gen(
    squares: Seq<Map<BasisElement, i32>>,
    t: nat,
    bound: nat,
    m: BasisElement,
    k: nat,
) -> Map<BasisElement, i32>
    decreases weight(m.zs) + gen_weight(k), 0int, 0int, 0int,
{
    if 1 <= k <= 32 && k <= squares.len() && present(m.zs, k) {
        proof {
            lemma_weight_gen(m.zs, k);
            lemma_weight_upto_nonneg(without_gen(m.zs, k), 32);
            assert(k * k <= 32 * 32) by (nonlinear_arith)
                requires
                    k <= 32,
            ;
        }
        terms_times(
            squares,
            t,
            bound,
            entries(squares[k - 1]),
            without_z(m, k),
            2 * gen_weight(k) - 1,
        )
    } else {
        unit_of(with_z(m, k), t)
    }
}

/// `a * b`: the generators of `b` are brought in lowest first, and once none
/// is left the ordinary exponents add up, or give zero beyond the truncation
/// `v1 + 3 v2 <= bound`.
pub open spec fn times_monomial(
    squares: Seq<Map<BasisElement, i32>>,
    t: nat,
    bound: nat,
    a: BasisElement,
    b: BasisElement,
) -> Map<BasisElement, i32>
    decreases weight(a.zs) + weight(b.zs), b.zs as int + 1, 0int, 0int,
{
    if b.zs == 0 {
        if a.v1 + b.v1 + 3 * (a.v2 + b.v2) <= bound {
            unit_of(
                BasisElement { v1: (a.v1 + b.v1) as u8, v2: (a.v2 + b.v2) as u8, zs: a.zs },
                t,
            )
        } else {
            Map::empty()
        }
    } else {
        let j = lowest(b.zs);
        proof {
            lemma_lowest(b.zs);
            lemma_weight_gen(b.zs, j);
            lemma_weight_upto_nonneg(a.zs, 32);
            lemma_weight_upto_nonneg(without_gen(b.zs, j), 32);
            assert(j * j <= 32 * 32) by (nonlinear_arith)
                requires
                    j <= 32,
            ;
        }
        terms_times(
            squares,
            t,
            bound,
            entries(times_gen(squares, t, bound, a, j)),
            without_z(b, j),
            weight(a.zs) + gen_weight(j),
        )
    }
}

/// `sum_i c_i * (b_i * m)` over the terms of `s` whose monomials weigh at
/// most `hi`; the products that the engine forms never exceed that weight.
pub open spec fn terms_times(
    squares: Seq<Map<BasisElement, i32>>,
    t: nat,
    bound: nat,
    s: Seq<(BasisElement, i32)>,
    m: BasisElement,
    hi: int,
) -> Map<BasisElement, i32>
    decreases hi + weight(m.zs), m.zs as int + 1, 1int, s.len(),
{
    if s.len() == 0 {
        Map::empty()
    } else {
        let rest = terms_times(squares, t, bound, s.drop_last(), m, hi);
        let b = s.last().0;
        let c = s.last().1 as int;
        proof {
            lemma_weight_upto_nonneg(b.zs, 32);
            lemma_weight_upto_nonneg(m.zs, 32);
        }
        if weight(b.zs) <= hi {
            add_scaled(rest, times_monomial(squares, t, bound, b, m), c, t)
        } else {
            add_scaled(rest, Map::empty(), c, t)
        }
    }
}

proof fn lemma_lowest_from(zs: u32, i: nat)
    requires
        1 <= i <= 32,
        zs >> ((i - 1) as u32) != 0,
    ensures
        1 <= lowest_from(zs, i) <= 32,
        present(zs, lowest_from(zs, i)),
    decreases 33 - i,
{
    let s = (i - 1) as u32;
    if !present(zs, i) {
        assert((zs >> s) != 0 && (zs >> s) & 1u32 != 1u32 && s < 32 ==> s < 31 && (zs >> (s
            + 1)) != 0) by (bit_vector);
        lemma_lowest_from(zs, i + 1);
    }
}

/// The lowest generator of a non-empty mask is one of its generators.
pub proof fn lemma_lowest(zs: u32)
    requires
        zs != 0,
    ensures
        1 <= lowest(zs) <= 32,
        present(zs, lowest(zs)),
{
    assert(zs != 0 ==> zs >> 0u32 != 0) by (bit_vector);
    lemma_lowest_from(zs, 1);
}

/// The summand of `terms_times` for the monomial `b`.
pub open spec fn guarded_times(
    squares: Seq<Map<BasisElement, i32>>,
    t: nat,
    bound: nat,
    m: BasisElement,
    hi: int,
) -> spec_fn(BasisElement) -> Map<BasisElement, i32> {
    |b: BasisElement|
        if weight(b.zs) <= hi {
            times_monomial(squares, t, bound, b, m)
        } else {
            Map::empty()
        }
}

/// `terms_times` is a sum over its terms.
pub proof fn lemma_terms_times_fold(
    squares: Seq<Map<BasisElement, i32>>,
    t: nat,
    bound: nat,
    s: Seq<(BasisElement, i32)>,
    m: BasisElement,
    hi: int,
)
    ensures
        terms_times(squares, t, bound, s, m, hi) == fold_scaled(
            s,
            guarded_times(squares, t, bound, m, hi),
            t,
        ),
    decreases s.len(),
{
    if s.len() > 0 {
        lemma_terms_times_fold(squares, t, bound, s.drop_last(), m, hi);
    }
}

/// `e * m`, summed over the terms of `e`; no monomial weighs more than
/// `32 * 1024`.
pub open spec fn element_times_monomial(
    squares: Seq<Map<BasisElement, i32>>,
    t: nat,
    bound: nat,
    e: Map<BasisElement, i32>,
    m: BasisElement,
) -> Map<BasisElement, i32> {
    terms_times(squares, t, bound, entries(e), m, 32 * 1024int)
}

/// `e * f`: `sum_b f[b] * (e * b)` over the terms of `f`.
pub open spec fn element_times_element(
    squares: Seq<Map<BasisElement, i32>>,
    t: nat,
    bound: nat,
    e: Map<BasisElement, i32>,
    f: Map<BasisElement, i32>,
) -> Map<BasisElement, i32> {
    fold_scaled(
        entries(f),
        |b: BasisElement| element_times_monomial(squares, t, bound, e, b),
        t,
    )
}

} // verus!
