//! Graded elements and the multiplication engine with its relation cache.
use crate::basis::{
    BasisElement, add_gen, gen_weight, lemma_gen_membership, lemma_weight_gen,
    lemma_weight_upto_max, lemma_weight_upto_nonneg, present, remove_gen, has_gen, weight, with_gen, within,
    without_gen,
};
use crate::coeff::{lemma_pow2_pos, reduce};
use crate::relations::{DEGREE_BOUND, relation_table, square_spec};
use crate::fxmap::{FxMap, fx_entries, fx_get, fx_insert, fx_new};
use crate::model::{
    coef, element_times_element, element_times_monomial, entries, fold_scaled,
    guarded_times, is_enumeration, lemma_coef_add_scaled, lemma_fold_enumerations,
    lemma_fold_residues, lemma_same_coefs, lemma_terms_times_fold, lowest,
    lowest_from, residues, terms_times, times_gen, times_monomial, unit_of, with_z, without_z,
};
use crate::torsion::pow2;
use vstd::prelude::*;

verus! {

/// A finite formal sum of basis elements with integer coefficients.
pub type Element = FxMap<i32>;

/// A basis element obeys the degree truncation and uses generators up to `n`.
pub open spec fn basis_ok(b: BasisElement, n: nat, bound: nat) -> bool {
    &&& b.v1 + 3 * b.v2 <= bound
    &&& within(b.zs, n)
}

/// Every basis element of `e` is admissible.
pub open spec fn keys_ok(e: Map<BasisElement, i32>, n: nat, bound: nat) -> bool {
    forall|b: BasisElement| #[trigger] e.contains_key(b) ==> basis_ok(b, n, bound)
}

/// Every basis element of `e` has weight at most `hi`.
pub open spec fn weight_below(e: Map<BasisElement, i32>, hi: int) -> bool {
    forall|b: BasisElement| #[trigger] e.contains_key(b) ==> weight(b.zs) <= hi
}

/// An element as the multiplication engine returns it: admissible basis
/// elements, non-zero coefficients in `[0, 2^t)`.
pub open spec fn elem_ok(e: Map<BasisElement, i32>, n: nat, t: nat, bound: nat) -> bool {
    keys_ok(e, n, bound) && residues(e, t)
}

/// A relation `z_k^2 = e` that the engine can substitute: `e` is reduced and
/// admissible, and each of its monomials weighs less than `z_k * z_k`.
pub open spec fn relation_ok(e: Map<BasisElement, i32>, k: nat, n: nat, t: nat, bound: nat) -> bool {
    &&& elem_ok(e, n, t, bound)
    &&& forall|b: BasisElement| #[trigger] e.contains_key(b) ==> weight(b.zs) < 2 * gen_weight(k)
}

/// A memo table for the products `m * z_k` with `z_k` already in `m`, keyed
/// by `m` with `z_k` removed: each entry is the product that the relations
/// define.
pub open spec fn memo_ok(
    c: Map<BasisElement, Element>,
    squares: Seq<Map<BasisElement, i32>>,
    k: nat,
    n: nat,
    t: nat,
    bound: nat,
) -> bool {
    forall|m: BasisElement| #[trigger]
        c.contains_key(m) ==> {
            &&& !present(m.zs, k)
            &&& basis_ok(m, n, bound)
            &&& elem_ok(c[m]@, n, t, bound)
            &&& weight_below(c[m]@, weight(m.zs) + 2 * gen_weight(k))
            &&& c[m]@ == times_gen(squares, t, bound, with_z(m, k), k)
        }
}

/// Memoisation is transparent: every entry of the memo table of a
/// well-formed algebra is the product `m * z_k` that the relations define, so
/// a lookup returns what the computation without the table returns, and the
/// products never depend on which of them ran before.
pub proof fn lemma_memo_transparent(alg: Algebra, m: BasisElement, k: nat)
    requires
        alg.wf(),
        1 <= k <= alg.n,
        present(m.zs, k),
        alg.memo@[k - 1]@.contains_key(without_z(m, k)),
    ensures
        alg.memo@[k - 1]@[without_z(m, k)]@ == times_gen(
            alg.relations(),
            alg.t as nat,
            alg.bound as nat,
            m,
            k,
        ),
{
    let i = k - 1;
    assert(memo_ok(alg.memo@[i]@, alg.relations(), k, alg.n as nat, alg.t as nat, alg.bound as nat));
    crate::basis::lemma_restore_gen(m.zs, k);
    assert(with_z(without_z(m, k), k) == m);
}

/// The algebra of family `n` with coefficients modulo `2^t`: the relation
/// table `squares[k - 1]` for `z_k^2`, the truncation `v1 + 3 v2 <= bound` and
/// the memo table of relation substitutions.
pub struct Algebra {
    pub n: u8,
    pub t: u8,
    pub bound: u8,
    pub squares: Vec<Element>,
    pub memo: Vec<FxMap<Element>>,
}

impl Algebra {
    /// The algebra of family `n` with coefficients modulo `2^t`, its
    /// relation table built and its memo table empty.
    pub fn new(n: u8, t: u8) -> (r: Algebra)
        requires
            n <= 32,
            t <= 30,
        ensures
            r.wf(),
            r.n == n,
            r.t == t,
            r.bound == DEGREE_BOUND,
            r.relations().len() == n,
            forall|i: int|
                0 <= i < n ==> #[trigger] r.relations()[i] == square_spec((i + 1) as nat, n as nat, t as nat),
            forall|i: int| 0 <= i < n ==> (#[trigger] r.memo@[i])@ == Map::<BasisElement, Element>::empty(),
    {
        let squares = relation_table(n, t);
        let mut memo: Vec<FxMap<Element>> = Vec::new();
        let mut i: u8 = 0;
        while i < n
            invariant
                i <= n,
                memo@.len() == i,
                forall|j: int| 0 <= j < i ==> (#[trigger] memo@[j])@ == Map::<BasisElement, Element>::empty(),
            decreases n - i,
        {
            memo.push(fx_new());
            i = i + 1;
        }
        let r = Algebra { n, t, bound: DEGREE_BOUND, squares, memo };
        assert forall|i: int| 0 <= i < n implies memo_ok(
            #[trigger] r.memo@[i]@,
            r.relations(),
            (i + 1) as nat,
            n as nat,
            t as nat,
            DEGREE_BOUND as nat,
        ) by {
            assert(r.memo@[i]@ == Map::<BasisElement, Element>::empty());
        }
        r
    }

    pub open spec fn wf(&self) -> bool {
        &&& self.n <= 32
        &&& self.t <= 30
        &&& self.squares.len() == self.n
        &&& self.memo.len() == self.n
        &&& forall|i: int|
            0 <= i < self.n as int ==> relation_ok(
                #[trigger] self.squares@[i]@,
                (i + 1) as nat,
                self.n as nat,
                self.t as nat,
                self.bound as nat,
            )
        &&& forall|i: int|
            0 <= i < self.n as int ==> memo_ok(
                #[trigger] self.memo@[i]@,
                self.relations(),
                (i + 1) as nat,
                self.n as nat,
                self.t as nat,
                self.bound as nat,
            )
    }

    /// Same family, modulus, truncation and relations.
    pub open spec fn same_rules(&self, other: &Algebra) -> bool {
        &&& self.n == other.n
        &&& self.t == other.t
        &&& self.bound == other.bound
        &&& self.relations() == other.relations()
    }

    /// The relations `z_k^2 = relations()[k - 1]`.
    pub open spec fn relations(&self) -> Seq<Map<BasisElement, i32>> {
        self.squares@.map_values(|e: Element| e@)
    }

    pub open spec fn ok(&self, e: Map<BasisElement, i32>) -> bool {
        elem_ok(e, self.n as nat, self.t as nat, self.bound as nat)
    }

    pub open spec fn admissible(&self, b: BasisElement) -> bool {
        basis_ok(b, self.n as nat, self.bound as nat)
    }

    /// The element `1 * b`.
    fn unit(&self, b: BasisElement) -> (r: Element)
        requires
            self.wf(),
        ensures
            r@ == unit_of(b, self.t as nat),
    {
        let mut r = fx_new();
        if self.t > 0 {
            fx_insert(&mut r, b, 1);
            assert(r@ =~= map![b => 1i32]);
        } else {
            assert(r@ =~= Map::empty());
        }
        r
    }

    /// The product of monomial `m` with exterior generator `z_k`. Without
    /// `z_k` in `m` this is `m * z_k`; otherwise the relation for `z_k^2` is
    /// multiplied by `m` with `z_k` removed, and the result memoised.
    pub fn multiply_monomial_z(&mut self, m: BasisElement, k: u8) -> (r: Element)
        requires
            old(self).wf(),
            old(self).admissible(m),
            1 <= k <= old(self).n,
        ensures
            final(self).wf(),
            final(self).same_rules(old(self)),
            final(self).ok(r@),
            weight_below(r@, weight(m.zs) + gen_weight(k as nat)),
            r@ == times_gen(
                old(self).relations(),
                old(self).t as nat,
                old(self).bound as nat,
                m,
                k as nat,
            ),
        decreases weight(m.zs) + gen_weight(k as nat), 0int, 0int,
    {
        proof {
            lemma_weight_gen(m.zs, k as nat);
            lemma_gen_membership(m.zs, k as nat);
            lemma_weight_upto_nonneg(m.zs, 32);
            lemma_weight_upto_nonneg(without_gen(m.zs, k as nat), 32);
            lemma_weight_upto_nonneg(with_gen(m.zs, k as nat), 32);
            assert(k * k <= 32 * 32) by (nonlinear_arith)
                requires
                    k <= 32,
            ;
        }
        if !has_gen(m.zs, k) {
            let b = BasisElement { v1: m.v1, v2: m.v2, zs: add_gen(m.zs, k) };
            proof {
                lemma_pow2_pos(self.t as nat);
                if self.t > 0 {
                    assert(pow2(self.t as nat) >= 2) by {
                        lemma_pow2_pos((self.t - 1) as nat);
                    }
                }
            }
            return self.unit(b);
        }
        let stripped = BasisElement { v1: m.v1, v2: m.v2, zs: remove_gen(m.zs, k) };
        let idx = (k - 1) as usize;
        let hit = fx_get(&self.memo[idx], &stripped);
        if let Some(v) = hit {
            assert(memo_ok(self.memo@[idx as int]@, self.relations(), k as nat, self.n as nat, self.t as nat, self.bound as nat));
            proof {
                crate::basis::lemma_restore_gen(m.zs, k as nat);
                assert(with_z(stripped, k as nat) == m);
            }
            return v.clone();
        }
        let square = self.squares[idx].clone();
        assert(relation_ok(self.squares@[idx as int]@, k as nat, self.n as nat, self.t as nat, self.bound as nat));
        assert(square@ == self.relations()[idx as int]);
        let r = self.element_times_monomial(&square, stripped, Ghost(2 * gen_weight(k as nat) - 1));
        proof {
            crate::basis::lemma_restore_gen(m.zs, k as nat);
            assert(with_z(stripped, k as nat) == m);
            assert(stripped == without_z(m, k as nat));
        }
        let saved = r.clone();
        let ghost before = self.memo@;
        fx_insert(&mut self.memo[idx], stripped, saved);
        proof {
            assert forall|i: int| 0 <= i < self.n as int implies memo_ok(
                #[trigger] self.memo@[i]@,
                self.relations(),
                (i + 1) as nat,
                self.n as nat,
                old(self).t as nat,
                self.bound as nat,
            ) by {
                if i != idx {
                    assert(self.memo@[i] == before[i]);
                }
            }
        }
        r
    }

    /// The lowest exterior generator of a non-empty mask.
    fn lowest_gen(zs: u32) -> (k: u8)
        requires
            zs != 0,
        ensures
            1 <= k <= 32,
            present(zs, k as nat),
            k == lowest(zs),
    {
        let mut k: u8 = 1;
        assert(zs != 0 ==> zs >> 0u32 != 0) by (bit_vector);
        while !has_gen(zs, k)
            invariant
                1 <= k <= 32,
                zs >> ((k - 1) as u32) != 0,
                lowest(zs) == lowest_from(zs, k as nat),
            decreases 32 - k,
        {
            let s = (k - 1) as u32;
            assert((zs >> s) != 0 && (zs >> s) & 1u32 != 1u32 && s < 32 ==> s < 31 && (zs >> (s
                + 1)) != 0) by (bit_vector);
            k = k + 1;
        }
        k
    }

    /// The product of two monomials. Exterior generators of `b` are brought
    /// in one at a time, lowest index first; once none is left the ordinary
    /// exponents add up, and a sum that breaks the truncation gives zero.
    pub fn multiply_monomial_monomial(&mut self, a: BasisElement, b: BasisElement) -> (r: Element)
        requires
            old(self).wf(),
            old(self).admissible(a),
            old(self).admissible(b),
        ensures
            final(self).wf(),
            final(self).same_rules(old(self)),
            final(self).ok(r@),
            weight_below(r@, weight(a.zs) + weight(b.zs)),
            r@ == times_monomial(
                old(self).relations(),
                old(self).t as nat,
                old(self).bound as nat,
                a,
                b,
            ),
        decreases weight(a.zs) + weight(b.zs), b.zs as int + 1, 0int,
    {
        proof {
            lemma_weight_upto_nonneg(a.zs, 32);
            lemma_weight_upto_nonneg(b.zs, 32);
        }
        if b.zs == 0 {
            let v1 = a.v1 as u16 + b.v1 as u16;
            let v2 = a.v2 as u16 + b.v2 as u16;
            if v1 + 3 * v2 > self.bound as u16 {
                let r = fx_new();
                return r;
            }
            let c = BasisElement { v1: v1 as u8, v2: v2 as u8, zs: a.zs };
            proof {
                lemma_pow2_pos(self.t as nat);
                if self.t > 0 {
                    assert(pow2(self.t as nat) >= 2) by {
                        lemma_pow2_pos((self.t - 1) as nat);
                    }
                }
            }
            return self.unit(c);
        }
        let k = Self::lowest_gen(b.zs);
        proof {
            assert(k * k <= 32 * 32) by (nonlinear_arith)
                requires
                    k <= 32,
            ;
            lemma_weight_gen(b.zs, k as nat);
            lemma_gen_membership(b.zs, k as nat);
            lemma_weight_upto_nonneg(without_gen(b.zs, k as nat), 32);
            assert(within(b.zs, self.n as nat));
        }
        let first = self.multiply_monomial_z(a, k);
        let rest = BasisElement { v1: b.v1, v2: b.v2, zs: remove_gen(b.zs, k) };
        assert(within(rest.zs, self.n as nat));
        self.element_times_monomial(&first, rest, Ghost(weight(a.zs) + gen_weight(k as nat)))
    }

    /// The product of an element with a monomial, coefficients summed and
    /// reduced modulo `2^t`, zero terms dropped. The coefficients of `e` may
    /// be any integers.
    pub fn multiply_element_monomial(&mut self, e: &Element, m: BasisElement) -> (r: Element)
        requires
            old(self).wf(),
            keys_ok(e@, old(self).n as nat, old(self).bound as nat),
            old(self).admissible(m),
        ensures
            final(self).wf(),
            final(self).same_rules(old(self)),
            final(self).ok(r@),
            r@ == element_times_monomial(
                old(self).relations(),
                old(self).t as nat,
                old(self).bound as nat,
                e@,
                m,
            ),
    {
        proof {
            assert forall|b: BasisElement| #[trigger] e@.contains_key(b) implies weight(b.zs) <= 32 * 1024 by {
                lemma_weight_upto_max(b.zs, 32);
            }
        }
        self.element_times_monomial(e, m, Ghost(32 * 1024int))
    }

    /// The product of an element whose monomials weigh at most `hi` with a
    /// monomial.
    fn element_times_monomial(&mut self, e: &Element, m: BasisElement, Ghost(hi): Ghost<int>) -> (r: Element)
        requires
            old(self).wf(),
            keys_ok(e@, old(self).n as nat, old(self).bound as nat),
            weight_below(e@, hi),
            0 <= hi,
            old(self).admissible(m),
        ensures
            final(self).wf(),
            final(self).same_rules(old(self)),
            final(self).ok(r@),
            weight_below(r@, hi + weight(m.zs)),
            r@ == terms_times(
                old(self).relations(),
                old(self).t as nat,
                old(self).bound as nat,
                entries(e@),
                m,
                hi,
            ),
        decreases hi + weight(m.zs), m.zs as int + 1, 1int,
    {
        proof {
            lemma_weight_upto_nonneg(m.zs, 32);
        }
        let ghost rel = self.relations();
        let ghost t = self.t as nat;
        let ghost bound = self.bound as nat;
        let terms = fx_entries(e);
        let mut acc: Element = fx_new();
        let mut i: usize = 0;
        while i < terms.len()
            invariant
                self.wf(),
                self.same_rules(old(self)),
                rel == self.relations(),
                t == self.t,
                bound == self.bound,
                0 <= i <= terms@.len(),
                is_enumeration(terms@, e@),
                keys_ok(e@, self.n as nat, self.bound as nat),
                weight_below(e@, hi),
                0 <= hi,
                0 <= weight(m.zs),
                basis_ok(m, self.n as nat, self.bound as nat),
                self.partial(acc@),
                weight_below(acc@, hi + weight(m.zs)),
                forall|x: BasisElement| #[trigger] coef(acc@, x) == coef(
                    terms_times(rel, t, bound, terms@.take(i as int), m, hi),
                    x,
                ),
            decreases terms@.len() - i,
        {
            let (a, ca) = terms[i];
            proof {
                assert(e@.contains_key(terms@[i as int].0));
                assert(weight(a.zs) <= hi);
                lemma_weight_upto_nonneg(a.zs, 32);
            }
            let product = self.multiply_monomial_monomial(a, m);
            let ghost before = acc@;
            self.accumulate(&mut acc, &product, ca, Ghost(hi + weight(m.zs)));
            proof {
                let s = terms@.take(i + 1);
                assert(s.drop_last() =~= terms@.take(i as int));
                assert(s.last() == terms@[i as int]);
                assert forall|x: BasisElement| #[trigger] coef(acc@, x) == coef(
                    terms_times(rel, t, bound, s, m, hi),
                    x,
                ) by {
                    lemma_coef_add_scaled(
                        terms_times(rel, t, bound, terms@.take(i as int), m, hi),
                        product@,
                        ca as int,
                        t,
                        x,
                    );
                }
            }
            i = i + 1;
        }
        let r = self.nonzero(&acc, Ghost(hi + weight(m.zs)));
        proof {
            assert(terms@.take(terms@.len() as int) =~= terms@);
            let f = guarded_times(rel, t, bound, m, hi);
            lemma_terms_times_fold(rel, t, bound, terms@, m, hi);
            lemma_terms_times_fold(rel, t, bound, entries(e@), m, hi);
            lemma_fold_enumerations(terms@, entries(e@), e@, f, t);
            lemma_fold_residues(terms@, f, t);
            lemma_same_coefs(r@, terms_times(rel, t, bound, terms@, m, hi), t);
        }
        r
    }

    /// Coefficients in `[0, 2^t)`, zero allowed, admissible basis elements.
    pub open spec fn partial(&self, e: Map<BasisElement, i32>) -> bool {
        &&& keys_ok(e, self.n as nat, self.bound as nat)
        &&& forall|b: BasisElement| #[trigger] e.contains_key(b) ==> 0 <= e[b] < pow2(self.t as nat)
    }

    /// Adds `c * part` into `acc`, each coefficient reduced modulo `2^t`.
    fn accumulate(&self, acc: &mut Element, part: &Element, c: i32, Ghost(hi): Ghost<int>)
        requires
            self.wf(),
            self.partial(old(acc)@),
            weight_below(old(acc)@, hi),
            self.ok(part@),
            weight_below(part@, hi),
        ensures
            self.partial(final(acc)@),
            weight_below(final(acc)@, hi),
            forall|x: BasisElement| #[trigger] coef(final(acc)@, x) == (coef(old(acc)@, x) + c * coef(part@, x)) % (pow2(self.t as nat) as int),
    {
        let ghost md = pow2(self.t as nat) as int;
        let ghost start = acc@;
        proof {
            crate::coeff::lemma_pow2_pos(self.t as nat);
        }
        let parts = fx_entries(part);
        let mut j: usize = 0;
        while j < parts.len()
            invariant
                self.wf(),
                md == pow2(self.t as nat),
                md >= 1,
                0 <= j <= parts@.len(),
                is_enumeration(parts@, part@),
                self.ok(part@),
                weight_below(part@, hi),
                self.partial(start),
                self.partial(acc@),
                weight_below(acc@, hi),
                forall|x: BasisElement| #[trigger] coef(acc@, x) == if exists|l: int| 0 <= l < j && #[trigger] parts@[l].0 == x {
                    (coef(start, x) + c * coef(part@, x)) % md
                } else {
                    coef(start, x)
                },
            decreases parts@.len() - j,
        {
            let (x, cx) = parts[j];
            assert(part@.contains_key(parts@[j as int].0));
            let prev: i64 = match fx_get(acc, &x) {
                Some(v) => *v as i64,
                None => 0,
            };
            proof {
                crate::coeff::lemma_pow2_le_30(self.t as nat);
                assert(-0x8000_0000 * 0x4000_0000 <= (c as int) * (cx as int) <= 0x8000_0000 * 0x4000_0000) by (nonlinear_arith)
                    requires
                        -0x8000_0000 <= c < 0x8000_0000,
                        0 < cx <= 0x4000_0000,
                ;
                assert(!exists|l: int| 0 <= l < j && #[trigger] parts@[l].0 == x) by {
                    if exists|l: int| 0 <= l < j && #[trigger] parts@[l].0 == x {
                        let l = choose|l: int| 0 <= l < j && #[trigger] parts@[l].0 == x;
                        assert(parts@[l].0 != parts@[j as int].0);
                    }
                }
                assert(prev == coef(acc@, x));
                assert(coef(acc@, x) == coef(start, x));
            }
            let v = reduce(prev + (c as i64) * (cx as i64), self.t);
            let ghost mid = acc@;
            fx_insert(acc, x, v as i32);
            proof {
                assert forall|y: BasisElement| #[trigger] coef(acc@, y) == if exists|l: int| 0 <= l < j + 1 && #[trigger] parts@[l].0 == y {
                    (coef(start, y) + c * coef(part@, y)) % md
                } else {
                    coef(start, y)
                } by {
                    if y == x {
                        assert(parts@[j as int].0 == y);
                    } else {
                        assert(coef(acc@, y) == coef(mid, y));
                        if exists|l: int| 0 <= l < j + 1 && #[trigger] parts@[l].0 == y {
                            let l = choose|l: int| 0 <= l < j + 1 && #[trigger] parts@[l].0 == y;
                            assert(l != j);
                        }
                    }
                }
            }
            j = j + 1;
        }
        proof {
            assert forall|x: BasisElement| #[trigger] coef(acc@, x) == (coef(start, x) + c * coef(part@, x)) % md by {
                if part@.contains_key(x) {
                    let l = choose|l: int| 0 <= l < parts@.len() && #[trigger] parts@[l].0 == x;
                    assert(parts@[l].0 == x);
                } else {
                    if exists|l: int| 0 <= l < parts@.len() && #[trigger] parts@[l].0 == x {
                        let l = choose|l: int| 0 <= l < parts@.len() && #[trigger] parts@[l].0 == x;
                        assert(part@.contains_key(parts@[l].0));
                    }
                    let v = coef(start, x);
                    assert(0 <= v < md);
                    vstd::arithmetic::div_mod::lemma_fundamental_div_mod_converse(v, md, 0, v);
                    assert(coef(start, x) % md == coef(start, x));
                }
            }
        }
    }

    /// The terms of `acc` with a non-zero coefficient.
    fn nonzero(&self, acc: &Element, Ghost(hi): Ghost<int>) -> (r: Element)
        requires
            self.wf(),
            self.partial(acc@),
            weight_below(acc@, hi),
        ensures
            self.ok(r@),
            weight_below(r@, hi),
            residues(r@, self.t as nat),
            forall|x: BasisElement| #[trigger] coef(r@, x) == coef(acc@, x),
    {
        let sums = fx_entries(acc);
        let mut r: Element = fx_new();
        let mut i: usize = 0;
        while i < sums.len()
            invariant
                0 <= i <= sums@.len(),
                is_enumeration(sums@, acc@),
                self.partial(acc@),
                weight_below(acc@, hi),
                self.ok(r@),
                weight_below(r@, hi),
                forall|x: BasisElement| #[trigger] coef(r@, x) == if exists|l: int| 0 <= l < i && #[trigger] sums@[l].0 == x {
                    coef(acc@, x)
                } else {
                    0
                },
            decreases sums@.len() - i,
        {
            let (x, c) = sums[i];
            assert(acc@.contains_key(sums@[i as int].0));
            let ghost mid = r@;
            if c != 0 {
                fx_insert(&mut r, x, c);
            }
            proof {
                assert forall|y: BasisElement| #[trigger] coef(r@, y) == if exists|l: int| 0 <= l < i + 1 && #[trigger] sums@[l].0 == y {
                    coef(acc@, y)
                } else {
                    0
                } by {
                    if y == x {
                        assert(sums@[i as int].0 == y);
                    } else {
                        assert(coef(r@, y) == coef(mid, y));
                        if exists|l: int| 0 <= l < i + 1 && #[trigger] sums@[l].0 == y {
                            let l = choose|l: int| 0 <= l < i + 1 && #[trigger] sums@[l].0 == y;
                            assert(l != i);
                        }
                    }
                }
            }
            i = i + 1;
        }
        proof {
            assert forall|x: BasisElement| #[trigger] coef(r@, x) == coef(acc@, x) by {
                if acc@.contains_key(x) {
                    let l = choose|l: int| 0 <= l < sums@.len() && #[trigger] sums@[l].0 == x;
                    assert(sums@[l].0 == x);
                } else if exists|l: int| 0 <= l < sums@.len() && #[trigger] sums@[l].0 == x {
                    let l = choose|l: int| 0 <= l < sums@.len() && #[trigger] sums@[l].0 == x;
                    assert(acc@.contains_key(sums@[l].0));
                }
            }
        }
        r
    }

    /// The product of two elements: each term of `f` multiplies `e`, and the
    /// contributions are summed and reduced modulo `2^t`, zero terms dropped.
    /// The coefficients of `f` may be any integers.
    pub fn multiply_element_element(&mut self, e: &Element, f: &Element) -> (r: Element)
        requires
            old(self).wf(),
            keys_ok(e@, old(self).n as nat, old(self).bound as nat),
            keys_ok(f@, old(self).n as nat, old(self).bound as nat),
        ensures
            final(self).wf(),
            final(self).same_rules(old(self)),
            final(self).ok(r@),
            r@ == element_times_element(
                old(self).relations(),
                old(self).t as nat,
                old(self).bound as nat,
                e@,
                f@,
            ),
    {
        let ghost rel = self.relations();
        let ghost t = self.t as nat;
        let ghost bound = self.bound as nat;
        let ghost g = |b: BasisElement| element_times_monomial(rel, t, bound, e@, b);
        let terms = fx_entries(f);
        let mut acc: Element = fx_new();
        let mut i: usize = 0;
        while i < terms.len()
            invariant
                self.wf(),
                self.same_rules(old(self)),
                rel == self.relations(),
                t == self.t,
                bound == self.bound,
                g == (|b: BasisElement| element_times_monomial(rel, t, bound, e@, b)),
                0 <= i <= terms@.len(),
                is_enumeration(terms@, f@),
                keys_ok(e@, self.n as nat, self.bound as nat),
                keys_ok(f@, self.n as nat, self.bound as nat),
                self.partial(acc@),
                weight_below(acc@, 2 * 32 * 1024int),
                forall|x: BasisElement| #[trigger] coef(acc@, x) == coef(fold_scaled(terms@.take(i as int), g, t), x),
            decreases terms@.len() - i,
        {
            let (m, cm) = terms[i];
            proof {
                assert(f@.contains_key(terms@[i as int].0));
                lemma_weight_upto_max(m.zs, 32);
                lemma_weight_upto_nonneg(m.zs, 32);
            }
            let part = self.multiply_element_monomial(e, m);
            proof {
                assert forall|b: BasisElement| #[trigger] part@.contains_key(b) implies weight(b.zs) <= 2 * 32 * 1024int by {
                    lemma_weight_upto_max(b.zs, 32);
                }
            }
            self.accumulate(&mut acc, &part, cm, Ghost(2 * 32 * 1024int));
            proof {
                let s = terms@.take(i + 1);
                assert(s.drop_last() =~= terms@.take(i as int));
                assert(s.last() == terms@[i as int]);
                assert forall|x: BasisElement| #[trigger] coef(acc@, x) == coef(fold_scaled(s, g, t), x) by {
                    lemma_coef_add_scaled(fold_scaled(terms@.take(i as int), g, t), part@, cm as int, t, x);
                }
            }
            i = i + 1;
        }
        let r = self.nonzero(&acc, Ghost(2 * 32 * 1024int));
        proof {
            assert(terms@.take(terms@.len() as int) =~= terms@);
            lemma_fold_enumerations(terms@, entries(f@), f@, g, t);
            lemma_fold_residues(terms@, g, t);
            lemma_same_coefs(r@, fold_scaled(terms@, g, t), t);
        }
        r
    }
}

} // verus!
