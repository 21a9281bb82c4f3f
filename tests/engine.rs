use ogr_approx::algebra::{Algebra, Element};
use ogr_approx::basis::BasisElement;
use ogr_approx::driver::{members_of, rational_element, schedule, sum_of};
use ogr_approx::relations::{relation_table, term};
use ogr_approx::torsion::torsion_exponent;

fn b(v1: u8, v2: u8, zs: &[u8]) -> BasisElement {
    BasisElement { v1, v2, zs: zs.iter().map(|i| 1u32 << (i - 1)).fold(0, |a, x| a | x) }
}

fn elem(terms: &[(i32, BasisElement)]) -> Element {
    let mut e = Element::default();
    for (c, m) in terms {
        e.insert(*m, *c);
    }
    e
}

fn assert_reduced(e: &Element, t: u8) {
    for (m, c) in e {
        assert!(*c > 0, "zero or negative coefficient at {:?}", m);
        assert!(i64::from(*c) < 1i64 << t, "coefficient {} out of range", c);
        assert!(m.v1 + 3 * m.v2 <= 4, "truncation broken at {:?}", m);
    }
}

#[test]
fn torsion_base_cases() {
    assert_eq!(torsion_exponent(0), 0);
    assert_eq!(torsion_exponent(1), 0);
    assert_eq!(torsion_exponent(2), 0);
    assert_eq!(torsion_exponent(3), 1);
    assert_eq!(torsion_exponent(4), 1);
}

#[test]
fn torsion_larger_values() {
    assert_eq!(torsion_exponent(5), 1);
    assert_eq!(torsion_exponent(8), 4);
    assert_eq!(torsion_exponent(32), 24);
}

#[test]
fn term_builds_mask() {
    assert_eq!(term(-3, 1, 0, &[1, 3], 4), Some((b(1, 0, &[1, 3]), -3)));
    assert_eq!(term(5, 0, 0, &[], 0), Some((b(0, 0, &[]), 5)));
}

#[test]
fn term_rejects_missing_generator() {
    assert_eq!(term(1, 0, 0, &[2, 5], 4), None);
}

#[test]
fn relation_for_first_generator_small_family() {
    // n = 3, t = 2: z_1^2 = z_2 + v_1 z_3 - 2 v_1^2 z_1 z_3 + v_1^3 z_2 z_3 + v_2 z_2 z_3,
    // reduced modulo 4, with every term using z_4 or beyond dropped.
    let squares = relation_table(3, 2);
    assert_eq!(squares.len(), 3);
    let expected = elem(&[
        (1, b(0, 0, &[2])),
        (1, b(1, 0, &[3])),
        (2, b(2, 0, &[1, 3])),
        (1, b(3, 0, &[2, 3])),
        (1, b(0, 1, &[2, 3])),
    ]);
    assert_eq!(squares[0], expected);
}

#[test]
fn relation_for_general_generator() {
    // n = 6, t = 3, k = 3: z_3^2 = z_6 - 2 z_1 z_5 + 2 z_2 z_4 modulo 8.
    let squares = relation_table(6, 3);
    let s = &squares[2];
    assert_eq!(s.get(&b(0, 0, &[6])), Some(&1));
    assert_eq!(s.get(&b(0, 0, &[1, 5])), Some(&6));
    assert_eq!(s.get(&b(0, 0, &[2, 4])), Some(&2));
    assert_reduced(s, 3);
}

#[test]
fn monomial_times_absent_generator() {
    let mut alg = Algebra::new(4, 3);
    let r = alg.multiply_monomial_z(b(1, 0, &[2]), 1);
    assert_eq!(r, elem(&[(1, b(1, 0, &[1, 2]))]));
}

#[test]
fn monomial_times_present_generator_uses_relation() {
    let mut alg = Algebra::new(3, 2);
    let r = alg.multiply_monomial_z(b(0, 0, &[1]), 1);
    assert_eq!(r, alg.squares[0]);
    assert_reduced(&r, 2);
}

#[test]
fn modulus_one_kills_everything() {
    let mut alg = Algebra::new(2, 0);
    assert!(alg.multiply_monomial_z(b(0, 0, &[]), 1).is_empty());
    assert!(alg.multiply_monomial_monomial(b(0, 0, &[]), b(1, 0, &[])).is_empty());
}

#[test]
fn truncation_gives_zero() {
    let mut alg = Algebra::new(4, 3);
    assert!(alg.multiply_monomial_monomial(b(3, 0, &[]), b(2, 0, &[])).is_empty());
    assert!(alg.multiply_monomial_monomial(b(0, 1, &[1]), b(0, 1, &[])).is_empty());
    assert!(alg.multiply_monomial_monomial(b(1, 1, &[1]), b(1, 0, &[])).is_empty());
    assert_eq!(
        alg.multiply_monomial_monomial(b(1, 1, &[1]), b(0, 0, &[])),
        elem(&[(1, b(1, 1, &[1]))])
    );
    assert_eq!(
        alg.multiply_monomial_monomial(b(2, 0, &[3]), b(2, 0, &[])),
        elem(&[(1, b(4, 0, &[3]))])
    );
}

#[test]
fn monomial_product_brings_in_generators() {
    let mut alg = Algebra::new(4, 3);
    let r = alg.multiply_monomial_monomial(b(0, 0, &[1]), b(1, 0, &[2, 3]));
    assert_eq!(r, elem(&[(1, b(1, 0, &[1, 2, 3]))]));
}

#[test]
fn element_times_monomial_reduces() {
    let mut alg = Algebra::new(4, 2);
    let e = elem(&[(3, b(0, 0, &[1])), (-1, b(0, 0, &[2]))]);
    let r = alg.multiply_element_monomial(&e, b(1, 0, &[]));
    assert_eq!(r, elem(&[(3, b(1, 0, &[1])), (3, b(1, 0, &[2]))]));
}

#[test]
fn element_times_element_sums_and_drops_zeros() {
    let mut alg = Algebra::new(4, 2);
    // (z_1 + z_2) * (2 z_2 + 2 z_1) = 2 z_1 z_2 + 2 z_2 z_1 + 2 z_1^2 + 2 z_2^2;
    // the mixed terms sum to 4 = 0 modulo 4.
    let e = elem(&[(1, b(0, 0, &[1])), (1, b(0, 0, &[2]))]);
    let f = elem(&[(2, b(0, 0, &[2])), (2, b(0, 0, &[1]))]);
    let r = alg.multiply_element_element(&e, &f);
    assert!(r.get(&b(0, 0, &[1, 2])).is_none());
    let sq1 = alg.squares[0].clone();
    let sq2 = alg.squares[1].clone();
    let mut expected = Element::default();
    for (m, c) in sq1.iter().chain(sq2.iter()) {
        let v = expected.entry(*m).or_insert(0);
        *v = (*v + 2 * c) % 4;
    }
    expected.retain(|_, c| *c != 0);
    assert_eq!(r, expected);
    assert_reduced(&r, 2);
}

#[test]
fn memo_does_not_change_results() {
    let m = b(1, 0, &[1, 3]);
    let mut cold = Algebra::new(6, 4);
    let first = cold.multiply_monomial_z(m, 3);
    let second = cold.multiply_monomial_z(m, 3);
    assert_eq!(first, second);
    let mut warm = Algebra::new(6, 4);
    let _ = warm.multiply_element_element(&elem(&[(1, b(0, 0, &[1, 3]))]), &elem(&[(3, b(1, 0, &[3])), (1, b(0, 0, &[2]))]));
    assert_eq!(warm.multiply_monomial_z(m, 3), first);
    assert!(!first.is_empty());
}

#[test]
fn products_are_reduced_and_truncated() {
    let mut alg = Algebra::new(6, 4);
    let e = elem(&[(5, b(0, 0, &[1])), (-3, b(1, 0, &[2])), (7, b(0, 1, &[1, 3]))]);
    let f = elem(&[(1, b(1, 0, &[1])), (9, b(0, 0, &[3, 4])), (-2, b(2, 0, &[2]))]);
    let r = alg.multiply_element_element(&e, &f);
    assert!(!r.is_empty());
    assert_reduced(&r, 4);
    let r2 = alg.multiply_element_element(&r, &r);
    assert_reduced(&r2, 4);
}

#[test]
fn product_is_associative() {
    let mut alg = Algebra::new(5, 3);
    let a = elem(&[(1, b(0, 0, &[1])), (3, b(1, 0, &[2]))]);
    let bb = elem(&[(2, b(0, 0, &[1])), (1, b(0, 0, &[3]))]);
    let c = elem(&[(1, b(0, 0, &[2])), (5, b(1, 0, &[1]))]);
    let ab = alg.multiply_element_element(&a, &bb);
    let ab_c = alg.multiply_element_element(&ab, &c);
    let bc = alg.multiply_element_element(&bb, &c);
    let a_bc = alg.multiply_element_element(&a, &bc);
    assert_eq!(ab_c, a_bc);
}

#[test]
fn subsets_and_sums() {
    assert_eq!(members_of(0b101, 5), vec![2, 4]);
    assert_eq!(members_of(0, 5), Vec::<u8>::new());
    assert_eq!(sum_of(&[2, 4, 5]), 11);
}

#[test]
fn schedule_of_small_families() {
    assert_eq!(schedule(1), vec![(0, 0), (1, 0)]);
    assert_eq!(schedule(2), vec![(0, 1), (1, 1), (0, 0), (1, 0), (2, 0), (3, 0)]);
    // n = 4: d = 10, window d1 + w >= 6.
    let s = schedule(4);
    assert_eq!(s.first(), Some(&(0, 7)));
    assert_eq!(s.last(), Some(&(10, 0)));
    assert_eq!(s.len(), 5 * 8 - 4);
}

#[test]
fn family_one_end_to_end() {
    let n = 1;
    let t = torsion_exponent(n);
    let mut alg = Algebra::new(n, t);
    assert_eq!(alg.squares.len(), 1);
    let rows = schedule(n);
    assert_eq!(rows.len(), 2);
    let mut lines = Vec::new();
    for (d1, mask) in rows {
        assert_eq!(mask, 0);
        let cs = members_of(mask, n);
        lines.push(rational_element(d1, &cs, &mut alg));
    }
    assert_eq!(lines[0], elem(&[(1, b(0, 0, &[]))]));
}

#[test]
fn family_two_end_to_end() {
    let n = 2;
    let t = torsion_exponent(n);
    let mut alg = Algebra::new(n, t);
    let rows = schedule(n);
    assert_eq!(rows.iter().filter(|r| r.1 == 1).count(), 2);
    assert_eq!(rows.iter().filter(|r| r.1 == 0).count(), 4);
    for (d1, mask) in rows {
        let cs = members_of(mask, n);
        let e = rational_element(d1, &cs, &mut alg);
        if d1 == 0 && cs.is_empty() {
            assert_eq!(e, elem(&[(1, b(0, 0, &[]))]));
        } else {
            assert_reduced(&e, t);
        }
    }
}

#[test]
fn family_eight_factors() {
    let n = 8;
    let t = torsion_exponent(n);
    assert_eq!(t, 4);
    let mut alg = Algebra::new(n, t);
    let e = rational_element(1, &[], &mut alg);
    // u modulo 16.
    let expected = elem(&[
        (15, b(0, 0, &[1])),
        (15, b(2, 0, &[1, 2])),
        (5, b(3, 0, &[4])),
        (15, b(3, 0, &[1, 3])),
        (4, b(0, 1, &[4])),
        (15, b(0, 1, &[1, 3])),
        (12, b(4, 0, &[5])),
        (10, b(4, 0, &[1, 4])),
        (15, b(4, 0, &[2, 3])),
        (10, b(1, 1, &[5])),
        (8, b(1, 1, &[1, 4])),
        (1, b(1, 1, &[2, 3])),
    ]);
    assert_eq!(e, expected);
    // c_2^* = -(2 z_2 - v_1 z_3 + 2 v_1^2 z_4 - 8 v_1^3 z_5 - 7 v_2 z_5
    //           + 26 v_1^4 z_6 + 30 v_1 v_2 z_6) modulo 16.
    let f = rational_element(0, &[2], &mut alg);
    let expected_f = elem(&[
        (14, b(0, 0, &[2])),
        (1, b(1, 0, &[3])),
        (14, b(2, 0, &[4])),
        (8, b(3, 0, &[5])),
        (7, b(0, 1, &[5])),
        (6, b(4, 0, &[6])),
        (2, b(1, 1, &[6])),
    ]);
    assert_eq!(f, expected_f);
}

#[test]
fn family_five_rational_elements_are_reduced() {
    let n = 5;
    let t = torsion_exponent(n);
    let mut alg = Algebra::new(n, t);
    for (d1, mask) in schedule(n) {
        let cs = members_of(mask, n);
        let r = rational_element(d1, &cs, &mut alg);
        assert_reduced(&r, t);
    }
}

#[test]
fn largest_family_relations() {
    let n = 32;
    let t = torsion_exponent(n);
    let alg = Algebra::new(n, t);
    assert_eq!(alg.squares.len(), 32);
    for s in &alg.squares {
        assert_reduced(s, t);
    }
    // z_16^2 starts with z_32; from z_17 on only pairs z_i z_j remain, and
    // for z_32 every term needs a generator beyond z_32.
    assert!(alg.squares[15].contains_key(&b(0, 0, &[32])));
    assert!(!alg.squares[16].is_empty());
    assert!(alg.squares[16].keys().all(|m| m.zs.count_ones() == 2));
    assert!(alg.squares[31].is_empty());
}

#[test]
fn largest_modulus_keeps_signs_as_residues() {
    let squares = relation_table(3, 30);
    let m = 1i32 << 30;
    // z_1^2 contains -2 v_1^2 z_1 z_3.
    assert_eq!(squares[0].get(&b(2, 0, &[1, 3])), Some(&(m - 2)));
    // z_2^2 = -(z_4 - 2 z_1 z_3 + ...): only -(-2) z_1 z_3 = 2 z_1 z_3 exists for n = 3.
    assert_eq!(squares[1], elem(&[(2, b(0, 0, &[1, 3])), (m - 1, b(1, 0, &[2, 3]))]));
}

#[test]
fn empty_factors_give_empty_products() {
    let mut alg = Algebra::new(4, 3);
    let e = elem(&[(1, b(0, 0, &[1]))]);
    assert!(alg.multiply_element_element(&e, &Element::default()).is_empty());
    assert!(alg.multiply_element_element(&Element::default(), &e).is_empty());
    assert!(alg.multiply_element_monomial(&Element::default(), b(1, 0, &[2])).is_empty());
}
