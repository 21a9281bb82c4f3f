use ogr_approx::symmetric::{
    binom, do_neighbour_multiplicity, neighbour_multiplicity, neighbours, partitions,
};

fn sorted(mut v: Vec<Vec<u32>>) -> Vec<Vec<u32>> {
    v.sort();
    v
}

#[test]
fn partitions_of_small_weights() {
    assert_eq!(partitions(5, 2), vec![vec![3, 2], vec![4, 1]]);
    assert_eq!(partitions(4, 1), vec![vec![4]]);
    assert_eq!(partitions(3, 3), vec![vec![1, 1, 1]]);
    assert_eq!(partitions(6, 3), vec![vec![2, 2, 2], vec![3, 2, 1], vec![4, 1, 1]]);
}

#[test]
fn partition_counts() {
    // p(10, 3) = 8 partitions of 10 into exactly three parts.
    assert_eq!(partitions(10, 3).len(), 8);
    for p in partitions(10, 3) {
        assert_eq!(p.iter().sum::<u32>(), 10);
        assert!(p.windows(2).all(|w| w[0] >= w[1]));
    }
}

#[test]
fn binomials() {
    assert_eq!(binom(5, 0), 1);
    assert_eq!(binom(5, 2), 10);
    assert_eq!(binom(6, 3), 20);
    assert_eq!(binom(4, 4), 1);
}

#[test]
fn multiplicities() {
    // A raised run contributes nothing; a kept run of length a, of which b
    // parts were already there, contributes C(a, b).
    assert_eq!(neighbour_multiplicity(&[2, 1], &[1, 1]), 1);
    assert_eq!(neighbour_multiplicity(&[1, 1, 1], &[1, 1]), 3);
    assert_eq!(neighbour_multiplicity(&[2, 2], &[2, 1]), 2);
    assert_eq!(do_neighbour_multiplicity(&[1, 1, 1], &[1, 0, 0]), 3);
    assert_eq!(do_neighbour_multiplicity(&[2, 1, 1], &[1, 1, 1]), 1);
    assert_eq!(do_neighbour_multiplicity(&[], &[]), 1);
}

#[test]
fn neighbours_of_small_partitions() {
    assert_eq!(neighbours(&[], 3), vec![vec![1, 1, 1]]);
    assert_eq!(sorted(neighbours(&[1], 2)), vec![vec![1, 1, 1], vec![2, 1]]);
    assert_eq!(
        sorted(neighbours(&[2, 1], 2)),
        vec![vec![2, 1, 1, 1], vec![2, 2, 1], vec![3, 1, 1], vec![3, 2]]
    );
}

#[test]
fn neighbours_are_distinct() {
    // [1, 1] with three parts: growing either part gives the same [2, 1, 1].
    let n = neighbours(&[1, 1], 3);
    assert_eq!(sorted(n.clone()), vec![vec![1, 1, 1, 1, 1], vec![2, 1, 1, 1], vec![2, 2, 1]]);
    assert_eq!(n.len(), 3);
}
