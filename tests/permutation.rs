use santa_vis::metric::wrong_metric;
use santa_vis::perm::SparsePermutation;
use santa_vis::puzzle::is_permutation;

#[test]
fn apply_forward_once() {
    let perm = SparsePermutation::new(&[1, 2, 0]);
    let x = vec!["A", "B", "C"];
    assert_eq!(perm.apply(&x, 1), vec!["B", "C", "A"]);
}

#[test]
fn apply_power_two_and_inverse() {
    let perm = SparsePermutation::new(&[1, 2, 0]);
    let x = vec!["A", "B", "C"];
    assert_eq!(perm.apply(&x, 2), vec!["C", "A", "B"]);
    assert_eq!(perm.apply(&x, -1), vec!["C", "A", "B"]);
    assert_eq!(perm.apply(&x, -2), vec!["B", "C", "A"]);
    assert_eq!(perm.apply(&x, 3), x);
}

#[test]
fn power_zero_is_identity() {
    let perm = SparsePermutation::new(&[3, 0, 1, 2, 4]);
    let x = vec![10u8, 20, 30, 40, 50];
    assert_eq!(perm.apply(&x, 0), x);
    let mut y = x.clone();
    perm.apply_inplace(&mut y, 0);
    assert_eq!(y, x);
}

#[test]
fn inverse_round_trip() {
    let mapping = [4usize, 0, 5, 1, 2, 3, 6, 7];
    let perm = SparsePermutation::new(&mapping);
    let x: Vec<usize> = (100..108).collect();
    for k in -5isize..=5 {
        let y = perm.apply(&x, k);
        assert_eq!(perm.apply(&y, -k), x);
    }
}

#[test]
fn power_equals_repeated_single_steps() {
    let perm = SparsePermutation::new(&[2, 0, 1, 4, 3]);
    let x = vec!['a', 'b', 'c', 'd', 'e'];
    for k in 1isize..=6 {
        let mut fwd = x.clone();
        let mut back = x.clone();
        for _ in 0..k {
            perm.apply_inplace(&mut fwd, 1);
            perm.apply_inplace(&mut back, -1);
        }
        assert_eq!(perm.apply(&x, k), fwd);
        assert_eq!(perm.apply(&x, -k), back);
    }
}

#[test]
fn overlapping_pairs_read_a_snapshot() {
    // a 2-cycle: a fused read-modify-write would copy one label twice
    let perm = SparsePermutation::new(&[1, 0]);
    let mut x = vec![7, 9];
    perm.apply_inplace(&mut x, 1);
    assert_eq!(x, vec![9, 7]);
}

#[test]
fn sparsity_counts_moved_positions() {
    assert_eq!(SparsePermutation::new(&[0, 2, 1, 3]).len(), 2);
    assert_eq!(SparsePermutation::new(&[0, 1, 2, 3]).len(), 0);
    assert_eq!(SparsePermutation::new(&[]).len(), 0);
    assert_eq!(SparsePermutation::new(&[1, 2, 0]).len(), 3);
}

#[test]
fn identity_permutation_changes_nothing() {
    let perm = SparsePermutation::new(&[0, 1, 2]);
    let x = vec![5, 6, 7];
    assert_eq!(perm.apply(&x, 4), x);
    assert_eq!(perm.apply(&x, -4), x);
}

#[test]
fn extreme_powers_terminate_on_fixed_cycle() {
    // the identity stores no pair, so each of the many steps costs nothing
    let perm = SparsePermutation::new(&[0, 1]);
    let x = vec![1, 2];
    assert_eq!(perm.apply(&x, 1_000_000), x);
}

#[test]
fn metric_counts_differences() {
    assert_eq!(wrong_metric(&[1, 2, 3, 4], &[1, 0, 3, 0]), 2);
    assert_eq!(wrong_metric(&[1, 0, 3, 0], &[1, 2, 3, 4]), 2);
    assert_eq!(wrong_metric(&[1, 2, 3], &[1, 2, 3]), 0);
    assert_eq!(wrong_metric::<u32>(&[], &[]), 0);
    assert_eq!(wrong_metric(&["x", "y"], &["y", "x"]), 2);
}

#[test]
fn permutation_check() {
    assert!(is_permutation(&[1, 2, 0]));
    assert!(is_permutation(&[]));
    assert!(!is_permutation(&[0, 0, 1]));
    assert!(!is_permutation(&[0, 3, 1]));
}
