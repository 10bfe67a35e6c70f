//! Foundation-first order.
use differential::ordering::toposort_prefix;

fn set(v: &[usize]) -> Vec<usize> {
    v.to_vec()
}

#[test]
fn foundation_precedes_consumer() {
    // 1 depends on 0; equal sizes → 0 first regardless of position.
    let deps = vec![set(&[]), set(&[0])];
    let counts = [5usize, 5];
    let order = toposort_prefix(2, &deps, &counts.to_vec());
    assert_eq!(order, vec![0, 1]);

    let deps = vec![set(&[1]), set(&[])];
    let order = toposort_prefix(2, &deps, &counts.to_vec());
    assert_eq!(order, vec![1, 0]);
}

#[test]
fn ties_break_by_descending_hunk_count_then_position() {
    let deps = vec![set(&[]), set(&[]), set(&[])];
    let counts = [3usize, 9, 9];
    let order = toposort_prefix(3, &deps, &counts.to_vec());
    assert_eq!(order, vec![1, 2, 0]);
}

#[test]
fn cycle_falls_back_deterministically() {
    // 0 <-> 1 cycle plus independent 2.
    let deps = vec![set(&[1]), set(&[0]), set(&[])];
    let counts = [2usize, 8, 1];
    let order = toposort_prefix(3, &deps, &counts.to_vec());
    // 2 is ready (largest ready is 2? counts: only 2 is ready with count 1).
    assert_eq!(order[0], 2);
    // Cycle broken on the larger node.
    assert_eq!(order[1], 1);
    assert_eq!(order[2], 0);
}

#[test]
fn edges_outside_the_prefix_do_not_block() {
    // Group 0 depends on group 3 (a skim group outside the close prefix).
    let deps = vec![set(&[3]), set(&[]), set(&[]), set(&[])];
    let counts = [4usize, 2, 1, 9];
    let order = toposort_prefix(3, &deps, &counts.to_vec());
    assert_eq!(order, vec![0, 1, 2]);
}
