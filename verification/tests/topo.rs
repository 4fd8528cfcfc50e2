use gadv::engine::git::topo::walk_order;
use gadv::engine::Oid;

fn id(b: u8) -> Oid {
    [b; 20]
}

fn commit(o: u8, parents: &[u8]) -> (Oid, Vec<Oid>) {
    (id(o), parents.iter().map(|p| id(*p)).collect())
}

#[test]
fn a_descendant_reached_late_still_comes_first() {
    // HEAD m merges x and y; y is a child of x. Breadth-first reads m, x, y.
    let walked = vec![commit(1, &[2, 3]), commit(2, &[]), commit(3, &[2])];
    assert_eq!(walk_order(&walked), Some(vec![0, 2, 1]));
}

#[test]
fn a_linear_history_keeps_its_order() {
    let walked = vec![commit(4, &[3]), commit(3, &[2]), commit(2, &[1]), commit(1, &[])];
    assert_eq!(walk_order(&walked), Some(vec![0, 1, 2, 3]));
}

#[test]
fn parents_outside_the_walk_are_left_out() {
    // The walk stopped before 9 (a limit or a cached commit).
    let walked = vec![commit(5, &[9]), commit(6, &[9, 5])];
    assert_eq!(walk_order(&walked), Some(vec![1, 0]));
}

#[test]
fn a_cycle_has_no_order() {
    assert_eq!(walk_order(&vec![commit(1, &[2]), commit(2, &[1])]), None);
    assert_eq!(walk_order(&vec![commit(7, &[7])]), None);
}

#[test]
fn a_parent_named_twice_counts_once_per_entry() {
    let walked = vec![commit(1, &[2, 2]), commit(2, &[])];
    assert_eq!(walk_order(&walked), Some(vec![0, 1]));
    assert_eq!(walk_order(&vec![]), Some(vec![]));
}
