use snap::process_tree::ProcessTree;

#[test]
fn descendants_of_synthetic_edges() {
    let tree = ProcessTree::new(vec![(1, 2), (2, 3), (2, 4), (5, 6)]);

    let d = tree.descendants(2, false);
    assert_eq!(d.len(), 2);
    assert!(d.contains(&3));
    assert!(d.contains(&4));
    assert!(!d.contains(&2));

    let d = tree.descendants(2, true);
    assert_eq!(d.len(), 3);
    assert!(d.contains(&2));
    assert!(d.contains(&3));
    assert!(d.contains(&4));

    let d = tree.descendants(5, false);
    assert_eq!(d.len(), 1);
    assert!(d.contains(&6));

    let d = tree.descendants(99, false);
    assert_eq!(d.len(), 0);
}

#[test]
fn descendants_are_transitive() {
    let tree = ProcessTree::new(vec![(1, 2), (2, 3), (3, 4)]);
    let d = tree.descendants(1, false);
    assert_eq!(d.len(), 3);
    assert!(d.contains(&4));
}

#[test]
fn ancestors_walks_to_pid_one() {
    let tree = ProcessTree::new(vec![(1, 2), (2, 3)]);
    assert_eq!(tree.ancestors(3, true), vec![3, 2, 1]);
    assert_eq!(tree.ancestors(3, false), vec![2, 1]);
}

#[test]
fn ancestors_returns_partial_chain_when_a_link_is_missing() {
    let tree = ProcessTree::new(vec![(5, 6)]);
    // the chain from 6 stops at 5: nothing links 5 toward pid 1
    assert_eq!(tree.ancestors(6, false), vec![5]);
    assert_eq!(tree.ancestors(6, true), vec![6, 5]);
}

#[test]
fn ancestors_of_pid_one_is_empty() {
    let tree = ProcessTree::new(vec![(1, 2)]);
    assert_eq!(tree.ancestors(1, false), Vec::<i32>::new());
    assert_eq!(tree.ancestors(1, true), vec![1]);
}
