use trees::arena::{Node, Tree};
use trees::ContextIterator;

/// Root -> [A -> [A1, A2, A3], B -> [B1], C -> [C1, C2, C3, C4]]
fn sample_forest() -> (Tree<u32, &'static str>, Node<u32>) {
    let mut t: Tree<u32, &'static str> = Tree::new(1);
    let root = t.create_node("Root");
    let a = root.append_child_value(&mut t, "A");
    a.append_child_value(&mut t, "A1");
    a.append_child_value(&mut t, "A2");
    a.append_child_value(&mut t, "A3");
    let b = root.append_child_value(&mut t, "B");
    b.append_child_value(&mut t, "B1");
    let c = root.append_child_value(&mut t, "C");
    c.append_child_value(&mut t, "C1");
    c.append_child_value(&mut t, "C2");
    c.append_child_value(&mut t, "C3");
    c.append_child_value(&mut t, "C4");
    (t, root)
}

#[test]
fn depth_first_search_is_deterministic_preorder() {
    let (t, root) = sample_forest();
    let mut iter = root.depth_first_search(&t);
    let expected: [(usize, &'static str); 12] = [
        (0, "Root"),
        (1, "A"),
        (2, "A1"),
        (2, "A2"),
        (2, "A3"),
        (1, "B"),
        (2, "B1"),
        (1, "C"),
        (2, "C1"),
        (2, "C2"),
        (2, "C3"),
        (2, "C4"),
    ];
    for (depth, value) in expected {
        let (d, n) = iter.next().unwrap();
        assert_eq!(d, depth);
        assert_eq!(*n.value(&t), value);
    }
    assert!(iter.next().is_none());
    // restartable: a fresh traversal yields the same front
    let mut again = root.depth_first_search(&t);
    let (d0, n0) = again.next().unwrap();
    assert_eq!((d0, *n0.value(&t)), (0, "Root"));
}

#[test]
fn discard_child_results_skips_the_subtree() {
    let (t, root) = sample_forest();
    let mut iter = root.depth_first_search(&t);
    iter.next(); // (0, Root)
    let (d, n) = iter.next().unwrap(); // (1, A), which has three children
    assert_eq!((d, *n.value(&t)), (1, "A"));
    iter.discard_child_results(d);
    let (d2, n2) = iter.next().unwrap();
    assert_eq!((d2, *n2.value(&t)), (1, "B"));
}

#[test]
fn discard_child_results_at_depth_zero_prunes_to_end() {
    let (t, root) = sample_forest();
    let mut iter = root.depth_first_search(&t);
    iter.next(); // (0, Root)
    iter.next(); // (1, A)
    iter.discard_child_results(0);
    // Root has no siblings, so pruning everything below depth 0 ends it
    assert!(iter.next().is_none());
}

#[test]
fn discard_child_results_above_stack_depth_is_noop() {
    let (t, root) = sample_forest();
    let mut iter = root.depth_first_search(&t);
    iter.next(); // (0, Root); one ancestor is stacked now
    iter.discard_child_results(5);
    let (d, n) = iter.next().unwrap();
    assert_eq!((d, *n.value(&t)), (1, "A"));
}

#[test]
fn context_threaded_depth_first_search() {
    let (t, root) = sample_forest();
    let mut iter = root.depth_first_search_mut();
    let mut seen: Vec<(usize, &'static str)> = Vec::new();
    while let Some((d, n)) = iter.next_value(&t) {
        seen.push((d, *n.value(&t)));
    }
    assert_eq!(seen.len(), 12);
    assert_eq!(seen[0], (0, "Root"));
    assert_eq!(seen[11], (2, "C4"));
}

#[test]
fn children_iterates_in_order() {
    let (t, root) = sample_forest();
    let mut names: Vec<&'static str> = Vec::new();
    let mut kids = root.children(&t);
    while let Some(n) = kids.next() {
        names.push(*n.value(&t));
    }
    assert_eq!(names, vec!["A", "B", "C"]);
}

#[test]
fn children_mut_allows_mutation_between_steps() {
    let mut t: Tree<u32, i32> = Tree::new(1);
    let p = t.create_node(0);
    p.append_child_value(&mut t, 1);
    p.append_child_value(&mut t, 2);
    p.append_child_value(&mut t, 3);
    let mut iter = p.children_mut(&t);
    let mut sum = 0;
    while let Some(n) = iter.next_value(&t) {
        *n.value_mut(&mut t) *= 10;
        sum += *n.value(&t);
    }
    assert_eq!(sum, 60);
}

#[test]
fn context_iterator_trait_drives_both_iterators() {
    let (t, root) = sample_forest();
    let mut dfs = root.depth_first_search_mut();
    let first = ContextIterator::next(&mut dfs, &t).unwrap();
    assert_eq!(*first.1.value(&t), "Root");
    let mut sib = root.children_mut(&t);
    let first_child = ContextIterator::next(&mut sib, &t).unwrap();
    assert_eq!(*first_child.value(&t), "A");
}

#[test]
fn all_nodes_yields_every_record_in_creation_order() {
    let mut t: Tree<u32, i32> = Tree::new(1);
    let a = t.create_node(1);
    let b = t.create_node(2);
    let c = a.append_child_value(&mut t, 3);
    c.remove(&mut t);
    let mut iter = t.all_nodes();
    let mut seen: Vec<i32> = Vec::new();
    while let Some(n) = iter.next() {
        seen.push(*n.value(&t));
    }
    // removed nodes are still yielded; order is creation order
    assert_eq!(seen, vec![1, 2, 3]);
    assert_eq!(b.parent(&t), None);
}

#[test]
fn all_nodes_bound_is_snapshotted_at_creation() {
    let mut t: Tree<u32, i32> = Tree::new(1);
    t.create_node(1);
    let mut iter = t.all_nodes();
    t.create_node(2);
    let mut count = 0;
    while let Some(_) = iter.next() {
        count += 1;
    }
    assert_eq!(count, 1);
    let mut fresh = t.all_nodes();
    let mut count2 = 0;
    while let Some(_) = fresh.next() {
        count2 += 1;
    }
    assert_eq!(count2, 2);
}

#[test]
fn find_first_over_all_nodes() {
    let mut t: Tree<u32, i32> = Tree::new(1);
    let _a = t.create_node(1);
    let b = t.create_node(2);
    let _c = t.create_node(3);
    // a predicate matching no record
    let none = t.find_first(|n: &Node<u32>| *n.value(&t) > 100);
    assert!(none.is_none());
    // a predicate matching exactly one record returns that handle unchanged
    let hit = t.find_first(|n: &Node<u32>| *n.value(&t) == 2);
    assert_eq!(hit, Some(b));
}

#[test]
fn find_first_over_depth_first_order() {
    let (t, root) = sample_forest();
    let hit = root.find_first(&t, |p: &(usize, Node<u32>)| *p.1.value(&t) == "B1");
    let (d, n) = hit.unwrap();
    assert_eq!(d, 2);
    assert_eq!(*n.value(&t), "B1");
    let miss = root.find_first(&t, |p: &(usize, Node<u32>)| *p.1.value(&t) == "zzz");
    assert!(miss.is_none());
}

#[test]
fn first_root_node_from_any_forest() {
    let mut t: Tree<u32, i32> = Tree::new(1);
    assert!(t.first_root_node().is_none());
    let top = t.create_node(0);
    let kid = top.append_child_value(&mut t, 1);
    kid.append_child_value(&mut t, 2);
    // a second root exists; first_root_node still reports node zero's root
    t.create_node(99);
    assert_eq!(t.first_root_node(), Some(top));
}
