use trees::arena::{Node, NodeData, NodeIdx, Tree};

#[test]
fn new_tree_is_empty() {
    let t: Tree<u32, i32> = Tree::new(7);
    assert!(t.first_root_node().is_none());
    let mut iter = t.all_nodes();
    assert!(iter.next().is_none());
}

#[test]
fn create_node_starts_detached() {
    let mut t: Tree<u32, i32> = Tree::new(1);
    let n = t.create_node(42);
    assert_eq!(*n.value(&t), 42);
    assert!(n.parent(&t).is_none());
    assert!(n.first_child(&t).is_none());
    assert!(n.last_child(&t).is_none());
    assert!(n.prev_sibling(&t).is_none());
    assert!(n.next_sibling(&t).is_none());
}

#[test]
fn append_child_links_parent_and_last_child() {
    let mut t: Tree<u32, &'static str> = Tree::new(1);
    let p = t.create_node("p");
    let c = t.create_node("c");
    p.append_child(&mut t, c);
    assert_eq!(c.parent(&t), Some(p));
    assert_eq!(p.last_child(&t), Some(c));
    assert_eq!(p.first_child(&t), Some(c));
    let d = p.append_child_value(&mut t, "d");
    assert_eq!(d.parent(&t), Some(p));
    assert_eq!(p.last_child(&t), Some(d));
    assert_eq!(p.first_child(&t), Some(c));
    assert_eq!(c.next_sibling(&t), Some(d));
    assert_eq!(d.prev_sibling(&t), Some(c));
    assert!(d.next_sibling(&t).is_none());
    assert!(c.prev_sibling(&t).is_none());
}

#[test]
fn prepend_child_links_first_child() {
    let mut t: Tree<u32, i32> = Tree::new(1);
    let p = t.create_node(0);
    let a = p.prepend_child_value(&mut t, 1);
    let b = p.prepend_child_value(&mut t, 2);
    assert_eq!(p.first_child(&t), Some(b));
    assert_eq!(p.last_child(&t), Some(a));
    assert_eq!(b.next_sibling(&t), Some(a));
    assert_eq!(a.prev_sibling(&t), Some(b));
}

fn snapshot(t: &Tree<u32, i32>, nodes: &[Node<u32>]) -> Vec<[Option<Node<u32>>; 5]> {
    nodes
        .iter()
        .map(|n| {
            [
                n.parent(t),
                n.first_child(t),
                n.last_child(t),
                n.prev_sibling(t),
                n.next_sibling(t),
            ]
        })
        .collect()
}

#[test]
fn remove_is_idempotent() {
    let mut t: Tree<u32, i32> = Tree::new(1);
    let p = t.create_node(0);
    let a = p.append_child_value(&mut t, 1);
    let b = p.append_child_value(&mut t, 2);
    let c = p.append_child_value(&mut t, 3);
    let all = [p, a, b, c];
    b.remove(&mut t);
    let once = snapshot(&t, &all);
    b.remove(&mut t);
    let twice = snapshot(&t, &all);
    assert_eq!(once, twice);
    assert_eq!(a.next_sibling(&t), Some(c));
    assert_eq!(c.prev_sibling(&t), Some(a));
    assert!(b.parent(&t).is_none());
}

#[test]
fn remove_first_and_last_child_fix_parent_links() {
    let mut t: Tree<u32, i32> = Tree::new(1);
    let p = t.create_node(0);
    let a = p.append_child_value(&mut t, 1);
    let b = p.append_child_value(&mut t, 2);
    a.remove(&mut t);
    assert_eq!(p.first_child(&t), Some(b));
    assert_eq!(p.last_child(&t), Some(b));
    assert!(b.prev_sibling(&t).is_none());
    b.remove(&mut t);
    assert!(p.first_child(&t).is_none());
    assert!(p.last_child(&t).is_none());
}

#[test]
fn moving_a_node_moves_its_subtree() {
    let mut t: Tree<u32, i32> = Tree::new(1);
    let p1 = t.create_node(1);
    let p2 = t.create_node(2);
    let c = p1.append_child_value(&mut t, 3);
    let c1 = c.append_child_value(&mut t, 4);
    let c2 = c.append_child_value(&mut t, 5);
    p2.append_child(&mut t, c);
    assert_eq!(c.parent(&t), Some(p2));
    assert_eq!(c1.parent(&t), Some(c));
    assert_eq!(c2.parent(&t), Some(c));
    assert_eq!(c.first_child(&t), Some(c1));
    assert_eq!(c.last_child(&t), Some(c2));
    assert!(p1.first_child(&t).is_none());
    assert!(p1.last_child(&t).is_none());
}

#[test]
fn insert_next_sibling_splices_between() {
    let mut t: Tree<u32, i32> = Tree::new(1);
    let p = t.create_node(0);
    let a = p.append_child_value(&mut t, 1);
    let b = p.append_child_value(&mut t, 2);
    let x = a.insert_next_sibling_value(&mut t, 9);
    assert_eq!(a.next_sibling(&t), Some(x));
    assert_eq!(x.prev_sibling(&t), Some(a));
    assert_eq!(x.next_sibling(&t), Some(b));
    assert_eq!(b.prev_sibling(&t), Some(x));
    assert_eq!(x.parent(&t), Some(p));
    assert_eq!(p.first_child(&t), Some(a));
    assert_eq!(p.last_child(&t), Some(b));
}

#[test]
fn insert_prev_sibling_splices_between() {
    let mut t: Tree<u32, i32> = Tree::new(1);
    let p = t.create_node(0);
    let a = p.append_child_value(&mut t, 1);
    let b = p.append_child_value(&mut t, 2);
    let x = b.insert_prev_sibling_value(&mut t, 9);
    assert_eq!(a.next_sibling(&t), Some(x));
    assert_eq!(x.prev_sibling(&t), Some(a));
    assert_eq!(x.next_sibling(&t), Some(b));
    assert_eq!(b.prev_sibling(&t), Some(x));
    assert_eq!(x.parent(&t), Some(p));
}

#[test]
fn insert_prev_on_first_child_is_prepend() {
    let mut t: Tree<u32, i32> = Tree::new(1);
    let p = t.create_node(0);
    let a = p.append_child_value(&mut t, 1);
    let x = a.insert_prev_sibling_value(&mut t, 9);
    assert_eq!(p.first_child(&t), Some(x));
    assert_eq!(x.next_sibling(&t), Some(a));
    assert!(x.prev_sibling(&t).is_none());
}

#[test]
fn insert_next_on_last_child_equals_append_on_parent() {
    // build the same tree twice and compare the resulting link structure
    let mut t1: Tree<u32, i32> = Tree::new(1);
    let p1 = t1.create_node(0);
    let a1 = p1.append_child_value(&mut t1, 1);
    let s1 = t1.create_node(9);
    a1.insert_next_sibling(&mut t1, s1);

    let mut t2: Tree<u32, i32> = Tree::new(1);
    let p2 = t2.create_node(0);
    let _a2 = p2.append_child_value(&mut t2, 1);
    let s2 = t2.create_node(9);
    p2.append_child(&mut t2, s2);

    let all1 = [p1, a1, s1];
    let all2 = [p2, _a2, s2];
    let snap1 = snapshot(&t1, &all1);
    let snap2 = snapshot(&t2, &all2);
    assert_eq!(snap1, snap2);
    assert_eq!(p1.last_child(&t1), Some(s1));
}

#[test]
fn remove_children_unlinks_every_child() {
    let mut t: Tree<u32, i32> = Tree::new(1);
    let p = t.create_node(0);
    let a = p.append_child_value(&mut t, 1);
    let b = p.append_child_value(&mut t, 2);
    let c = p.append_child_value(&mut t, 3);
    let g = b.append_child_value(&mut t, 4);
    p.remove_children(&mut t);
    assert!(p.first_child(&t).is_none());
    assert!(p.last_child(&t).is_none());
    for n in [a, b, c] {
        assert!(n.parent(&t).is_none());
        assert!(n.prev_sibling(&t).is_none());
        assert!(n.next_sibling(&t).is_none());
    }
    // a former child keeps its own subtree
    assert_eq!(b.first_child(&t), Some(g));
    assert_eq!(g.parent(&t), Some(b));
}

#[test]
fn value_mut_changes_only_the_payload() {
    let mut t: Tree<u32, i32> = Tree::new(1);
    let p = t.create_node(0);
    let c = p.append_child_value(&mut t, 5);
    *c.value_mut(&mut t) = 50;
    assert_eq!(*c.value(&t), 50);
    assert_eq!(c.parent(&t), Some(p));
    assert_eq!(p.first_child(&t), Some(c));
}

#[test]
fn root_walks_to_the_top() {
    let mut t: Tree<u32, i32> = Tree::new(1);
    let top = t.create_node(0);
    let mid = top.append_child_value(&mut t, 1);
    let leaf = mid.append_child_value(&mut t, 2);
    assert_eq!(leaf.root(&t), top);
    assert_eq!(mid.root(&t), top);
    assert_eq!(top.root(&t), top);
    assert_eq!(t.first_root_node(), Some(top));
}

#[test]
fn removed_node_can_be_reinserted() {
    let mut t: Tree<u32, i32> = Tree::new(1);
    let p = t.create_node(0);
    let q = t.create_node(10);
    let c = p.append_child_value(&mut t, 1);
    c.remove(&mut t);
    assert!(c.parent(&t).is_none());
    assert_eq!(*c.value(&t), 1);
    q.append_child(&mut t, c);
    assert_eq!(c.parent(&t), Some(q));
    assert_eq!(q.first_child(&t), Some(c));
}

/// Checks the five-link invariants over every record, through the public
/// accessors alone: child links present/absent together, chain ends have
/// no outer sibling links, sibling links mirror each other, and a chain
/// member's parent link points back at the chain's owner.
fn check_invariants(t: &Tree<u32, i32>, all: &[Node<u32>]) {
    for n in all {
        let fc = n.first_child(t);
        let lc = n.last_child(t);
        assert_eq!(fc.is_some(), lc.is_some());
        if let Some(f) = fc {
            assert!(f.prev_sibling(t).is_none());
            assert_eq!(f.parent(t), Some(*n));
        }
        if let Some(l) = lc {
            assert!(l.next_sibling(t).is_none());
            assert_eq!(l.parent(t), Some(*n));
        }
        if let Some(nx) = n.next_sibling(t) {
            assert_eq!(nx.prev_sibling(t), Some(*n));
            assert_eq!(nx.parent(t), n.parent(t));
        }
        if let Some(pv) = n.prev_sibling(t) {
            assert_eq!(pv.next_sibling(t), Some(*n));
            assert_eq!(pv.parent(t), n.parent(t));
        }
        if n.parent(t).is_none() {
            assert!(n.prev_sibling(t).is_none());
            assert!(n.next_sibling(t).is_none());
        }
        if let Some(p) = n.parent(t) {
            // n occurs exactly once on p's child chain
            let mut kids = p.children(t);
            let mut occurrences = 0;
            while let Some(k) = kids.next() {
                if k == *n {
                    occurrences += 1;
                }
            }
            assert_eq!(occurrences, 1);
        }
    }
}

#[test]
fn invariants_hold_after_every_operation() {
    let mut t: Tree<u32, i32> = Tree::new(1);
    let mut all: Vec<Node<u32>> = Vec::new();
    let r = t.create_node(0);
    all.push(r);
    check_invariants(&t, &all);
    let a = r.append_child_value(&mut t, 1);
    all.push(a);
    check_invariants(&t, &all);
    let b = r.prepend_child_value(&mut t, 2);
    all.push(b);
    check_invariants(&t, &all);
    let c = a.insert_next_sibling_value(&mut t, 3);
    all.push(c);
    check_invariants(&t, &all);
    let d = a.insert_prev_sibling_value(&mut t, 4);
    all.push(d);
    check_invariants(&t, &all);
    a.remove(&mut t);
    check_invariants(&t, &all);
    c.append_child(&mut t, a);
    check_invariants(&t, &all);
    d.remove(&mut t);
    check_invariants(&t, &all);
    b.append_child(&mut t, d);
    check_invariants(&t, &all);
    // relocate a whole subtree
    b.insert_next_sibling(&mut t, c);
    check_invariants(&t, &all);
    r.remove_children(&mut t);
    check_invariants(&t, &all);
    b.append_child(&mut t, c);
    check_invariants(&t, &all);
    b.remove_children(&mut t);
    check_invariants(&t, &all);
}

#[test]
fn node_data_new_and_as_indexes() {
    let d: NodeData<i32> = NodeData::new(3);
    assert_eq!(d.value, 3);
    assert!(d.parent.is_none());
    assert!(d.first_child.is_none());
    assert!(d.last_child.is_none());
    assert!(d.prev_sibling.is_none());
    assert!(d.next_sibling.is_none());
    let ix = d.as_indexes();
    assert!(ix.parent.is_none());
    assert!(ix.prev_sibling.is_none());
    assert!(ix.next_sibling.is_none());
}

#[test]
fn node_idx_queries() {
    let none = NodeIdx::none();
    assert!(none.is_none());
    assert!(!none.is_some());
    let mut t: Tree<u32, i32> = Tree::new(1);
    let n = t.create_node(0);
    assert!(!none.is_node(&n));
    assert!(none.as_node(1u32).is_none());
}
