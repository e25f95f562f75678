use std::cmp::Ordering;
use trees::node::Node;
use trees::ring::Subtrees;
use trees::tree::{Forest, Tree};

fn child_data(node: &Node<i32>) -> Vec<i32> {
    node.children().iter().map(|c| c.data).collect()
}

fn forest_of(items: &[i32]) -> Forest<i32> {
    let mut f = Forest::new();
    for &x in items {
        f.push_back(Tree::new(x));
    }
    f
}

#[test]
fn push_back_push_front_pop_front_scenario() {
    let mut t = Tree::new(0);
    t.root_mut().push_back(Tree::new(1));
    t.root_mut().push_back(Tree::new(2));
    assert_eq!(child_data(t.root()), vec![1, 2]);
    t.root_mut().push_front(Tree::new(3));
    assert_eq!(child_data(t.root()), vec![3, 1, 2]);
    let popped = t.root_mut().pop_front().unwrap();
    assert_eq!(popped.root().data, 3);
    assert!(popped.root().is_leaf());
    assert_eq!(child_data(t.root()), vec![1, 2]);
    assert_eq!(t.root().data, 0);
}

#[test]
fn append_then_prepend_scenario() {
    let mut t = Tree::new(0);
    t.root_mut().push_back(Tree::new(1));
    t.root_mut().append(forest_of(&[2, 3]));
    assert_eq!(child_data(t.root()), vec![1, 2, 3]);
    t.root_mut().prepend(forest_of(&[4, 5]));
    assert_eq!(child_data(t.root()), vec![4, 5, 1, 2, 3]);
}

#[test]
fn leaf_has_no_children_until_a_push() {
    let mut n = Node::new(7);
    assert_eq!(n.children().len(), 0);
    assert!(n.is_leaf());
    n.push_front(Tree::new(8));
    assert!(!n.is_leaf());
    let mut m = Node::new(7);
    m.push_back(Tree::new(8));
    assert!(!m.is_leaf());
}

#[test]
fn push_to_leaf_gives_one_child() {
    let mut n = Node::new(0);
    let mut sub = Tree::new(5);
    sub.root_mut().push_back(Tree::new(6));
    n.push_back(sub);
    let kids = n.children();
    assert_eq!(kids.len(), 1);
    assert_eq!(kids[0].data, 5);
    assert_eq!(child_data(kids[0]), vec![6]);
}

#[test]
fn push_front_then_pop_front_restores_children() {
    let mut n = Node::new(0);
    n.extend(vec![Tree::new(1), Tree::new(2), Tree::new(3)]);
    let mut pushed = Tree::new(9);
    pushed.root_mut().push_back(Tree::new(10));
    n.push_front(pushed);
    let back = n.pop_front().unwrap();
    assert_eq!(back.root().data, 9);
    assert_eq!(child_data(back.root()), vec![10]);
    assert_eq!(child_data(&n), vec![1, 2, 3]);
}

#[test]
fn pop_front_of_leaf_is_none() {
    let mut n = Node::new(1);
    assert!(n.pop_front().is_none());
    assert!(n.is_leaf());
}

#[test]
fn pop_front_of_only_child_leaves_leaf() {
    let mut n = Node::new(1);
    n.push_back(Tree::new(2));
    assert_eq!(n.pop_front().unwrap().root().data, 2);
    assert!(n.is_leaf());
    n.push_back(Tree::new(3));
    assert_eq!(child_data(&n), vec![3]);
}

#[test]
fn append_to_leaf_and_empty_forest() {
    let mut n = Node::new(0);
    n.append(Forest::new());
    assert!(n.is_leaf());
    n.append(forest_of(&[1, 2]));
    assert_eq!(child_data(&n), vec![1, 2]);
    n.prepend(Forest::new());
    assert_eq!(child_data(&n), vec![1, 2]);
    let mut m = Node::new(0);
    m.prepend(forest_of(&[3, 4]));
    assert_eq!(child_data(&m), vec![3, 4]);
}

#[test]
fn split_and_rebuild_forest() {
    let mut f = forest_of(&[1, 2, 3, 4]);
    let mut rebuilt = Forest::new();
    while let Some(t) = f.pop_front() {
        let mut piece = Forest::new();
        piece.push_back(t);
        rebuilt.append(piece);
    }
    assert!(f.is_empty());
    let roots: Vec<i32> = rebuilt.roots().iter().map(|r| r.data).collect();
    assert_eq!(roots, vec![1, 2, 3, 4]);
}

#[test]
fn slots_are_reused_after_pops() {
    let mut n = Node::new(0);
    n.extend(vec![Tree::new(1), Tree::new(2), Tree::new(3)]);
    n.pop_front();
    n.pop_front();
    n.push_back(Tree::new(4));
    n.push_front(Tree::new(5));
    n.push_back(Tree::new(6));
    assert_eq!(child_data(&n), vec![5, 3, 4, 6]);
}

#[test]
fn forest_front_and_back() {
    let mut f = Forest::new();
    assert!(f.is_empty());
    f.push_back(Tree::new(2));
    f.push_front(Tree::new(1));
    f.push_back(Tree::new(3));
    f.prepend(forest_of(&[0]));
    f.append(forest_of(&[4]));
    let roots: Vec<i32> = f.roots().iter().map(|r| r.data).collect();
    assert_eq!(roots, vec![0, 1, 2, 3, 4]);
    assert_eq!(f.pop_front().unwrap().into_root().data, 0);
}

#[test]
fn deep_tree_children() {
    let mut leaf_parent = Tree::new(2);
    leaf_parent.root_mut().push_back(Tree::new(3));
    let mut mid = Tree::new(1);
    mid.root_mut().push_back(leaf_parent);
    let mut top = Node::new(0);
    top.push_back(mid);
    let c1 = top.children();
    let c2 = c1[0].children();
    let c3 = c2[0].children();
    assert_eq!((c1[0].data, c2[0].data, c3[0].data), (1, 2, 3));
    assert!(c3[0].is_leaf());
}

fn sample(leaf: i32) -> Tree<i32> {
    let mut t = Tree::new(0);
    let mut mid = Tree::new(1);
    mid.root_mut().push_back(Tree::new(leaf));
    t.root_mut().push_back(mid);
    t.root_mut().push_back(Tree::new(3));
    t
}

#[test]
fn equality_is_reflexive() {
    let t = sample(2);
    assert!(t.root() == t.root());
    assert!(!(t.root() != t.root()));
}

#[test]
fn same_construction_gives_equal_trees() {
    let a = sample(2);
    let b = sample(2);
    assert!(a.root() == b.root());
}

#[test]
fn one_descendant_differs_gives_unequal_trees() {
    let a = sample(2);
    let b = sample(9);
    assert!(a.root() != b.root());
    assert!(!(a.root() == b.root()));
    let c = Tree::new(5);
    let d = Tree::new(6);
    assert!(c.root() != d.root());
}

#[test]
fn different_child_counts_are_unequal() {
    let mut a = Node::new(0);
    a.push_back(Tree::new(1));
    let mut b = Node::new(0);
    b.push_back(Tree::new(1));
    b.push_back(Tree::new(1));
    assert!(a != b);
}

#[test]
fn popped_tree_equals_pushed_tree() {
    let mut n = Node::new(0);
    n.push_back(Tree::new(1));
    n.push_front(sample(4));
    let popped = n.pop_front().unwrap();
    assert!(popped.root() == sample(4).root());
}

#[test]
fn children_mut_rewrites_each_child() {
    let mut n = Node::new(0);
    n.extend(vec![Tree::new(1), Tree::new(2)]);
    n.children_mut(|mut c: Node<i32>| {
        c.data = c.data * 10;
        c
    });
    assert_eq!(child_data(&n), vec![10, 20]);
    assert_eq!(n.data, 0);
}

#[test]
fn subtrees_cursor_edits() {
    let mut n = Node::new(0);
    n.extend(vec![Tree::new(1), Tree::new(2), Tree::new(3)]);
    n.subtrees(|mut c: Subtrees<i32>| {
        assert_eq!(c.current().unwrap().data, 1);
        c.insert_before(Tree::new(10));
        assert_eq!(c.current().unwrap().data, 1);
        c.insert_after(Tree::new(11));
        c.advance();
        assert_eq!(c.current().unwrap().data, 11);
        let removed = c.remove();
        assert_eq!(removed.root().data, 11);
        assert_eq!(c.current().unwrap().data, 2);
        c.advance();
        c.advance();
        assert!(c.current().is_none());
        c.insert_before(Tree::new(12));
        assert!(c.current().is_none());
        c
    });
    assert_eq!(child_data(&n), vec![10, 1, 2, 3, 12]);
}

#[test]
fn subtrees_without_edits_keeps_children() {
    let mut n = Node::new(0);
    n.extend(vec![Tree::new(1), Tree::new(2), Tree::new(3)]);
    n.subtrees(|c: Subtrees<i32>| c);
    assert_eq!(child_data(&n), vec![1, 2, 3]);
    n.subtrees(|mut c: Subtrees<i32>| {
        c.advance();
        c
    });
    assert_eq!(child_data(&n), vec![1, 2, 3]);
}

#[test]
fn subtrees_remove_last_and_only() {
    let mut n = Node::new(0);
    n.push_back(Tree::new(1));
    n.subtrees(|mut c: Subtrees<i32>| {
        assert_eq!(c.remove().root().data, 1);
        assert!(c.current().is_none());
        c.insert_before(Tree::new(2));
        c.insert_before(Tree::new(3));
        c
    });
    assert_eq!(child_data(&n), vec![2, 3]);

    let mut m = Node::new(0);
    m.extend(vec![Tree::new(1), Tree::new(2)]);
    m.subtrees(|mut c: Subtrees<i32>| {
        c.advance();
        assert_eq!(c.remove().root().data, 2);
        assert!(c.current().is_none());
        c.insert_before(Tree::new(5));
        c
    });
    assert_eq!(child_data(&m), vec![1, 5]);
}

#[test]
fn subtrees_of_leaf_is_empty() {
    let mut n: Node<i32> = Node::new(0);
    n.subtrees(|mut c: Subtrees<i32>| {
        assert!(c.current().is_none());
        c.insert_before(Tree::new(1));
        c.insert_before(Tree::new(7));
        c
    });
    assert_eq!(child_data(&n), vec![1, 7]);
}

#[test]
fn subtrees_cursor_into_forest() {
    let mut n = Node::new(0);
    n.extend(vec![Tree::new(1), Tree::new(2)]);
    let mut moved = Forest::new();
    n.subtrees(|mut c: Subtrees<i32>| {
        let first = c.remove();
        moved.push_back(first);
        c
    });
    assert_eq!(child_data(&n), vec![2]);
    let roots: Vec<i32> = moved.roots().iter().map(|r| r.data).collect();
    assert_eq!(roots, vec![1]);
}

#[test]
fn insert_after_single_child() {
    let mut n = Node::new(0);
    n.push_back(Tree::new(1));
    n.subtrees(|mut c: Subtrees<i32>| {
        c.insert_after(Tree::new(2));
        c.insert_after(Tree::new(3));
        c
    });
    assert_eq!(child_data(&n), vec![1, 3, 2]);
}

#[test]
fn payload_accessors() {
    let mut n = Node::new(4);
    n.push_back(Tree::new(5));
    assert_eq!(*n.data(), 4);
    n.set_data(6);
    assert_eq!(*n.data(), 6);
    *n.data_mut() += 1;
    assert_eq!(n.data, 7);
    assert_eq!(child_data(&n), vec![5]);
}

#[test]
fn children_mut_multiplies_by_ten() {
    let mut n = Node::new(0);
    n.extend(vec![Tree::new(1), Tree::new(2)]);
    n.children_mut(|mut c: Node<i32>| {
        *c.data_mut() *= 10;
        c
    });
    assert_eq!(child_data(&n), vec![10, 20]);
}

#[test]
fn ordering_by_payload_then_children() {
    let a = sample(2);
    let b = sample(9);
    assert_eq!(a.root().partial_cmp(b.root()), Some(Ordering::Less));
    assert_eq!(b.root().partial_cmp(a.root()), Some(Ordering::Greater));
    assert_eq!(a.root().partial_cmp(sample(2).root()), Some(Ordering::Equal));
    assert!(Tree::new(1).root() < Tree::new(2).root());
    let mut short = Node::new(0);
    short.push_back(Tree::new(1));
    let mut long = Node::new(0);
    long.extend(vec![Tree::new(1), Tree::new(0)]);
    assert_eq!(short.partial_cmp(&long), Some(Ordering::Less));
    assert!(long > short);
    let mut big_first = Node::new(0);
    big_first.push_back(Tree::new(5));
    assert!(big_first > long);
}
