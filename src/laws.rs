//! Laws that relate the structural edits to one another, stated over the
//! sequences that the edits' contracts speak of.
use vstd::prelude::*;

use crate::node::{forest_eq, tree_eq, Node};
use vstd::std_specs::cmp::PartialEqSpec;
use crate::tree::{Forest, Tree};

verus! {

/// Pushing `tree` at the front of `node`'s children and then popping the
/// front hands back `tree` and leaves the children as they were.
pub proof fn lemma_push_front_pop_front<T>(node: Node<T>, tree: Tree<T>)
    ensures
        (seq![tree@] + node.child_nodes()).len() > 0,
        (seq![tree@] + node.child_nodes())[0] == tree@,
        (seq![tree@] + node.child_nodes()).drop_first() == node.child_nodes(),
{
    assert((seq![tree@] + node.child_nodes()).drop_first() =~= node.child_nodes());
}

/// Appending `forest` to `node`'s children keeps the old children, in their
/// order, and puts the forest's trees after them, in their order.
pub proof fn lemma_append_keeps_order<T>(node: Node<T>, forest: Forest<T>)
    ensures
        (node.child_nodes() + forest@).len() == node.child_nodes().len() + forest@.len(),
        forall|k: int| 0 <= k < node.child_nodes().len() ==>
            #[trigger] (node.child_nodes() + forest@)[k] == node.child_nodes()[k],
        forall|k: int| 0 <= k < forest@.len() ==>
            (node.child_nodes() + forest@)[node.child_nodes().len() + k] == #[trigger] forest@[k],
{
}

/// A tree pushed, at either end, to a leaf is then its only child.
pub proof fn lemma_push_to_leaf<T>(node: Node<T>, tree: Tree<T>)
    requires
        node.child_nodes().len() == 0,
    ensures
        seq![tree@] + node.child_nodes() == seq![tree@],
        node.child_nodes().push(tree@) == seq![tree@],
{
    assert(seq![tree@] + node.child_nodes() =~= seq![tree@]);
    assert(node.child_nodes().push(tree@) =~= seq![tree@]);
}

/// The forest that results from popping the trees of `rest` one by one off
/// its front and appending each, as a forest of one tree, to `acc`.
pub open spec fn drain_into<T>(acc: Seq<Node<T>>, rest: Seq<Node<T>>) -> Seq<Node<T>>
    decreases rest.len(),
{
    if rest.len() == 0 {
        acc
    } else {
        drain_into(acc + seq![rest[0]], rest.drop_first())
    }
}

/// Draining a forest tree by tree into another one appends it as it was.
pub proof fn lemma_drain_into<T>(acc: Seq<Node<T>>, rest: Seq<Node<T>>)
    ensures
        drain_into(acc, rest) == acc + rest,
    decreases rest.len(),
{
    if rest.len() == 0 {
        assert(acc + rest =~= acc);
    } else {
        lemma_drain_into(acc + seq![rest[0]], rest.drop_first());
        assert(acc + seq![rest[0]] + rest.drop_first() =~= acc + rest);
    }
}

/// Splitting a forest into its trees by popping them off its front, then
/// appending the pieces in turn to an empty forest, rebuilds the forest.
pub proof fn lemma_split_rebuild<T>(forest: Forest<T>)
    requires
        forest@.len() > 0,
    ensures
        drain_into(Seq::empty(), forest@) == forest@,
{
    lemma_drain_into(Seq::empty(), forest@);
    assert(Seq::<Node<T>>::empty() + forest@ =~= forest@);
}

/// Tree equality is reflexive wherever equality of the payloads is.
pub proof fn lemma_tree_eq_reflexive<T: PartialEq>(a: Node<T>)
    requires
        forall|x: T| (#[trigger] x.eq_spec(&x)),
    ensures
        tree_eq(a, a),
    decreases a,
{
    assert forall|k: int| 0 <= k < a.child_nodes().len() implies tree_eq(#[trigger] a.child_nodes()[k], a.child_nodes()[k]) by {
        a.lemma_child_decreases(k);
        lemma_tree_eq_reflexive(a.child_nodes()[k]);
    }
}

/// Two trees are equal exactly when their payloads are equal and their
/// children are equal as sequences of trees.
pub proof fn lemma_tree_eq_parts<T: PartialEq>(a: Node<T>, b: Node<T>)
    ensures
        tree_eq(a, b) == (a.payload().eq_spec(&b.payload()) && forest_eq(a.child_nodes(), b.child_nodes())),
{
}

/// Trees that differ in their roots' payloads are unequal, and so are trees
/// with some pair of children, at the same place, unequal.
pub proof fn lemma_tree_eq_differs<T: PartialEq>(a: Node<T>, b: Node<T>, k: int)
    requires
        !a.payload().eq_spec(&b.payload())
            || (0 <= k < a.child_nodes().len() && 0 <= k < b.child_nodes().len()
                && !tree_eq(a.child_nodes()[k], b.child_nodes()[k])),
    ensures
        !tree_eq(a, b),
{
}

/// Joining equal sequences of trees gives equal sequences: the edits that
/// add trees at either end, one at a time or a forest at once, keep equal
/// children equal when they add equal trees.
pub proof fn lemma_forest_eq_concat<T: PartialEq>(s1: Seq<Node<T>>, t1: Seq<Node<T>>, s2: Seq<Node<T>>, t2: Seq<Node<T>>)
    requires
        forest_eq(s1, t1),
        forest_eq(s2, t2),
    ensures
        forest_eq(s1 + s2, t1 + t2),
{
    assert forall|k: int| 0 <= k < (s1 + s2).len() implies tree_eq(#[trigger] (s1 + s2)[k], (t1 + t2)[k]) by {
        if k < s1.len() {
            assert((s1 + s2)[k] == s1[k]);
            assert((t1 + t2)[k] == t1[k]);
        } else {
            assert((s1 + s2)[k] == s2[k - s1.len()]);
            assert((t1 + t2)[k] == t2[k - s1.len()]);
        }
    }
}

/// Popping the first tree off equal sequences leaves equal sequences.
pub proof fn lemma_forest_eq_drop_first<T: PartialEq>(s: Seq<Node<T>>, t: Seq<Node<T>>)
    requires
        forest_eq(s, t),
        s.len() > 0,
    ensures
        tree_eq(s[0], t[0]),
        forest_eq(s.drop_first(), t.drop_first()),
{
    assert forall|k: int| 0 <= k < s.drop_first().len() implies tree_eq(#[trigger] s.drop_first()[k], t.drop_first()[k]) by {
        assert(s.drop_first()[k] == s[k + 1]);
    }
}

/// The descendant of `a` reached by taking, level by level, the child at
/// the next place of `path`; `None` where such a child is missing.
pub open spec fn descendant<T>(a: Node<T>, path: Seq<int>) -> Option<Node<T>>
    decreases path.len(),
{
    if path.len() == 0 {
        Some(a)
    } else if 0 <= path[0] < a.child_nodes().len() {
        descendant(a.child_nodes()[path[0]], path.drop_first())
    } else {
        None
    }
}

/// Trees with unequal payloads at the same place, at any depth, are
/// unequal.
pub proof fn lemma_tree_eq_descendant_differs<T: PartialEq>(a: Node<T>, b: Node<T>, path: Seq<int>)
    requires
        descendant(a, path) is Some,
        descendant(b, path) is Some,
        !descendant(a, path)->0.payload().eq_spec(&descendant(b, path)->0.payload()),
    ensures
        !tree_eq(a, b),
    decreases path.len(),
{
    if path.len() > 0 {
        let k = path[0];
        lemma_tree_eq_descendant_differs(a.child_nodes()[k], b.child_nodes()[k], path.drop_first());
        assert(!tree_eq(a.child_nodes()[k], b.child_nodes()[k]));
    }
}

/// Two new nodes made from the same payload are equal trees, wherever
/// equality of the payloads is reflexive.
pub proof fn lemma_tree_eq_new<T: PartialEq>(a: Node<T>, b: Node<T>)
    requires
        forall|x: T| (#[trigger] x.eq_spec(&x)),
        a.payload() == b.payload(),
        a.child_nodes().len() == 0,
        b.child_nodes().len() == 0,
    ensures
        tree_eq(a, b),
{
    assert(a.payload().eq_spec(&a.payload()));
}

/// Two equal trees stay equal when equal trees are added to both, in the
/// same places: before the first child (`push_front`, `prepend`) and after
/// the last one (`push_back`, `append`, `extend`).
pub proof fn lemma_tree_eq_add<T: PartialEq>(
    a: Node<T>,
    b: Node<T>,
    a2: Node<T>,
    b2: Node<T>,
    front_a: Seq<Node<T>>,
    front_b: Seq<Node<T>>,
    back_a: Seq<Node<T>>,
    back_b: Seq<Node<T>>,
)
    requires
        tree_eq(a, b),
        forest_eq(front_a, front_b),
        forest_eq(back_a, back_b),
        a2.payload() == a.payload(),
        b2.payload() == b.payload(),
        a2.child_nodes() == front_a + a.child_nodes() + back_a,
        b2.child_nodes() == front_b + b.child_nodes() + back_b,
    ensures
        tree_eq(a2, b2),
{
    assert(forest_eq(a.child_nodes(), b.child_nodes()));
    lemma_forest_eq_concat(front_a, front_b, a.child_nodes(), b.child_nodes());
    lemma_forest_eq_concat(front_a + a.child_nodes(), front_b + b.child_nodes(), back_a, back_b);
}

/// Popping the first child off two equal trees pops equal trees and leaves
/// equal trees.
pub proof fn lemma_tree_eq_pop_front<T: PartialEq>(a: Node<T>, b: Node<T>, a2: Node<T>, b2: Node<T>)
    requires
        tree_eq(a, b),
        a.child_nodes().len() > 0,
        a2.payload() == a.payload(),
        b2.payload() == b.payload(),
        a2.child_nodes() == a.child_nodes().drop_first(),
        b2.child_nodes() == b.child_nodes().drop_first(),
    ensures
        tree_eq(a.child_nodes()[0], b.child_nodes()[0]),
        tree_eq(a2, b2),
{
    assert(forest_eq(a.child_nodes(), b.child_nodes()));
    lemma_forest_eq_drop_first(a.child_nodes(), b.child_nodes());
}

/// A single tree, as a sequence of one, is equal to a single equal tree.
pub proof fn lemma_forest_eq_single<T: PartialEq>(x: Node<T>, y: Node<T>)
    requires
        tree_eq(x, y),
    ensures
        forest_eq(seq![x], seq![y]),
        forest_eq(Seq::<Node<T>>::empty(), Seq::<Node<T>>::empty()),
{
    assert(seq![x][0] == x);
}

} // verus!
