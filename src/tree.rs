//! Owning handles: a tree owns its root, a forest owns a ring of roots.
use vstd::prelude::*;

use crate::node::Node;
use crate::ring::{Ring, Subtrees};

verus! {

/// The roots of `trees`, in their order.
pub open spec fn roots_of<T>(trees: Seq<Tree<T>>) -> Seq<Node<T>> {
    trees.map_values(|t: Tree<T>| t@)
}

/// A rooted tree: the owner of its root node and, through it, of every
/// node below.
pub struct Tree<T> {
    root: Node<T>,
}

impl<T> View for Tree<T> {
    type V = Node<T>;

    /// The root node.
    closed spec fn view(&self) -> Node<T> {
        self.root
    }
}

impl<T> Tree<T> {
    /// A tree of one node holding `data`.
    pub fn new(data: T) -> (t: Self)
        ensures
            t@.payload() == data,
            t@.child_nodes().len() == 0,
    {
        Tree { root: Node::new(data) }
    }

    /// The tree whose root is `root`.
    pub fn from_root(root: Node<T>) -> (t: Self)
        ensures
            t@ == root,
    {
        Tree { root }
    }

    /// Gives up the tree, handing out its root.
    pub fn into_root(self) -> (r: Node<T>)
        ensures
            r == self@,
    {
        self.root
    }

    /// Borrows the root.
    pub fn root(&self) -> (r: &Node<T>)
        ensures
            *r == self@,
    {
        &self.root
    }

    /// Borrows the root for change.
    pub fn root_mut(&mut self) -> (r: &mut Node<T>)
        ensures
            *r == old(self)@,
            final(self)@ == *final(r),
    {
        &mut self.root
    }
}

/// An ordered sequence of sibling trees with no common parent.
pub struct Forest<T> {
    ring: Ring<T>,
}

impl<T> View for Forest<T> {
    type V = Seq<Node<T>>;

    /// The roots, first to last.
    closed spec fn view(&self) -> Seq<Node<T>> {
        self.ring@
    }
}

impl<T> Forest<T> {
    /// A forest of no tree.
    pub fn new() -> (f: Self)
        ensures
            f@.len() == 0,
    {
        Forest { ring: Ring::new() }
    }

    /// Gives up the forest, handing out the ring of its roots.
    pub fn into_ring(self) -> (r: Ring<T>)
        ensures
            r@ == self@,
    {
        self.ring
    }

    /// Whether the forest holds no tree.
    pub fn is_empty(&self) -> (r: bool)
        ensures
            r == (self@.len() == 0),
    {
        self.ring.is_empty()
    }

    /// Adds the tree as the first one.
    pub fn push_front(&mut self, tree: Tree<T>)
        ensures
            final(self)@ == seq![tree@] + old(self)@,
    {
        self.ring.push_front(tree.into_root());
    }

    /// Adds the tree as the last one.
    pub fn push_back(&mut self, tree: Tree<T>)
        ensures
            final(self)@ == old(self)@.push(tree@),
    {
        self.ring.push_back(tree.into_root());
    }

    /// Removes the first tree and returns it; `None` when the forest is
    /// empty.
    pub fn pop_front(&mut self) -> (r: Option<Tree<T>>)
        ensures
            old(self)@.len() == 0 ==> r is None && final(self)@ == old(self)@,
            old(self)@.len() > 0 ==> r is Some && r->0@ == old(self)@[0]
                && final(self)@ == old(self)@.drop_first(),
    {
        match self.ring.pop_front() {
            Some(node) => Some(Tree::from_root(node)),
            None => None,
        }
    }

    /// Adds all the trees of `other`, in their order, before the first one.
    pub fn prepend(&mut self, other: Forest<T>)
        ensures
            final(self)@ == other@ + old(self)@,
    {
        self.ring.prepend(other.ring);
    }

    /// Adds all the trees of `other`, in their order, after the last one.
    pub fn append(&mut self, other: Forest<T>)
        ensures
            final(self)@ == old(self)@ + other@,
    {
        self.ring.append(other.ring);
    }

    /// Borrows the roots, first to last.
    pub fn roots(&self) -> (r: Vec<&Node<T>>)
        ensures
            r@.len() == self@.len(),
            forall|k: int| 0 <= k < r@.len() ==> *(#[trigger] r@[k]) == self@[k],
    {
        self.ring.nodes()
    }
}

impl<T> Subtrees<T> {
    /// Gives up the cursor, handing out its trees as a forest.
    pub fn into_forest(self) -> (f: Forest<T>)
        ensures
            f@ == self.nodes(),
    {
        Forest { ring: self.into_ring() }
    }
}

} // verus!
