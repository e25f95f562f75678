//! Tree vertices.
use vstd::prelude::*;
use vstd::std_specs::cmp::{PartialEqSpec, PartialOrdSpec};

use core::cmp::Ordering;

use crate::ring::{Ring, Subtrees};
use crate::tree::{roots_of, Forest, Tree};

verus! {

/// One vertex of a tree: a payload and the ring of its children.
pub struct Node<T> {
    pub data: T,
    kids: Ring<T>,
}

impl<T> Node<T> {
    /// The payload.
    pub closed spec fn payload(&self) -> T {
        self.data
    }

    /// The children, first to last.
    pub closed spec fn child_nodes(&self) -> Seq<Node<T>> {
        self.kids@
    }

    /// A node holding `data` and no children.
    pub fn new(data: T) -> (n: Self)
        ensures
            n.payload() == data,
            n.child_nodes().len() == 0,
    {
        Node { data, kids: Ring::new() }
    }

    /// Whether the node has no children.
    pub fn is_leaf(&self) -> (r: bool)
        ensures
            r == (self.child_nodes().len() == 0),
    {
        self.kids.is_empty()
    }

    /// Adds the tree as the first child.
    pub fn push_front(&mut self, tree: Tree<T>)
        ensures
            final(self).payload() == old(self).payload(),
            final(self).child_nodes() == seq![tree@] + old(self).child_nodes(),
    {
        self.kids.push_front(tree.into_root());
    }

    /// Adds the tree as the last child.
    pub fn push_back(&mut self, tree: Tree<T>)
        ensures
            final(self).payload() == old(self).payload(),
            final(self).child_nodes() == old(self).child_nodes().push(tree@),
    {
        self.kids.push_back(tree.into_root());
    }

    /// Removes the first child and returns it as a tree of its own; `None`
    /// for a leaf.
    pub fn pop_front(&mut self) -> (r: Option<Tree<T>>)
        ensures
            final(self).payload() == old(self).payload(),
            old(self).child_nodes().len() == 0 ==> r is None && final(self).child_nodes() == old(self).child_nodes(),
            old(self).child_nodes().len() > 0 ==> r is Some && r->0@ == old(self).child_nodes()[0]
                && final(self).child_nodes() == old(self).child_nodes().drop_first(),
    {
        match self.kids.pop_front() {
            Some(node) => Some(Tree::from_root(node)),
            None => None,
        }
    }

    /// Adds all the forest's trees, in their order, before the first child.
    pub fn prepend(&mut self, forest: Forest<T>)
        ensures
            final(self).payload() == old(self).payload(),
            final(self).child_nodes() == forest@ + old(self).child_nodes(),
    {
        self.kids.prepend(forest.into_ring());
    }

    /// Adds all the forest's trees, in their order, after the last child.
    pub fn append(&mut self, forest: Forest<T>)
        ensures
            final(self).payload() == old(self).payload(),
            final(self).child_nodes() == old(self).child_nodes() + forest@,
    {
        self.kids.append(forest.into_ring());
    }

    /// Borrows the children, first to last.
    pub fn children(&self) -> (r: Vec<&Node<T>>)
        ensures
            r@.len() == self.child_nodes().len(),
            forall|k: int| 0 <= k < r@.len() ==> *(#[trigger] r@[k]) == self.child_nodes()[k],
    {
        self.kids.nodes()
    }

    /// Hands each child, first to last, to `f` and puts back what it returns
    /// in its place; the children keep their places and their number.
    pub fn children_mut<F: Fn(Node<T>) -> Node<T>>(&mut self, f: F)
        requires
            forall|k: int| 0 <= k < old(self).child_nodes().len() ==> f.requires((#[trigger] old(self).child_nodes()[k],)),
        ensures
            final(self).payload() == old(self).payload(),
            final(self).child_nodes().len() == old(self).child_nodes().len(),
            forall|k: int| 0 <= k < old(self).child_nodes().len() ==>
                f.ensures((#[trigger] old(self).child_nodes()[k],), final(self).child_nodes()[k]),
    {
        assert forall|k: int| 0 <= k < self.kids@.len() implies f.requires((#[trigger] self.kids@[k],)) by {
            assert(self.kids@[k] == self.child_nodes()[k]);
        }
        self.kids.map_nodes(f);
    }

    /// Edits the children in place through a cursor: `f` gets a cursor that
    /// stands on the first child and hands back the cursor it is done with,
    /// whose trees are then the node's children. Where `f` hands back what it
    /// got, the children stay as they were.
    pub fn subtrees<F: FnOnce(Subtrees<T>) -> Subtrees<T>>(&mut self, f: F)
        requires
            forall|c: Subtrees<T>| c.nodes() == old(self).child_nodes() && c.pos() == 0 ==> #[trigger] f.requires((c,)),
        ensures
            final(self).payload() == old(self).payload(),
            exists|c0: Subtrees<T>, c2: Subtrees<T>|
                c0.nodes() == old(self).child_nodes() && c0.pos() == 0 && #[trigger] f.ensures((c0,), c2)
                && final(self).child_nodes() == c2.nodes(),
            (forall|c: Subtrees<T>, c2: Subtrees<T>| #[trigger] f.ensures((c,), c2) ==> c2.nodes() == c.nodes())
                ==> final(self).child_nodes() == old(self).child_nodes(),
    {
        let c0 = Subtrees::new(self.kids.take());
        let c2 = f(c0);
        self.kids = c2.into_ring();
    }

    /// Borrows the payload.
    pub fn data(&self) -> (r: &T)
        ensures
            *r == self.payload(),
    {
        &self.data
    }

    /// Borrows the payload for change; the children stay as they are.
    pub fn data_mut(&mut self) -> (r: &mut T)
        ensures
            *r == old(self).payload(),
            final(self).payload() == *final(r),
            final(self).child_nodes() == old(self).child_nodes(),
    {
        &mut self.data
    }

    /// Replaces the payload; the children stay as they are.
    pub fn set_data(&mut self, data: T)
        ensures
            final(self).payload() == data,
            final(self).child_nodes() == old(self).child_nodes(),
    {
        self.data = data;
    }

    /// Adds the trees, in their order, after the last child.
    pub fn extend(&mut self, trees: Vec<Tree<T>>)
        ensures
            final(self).payload() == old(self).payload(),
            final(self).child_nodes() == old(self).child_nodes() + roots_of(trees@),
    {
        let ghost start = self.child_nodes();
        for tree in it: trees
            invariant
                self.payload() == old(self).payload(),
                it.seq() == trees@,
                self.child_nodes() == start + roots_of(it.seq().take(it.index() as int)),
        {
            let ghost done = it.seq().take(it.index() as int);
            self.push_back(tree);
            assert(roots_of(it.seq().take(it.index() as int + 1)) =~= roots_of(done).push(tree@));
        }
    }
}

/// Two trees are equal when their roots' payloads are equal, as `T`'s own
/// equality has it, and their children are equal pairwise, first to last.
pub open spec fn tree_eq<T: PartialEq>(a: Node<T>, b: Node<T>) -> bool
    decreases a
    via tree_eq_decreases::<T>

{
    &&& a.payload().eq_spec(&b.payload())
    &&& a.child_nodes().len() == b.child_nodes().len()
    &&& forall|k: int| 0 <= k < a.child_nodes().len() ==>
            tree_eq(#[trigger] a.child_nodes()[k], b.child_nodes()[k])
}

/// Two sequences of trees are equal when they are equally long and equal
/// tree by tree.
pub open spec fn forest_eq<T: PartialEq>(s: Seq<Node<T>>, t: Seq<Node<T>>) -> bool {
    &&& s.len() == t.len()
    &&& forall|k: int| 0 <= k < s.len() ==> tree_eq(#[trigger] s[k], t[k])
}

#[via_fn]
proof fn tree_eq_decreases<T: PartialEq>(a: Node<T>, b: Node<T>) {
    assert forall|k: int| 0 <= k < a.child_nodes().len() implies decreases_to!(a => a.child_nodes()[k]) by {
        a.lemma_child_decreases(k);
    }
}

impl<T> Node<T> {
    /// Each child is a part of the node that holds it.
    pub proof fn lemma_child_decreases(&self, k: int)
        requires
            0 <= k < self.child_nodes().len(),
        ensures
            decreases_to!(self => self.child_nodes()[k]),
    {
        self.kids.lemma_view_decreases(k);
    }
}

impl<T: PartialEq> Node<T> {
    /// Compares two trees: payloads first, then the children pairwise.
    fn same_tree(&self, other: &Node<T>) -> (r: bool)
        ensures
            T::obeys_eq_spec() ==> r == tree_eq(*self, *other),
        decreases *self,
    {
        if !self.data.eq(&other.data) {
            return false;
        }
        let a = self.children();
        let b = other.children();
        if a.len() != b.len() {
            return false;
        }
        let mut i: usize = 0;
        while i < a.len()
            invariant
                i <= a@.len(),
                a@.len() == self.child_nodes().len(),
                b@.len() == other.child_nodes().len(),
                a@.len() == b@.len(),
                T::obeys_eq_spec() ==> self.data.eq_spec(&other.data),
                forall|k: int| 0 <= k < a@.len() ==> *(#[trigger] a@[k]) == self.child_nodes()[k],
                forall|k: int| 0 <= k < b@.len() ==> *(#[trigger] b@[k]) == other.child_nodes()[k],
                T::obeys_eq_spec() ==> forall|k: int| 0 <= k < i ==>
                    tree_eq(#[trigger] self.child_nodes()[k], other.child_nodes()[k]),
            decreases a@.len() - i,
        {
            proof { self.lemma_child_decreases(i as int); }
            let same = a[i].same_tree(b[i]);
            assert(*a@[i as int] == self.child_nodes()[i as int]);
            assert(*b@[i as int] == other.child_nodes()[i as int]);
            if !same {
                assert(T::obeys_eq_spec() ==> !tree_eq(self.child_nodes()[i as int], other.child_nodes()[i as int]));
                return false;
            }
            i = i + 1;
        }
        proof {
            if T::obeys_eq_spec() {
                assert(tree_eq(*self, *other));
            }
        }
        true
    }
}

impl<T: PartialEq> PartialEq for Node<T> {
    fn eq(&self, other: &Node<T>) -> (r: bool) {
        self.same_tree(other)
    }

    fn ne(&self, other: &Node<T>) -> (r: bool) {
        !self.same_tree(other)
    }
}

impl<T: PartialEq> vstd::std_specs::cmp::PartialEqSpecImpl for Node<T> {
    open spec fn obeys_eq_spec() -> bool {
        T::obeys_eq_spec()
    }

    open spec fn eq_spec(&self, other: &Node<T>) -> bool {
        tree_eq(*self, *other)
    }
}

/// Trees are ordered by their roots' payloads, as `T`'s own order has
/// them, and, where those are equal, by their children, first to last, as
/// words are ordered by their letters.
pub open spec fn tree_cmp<T: PartialOrd>(a: Node<T>, b: Node<T>) -> Option<Ordering>
    decreases a, a.child_nodes().len() + 1
    via tree_cmp_decreases::<T>
{
    match a.payload().partial_cmp_spec(&b.payload()) {
        Some(Ordering::Equal) => kids_cmp(a, b, 0),
        other => other,
    }
}

/// The order of the children of `a` and `b` from place `k` on.
pub open spec fn kids_cmp<T: PartialOrd>(a: Node<T>, b: Node<T>, k: nat) -> Option<Ordering>
    decreases a, a.child_nodes().len() - k
    via kids_cmp_decreases::<T>
{
    if k >= a.child_nodes().len() {
        if k >= b.child_nodes().len() {
            Some(Ordering::Equal)
        } else {
            Some(Ordering::Less)
        }
    } else if k >= b.child_nodes().len() {
        Some(Ordering::Greater)
    } else {
        match tree_cmp(a.child_nodes()[k as int], b.child_nodes()[k as int]) {
            Some(Ordering::Equal) => kids_cmp(a, b, k + 1),
            other => other,
        }
    }
}

#[via_fn]
proof fn tree_cmp_decreases<T: PartialOrd>(a: Node<T>, b: Node<T>) {
}

#[via_fn]
proof fn kids_cmp_decreases<T: PartialOrd>(a: Node<T>, b: Node<T>, k: nat) {
    if k < a.child_nodes().len() {
        a.lemma_child_decreases(k as int);
    }
}

impl<T: PartialOrd> Node<T> {
    /// Orders two trees: payloads first, then the children, first to last.
    fn order_tree(&self, other: &Node<T>) -> (r: Option<Ordering>)
        ensures
            T::obeys_partial_cmp_spec() ==> r == tree_cmp(*self, *other),
        decreases *self,
    {
        match self.data.partial_cmp(&other.data) {
            Some(Ordering::Equal) => {},
            other_order => return other_order,
        }
        let a = self.children();
        let b = other.children();
        let mut k: usize = 0;
        loop
            invariant
                k <= a@.len(),
                a@.len() == self.child_nodes().len(),
                b@.len() == other.child_nodes().len(),
                forall|j: int| 0 <= j < a@.len() ==> *(#[trigger] a@[j]) == self.child_nodes()[j],
                forall|j: int| 0 <= j < b@.len() ==> *(#[trigger] b@[j]) == other.child_nodes()[j],
                T::obeys_partial_cmp_spec() ==> tree_cmp(*self, *other) == kids_cmp(*self, *other, k as nat),
            decreases a@.len() - k,
        {
            if k >= a.len() {
                return if k >= b.len() { Some(Ordering::Equal) } else { Some(Ordering::Less) };
            }
            if k >= b.len() {
                return Some(Ordering::Greater);
            }
            proof { self.lemma_child_decreases(k as int); }
            let here = a[k].order_tree(b[k]);
            assert(*a@[k as int] == self.child_nodes()[k as int]);
            assert(*b@[k as int] == other.child_nodes()[k as int]);
            match here {
                Some(Ordering::Equal) => {},
                other_order => return other_order,
            }
            k = k + 1;
        }
    }
}

impl<T: Eq> Eq for Node<T> {
}

impl<T: PartialOrd> PartialOrd for Node<T> {
    fn partial_cmp(&self, other: &Node<T>) -> (r: Option<Ordering>) {
        self.order_tree(other)
    }
}

impl<T: PartialOrd> vstd::std_specs::cmp::PartialOrdSpecImpl for Node<T> {
    open spec fn obeys_partial_cmp_spec() -> bool {
        T::obeys_partial_cmp_spec()
    }

    open spec fn partial_cmp_spec(&self, other: &Node<T>) -> Option<Ordering> {
        tree_cmp(*self, *other)
    }
}

} // verus!
