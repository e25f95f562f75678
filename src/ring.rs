//! Circular sibling rings: the storage and linkage behind a node's children
//! and behind a forest.
use vstd::prelude::*;

use crate::node::Node;
use crate::tree::Tree;

verus! {

/// An ordered ring of sibling nodes.
///
/// Nodes live in `slots`; `next[i]` is the slot of the right sibling of the
/// node in slot `i`, and the last sibling links back to the first. Only the
/// slot of the last sibling is kept (`tail`): the first one is `next[tail]`.
/// A node alone in the ring links to itself.
pub struct Ring<T> {
    slots: Vec<Option<Node<T>>>,
    next: Vec<usize>,
    tail: Option<usize>,
    free: Vec<usize>,
    /// The slots of the siblings, first to last.
    order: Ghost<Seq<usize>>,
}

impl<T> Ring<T> {
    #[verifier::type_invariant]
    spec fn wf(self) -> bool {
        ring_ok(self.slots@, self.next@, self.tail, self.free@, self.order@)
    }

    /// The siblings, first to last.
    pub closed spec fn view(&self) -> Seq<Node<T>> {
        if self.wf() {
            self.order@.map_values(|i: usize| self.slots@[i as int]->0)
        } else {
            Seq::empty()
        }
    }

    /// Each sibling is a part of the ring that holds it.
    pub proof fn lemma_view_decreases(&self, k: int)
        requires
            0 <= k < self@.len(),
        ensures
            decreases_to!(self => self@[k]),
    {
        let i = self.order@[k] as int;
        assert(self.slots@[i] is Some);
        assert(decreases_to!(self.slots => self.slots@)) by {
            vstd::std_specs::vec::axiom_vec_decreases_to_view(self.slots);
        }
        assert(decreases_to!(self.slots@ => self.slots@[i])) by {
            vstd::seq::axiom_seq_index_decreases(self.slots@, i);
        }
    }

    /// An empty ring.
    pub fn new() -> (r: Self)
        ensures
            r@ == Seq::<Node<T>>::empty(),
    {
        let r = Ring { slots: Vec::new(), next: Vec::new(), tail: None, free: Vec::new(), order: Ghost(Seq::empty()) };
        assert(r@ =~= Seq::<Node<T>>::empty());
        r
    }

    /// Whether the ring holds no node.
    pub fn is_empty(&self) -> (r: bool)
        ensures
            r == (self@.len() == 0),
    {
        proof { use_type_invariant(self); }
        self.tail.is_none()
    }

    /// Moves the whole ring out, leaving an empty one behind.
    pub fn take(&mut self) -> (r: Self)
        ensures
            r == *old(self),
            final(self)@.len() == 0,
    {
        let mut r = Ring::new();
        std::mem::swap(self, &mut r);
        r
    }

    /// Adds `node` as the last sibling.
    pub fn push_back(&mut self, node: Node<T>)
        ensures
            final(self)@ == old(self)@.push(node),
    {
        let r = self.take();
        proof { use_type_invariant(&r); }
        let Ring { mut slots, mut next, tail, mut free, order } = r;
        let s = make_node(&mut slots, &mut next, &mut free, node, order);
        match tail {
            Some(t) => {
                let head = next[t];
                next.set(s, head);
                next.set(t, s);
            },
            None => {},
        }
        let ghost o2 = order@.push(s);
        let r2 = Ring { slots, next, tail: Some(s), free, order: Ghost(o2) };
        assert(r2@ =~= r@.push(node));
        *self = r2;
    }

    /// Adds `node` as the first sibling.
    pub fn push_front(&mut self, node: Node<T>)
        ensures
            final(self)@ == seq![node] + old(self)@,
    {
        let r = self.take();
        proof { use_type_invariant(&r); }
        let Ring { mut slots, mut next, tail, mut free, order } = r;
        let s = make_node(&mut slots, &mut next, &mut free, node, order);
        let new_tail = match tail {
            Some(t) => {
                let head = next[t];
                next.set(s, head);
                next.set(t, s);
                t
            },
            None => s,
        };
        let ghost o2 = seq![s] + order@;
        proof {
            assert forall|k: int| 0 <= k < o2.len() - 1 implies #[trigger] next@[o2[k] as int] == o2[k + 1] by {
                if k > 0 {
                    assert(o2[k] == order@[k - 1]);
                }
            }
        }
        let r2 = Ring { slots, next, tail: Some(new_tail), free, order: Ghost(o2) };
        assert(r2@ =~= seq![node] + r@);
        *self = r2;
    }

    /// Detaches the first sibling and returns it; `None` when the ring is
    /// empty.
    pub fn pop_front(&mut self) -> (r: Option<Node<T>>)
        ensures
            old(self)@.len() == 0 ==> r is None && final(self)@ == old(self)@,
            old(self)@.len() > 0 ==> r == Some(old(self)@[0]) && final(self)@ == old(self)@.drop_first(),
    {
        proof { use_type_invariant(&*self); }
        if self.tail.is_none() {
            return None;
        }
        let r = self.take();
        proof { use_type_invariant(&r); }
        let Ring { mut slots, mut next, tail, mut free, order } = r;
        let t = tail.unwrap();
        let h = next[t];
        let ghost n = order@.len();
        proof {
            if n > 1 {
                assert(next@[order@[n - 1] as int] == order@[0]);
            }
            assert(h == order@[0]);
            assert(h == t <==> n == 1) by {
                if n > 1 {
                    assert(order@[0] != order@[n - 1]);
                }
            }
        }
        let new_tail = if h == t {
            None
        } else {
            let new_head = next[h];
            next.set(t, new_head);
            Some(t)
        };
        let out = drop_node(&mut slots, &mut next, &mut free, h, order, Ghost(0));
        let ghost o2 = order@.drop_first();
        proof {
            assert(o2 == order@.remove(0));
            assert forall|k: int| 0 <= k < o2.len() - 1 implies #[trigger] next@[o2[k] as int] == o2[k + 1] by {
                assert(order@[k + 1] != order@[0]);
                assert(order@[k + 1] != order@[n - 1]);
            }
        }
        let r2 = Ring { slots, next, tail: new_tail, free, order: Ghost(o2) };
        assert(r2@ =~= r@.drop_first());
        *self = r2;
        Some(out)
    }

    /// Borrows every sibling, first to last, by walking the links from the
    /// first sibling round to the last.
    pub fn nodes(&self) -> (r: Vec<&Node<T>>)
        ensures
            r@.len() == self@.len(),
            forall|k: int| 0 <= k < r@.len() ==> *(#[trigger] r@[k]) == self@[k],
    {
        proof { use_type_invariant(self); }
        let mut r: Vec<&Node<T>> = Vec::new();
        let t = match self.tail {
            None => return r,
            Some(t) => t,
        };
        let ghost o = self.order@;
        let ghost n = o.len();
        assert(self.next@[o[n - 1] as int] == o[0]);
        let mut cur = self.next[t];
        let ghost mut k: int = 0;
        loop
            invariant
                0 <= k < n,
                cur == o[k],
                o == self.order@,
                n == o.len(),
                t == o[n - 1],
                r@.len() == k,
                forall|j: int| 0 <= j < k ==> *(#[trigger] r@[j]) == self@[j],
            decreases n - k,
        {
            proof { use_type_invariant(self); }
            assert(self.slots@[o[k] as int] is Some);
            let node = self.slots[cur].as_ref().unwrap();
            r.push(node);
            if cur == t {
                assert(k == n - 1) by {
                    if k < n - 1 {
                        assert(o[k] != o[n - 1]);
                    }
                }
                return r;
            }
            assert(k < n - 1);
            cur = self.next[cur];
            proof { k = k + 1; }
        }
    }

    /// Moves every node of `other`, in its order, behind the last sibling.
    ///
    /// Into an empty ring `other` moves whole, at once; otherwise its nodes
    /// move over one by one, each into a slot of this ring.
    pub fn append(&mut self, other: Ring<T>)
        ensures
            final(self)@ == old(self)@ + other@,
    {
        if self.is_empty() {
            *self = other;
            assert(old(self)@ + other@ =~= other@);
            return;
        }
        let mut rest = other;
        loop
            invariant
                self@ + rest@ == old(self)@ + other@,
            decreases rest@.len(),
        {
            let ghost before = self@;
            let ghost rest_before = rest@;
            match rest.pop_front() {
                None => {
                    assert(self@ + rest@ =~= self@);
                    return;
                },
                Some(node) => {
                    self.push_back(node);
                    assert(rest_before == seq![node] + rest@);
                    assert(self@ + rest@ =~= before + rest_before);
                },
            }
        }
    }

    /// Moves every node of `other`, in its order, before the first sibling.
    pub fn prepend(&mut self, other: Ring<T>)
        ensures
            final(self)@ == other@ + old(self)@,
    {
        let mine = self.take();
        *self = other;
        self.append(mine);
    }

    /// Hands each sibling, first to last, to `f` and puts back what it
    /// returns in its place.
    pub fn map_nodes<F: Fn(Node<T>) -> Node<T>>(&mut self, f: F)
        requires
            forall|k: int| 0 <= k < old(self)@.len() ==> f.requires((#[trigger] old(self)@[k],)),
        ensures
            final(self)@.len() == old(self)@.len(),
            forall|k: int| 0 <= k < old(self)@.len() ==> f.ensures((#[trigger] old(self)@[k],), final(self)@[k]),
    {
        let r = self.take();
        proof { use_type_invariant(&r); }
        let Ring { mut slots, next, tail, free, order } = r;
        let t = match tail {
            None => {
                *self = Ring { slots, next, tail, free, order };
                return;
            },
            Some(t) => t,
        };
        let ghost o = order@;
        let ghost n = o.len();
        let ghost before = r@;
        assert(next@[o[n - 1] as int] == o[0]);
        let mut cur = next[t];
        let ghost mut k: int = 0;
        loop
            invariant
                0 <= k < n,
                cur == o[k],
                t == o[n - 1],
                next@[o[n - 1] as int] == o[0],
                o == order@,
                n == o.len(),
                before == r@,
                before == old(self)@,
                before.len() == n,
                r.order@ == o,
                r.next@ == next@,
                r.tail == tail,
                r.free@ == free@,
                tail == Some(t),
                slots@.len() == r.slots@.len(),
                storage_ok(slots@, next@, free@, o),
                forall|j: int| 0 <= j < n - 1 ==> #[trigger] next@[o[j] as int] == o[j + 1],
                forall|i: int, j: int| 0 <= i < j < n ==> o[i] != o[j],
                forall|j: int| k <= j < n ==> #[trigger] slots@[o[j] as int] == r.slots@[o[j] as int],
                forall|j: int| 0 <= j < k ==> f.ensures((before[j],), #[trigger] slots@[o[j] as int]->0),
                forall|j: int| 0 <= j < n ==> f.requires((#[trigger] before[j],)),
                forall|j: int| 0 <= j < n ==> #[trigger] before[j] == r.slots@[o[j] as int]->0,
            decreases n - k,
        {
            let ghost pre = slots@;
            assert(pre[cur as int] is Some);
            let mut held: Option<Node<T>> = None;
            slots.set_and_swap(cur, &mut held);
            assert(held == r.slots@[o[k] as int]);
            let node = held.unwrap();
            assert(before[k] == node);
            let changed = f(node);
            slots.set(cur, Some(changed));
            proof {
                assert forall|j: int| 0 <= j < free@.len() implies (#[trigger] slots@[free@[j] as int]) is None by {
                    assert(pre[free@[j] as int] is None);
                    assert(free@[j] != cur);
                }
                assert forall|j: int| k < j < n implies #[trigger] slots@[o[j] as int] == r.slots@[o[j] as int] by {
                    assert(o[j] != o[k]);
                }
                assert forall|j: int| 0 <= j < k implies f.ensures((before[j],), #[trigger] slots@[o[j] as int]->0) by {
                    assert(o[j] != o[k]);
                }
            }
            if cur == t {
                assert(k == n - 1) by {
                    if k < n - 1 {
                        assert(o[k] != o[n - 1]);
                    }
                }
                let r2 = Ring { slots, next, tail, free, order };
                proof { use_type_invariant(&r2); }
                assert(r2@.len() == before.len());
                assert forall|j: int| 0 <= j < n implies f.ensures((#[trigger] before[j],), r2@[j]) by {
                    assert(r2@[j] == slots@[o[j] as int]->0);
                }
                *self = r2;
                return;
            }
            assert(k < n - 1);
            cur = next[cur];
            proof { k = k + 1; }
        }
    }
}

/// A cursor over the siblings of a ring, for edits at any place.
///
/// The cursor stands on the sibling at `pos`, or past the last one. Besides
/// that sibling's slot (`curr`) it keeps the slot of the one before it
/// (`prev`; the last sibling where the cursor stands on the first), so that
/// a sibling goes in before or after it, or comes out, in constant time.
pub struct Subtrees<T> {
    slots: Vec<Option<Node<T>>>,
    next: Vec<usize>,
    tail: Option<usize>,
    free: Vec<usize>,
    order: Ghost<Seq<usize>>,
    pos: Ghost<int>,
    prev: usize,
    curr: Option<usize>,
}

impl<T> Subtrees<T> {
    #[verifier::type_invariant]
    spec fn wf(self) -> bool {
        let o = self.order@;
        let n = o.len();
        let p = self.pos@;
        &&& ring_ok(self.slots@, self.next@, self.tail, self.free@, o)
        &&& 0 <= p <= n
        &&& (p < n ==> self.curr == Some(o[p]))
        &&& (p == n ==> self.curr is None)
        &&& (n > 0 && p > 0 ==> self.prev == o[p - 1])
        &&& (n > 0 && p == 0 ==> self.prev == o[n - 1])
    }

    /// The siblings, first to last.
    pub closed spec fn nodes(&self) -> Seq<Node<T>> {
        if self.wf() {
            self.order@.map_values(|i: usize| self.slots@[i as int]->0)
        } else {
            Seq::empty()
        }
    }

    /// Where the cursor stands: the place of its sibling, or the number of
    /// siblings past the last one.
    pub closed spec fn pos(&self) -> int {
        if self.wf() {
            self.pos@
        } else {
            0
        }
    }

    /// The cursor stands at a place of the sequence or just past it.
    pub proof fn lemma_pos_in_range(&self)
        ensures
            0 <= self.pos() <= self.nodes().len(),
    {
        if self.wf() {
        }
    }

    /// A cursor on the first sibling of `ring`.
    pub fn new(ring: Ring<T>) -> (c: Self)
        ensures
            c.nodes() == ring@,
            c.pos() == 0,
    {
        proof { use_type_invariant(&ring); }
        let Ring { slots, next, tail, free, order } = ring;
        let (prev, curr) = match tail {
            Some(t) => (t, Some(next[t])),
            None => (0, None),
        };
        let c = Subtrees { slots, next, tail, free, order, pos: Ghost(0), prev, curr };
        proof { use_type_invariant(&c); }
        assert(c.nodes() =~= ring@);
        c
    }

    /// Gives up the cursor, handing out the ring of siblings.
    pub fn into_ring(self) -> (r: Ring<T>)
        ensures
            r@ == self.nodes(),
    {
        proof { use_type_invariant(&self); }
        let Subtrees { slots, next, tail, free, order, .. } = self;
        let r = Ring { slots, next, tail, free, order };
        proof { use_type_invariant(&r); }
        assert(r@ =~= self.nodes());
        r
    }

    /// Moves the cursor out, leaving one over no sibling behind.
    fn take(&mut self) -> (r: Self)
        ensures
            r == *old(self),
    {
        let mut r = Subtrees {
            slots: Vec::new(),
            next: Vec::new(),
            tail: None,
            free: Vec::new(),
            order: Ghost(Seq::empty()),
            pos: Ghost(0),
            prev: 0,
            curr: None,
        };
        std::mem::swap(self, &mut r);
        r
    }

    /// Borrows the sibling under the cursor; `None` past the last one.
    pub fn current(&self) -> (r: Option<&Node<T>>)
        ensures
            self.pos() < self.nodes().len() ==> r is Some && *(r->0) == self.nodes()[self.pos()],
            self.pos() == self.nodes().len() ==> r is None,
    {
        proof { use_type_invariant(self); }
        match self.curr {
            Some(c) => {
                assert(self.slots@[c as int] is Some);
                self.slots[c].as_ref()
            },
            None => None,
        }
    }

    /// Moves the cursor to the next sibling, or past the last one.
    pub fn advance(&mut self)
        requires
            old(self).pos() < old(self).nodes().len(),
        ensures
            final(self).nodes() == old(self).nodes(),
            final(self).pos() == old(self).pos() + 1,
    {
        let c = self.take();
        proof { use_type_invariant(&c); }
        let Subtrees { slots, next, tail, free, order, pos, prev, curr } = c;
        let ghost o = order@;
        let ghost n = o.len();
        let at = curr.unwrap();
        proof {
            if pos@ < n - 1 {
                assert(o[pos@] != o[n - 1]);
            }
        }
        let new_curr = if Some(at) == tail { None } else { Some(next[at]) };
        let c2 = Subtrees { slots, next, tail, free, order, pos: Ghost(pos@ + 1), prev: at, curr: new_curr };
        proof { use_type_invariant(&c2); }
        assert(c2.nodes() =~= c.nodes());
        *self = c2;
    }

    /// Puts the tree in just before the cursor's place; the cursor stays on
    /// its sibling, or past the last one.
    pub fn insert_before(&mut self, tree: Tree<T>)
        ensures
            final(self).nodes() == old(self).nodes().insert(old(self).pos(), tree@),
            final(self).pos() == old(self).pos() + 1,
    {
        let c = self.take();
        proof { use_type_invariant(&c); }
        let Subtrees { mut slots, mut next, tail, mut free, order, pos, prev, curr } = c;
        let ghost o = order@;
        let ghost n = o.len();
        let ghost p = pos@;
        let node = tree.into_root();
        let s = make_node(&mut slots, &mut next, &mut free, node, order);
        let new_tail = match tail {
            None => s,
            Some(t) => {
                proof {
                    if p < n {
                        if p > 0 {
                            assert(next@[o[p - 1] as int] == o[p]);
                        }
                    }
                }
                let after = next[prev];
                next.set(s, after);
                next.set(prev, s);
                if curr.is_none() { s } else { t }
            },
        };
        let ghost o2 = o.insert(p, s);
        proof {
            assert forall|k: int| 0 <= k < o2.len() implies #[trigger] o2[k] < slots@.len()
                && (#[trigger] slots@[o2[k] as int]) is Some by {
                if k < p {
                    assert(o2[k] == o[k]);
                } else if k > p {
                    assert(o2[k] == o[k - 1]);
                }
            }
            assert forall|j: int, k: int| 0 <= j < k < o2.len() implies o2[j] != o2[k] by {
                if j < p {
                    assert(o2[j] == o[j]);
                } else if j > p {
                    assert(o2[j] == o[j - 1]);
                }
                if k < p {
                    assert(o2[k] == o[k]);
                } else if k > p {
                    assert(o2[k] == o[k - 1]);
                }
            }
            assert forall|k: int| 0 <= k < o2.len() - 1 implies #[trigger] next@[o2[k] as int] == o2[k + 1] by {
                if k < p - 1 {
                    assert(o2[k] == o[k]);
                    assert(o2[k + 1] == o[k + 1]);
                    assert(o[k] != o[p - 1]);
                } else if k == p - 1 {
                    assert(o2[k] == o[p - 1]);
                } else if k == p {
                    assert(o2[k + 1] == o[p]);
                } else {
                    assert(o2[k] == o[k - 1]);
                    assert(o2[k + 1] == o[k]);
                    if p > 0 {
                        assert(o[k - 1] != o[p - 1]);
                    } else {
                        assert(o[k - 1] != o[n - 1]);
                    }
                }
            }
            if n > 0 {
                if p > 0 {
                    assert(o2[o2.len() - 1] == if p == n { s } else { o[n - 1] });
                    if p < n {
                        assert(o[n - 1] != o[p - 1]);
                    }
                }
            }
        }
        let c2 = Subtrees {
            slots,
            next,
            tail: Some(new_tail),
            free,
            order: Ghost(o2),
            pos: Ghost(p + 1),
            prev: s,
            curr,
        };
        proof { use_type_invariant(&c2); }
        assert(c2.nodes() =~= c.nodes().insert(p, tree@));
        *self = c2;
    }

    /// Puts the tree in just after the sibling under the cursor; the cursor
    /// stays where it is.
    pub fn insert_after(&mut self, tree: Tree<T>)
        requires
            old(self).pos() < old(self).nodes().len(),
        ensures
            final(self).nodes() == old(self).nodes().insert(old(self).pos() + 1, tree@),
            final(self).pos() == old(self).pos(),
    {
        let c = self.take();
        proof { use_type_invariant(&c); }
        let Subtrees { mut slots, mut next, tail, mut free, order, pos, prev, curr } = c;
        let ghost o = order@;
        let ghost n = o.len();
        let ghost p = pos@;
        let at = curr.unwrap();
        let t = tail.unwrap();
        let node = tree.into_root();
        let s = make_node(&mut slots, &mut next, &mut free, node, order);
        let after = next[at];
        next.set(s, after);
        next.set(at, s);
        let new_tail = if at == t { s } else { t };
        let new_prev = if prev == at { s } else { prev };
        let ghost o2 = o.insert(p + 1, s);
        proof {
            assert(at == t <==> p == n - 1) by {
                if p < n - 1 {
                    assert(o[p] != o[n - 1]);
                }
            }
            assert(prev == at <==> n == 1) by {
                if n > 1 {
                    if p > 0 {
                        assert(o[p - 1] != o[p]);
                    } else {
                        assert(o[n - 1] != o[0]);
                    }
                }
            }
            assert forall|k: int| 0 <= k < o2.len() implies #[trigger] o2[k] < slots@.len()
                && (#[trigger] slots@[o2[k] as int]) is Some by {
                if k <= p {
                    assert(o2[k] == o[k]);
                } else if k > p + 1 {
                    assert(o2[k] == o[k - 1]);
                }
            }
            assert forall|j: int, k: int| 0 <= j < k < o2.len() implies o2[j] != o2[k] by {
                if j <= p {
                    assert(o2[j] == o[j]);
                } else if j > p + 1 {
                    assert(o2[j] == o[j - 1]);
                }
                if k <= p {
                    assert(o2[k] == o[k]);
                } else if k > p + 1 {
                    assert(o2[k] == o[k - 1]);
                }
            }
            assert forall|k: int| 0 <= k < o2.len() - 1 implies #[trigger] next@[o2[k] as int] == o2[k + 1] by {
                if k < p {
                    assert(o2[k] == o[k]);
                    assert(o2[k + 1] == o[k + 1]);
                    assert(o[k] != o[p]);
                } else if k == p {
                    assert(o2[k] == o[p]);
                } else if k == p + 1 {
                    assert(o2[k + 1] == o[p + 1]);
                } else {
                    assert(o2[k] == o[k - 1]);
                    assert(o2[k + 1] == o[k]);
                    assert(o[k - 1] != o[p]);
                }
            }
            if p < n - 1 {
                assert(o[n - 1] != o[p]);
                assert(o2[o2.len() - 1] == o[n - 1]);
            }
            if p > 0 {
                assert(o2[p - 1] == o[p - 1]);
            }
        }
        let c2 = Subtrees {
            slots,
            next,
            tail: Some(new_tail),
            free,
            order: Ghost(o2),
            pos,
            prev: new_prev,
            curr,
        };
        proof { use_type_invariant(&c2); }
        assert(c2.nodes() =~= c.nodes().insert(p + 1, tree@));
        *self = c2;
    }

    /// Takes out the sibling under the cursor and returns it as a tree of its
    /// own; the cursor moves on to the next sibling, or past the last one.
    pub fn remove(&mut self) -> (r: Tree<T>)
        requires
            old(self).pos() < old(self).nodes().len(),
        ensures
            r@ == old(self).nodes()[old(self).pos()],
            final(self).nodes() == old(self).nodes().remove(old(self).pos()),
            final(self).pos() == old(self).pos(),
    {
        let c = self.take();
        proof { use_type_invariant(&c); }
        let Subtrees { mut slots, mut next, tail, mut free, order, pos, prev, curr } = c;
        let ghost o = order@;
        let ghost n = o.len();
        let ghost p = pos@;
        let at = curr.unwrap();
        let t = tail.unwrap();
        proof {
            assert(at == t <==> p == n - 1) by {
                if p < n - 1 {
                    assert(o[p] != o[n - 1]);
                }
            }
            assert(prev == at <==> n == 1) by {
                if n > 1 {
                    if p > 0 {
                        assert(o[p - 1] != o[p]);
                    } else {
                        assert(o[n - 1] != o[0]);
                    }
                }
            }
            if p < n - 1 {
                assert(next@[o[p] as int] == o[p + 1]);
            } else {
                assert(next@[o[p] as int] == o[0]);
            }
        }
        let after = next[at];
        let (new_tail, new_curr) = if prev == at {
            (None, None)
        } else {
            next.set(prev, after);
            if at == t { (Some(prev), None) } else { (tail, Some(after)) }
        };
        let ghost next1 = next@;
        let node = drop_node(&mut slots, &mut next, &mut free, at, order, Ghost(p));
        let ghost o2 = o.remove(p);
        proof {
            assert forall|j: int, k: int| 0 <= j < k < o2.len() implies o2[j] != o2[k] by {
                if j < p {
                    assert(o2[j] == o[j]);
                } else {
                    assert(o2[j] == o[j + 1]);
                }
                if k < p {
                    assert(o2[k] == o[k]);
                } else {
                    assert(o2[k] == o[k + 1]);
                }
            }
            assert forall|k: int| 0 <= k < o2.len() - 1 implies #[trigger] next@[o2[k] as int] == o2[k + 1] by {
                if k < p - 1 {
                    assert(o2[k] == o[k]);
                    assert(o2[k + 1] == o[k + 1]);
                    assert(o[k] != o[p]);
                    assert(o[k] != o[p - 1]);
                } else if k == p - 1 {
                    assert(o2[k] == o[p - 1]);
                    assert(o2[k + 1] == o[p + 1]);
                } else {
                    assert(o2[k] == o[k + 1]);
                    assert(o2[k + 1] == o[k + 2]);
                    assert(o[k + 1] != o[p]);
                    if p > 0 {
                        assert(o[k + 1] != o[p - 1]);
                    } else {
                        assert(o[k + 1] != o[n - 1]);
                    }
                }
            }
            if n > 1 {
                if p == n - 1 {
                    assert(o2[o2.len() - 1] == o[n - 2]);
                    assert(o[n - 2] != o[n - 1]);
                    assert(next@[o[n - 2] as int] == o[0]);
                    assert(o2[0] == o[0]) by {
                        assert(n - 1 > 0);
                    }
                } else {
                    assert(o2[o2.len() - 1] == o[n - 1]);
                    if p == 0 {
                        assert(o2[0] == o[1]);
                    } else {
                        assert(o2[0] == o[0]);
                        assert(o[n - 1] != o[p - 1]);
                        assert(next@[o[n - 1] as int] == o[0]);
                    }
                }
                if p > 0 {
                    assert(o2[p - 1] == o[p - 1]);
                }
                if p < n - 1 {
                    assert(o2[p] == o[p + 1]);
                }
            }
        }
        let c2 = Subtrees {
            slots,
            next,
            tail: new_tail,
            free,
            order: Ghost(o2),
            pos,
            prev,
            curr: new_curr,
        };
        proof { use_type_invariant(&c2); }
        assert(c2.nodes() =~= c.nodes().remove(p)) by {
            assert forall|k: int| 0 <= k < o2.len() implies #[trigger] c2.nodes()[k] == c.nodes().remove(p)[k] by {
                if k < p {
                    assert(o2[k] == o[k]);
                    assert(o[k] != o[p]);
                } else {
                    assert(o2[k] == o[k + 1]);
                    assert(o[k + 1] != o[p]);
                }
            }
        }
        *self = c2;
        Tree::from_root(node)
    }
}

/// Slots, links, last sibling and free slots that make up a ring whose
/// siblings sit in the slots `o`, first to last.
spec fn ring_ok<T>(slots: Seq<Option<Node<T>>>, next: Seq<usize>, tail: Option<usize>, free: Seq<usize>, o: Seq<usize>) -> bool {
    let n = o.len();
    &&& storage_ok(slots, next, free, o)
    &&& forall|j: int, k: int| 0 <= j < k < n ==> o[j] != o[k]
    &&& (tail is None <==> n == 0)
    &&& (n > 0 ==> tail == Some(o[n - 1]))
    &&& forall|k: int| 0 <= k < n - 1 ==> #[trigger] next[o[k] as int] == o[k + 1]
    &&& (n > 0 ==> next[o[n - 1] as int] == o[0])
}

/// The storage half of a ring: slots, links and free slots agree.
spec fn storage_ok<T>(slots: Seq<Option<Node<T>>>, next: Seq<usize>, free: Seq<usize>, o: Seq<usize>) -> bool {
    &&& slots.len() == next.len()
    &&& forall|k: int| 0 <= k < o.len() ==> #[trigger] o[k] < slots.len()
    &&& forall|k: int| 0 <= k < o.len() ==> (#[trigger] slots[o[k] as int]) is Some
    &&& forall|j: int| 0 <= j < free.len() ==> #[trigger] free[j] < slots.len()
    &&& forall|j: int| 0 <= j < free.len() ==> (#[trigger] slots[free[j] as int]) is None
    &&& forall|i: int, j: int| 0 <= i < j < free.len() ==> free[i] != free[j]
}

/// Places `node` in a slot that no sibling of `order` occupies, reusing a
/// free slot where there is one, and links it to itself as a node alone.
fn make_node<T>(
    slots: &mut Vec<Option<Node<T>>>,
    next: &mut Vec<usize>,
    free: &mut Vec<usize>,
    node: Node<T>,
    order: Ghost<Seq<usize>>,
) -> (s: usize)
    requires
        storage_ok(old(slots)@, old(next)@, old(free)@, order@),
    ensures
        storage_ok(final(slots)@, final(next)@, final(free)@, order@),
        s < final(slots)@.len(),
        final(slots)@ == old(slots)@.update(s as int, Some(node))
            || final(slots)@ == old(slots)@.push(Some(node)),
        final(slots)@[s as int] == Some(node),
        final(next)@[s as int] == s,
        !order@.contains(s),
        forall|k: int| 0 <= k < order@.len() ==>
            #[trigger] final(next)@[order@[k] as int] == old(next)@[order@[k] as int],
        forall|k: int| 0 <= k < order@.len() ==>
            #[trigger] final(slots)@[order@[k] as int] == old(slots)@[order@[k] as int],
{
    match free.pop() {
        Some(s) => {
            assert(old(free)@[old(free)@.len() - 1] == s);
            assert(old(slots)@[s as int] is None);
            assert forall|k: int| 0 <= k < order@.len() implies #[trigger] order@[k] != s by {
                assert(old(slots)@[order@[k] as int] is Some);
            }
            slots.set(s, Some(node));
            next.set(s, s);
            assert forall|j: int| 0 <= j < free@.len() implies (#[trigger] slots@[free@[j] as int]) is None by {
                assert(old(free)@[j] == free@[j]);
                assert(old(free)@[j] != s);
            }
            s
        },
        None => {
            let s = slots.len();
            assert forall|k: int| 0 <= k < order@.len() implies #[trigger] order@[k] != s by {
                assert(order@[k] < old(slots)@.len());
            }
            slots.push(Some(node));
            next.push(s);
            s
        },
    }
}

/// Takes the node out of `slot`, the sibling at `idx` of `order`, links
/// the slot to itself and gives it back to the free slots.
fn drop_node<T>(
    slots: &mut Vec<Option<Node<T>>>,
    next: &mut Vec<usize>,
    free: &mut Vec<usize>,
    slot: usize,
    order: Ghost<Seq<usize>>,
    idx: Ghost<int>,
) -> (r: Node<T>)
    requires
        storage_ok(old(slots)@, old(next)@, old(free)@, order@),
        forall|j: int, k: int| 0 <= j < k < order@.len() ==> order@[j] != order@[k],
        0 <= idx@ < order@.len(),
        order@[idx@] == slot,
    ensures
        storage_ok(final(slots)@, final(next)@, final(free)@, order@.remove(idx@)),
        Some(r) == old(slots)@[slot as int],
        final(slots)@ == old(slots)@.update(slot as int, None),
        final(next)@ == old(next)@.update(slot as int, slot),
{
    let mut out: Option<Node<T>> = None;
    slots.set_and_swap(slot, &mut out);
    next.set(slot, slot);
    proof {
        assert(old(slots)@[slot as int] is Some);
        assert forall|j: int| 0 <= j < old(free)@.len() implies #[trigger] old(free)@[j] != slot by {
            assert(old(slots)@[old(free)@[j] as int] is None);
        }
    }
    free.push(slot);
    proof {
        let o2 = order@.remove(idx@);
        assert forall|k: int| 0 <= k < o2.len() implies (#[trigger] slots@[o2[k] as int]) is Some by {
            if k < idx@ {
                assert(o2[k] == order@[k]);
                assert(order@[k] != order@[idx@]);
            } else {
                assert(o2[k] == order@[k + 1]);
                assert(order@[k + 1] != order@[idx@]);
            }
        }
        assert forall|k: int| 0 <= k < o2.len() implies #[trigger] o2[k] < slots@.len() by {
            if k < idx@ {
                assert(o2[k] == order@[k]);
            } else {
                assert(o2[k] == order@[k + 1]);
            }
        }
        assert forall|i: int, j: int| 0 <= i < j < free@.len() implies free@[i] != free@[j] by {
            if j == free@.len() - 1 {
                assert(free@[i] == old(free)@[i]);
            }
        }
    }
    out.unwrap()
}

} // verus!
