//! Tree storage: each node records its children and its height.
//!
//! A tree is built from leaves by hanging a node under a parent that is not
//! yet itself a child of anything, so heights stay exact without walking up
//! the tree.
use core::marker::PhantomData;
use vstd::prelude::*;

verus! {

/// Marker for handles into a source tree.
#[derive(Clone, Copy, Debug, PartialEq, Eq)]
pub struct SrcNodeId;

/// Marker for handles into a destination tree.
#[derive(Clone, Copy, Debug, PartialEq, Eq)]
pub struct DstNodeId;

/// A handle to a node of a tree whose kind is `U`.
#[derive(Debug, PartialEq, Eq)]
pub struct NodeId<U> {
    pub index: usize,
    pub kind: PhantomData<U>,
}

impl<U> Clone for NodeId<U> {
    fn clone(&self) -> (r: NodeId<U>)
        ensures
            r == *self,
    {
        NodeId { index: self.index, kind: PhantomData }
    }
}

impl<U> Copy for NodeId<U> {}

impl<U> NodeId<U> {
    /// A handle to the node at `index`.
    pub fn new(index: usize) -> (r: NodeId<U>)
        ensures
            r.index == index,
    {
        NodeId { index, kind: PhantomData }
    }

    /// The position of this node in its arena.
    pub fn index(&self) -> (r: usize)
        ensures
            r == self.index,
    {
        self.index
    }

    /// The height of this node in `arena`.
    pub fn height(&self, arena: &Arena<U>) -> (r: u32)
        requires
            arena.wf(),
            arena.valid(self.index as int),
        ensures
            r == arena.height_of(self.index as int),
    {
        arena.heights[self.index]
    }

    /// The children of this node in `arena`.
    pub fn children<'a>(&self, arena: &'a Arena<U>) -> (r: &'a Vec<NodeId<U>>)
        requires
            arena.wf(),
            arena.valid(self.index as int),
        ensures
            r@ == arena.children_of(self.index as int),
    {
        &arena.children[self.index]
    }
}

/// Storage for the nodes of one tree.
pub struct Arena<U> {
    heights: Vec<u32>,
    children: Vec<Vec<NodeId<U>>>,
}

impl<U> Arena<U> {
    /// The number of nodes stored.
    pub closed spec fn len(&self) -> nat {
        self.heights@.len()
    }

    pub open spec fn valid(&self, i: int) -> bool {
        0 <= i < self.len()
    }

    /// The height of node `i`: 0 for a leaf, else one more than its tallest child.
    pub closed spec fn height_of(&self, i: int) -> u32 {
        self.heights@[i]
    }

    /// The handles of the children of node `i`, in the order they were given.
    pub closed spec fn children_of(&self, i: int) -> Seq<NodeId<U>> {
        self.children@[i]@
    }

    /// Whether `c` is a child of node `i`.
    pub open spec fn is_child(&self, i: int, c: usize) -> bool {
        exists|j: int| 0 <= j < self.children_of(i).len() && #[trigger] self.children_of(i)[j].index == c
    }

    /// The indices of the children of node `i`.
    pub open spec fn child_set(&self, i: int) -> Set<usize> {
        Set::new(|c: usize| self.is_child(i, c))
    }

    /// Whether no node has `p` as a child.
    pub open spec fn is_root(&self, p: int) -> bool {
        forall|i: int| 0 <= i < self.len() ==> !#[trigger] self.is_child(i, p as usize)
    }

    /// Heights follow the tree's shape: a leaf has height 0, and any other node
    /// is one taller than its tallest child.
    pub open spec fn node_ok(&self, i: int) -> bool {
        &&& forall|j: int| 0 <= j < self.children_of(i).len() ==>
            #[trigger] self.children_of(i)[j].index < self.len()
        &&& (self.children_of(i).len() == 0 ==> self.height_of(i) == 0)
        &&& forall|j: int| 0 <= j < self.children_of(i).len() ==>
            self.height_of(#[trigger] self.children_of(i)[j].index as int) < self.height_of(i)
        &&& (self.children_of(i).len() > 0 ==> exists|j: int|
            0 <= j < self.children_of(i).len()
                && self.height_of(#[trigger] self.children_of(i)[j].index as int) + 1
                == self.height_of(i))
    }

    pub closed spec fn wf(&self) -> bool {
        &&& self.heights@.len() == self.children@.len()
        &&& forall|i: int| 0 <= i < self.len() ==> #[trigger] self.node_ok(i)
    }

    /// Every child of a node is itself a node of the arena, and shorter.
    pub proof fn lemma_child_valid(&self, i: int, j: int)
        requires
            self.wf(),
            self.valid(i),
            0 <= j < self.children_of(i).len(),
        ensures
            self.valid(self.children_of(i)[j].index as int),
            self.height_of(self.children_of(i)[j].index as int) < self.height_of(i),
    {
        assert(self.node_ok(i));
    }

    /// A node of positive height has a child exactly one shorter; a node of
    /// height 0 has no children.
    pub proof fn lemma_next_tier(&self, i: int)
        requires
            self.wf(),
            self.valid(i),
        ensures
            self.height_of(i) == 0 ==> self.children_of(i).len() == 0,
            self.height_of(i) > 0 ==> exists|j: int|
                0 <= j < self.children_of(i).len()
                    && self.height_of(#[trigger] self.children_of(i)[j].index as int) + 1
                    == self.height_of(i),
    {
        assert(self.node_ok(i));
        if self.height_of(i) == 0 && self.children_of(i).len() > 0 {
            assert(self.height_of(self.children_of(i)[0].index as int) < self.height_of(i));
        }
    }

    /// An empty arena.
    pub fn new() -> (r: Arena<U>)
        ensures
            r.wf(),
            r.len() == 0,
    {
        Arena { heights: Vec::new(), children: Vec::new() }
    }

    /// The number of nodes stored.
    pub fn size(&self) -> (r: usize)
        requires
            self.wf(),
        ensures
            r == self.len(),
    {
        self.heights.len()
    }

    /// Add a leaf, not yet a child of any node, and return its handle.
    pub fn new_node(&mut self) -> (r: NodeId<U>)
        requires
            old(self).wf(),
        ensures
            final(self).wf(),
            r.index == old(self).len(),
            final(self).len() == old(self).len() + 1,
            final(self).is_root(r.index as int),
            final(self).height_of(r.index as int) == 0,
            final(self).children_of(r.index as int).len() == 0,
            forall|i: int| 0 <= i < old(self).len() ==> final(self).height_of(i) == old(self).height_of(i)
                && final(self).children_of(i) == old(self).children_of(i),
    {
        let n = self.heights.len();
        self.heights.push(0);
        self.children.push(Vec::new());
        proof {
            assert forall|i: int| 0 <= i < self.len() implies #[trigger] self.node_ok(i) by {
                if i < n {
                    assert(old(self).node_ok(i));
                    assert(self.children_of(i) == old(self).children_of(i));
                    assert forall|k: int| 0 <= k < self.children_of(i).len() implies
                        self.height_of(#[trigger] self.children_of(i)[k].index as int)
                        == old(self).height_of(self.children_of(i)[k].index as int) by {}
                    if self.children_of(i).len() > 0 {
                        let k = choose|k: int| 0 <= k < old(self).children_of(i).len()
                            && old(self).height_of(#[trigger] old(self).children_of(i)[k].index as int) + 1
                            == old(self).height_of(i);
                        assert(self.height_of(self.children_of(i)[k].index as int) + 1 == self.height_of(i));
                    }
                }
            }
            assert forall|i: int| 0 <= i < self.len() implies !#[trigger] self.is_child(i, n) by {
                if i < n {
                    assert(old(self).node_ok(i));
                    if self.is_child(i, n) {
                        let k = choose|k: int| 0 <= k < self.children_of(i).len() && #[trigger] self.children_of(i)[k].index == n;
                        assert(old(self).children_of(i)[k].index < old(self).len());
                    }
                }
            }
        }
        NodeId { index: n, kind: PhantomData }
    }

    /// Hang `child` under `parent`, as its last child. `parent` must not be a
    /// child of any node yet, so only its own height can change: it becomes
    /// one more than `child`'s height if that is taller than it was.
    pub fn make_child_of(&mut self, child: NodeId<U>, parent: NodeId<U>)
        requires
            old(self).wf(),
            old(self).valid(child.index as int),
            old(self).valid(parent.index as int),
            child.index != parent.index,
            old(self).is_root(parent.index as int),
            old(self).height_of(child.index as int) < u32::MAX,
        ensures
            final(self).wf(),
            final(self).len() == old(self).len(),
            final(self).children_of(parent.index as int) == old(self).children_of(parent.index as int).push(child),
            final(self).height_of(parent.index as int) as int == if old(self).height_of(parent.index as int)
                <= old(self).height_of(child.index as int) {
                old(self).height_of(child.index as int) + 1
            } else {
                old(self).height_of(parent.index as int) as int
            },
            forall|i: int| 0 <= i < old(self).len() && i != parent.index ==> final(self).height_of(i)
                == old(self).height_of(i) && final(self).children_of(i) == old(self).children_of(i),
    {
        let p = parent.index;
        let ch = self.heights[child.index];
        if self.heights[p] <= ch {
            self.heights.set(p, ch + 1);
        }
        let mut kids = Vec::new();
        std::mem::swap(&mut kids, &mut self.children[p]);
        kids.push(child);
        self.children.set(p, kids);
        proof {
            let pi = p as int;
            assert(old(self).node_ok(pi));
            assert forall|i: int| 0 <= i < self.len() implies #[trigger] self.node_ok(i) by {
                assert(old(self).node_ok(i));
                assert forall|k: int| 0 <= k < old(self).children_of(i).len() implies
                    #[trigger] old(self).children_of(i)[k].index != p by {
                    assert(old(self).is_root(pi));
                    assert(!old(self).is_child(i, pi as usize));
                    if old(self).children_of(i)[k].index == p {
                        assert(old(self).is_child(i, pi as usize));
                    }
                }
                if i != pi {
                    assert(self.children_of(i) == old(self).children_of(i));
                    assert forall|k: int| 0 <= k < self.children_of(i).len() implies
                        self.height_of(#[trigger] self.children_of(i)[k].index as int)
                        == old(self).height_of(self.children_of(i)[k].index as int) by {
                        assert(old(self).children_of(i)[k].index != p);
                    }
                    if self.children_of(i).len() > 0 {
                        let k = choose|k: int| 0 <= k < old(self).children_of(i).len()
                            && old(self).height_of(#[trigger] old(self).children_of(i)[k].index as int) + 1
                            == old(self).height_of(i);
                        assert(self.height_of(self.children_of(i)[k].index as int) + 1 == self.height_of(i));
                    }
                } else {
                    let oc = old(self).children_of(pi);
                    assert(self.children_of(pi) == oc.push(child));
                    assert(child.index != p);
                    assert forall|k: int| 0 <= k < oc.len() implies
                        self.height_of(#[trigger] oc[k].index as int) == old(self).height_of(oc[k].index as int) by {
                        assert(oc[k].index != p);
                    }
                    assert(self.children_of(pi)[oc.len() as int] == child);
                    assert forall|k: int| 0 <= k < self.children_of(pi).len() implies
                        self.height_of(#[trigger] self.children_of(pi)[k].index as int) < self.height_of(pi) by {
                        if k < oc.len() {
                            assert(self.children_of(pi)[k] == oc[k]);
                        }
                    }
                    if old(self).height_of(pi) <= ch {
                        assert(self.height_of(self.children_of(pi)[oc.len() as int].index as int) + 1 == self.height_of(pi));
                    } else {
                        let k = choose|k: int| 0 <= k < oc.len()
                            && old(self).height_of(#[trigger] oc[k].index as int) + 1 == old(self).height_of(pi);
                        assert(self.children_of(pi)[k] == oc[k]);
                        assert(self.height_of(self.children_of(pi)[k].index as int) + 1 == self.height_of(pi));
                    }
                }
            }
        }
    }
}

} // verus!
