//! A frontier of tree nodes kept sorted by height, and the routine that
//! brings two such frontiers to a common maximum height.
use crate::arena::{Arena, DstNodeId, NodeId, SrcNodeId};
use vstd::prelude::*;
use vstd::string::*;

verus! {

/// A node handle together with the node's height, cached when it was pushed.
struct PriorityNodeId<U> {
    index: NodeId<U>,
    height: u32,
}

impl<U> Clone for PriorityNodeId<U> {
    fn clone(&self) -> (r: PriorityNodeId<U>)
        ensures
            r == *self,
    {
        PriorityNodeId { index: self.index, height: self.height }
    }
}

impl<U> Copy for PriorityNodeId<U> {}

impl<U> PriorityNodeId<U> {
    fn new(index: NodeId<U>, height: u32) -> (r: PriorityNodeId<U>)
        ensures
            r.index == index,
            r.height == height,
    {
        PriorityNodeId { index, height }
    }

    fn id(&self) -> (r: NodeId<U>)
        ensures
            r == self.index,
    {
        self.index
    }

    fn height(&self) -> (r: u32)
        ensures
            r == self.height,
    {
        self.height
    }
}

/// The node indices of the entries `s`, in order.
pub open spec fn ids(s: Seq<(usize, u32)>) -> Seq<usize> {
    s.map_values(|e: (usize, u32)| e.0)
}

/// Whether some entry of `s` is for node `x`.
pub open spec fn has_id(s: Seq<(usize, u32)>, x: usize) -> bool {
    exists|i: int| 0 <= i < s.len() && #[trigger] s[i].0 == x
}

/// The set of nodes that the entries `s` are for.
pub open spec fn id_set(s: Seq<(usize, u32)>) -> Set<usize> {
    Set::new(|x: usize| has_id(s, x))
}

/// The children, in `arena`, of any of the nodes `ns`.
pub open spec fn children_of_all<U>(arena: &Arena<U>, ns: Seq<usize>) -> Set<usize> {
    Set::new(|c: usize| exists|j: int| 0 <= j < ns.len() && arena.is_child(#[trigger] ns[j] as int, c))
}

/// Heights never decrease from front to back.
pub open spec fn sorted(s: Seq<(usize, u32)>) -> bool {
    forall|i: int, j: int| 0 <= i <= j < s.len() ==> s[i].1 <= s[j].1
}

/// No node appears in two entries.
pub open spec fn distinct(s: Seq<(usize, u32)>) -> bool {
    forall|i: int, j: int| 0 <= i < s.len() && 0 <= j < s.len() && i != j ==> s[i].0 != s[j].0
}

/// Every entry of `s` is a node of `arena`, with the height that `arena` gives it.
pub open spec fn consistent_with<U>(s: Seq<(usize, u32)>, arena: &Arena<U>) -> bool {
    forall|i: int| 0 <= i < s.len() ==> arena.valid(#[trigger] s[i].0 as int)
        && s[i].1 == arena.height_of(s[i].0 as int)
}

/// The height of the tallest entry of a non-empty sorted sequence.
pub open spec fn max_height(s: Seq<(usize, u32)>) -> u32 {
    s.last().1
}

/// The handles `r` are the entries at the back of `old`, last first, that
/// share the height of the last one, and `new` is what comes before them.
pub open spec fn popped(old: Seq<(usize, u32)>, new: Seq<(usize, u32)>, r: Seq<usize>) -> bool {
    &&& new.len() + r.len() == old.len()
    &&& new == old.take(new.len() as int)
    &&& forall|j: int| 0 <= j < r.len() ==> #[trigger] r[j] == old[old.len() - 1 - j].0
    &&& forall|i: int| new.len() <= i < old.len() ==> #[trigger] old[i].1 == max_height(old)
    &&& forall|i: int| 0 <= i < new.len() ==> #[trigger] new[i].1 < max_height(old)
}

/// `new` is `old` when `old` already holds node `x`, and otherwise `old`
/// with the entry `(x, h)` put at a place that keeps it sorted.
pub open spec fn pushed(old: Seq<(usize, u32)>, new: Seq<(usize, u32)>, x: usize, h: u32) -> bool {
    &&& has_id(old, x) ==> new == old
    &&& !has_id(old, x) ==> exists|k: int| 0 <= k <= old.len() && new == old.insert(k, (x, h))
}

/// Expanding the non-empty queue `old` took off its tallest tier `t`, leaving
/// `old` without it, and put back the children of the nodes of `t`.
pub open spec fn expanded<U>(
    arena: &Arena<U>,
    old: Seq<(usize, u32)>,
    new: Seq<(usize, u32)>,
    t: Seq<usize>,
) -> bool {
    let rest = old.take(old.len() - t.len());
    &&& t.len() <= old.len()
    &&& popped(old, rest, t)
    &&& id_set(new) == id_set(rest).union(children_of_all(arena, t))
}

/// The decimal digit `d`, for `d < 10`.
pub open spec fn digit_char(d: nat) -> char {
    if d == 0 { '0' }
    else if d == 1 { '1' }
    else if d == 2 { '2' }
    else if d == 3 { '3' }
    else if d == 4 { '4' }
    else if d == 5 { '5' }
    else if d == 6 { '6' }
    else if d == 7 { '7' }
    else if d == 8 { '8' }
    else { '9' }
}

/// `n` written in decimal, with no leading zeros.
pub open spec fn decimal(n: nat) -> Seq<char>
    decreases n,
{
    if n < 10 {
        seq![digit_char(n)]
    } else {
        decimal(n / 10).push(digit_char(n % 10))
    }
}

/// The text of one entry: `(NodeId { index: 7 }, 2) `.
pub open spec fn entry_text(e: (usize, u32)) -> Seq<char> {
    "(NodeId { index: "@ + decimal(e.0 as nat) + " }, "@ + decimal(e.1 as nat) + ") "@
}

/// The texts of the entries `s`, one after another.
pub open spec fn entries_text(s: Seq<(usize, u32)>) -> Seq<char>
    decreases s.len(),
{
    if s.len() == 0 {
        Seq::empty()
    } else {
        entries_text(s.drop_last()) + entry_text(s.last())
    }
}

/// Append `n` in decimal to `out`.
fn append_decimal(out: &mut String, n: usize)
    ensures
        final(out)@ == old(out)@ + decimal(n as nat),
    decreases n,
{
    if n >= 10 {
        append_decimal(out, n / 10);
    }
    let d = n % 10;
    proof {
        reveal_strlit("0");
        reveal_strlit("1");
        reveal_strlit("2");
        reveal_strlit("3");
        reveal_strlit("4");
        reveal_strlit("5");
        reveal_strlit("6");
        reveal_strlit("7");
        reveal_strlit("8");
        reveal_strlit("9");
    }
    let digit = if d == 0 {
        "0"
    } else if d == 1 {
        "1"
    } else if d == 2 {
        "2"
    } else if d == 3 {
        "3"
    } else if d == 4 {
        "4"
    } else if d == 5 {
        "5"
    } else if d == 6 {
        "6"
    } else if d == 7 {
        "7"
    } else if d == 8 {
        "8"
    } else {
        "9"
    };
    assert(digit@ == seq![digit_char(d as nat)]);
    out.append(digit);
    proof {
        if n >= 10 {
            assert(decimal(n as nat) == decimal((n / 10) as nat).push(digit_char((n % 10) as nat)));
        }
        assert(old(out)@ + decimal(n as nat) =~= final(out)@);
    }
}

/// A queue of node handles sorted on the heights of their nodes, holding
/// each handle at most once.
pub struct HeightQueue<U> {
    queue: Vec<PriorityNodeId<U>>,
}

impl<U> View for HeightQueue<U> {
    type V = Seq<(usize, u32)>;

    /// The entries as (node index, height), from shortest to tallest.
    closed spec fn view(&self) -> Seq<(usize, u32)> {
        self.queue@.map_values(|p: PriorityNodeId<U>| (p.index.index, p.height))
    }
}

impl<U> Default for HeightQueue<U> {
    fn default() -> (r: HeightQueue<U>)
        ensures
            r@ == Seq::<(usize, u32)>::empty(),
    {
        HeightQueue { queue: Vec::new() }
    }
}

impl<U> Clone for HeightQueue<U> {
    /// A queue with the same entries, sharing nothing with this one.
    fn clone(&self) -> (r: HeightQueue<U>)
        ensures
            r@ == self@,
    {
        let mut queue: Vec<PriorityNodeId<U>> = Vec::new();
        let mut i: usize = 0;
        while i < self.queue.len()
            invariant
                0 <= i <= self.queue@.len(),
                queue@ == self.queue@.take(i as int),
            decreases self.queue@.len() - i,
        {
            queue.push(self.queue[i]);
            proof {
                assert(self.queue@.take(i + 1) =~= self.queue@.take(i as int).push(self.queue@[i as int]));
            }
            i = i + 1;
        }
        proof {
            assert(self.queue@.take(i as int) =~= self.queue@);
        }
        HeightQueue { queue }
    }
}

impl<U> HeightQueue<U> {
    /// Entries are sorted by height and no handle is held twice.
    pub open spec fn wf(&self) -> bool {
        sorted(self@) && distinct(self@)
    }

    /// Every entry is a node of `arena`, with the height that `arena` gives it.
    pub open spec fn consistent(&self, arena: &Arena<U>) -> bool {
        consistent_with(self@, arena)
    }

    /// An empty queue.
    pub fn new() -> (r: HeightQueue<U>)
        ensures
            r.wf(),
            r@ == Seq::<(usize, u32)>::empty(),
    {
        HeightQueue { queue: Vec::new() }
    }

    /// Remove (and discard) all entries, leaving the queue empty.
    pub fn clear(&mut self)
        ensures
            final(self).wf(),
            final(self)@ == Seq::<(usize, u32)>::empty(),
    {
        self.queue.clear();
        proof {
            assert(self@ =~= Seq::<(usize, u32)>::empty());
        }
    }

    /// `true` if this queue holds no entries.
    pub fn is_empty(&self) -> (r: bool)
        ensures
            r == (self@.len() == 0),
    {
        self.queue.len() == 0
    }

    /// The number of entries held.
    pub fn size(&self) -> (r: usize)
        ensures
            r == self@.len(),
    {
        self.queue.len()
    }

    /// The entries as (handle, height), from shortest to tallest.
    pub fn entries(&self) -> (r: Vec<(NodeId<U>, u32)>)
        ensures
            r@.len() == self@.len(),
            forall|i: int| 0 <= i < r@.len() ==> (#[trigger] r@[i]).0.index == self@[i].0 && r@[i].1 == self@[i].1,
    {
        let mut out: Vec<(NodeId<U>, u32)> = Vec::new();
        let mut i: usize = 0;
        while i < self.queue.len()
            invariant
                0 <= i <= self.queue@.len(),
                out@.len() == i,
                forall|k: int| 0 <= k < i ==> (#[trigger] out@[k]).0.index == self@[k].0 && out@[k].1 == self@[k].1,
            decreases self.queue@.len() - i,
        {
            let p = self.queue[i];
            out.push((p.id(), p.height()));
            i = i + 1;
        }
        out
    }

    /// The entries as text, from shortest to tallest:
    /// `[ (NodeId { index: 2 }, 1) (NodeId { index: 0 }, 2) ]`.
    pub fn to_debug_string(&self) -> (r: String)
        ensures
            r@ == "[ "@ + entries_text(self@) + "]"@,
    {
        let mut out = String::from_str("[ ");
        let mut i: usize = 0;
        while i < self.queue.len()
            invariant
                0 <= i <= self@.len(),
                self@.len() == self.queue@.len(),
                out@ == "[ "@ + entries_text(self@.take(i as int)),
            decreases self.queue@.len() - i,
        {
            let p = self.queue[i];
            let ghost before = out@;
            out.append("(NodeId { index: ");
            append_decimal(&mut out, p.index.index);
            out.append(" }, ");
            append_decimal(&mut out, p.height as usize);
            out.append(") ");
            proof {
                let s = self@.take(i + 1);
                assert(s.drop_last() =~= self@.take(i as int));
                assert(s.last() == (p.index.index, p.height));
                assert(out@ =~= "[ "@ + entries_text(s));
            }
            i = i + 1;
        }
        proof {
            assert(self@.take(i as int) =~= self@);
        }
        out.append("]");
        out
    }

    /// The height of the tallest entry, or `None` when the queue is empty.
    pub fn peek_max(&self) -> (r: Option<u32>)
        requires
            self.wf(),
        ensures
            self@.len() == 0 ==> r is None,
            self@.len() > 0 ==> r == Some(max_height(self@)),
            forall|i: int| 0 <= i < self@.len() ==> #[trigger] self@[i].1 <= max_height(self@),
    {
        if self.queue.len() == 0 {
            return None;
        }
        Some(self.queue[self.queue.len() - 1].height)
    }

    /// Remove all the tallest entries and return their handles, last entry first.
    pub fn pop(&mut self) -> (r: Vec<NodeId<U>>)
        requires
            old(self).wf(),
        ensures
            final(self).wf(),
            popped(old(self)@, final(self)@, r@.map_values(|n: NodeId<U>| n.index)),
    {
        let mut nodes: Vec<NodeId<U>> = Vec::new();
        if self.queue.len() == 0 {
            proof {
                assert(self@ =~= old(self)@.take(0));
            }
            return nodes;
        }
        let max = self.queue[self.queue.len() - 1].height;
        let ghost o = old(self)@;
        while self.queue.len() > 0 && self.queue[self.queue.len() - 1].height == max
            invariant
                o == old(self)@,
                o.len() > 0,
                max == max_height(o),
                sorted(o),
                distinct(o),
                self@.len() + nodes@.len() == o.len(),
                self@ == o.take(self@.len() as int),
                forall|j: int| 0 <= j < nodes@.len() ==> #[trigger] nodes@[j].index == o[o.len() - 1 - j].0,
                forall|i: int| self@.len() <= i < o.len() ==> #[trigger] o[i].1 == max,
            decreases self@.len(),
        {
            let ghost before = self@;
            let p = self.queue.pop().unwrap();
            proof {
                assert(self@ =~= before.drop_last());
                assert(before.last() == o[before.len() - 1]);
            }
            nodes.push(p.id());
        }
        proof {
            let rs = nodes@.map_values(|n: NodeId<U>| n.index);
            assert forall|i: int| 0 <= i < self@.len() implies #[trigger] self@[i].1 < max_height(o) by {
                assert(self@[i] == o[i]);
                assert(self@[self@.len() - 1] == o[self@.len() - 1]);
            }
            assert forall|j: int| 0 <= j < rs.len() implies #[trigger] rs[j] == o[o.len() - 1 - j].0 by {
                assert(nodes@[j].index == o[o.len() - 1 - j].0);
            }
        }
        nodes
    }

    /// Push node `index` of `arena`, keeping the queue sorted. Pushing a node
    /// that the queue already holds changes nothing.
    pub fn push(&mut self, index: NodeId<U>, arena: &Arena<U>)
        requires
            old(self).wf(),
            old(self).consistent(arena),
            arena.wf(),
            arena.valid(index.index as int),
        ensures
            final(self).wf(),
            final(self).consistent(arena),
            has_id(final(self)@, index.index),
            pushed(old(self)@, final(self)@, index.index, arena.height_of(index.index as int)),
    {
        let height = index.height(arena);
        let new_node = PriorityNodeId::new(index, height);
        let ghost o = self@;
        let ghost q0 = self.queue@;
        let ghost e = (index.index, height);
        let n = self.queue.len();
        let mut i: usize = 0;
        while i < n
            invariant
                n == self@.len(),
                o == self@,
                self.wf(),
                self.consistent(arena),
                0 <= i <= n,
                forall|k: int| 0 <= k < i ==> #[trigger] o[k].0 != index.index,
            decreases n - i,
        {
            if self.queue[i].id().index == index.index {
                // The node is already in the queue.
                proof {
                    assert(o[i as int].0 == index.index);
                }
                return;
            }
            i = i + 1;
        }
        assert(!has_id(o, index.index));
        let ghost k: int;
        if n == 0 || height <= self.queue[0].height() {
            // The new node is the shortest in the queue.
            self.queue.insert(0, new_node);
            proof {
                k = 0;
            }
        } else if height >= self.queue[n - 1].height() {
            // The new node is the tallest in the queue.
            self.queue.push(new_node);
            proof {
                k = n as int;
            }
        } else {
            // The new node goes between two adjacent entries.
            let mut j: usize = 0;
            while j < n - 1
                invariant
                    n == self@.len(),
                    o == self@,
                    q0 == self.queue@,
                    o == old(self)@,
                    sorted(o),
                    distinct(o),
                    consistent_with(o, arena),
                    !has_id(o, index.index),
                    arena.valid(index.index as int),
                    e == (index.index, arena.height_of(index.index as int)),
                    new_node.index == index,
                    new_node.height == height,
                    height == arena.height_of(index.index as int),
                    n >= 2,
                    0 <= j < n,
                    o[j as int].1 <= height,
                    height < o[n - 1].1,
                decreases n - j,
            {
                if self.queue[j + 1].height() > height {
                    self.queue.insert(j + 1, new_node);
                    proof {
                        assert(self.queue@ == q0.insert(j + 1, new_node));
                        assert(self@ =~= o.insert(j + 1, e));
                        lemma_insert_keeps(o, j + 1, e, arena);
                    }
                    return;
                }
                j = j + 1;
            }
            proof {
                assert(false);
                k = 0;
            }
        }
        proof {
            assert(self@ =~= o.insert(k, e));
            lemma_insert_keeps(o, k, e, arena);
        }
    }

    /// Remove the tallest tier, push the children of its nodes, and return its
    /// handles; `None` when the queue was empty.
    pub fn pop_and_push_children(&mut self, arena: &Arena<U>) -> (r: Option<Vec<NodeId<U>>>)
        requires
            old(self).wf(),
            old(self).consistent(arena),
            arena.wf(),
        ensures
            final(self).wf(),
            final(self).consistent(arena),
            old(self)@.len() == 0 ==> r is None && final(self)@ == old(self)@,
            old(self)@.len() > 0 ==> r is Some && expanded(
                arena,
                old(self)@,
                final(self)@,
                r->Some_0@.map_values(|n: NodeId<U>| n.index),
            ),
            old(self)@.len() > 0 && max_height(old(self)@) == 0 ==> final(self)@.len() == 0,
            old(self)@.len() > 0 && max_height(old(self)@) > 0 ==> final(self)@.len() > 0
                && max_height(final(self)@) == max_height(old(self)@) - 1,
    {
        let tallest = self.pop();
        let ghost t = tallest@.map_values(|n: NodeId<U>| n.index);
        let ghost rest = self@;
        if tallest.len() > 0 {
            let mut i: usize = 0;
            while i < tallest.len()
                invariant
                    self.wf(),
                    self.consistent(arena),
                    arena.wf(),
                    popped(old(self)@, rest, t),
                    consistent_with(old(self)@, arena),
                    t == tallest@.map_values(|n: NodeId<U>| n.index),
                    0 <= i <= tallest@.len(),
                    id_set(self@) == id_set(rest).union(children_of_all(arena, t.take(i as int))),
                decreases tallest@.len() - i,
            {
                let node = tallest[i];
                proof {
                    let oi = old(self)@.len() - 1 - i;
                    assert(t[i as int] == old(self)@[oi].0);
                    assert(arena.valid(old(self)@[oi].0 as int));
                }
                self.push_children(node, arena);
                proof {
                    assert(children_of_all(arena, t.take(i + 1)) =~= children_of_all(arena, t.take(i as int))
                        .union(arena.child_set(t[i as int] as int))) by {
                        assert forall|c: usize| children_of_all(arena, t.take(i + 1)).contains(c) implies
                            children_of_all(arena, t.take(i as int)).contains(c)
                            || arena.child_set(t[i as int] as int).contains(c) by {
                            let j = choose|j: int| 0 <= j < t.take(i + 1).len()
                                && arena.is_child(#[trigger] t.take(i + 1)[j] as int, c);
                            if j < i {
                                assert(t.take(i as int)[j] == t.take(i + 1)[j]);
                            }
                        }
                        assert forall|c: usize| children_of_all(arena, t.take(i as int)).contains(c) implies
                            children_of_all(arena, t.take(i + 1)).contains(c) by {
                            let j = choose|j: int| 0 <= j < t.take(i as int).len()
                                && arena.is_child(#[trigger] t.take(i as int)[j] as int, c);
                            assert(t.take(i as int)[j] == t.take(i + 1)[j]);
                        }
                        assert forall|c: usize| arena.child_set(t[i as int] as int).contains(c) implies
                            children_of_all(arena, t.take(i + 1)).contains(c) by {
                            assert(t.take(i + 1)[i as int] == t[i as int]);
                        }
                    }
                    assert(id_set(self@) =~= id_set(rest).union(children_of_all(arena, t.take(i + 1))));
                }
                i = i + 1;
            }
            proof {
                assert(t.take(i as int) =~= t);
                lemma_expanded_max(arena, old(self)@, self@, t);
            }
            return Some(tallest);
        }
        proof {
            if old(self)@.len() > 0 {
                assert(rest[rest.len() - 1] == old(self)@.last());
            }
            assert(rest =~= old(self)@);
        }
        None
    }

    /// Push every child of `parent` in `arena`, keeping the queue sorted.
    pub fn push_children(&mut self, parent: NodeId<U>, arena: &Arena<U>)
        requires
            old(self).wf(),
            old(self).consistent(arena),
            arena.wf(),
            arena.valid(parent.index as int),
        ensures
            final(self).wf(),
            final(self).consistent(arena),
            id_set(final(self)@) == id_set(old(self)@).union(arena.child_set(parent.index as int)),
    {
        let children = parent.children(arena);
        let mut j: usize = 0;
        while j < children.len()
            invariant
                self.wf(),
                self.consistent(arena),
                arena.wf(),
                arena.valid(parent.index as int),
                children@ == arena.children_of(parent.index as int),
                0 <= j <= children@.len(),
                id_set(self@) == id_set(old(self)@).union(
                    Set::new(|c: usize| exists|k: int| 0 <= k < j && #[trigger] children@[k].index == c),
                ),
            decreases children@.len() - j,
        {
            let ghost before = self@;
            proof {
                arena.lemma_child_valid(parent.index as int, j as int);
            }
            self.push(children[j], arena);
            proof {
                lemma_pushed_ids(before, self@, children@[j as int].index, arena.height_of(children@[j as int].index as int));
                assert(Set::new(|c: usize| exists|k: int| 0 <= k < j + 1 && #[trigger] children@[k].index == c)
                    =~= Set::new(|c: usize| exists|k: int| 0 <= k < j && #[trigger] children@[k].index == c).insert(children@[j as int].index));
                assert(id_set(self@) =~= id_set(old(self)@).union(
                    Set::new(|c: usize| exists|k: int| 0 <= k < j + 1 && #[trigger] children@[k].index == c)));
            }
            j = j + 1;
        }
        proof {
            assert(Set::new(|c: usize| exists|k: int| 0 <= k < j && #[trigger] children@[k].index == c)
                =~= arena.child_set(parent.index as int));
        }
    }
}

/// After a tier of height `m` is replaced by its children, the tallest entry
/// is one shorter than `m`, or the queue is empty when `m` is 0.
proof fn lemma_expanded_max<U>(arena: &Arena<U>, o: Seq<(usize, u32)>, n: Seq<(usize, u32)>, t: Seq<usize>)
    requires
        arena.wf(),
        sorted(o),
        distinct(o),
        consistent_with(o, arena),
        sorted(n),
        consistent_with(n, arena),
        o.len() > 0,
        t.len() > 0,
        expanded(arena, o, n, t),
    ensures
        max_height(o) == 0 ==> n.len() == 0,
        max_height(o) > 0 ==> n.len() > 0 && max_height(n) == max_height(o) - 1,
{
    let m = max_height(o);
    let rest = o.take(o.len() - t.len());
    assert forall|i: int| 0 <= i < n.len() implies #[trigger] n[i].1 < m by {
        let x = n[i].0;
        assert(has_id(n, x));
        assert(id_set(n).contains(x));
        if has_id(rest, x) {
            let k = choose|k: int| 0 <= k < rest.len() && #[trigger] rest[k].0 == x;
            assert(rest[k] == o[k]);
        } else {
            assert(children_of_all(arena, t).contains(x));
            let j = choose|j: int| 0 <= j < t.len() && arena.is_child(#[trigger] t[j] as int, x);
            let jj = choose|jj: int| 0 <= jj < arena.children_of(t[j] as int).len()
                && #[trigger] arena.children_of(t[j] as int)[jj].index == x;
            assert(t[j] == o[o.len() - 1 - j].0);
            assert(o[o.len() - 1 - j].1 == m);
            arena.lemma_child_valid(t[j] as int, jj);
        }
    }
    let p = o.last().0;
    assert(t[0] == p);
    if m > 0 {
        arena.lemma_next_tier(p as int);
        let jj = choose|jj: int| 0 <= jj < arena.children_of(p as int).len()
            && arena.height_of(#[trigger] arena.children_of(p as int)[jj].index as int) + 1
            == arena.height_of(p as int);
        let c = arena.children_of(p as int)[jj].index;
        arena.lemma_child_valid(p as int, jj);
        assert(arena.is_child(t[0] as int, c));
        assert(children_of_all(arena, t).contains(c));
        assert(id_set(n).contains(c));
        let i = choose|i: int| 0 <= i < n.len() && #[trigger] n[i].0 == c;
        assert(n[i].1 <= n[n.len() - 1].1);
    } else if n.len() > 0 {
        assert(n[0].1 < m);
    }
}

/// A push adds its node to the set of nodes held, and nothing else.
proof fn lemma_pushed_ids(o: Seq<(usize, u32)>, n: Seq<(usize, u32)>, x: usize, h: u32)
    requires
        pushed(o, n, x, h),
        has_id(n, x),
    ensures
        id_set(n) == id_set(o).insert(x),
{
    if !has_id(o, x) {
        let k = choose|k: int| 0 <= k <= o.len() && n == o.insert(k, (x, h));
        assert forall|y: usize| has_id(n, y) implies has_id(o, y) || y == x by {
            let i = choose|i: int| 0 <= i < n.len() && #[trigger] n[i].0 == y;
            if i < k {
                assert(n[i] == o[i]);
            } else if i > k {
                assert(n[i] == o[i - 1]);
            }
        }
        assert forall|y: usize| has_id(o, y) implies has_id(n, y) by {
            let i = choose|i: int| 0 <= i < o.len() && #[trigger] o[i].0 == y;
            if i < k {
                assert(n[i] == o[i]);
            } else {
                assert(n[i + 1] == o[i]);
            }
        }
    }
    assert(id_set(n) =~= id_set(o).insert(x));
}

/// Inserting an entry for a new node of `arena`, at a place where it is no
/// shorter than what comes before and no taller than what comes after, keeps
/// the entries sorted, distinct and consistent with `arena`.
proof fn lemma_insert_keeps<U>(o: Seq<(usize, u32)>, k: int, e: (usize, u32), arena: &Arena<U>)
    requires
        sorted(o),
        distinct(o),
        consistent_with(o, arena),
        arena.valid(e.0 as int),
        e.1 == arena.height_of(e.0 as int),
        !has_id(o, e.0),
        0 <= k <= o.len(),
        k > 0 ==> o[k - 1].1 <= e.1,
        k < o.len() ==> e.1 <= o[k].1,
    ensures
        sorted(o.insert(k, e)),
        distinct(o.insert(k, e)),
        consistent_with(o.insert(k, e), arena),
        has_id(o.insert(k, e), e.0),
        exists|k2: int| 0 <= k2 <= o.len() && o.insert(k, e) == o.insert(k2, e),
{
    let s = o.insert(k, e);
    assert(s[k] == e);
    assert forall|i: int, j: int| 0 <= i <= j < s.len() implies s[i].1 <= s[j].1 by {
        if i < k && j > k {
            assert(o[i].1 <= o[k - 1].1);
        } else if i == k && j > k {
            assert(s[j] == o[j - 1]);
        } else if i < k && j == k {
            assert(o[i].1 <= o[k - 1].1);
        }
    }
    assert forall|i: int| 0 <= i < s.len() implies arena.valid(#[trigger] s[i].0 as int)
        && s[i].1 == arena.height_of(s[i].0 as int) by {
        if i < k {
            assert(s[i] == o[i]);
        } else if i > k {
            assert(s[i] == o[i - 1]);
        }
    }
    assert forall|i: int, j: int| 0 <= i < s.len() && 0 <= j < s.len() && i != j implies s[i].0 != s[j].0 by {
        if i == k {
            assert(j < k ==> s[j] == o[j]);
            assert(j > k ==> s[j] == o[j - 1]);
        } else if j == k {
            assert(i < k ==> s[i] == o[i]);
            assert(i > k ==> s[i] == o[i - 1]);
        }
    }
}


/// Expand whichever of the two queues has the strictly taller maximum, one
/// tier at a time, until both have the same maximum or one of them is empty.
///
/// A non-empty queue always ends with the maximum that the shorter of the two
/// had to begin with, and the queue whose maximum was not taller is left as it
/// was.
pub fn match_heights(
    src_q: &mut HeightQueue<SrcNodeId>,
    src: &Arena<SrcNodeId>,
    dst_q: &mut HeightQueue<DstNodeId>,
    dst: &Arena<DstNodeId>,
)
    requires
        old(src_q).wf(),
        old(src_q).consistent(src),
        src.wf(),
        old(dst_q).wf(),
        old(dst_q).consistent(dst),
        dst.wf(),
    ensures
        final(src_q).wf(),
        final(src_q).consistent(src),
        final(dst_q).wf(),
        final(dst_q).consistent(dst),
        old(src_q)@.len() == 0 || old(dst_q)@.len() == 0 ==> final(src_q)@ == old(src_q)@
            && final(dst_q)@ == old(dst_q)@,
        old(src_q)@.len() > 0 && old(dst_q)@.len() > 0 ==> {
            let hs = max_height(old(src_q)@);
            let hd = max_height(old(dst_q)@);
            &&& final(src_q)@.len() > 0
            &&& final(dst_q)@.len() > 0
            &&& max_height(final(src_q)@) == max_height(final(dst_q)@)
            &&& max_height(final(src_q)@) == if hs <= hd { hs } else { hd }
            &&& hs <= hd ==> final(src_q)@ == old(src_q)@
            &&& hd <= hs ==> final(dst_q)@ == old(dst_q)@
        },
{
    let ghost src_start = src_q@;
    let ghost dst_start = dst_q@;
    while !src_q.is_empty() && !dst_q.is_empty() && src_q.peek_max().unwrap() != dst_q.peek_max().unwrap()
        invariant
            src_q.wf(),
            src_q.consistent(src),
            src.wf(),
            dst_q.wf(),
            dst_q.consistent(dst),
            dst.wf(),
            src_start == old(src_q)@,
            dst_start == old(dst_q)@,
            src_start.len() == 0 || dst_start.len() == 0 ==> src_q@ == src_start && dst_q@ == dst_start,
            src_start.len() > 0 && dst_start.len() > 0 ==> {
                let hs = max_height(src_start);
                let hd = max_height(dst_start);
                let m = if hs <= hd { hs } else { hd };
                &&& src_q@.len() > 0
                &&& dst_q@.len() > 0
                &&& max_height(src_q@) >= m
                &&& max_height(dst_q@) >= m
                &&& hs <= hd ==> src_q@ == src_start
                &&& hd <= hs ==> dst_q@ == dst_start
            },
        decreases
            (if src_q@.len() > 0 { max_height(src_q@) as int } else { 0 }) + (if dst_q@.len() > 0 {
                max_height(dst_q@) as int
            } else {
                0
            }),
    {
        if src_q.peek_max().unwrap() > dst_q.peek_max().unwrap() {
            src_q.pop_and_push_children(src);
        } else {
            dst_q.pop_and_push_children(dst);
        }
    }
}

} // verus!
