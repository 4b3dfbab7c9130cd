//! Laws of the frontier queue that relate several operations: what a
//! second push, a pop, a run of pops until empty, and the expansion of a lone
//! root do, stated over the contracts of those operations.
use crate::arena::Arena;
use crate::hqueue::{children_of_all, distinct, expanded, has_id, id_set, ids, max_height, popped, pushed, sorted};
use vstd::prelude::*;

verus! {

/// Pushing a node a second time changes nothing: the queue after the second
/// push is the queue after the first.
pub proof fn lemma_push_twice(a: Seq<(usize, u32)>, b: Seq<(usize, u32)>, c: Seq<(usize, u32)>, x: usize, h: u32)
    requires
        pushed(a, b, x, h),
        pushed(b, c, x, h),
    ensures
        c == b,
        c.len() == b.len(),
{
    if !has_id(a, x) {
        let k = choose|k: int| 0 <= k <= a.len() && b == a.insert(k, (x, h));
        assert(b[k].0 == x);
    }
}

/// A pop takes exactly the nodes whose height is the greatest in the queue,
/// each once, and leaves none of that height behind.
pub proof fn lemma_pop_tier(old: Seq<(usize, u32)>, new: Seq<(usize, u32)>, r: Seq<usize>)
    requires
        sorted(old),
        distinct(old),
        old.len() > 0,
        popped(old, new, r),
    ensures
        r.len() > 0,
        r.no_duplicates(),
        r.to_set() == Set::new(|x: usize| exists|i: int| 0 <= i < old.len() && #[trigger] old[i] == (x, max_height(old))),
        forall|i: int| 0 <= i < new.len() ==> #[trigger] new[i].1 != max_height(old),
{
    let m = max_height(old);
    if r.len() == 0 {
        assert(new[new.len() - 1] == old[old.len() - 1]);
    }
    assert forall|a: int, b: int| 0 <= a < r.len() && 0 <= b < r.len() && a != b implies r[a] != r[b] by {
        assert(r[a] == old[old.len() - 1 - a].0);
        assert(r[b] == old[old.len() - 1 - b].0);
    }
    let tier = Set::new(|x: usize| exists|i: int| 0 <= i < old.len() && #[trigger] old[i] == (x, m));
    assert forall|x: usize| r.to_set().contains(x) implies tier.contains(x) by {
        let j = choose|j: int| 0 <= j < r.len() && r[j] == x;
        let i = old.len() - 1 - j;
        assert(r[j] == old[i].0);
        assert(old[i] == (x, m));
    }
    assert forall|x: usize| tier.contains(x) implies r.to_set().contains(x) by {
        let i = choose|i: int| 0 <= i < old.len() && #[trigger] old[i] == (x, m);
        if i < new.len() {
            assert(new[i] == old[i]);
        }
        let j = old.len() - 1 - i;
        assert(r[j] == old[i].0);
    }
    assert(r.to_set() =~= tier);
}

/// One pop splits the nodes held into those returned and those left, and
/// what is left is sorted, distinct and strictly shorter than what was taken.
pub proof fn lemma_pop_step(old: Seq<(usize, u32)>, new: Seq<(usize, u32)>, r: Seq<usize>)
    requires
        sorted(old),
        distinct(old),
        old.len() > 0,
        popped(old, new, r),
    ensures
        sorted(new),
        distinct(new),
        id_set(old) == id_set(new).union(r.to_set()),
        id_set(new).disjoint(r.to_set()),
        r.no_duplicates(),
        new.len() > 0 ==> max_height(new) < max_height(old),
{
    lemma_pop_tier(old, new, r);
    assert forall|x: usize| id_set(old).contains(x) implies id_set(new).union(r.to_set()).contains(x) by {
        let i = choose|i: int| 0 <= i < old.len() && #[trigger] old[i].0 == x;
        if i < new.len() {
            assert(new[i] == old[i]);
        } else {
            assert(r[old.len() - 1 - i] == old[i].0);
        }
    }
    assert forall|x: usize| id_set(new).union(r.to_set()).contains(x) implies id_set(old).contains(x) by {
        if has_id(new, x) {
            let i = choose|i: int| 0 <= i < new.len() && #[trigger] new[i].0 == x;
            assert(new[i] == old[i]);
        } else {
            let j = choose|j: int| 0 <= j < r.len() && r[j] == x;
            assert(r[j] == old[old.len() - 1 - j].0);
        }
    }
    assert(id_set(old) =~= id_set(new).union(r.to_set()));
    assert forall|x: usize| id_set(new).contains(x) implies !r.to_set().contains(x) by {
        let i = choose|i: int| 0 <= i < new.len() && #[trigger] new[i].0 == x;
        assert(new[i] == old[i]);
        if r.to_set().contains(x) {
            let j = choose|j: int| 0 <= j < r.len() && r[j] == x;
            assert(r[j] == old[old.len() - 1 - j].0);
        }
    }
    if new.len() > 0 {
        assert(new[new.len() - 1].1 < max_height(old));
    }
}

/// Popping a queue until it is empty returns every node it held exactly
/// once, in tiers of strictly decreasing height: `states[k + 1]` is what the
/// `k`-th pop left of `states[k]`, and `pops[k]` is what it returned.
pub proof fn lemma_pop_drain(states: Seq<Seq<(usize, u32)>>, pops: Seq<Seq<usize>>)
    requires
        states.len() == pops.len() + 1,
        sorted(states[0]),
        distinct(states[0]),
        states.last().len() == 0,
        forall|k: int| 0 <= k < pops.len() ==> #[trigger] states[k].len() > 0,
        forall|k: int| 0 <= k < pops.len() ==> popped(states[k], states[k + 1], #[trigger] pops[k]),
    ensures
        id_set(states[0]) == Set::new(|x: usize| exists|k: int| 0 <= k < pops.len() && #[trigger] pops[k].contains(x)),
        forall|k: int| 0 <= k < pops.len() ==> (#[trigger] pops[k]).no_duplicates(),
        forall|k1: int, k2: int| #![trigger pops[k1], pops[k2]] 0 <= k1 < k2 < pops.len() ==> pops[k1].to_set().disjoint(pops[k2].to_set()),
        forall|k: int| 0 <= k < pops.len() - 1 ==> max_height(#[trigger] states[k + 1]) < max_height(states[k]),
    decreases pops.len(),
{
    if pops.len() == 0 {
        assert(id_set(states[0]) =~= Set::new(|x: usize| exists|k: int| 0 <= k < pops.len() && #[trigger] pops[k].contains(x)));
    } else {
        lemma_pop_step(states[0], states[1], pops[0]);
        let later_states = states.drop_first();
        let later_pops = pops.drop_first();
        assert forall|k: int| 0 <= k < later_pops.len() implies popped(later_states[k], later_states[k + 1], #[trigger] later_pops[k]) by {
            assert(popped(states[k + 1], states[k + 2], pops[k + 1]));
        }
        assert forall|k: int| 0 <= k < later_pops.len() implies #[trigger] later_states[k].len() > 0 by {
            assert(states[k + 1].len() > 0);
        }
        lemma_pop_drain(later_states, later_pops);
        let all = Set::new(|x: usize| exists|k: int| 0 <= k < pops.len() && #[trigger] pops[k].contains(x));
        let rest = Set::new(|x: usize| exists|k: int| 0 <= k < later_pops.len() && #[trigger] later_pops[k].contains(x));
        assert forall|x: usize| all.contains(x) implies id_set(states[0]).contains(x) by {
            let k = choose|k: int| 0 <= k < pops.len() && #[trigger] pops[k].contains(x);
            if k > 0 {
                assert(later_pops[k - 1] == pops[k]);
                assert(rest.contains(x));
            } else {
                assert(pops[0].to_set().contains(x));
            }
        }
        assert forall|x: usize| id_set(states[0]).contains(x) implies all.contains(x) by {
            if pops[0].to_set().contains(x) {
                assert(pops[0].contains(x));
            } else {
                assert(rest.contains(x));
                let k = choose|k: int| 0 <= k < later_pops.len() && #[trigger] later_pops[k].contains(x);
                assert(pops[k + 1] == later_pops[k]);
            }
        }
        assert(id_set(states[0]) =~= all);
        assert forall|k: int| 0 <= k < pops.len() implies (#[trigger] pops[k]).no_duplicates() by {
            if k > 0 {
                assert(pops[k] == later_pops[k - 1]);
            }
        }
        assert forall|k1: int, k2: int| #![trigger pops[k1], pops[k2]] 0 <= k1 < k2 < pops.len() implies
            pops[k1].to_set().disjoint(pops[k2].to_set()) by {
            assert(pops[k2] == later_pops[k2 - 1]);
            if k1 > 0 {
                assert(pops[k1] == later_pops[k1 - 1]);
            } else {
                assert forall|x: usize| pops[0].to_set().contains(x) implies !pops[k2].to_set().contains(x) by {
                    if pops[k2].to_set().contains(x) {
                        assert(later_pops[k2 - 1].contains(x));
                        assert(rest.contains(x));
                    }
                }
            }
        }
        assert forall|k: int| 0 <= k < pops.len() - 1 implies max_height(#[trigger] states[k + 1]) < max_height(states[k]) by {
            if k > 0 {
                assert(later_states[k - 1] == states[k]);
                assert(later_states[k] == states[k + 1]);
            }
        }
    }
}


/// A queue whose entries are distinct has as many entries as it holds nodes.
pub proof fn lemma_size_is_node_count(s: Seq<(usize, u32)>)
    requires
        distinct(s),
    ensures
        id_set(s).finite(),
        id_set(s).len() == s.len(),
{
    assert forall|a: int, b: int| 0 <= a < ids(s).len() && 0 <= b < ids(s).len() && a != b implies
        ids(s)[a] != ids(s)[b] by {}
    assert(ids(s).no_duplicates());
    assert forall|x: usize| id_set(s).contains(x) <==> ids(s).to_set().contains(x) by {
        if id_set(s).contains(x) {
            let i = choose|i: int| 0 <= i < s.len() && #[trigger] s[i].0 == x;
            assert(ids(s)[i] == x);
        }
        if ids(s).to_set().contains(x) {
            let i = choose|i: int| 0 <= i < ids(s).len() && ids(s)[i] == x;
            assert(s[i].0 == x);
        }
    }
    assert(id_set(s) =~= ids(s).to_set());
    ids(s).unique_seq_to_set();
}

/// Expanding a queue that holds only the root of a tree leaves exactly the
/// root's children in it, one entry for each, and returns the root alone.
pub proof fn lemma_expand_root<U>(
    arena: &Arena<U>,
    root: usize,
    new: Seq<(usize, u32)>,
    t: Seq<usize>,
)
    requires
        arena.wf(),
        arena.valid(root as int),
        distinct(new),
        t.len() > 0,
        expanded(arena, seq![(root, arena.height_of(root as int))], new, t),
    ensures
        t == seq![root],
        id_set(new) == arena.child_set(root as int),
        new.len() == arena.child_set(root as int).len(),
{
    let old = seq![(root, arena.height_of(root as int))];
    assert(t[0] == old[0].0);
    assert(t =~= seq![root]);
    let rest = old.take(0);
    assert(id_set(rest) =~= Set::empty());
    assert(children_of_all(arena, t) =~= arena.child_set(root as int)) by {
        assert forall|c: usize| children_of_all(arena, t).contains(c) implies arena.child_set(root as int).contains(c) by {
            let j = choose|j: int| 0 <= j < t.len() && arena.is_child(#[trigger] t[j] as int, c);
        }
        assert forall|c: usize| arena.child_set(root as int).contains(c) implies children_of_all(arena, t).contains(c) by {
            assert(t[0] == root);
        }
    }
    assert(id_set(new) =~= arena.child_set(root as int));
    lemma_size_is_node_count(new);
}

} // verus!
