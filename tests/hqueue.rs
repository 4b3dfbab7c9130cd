use height_queue::{match_heights, Arena, DstNodeId, HeightQueue, NodeId, SrcNodeId};

// The tree of `1 * (3 * 4)`: node 0 is the root, with children 1 and 2;
// node 2 has children 3 and 4.
fn create_mult_arena<U>() -> Arena<U> {
    let mut arena = Arena::new();
    for _ in 0..5 {
        arena.new_node();
    }
    arena.make_child_of(NodeId::new(3), NodeId::new(2));
    arena.make_child_of(NodeId::new(4), NodeId::new(2));
    arena.make_child_of(NodeId::new(1), NodeId::new(0));
    arena.make_child_of(NodeId::new(2), NodeId::new(0));
    arena
}

// The tree of `1 + 2`: node 0 is the root, with children 1 and 2.
fn create_plus_arena<U>() -> Arena<U> {
    let mut arena = Arena::new();
    for _ in 0..3 {
        arena.new_node();
    }
    arena.make_child_of(NodeId::new(1), NodeId::new(0));
    arena.make_child_of(NodeId::new(2), NodeId::new(0));
    arena
}

// A queue holding every node of `arena`.
fn get_priority_queue<U>(arena: &Arena<U>) -> HeightQueue<U> {
    let mut queue = HeightQueue::new();
    for i in 0..arena.size() {
        queue.push(NodeId::new(i), arena);
    }
    queue
}

// Assert that `queue` is in sorted order and has the same size as `arena`.
fn assert_sorted<U>(queue: &HeightQueue<U>, arena: &Arena<U>) {
    let mut expected = arena.size();
    if expected == 0 {
        assert!(queue.is_empty());
        return;
    }
    let mut clone = queue.clone();
    loop {
        let tallest = clone.pop();
        expected -= tallest.len();
        for node in &tallest {
            assert!(node.height(arena) == tallest[0].height(arena));
            if !clone.is_empty() {
                assert!(node.height(arena) > clone.peek_max().unwrap());
            }
        }
        if clone.is_empty() {
            break;
        }
    }
    assert_eq!(0, expected);
}

fn indices<U>(nodes: &[NodeId<U>]) -> Vec<usize> {
    let mut v: Vec<usize> = nodes.iter().map(|n| n.index()).collect();
    v.sort();
    v
}

#[test]
fn clear() {
    let arena = create_mult_arena::<SrcNodeId>();
    let mut queue = get_priority_queue(&arena);
    assert!(!queue.is_empty());
    queue.clear();
    assert!(queue.is_empty());
}

#[test]
fn fmt_debug() {
    let arena = create_mult_arena::<SrcNodeId>();
    let queue = get_priority_queue(&arena);
    let s = queue.to_debug_string();
    // The three leaves may sit in the queue in any order, so only the start
    // of the string and the branch nodes at its end are checked.
    let expected = " (NodeId { index: 2 }, 1) (NodeId { index: 0 }, 2) ]";
    assert_eq!("[ (NodeId { index:", s[..18].to_string());
    assert_eq!(expected, s[76..].to_string());
    assert_eq!(128, s.len());
}

#[test]
fn new() {
    assert!(HeightQueue::<SrcNodeId>::new().is_empty());
}

#[test]
fn push_children() {
    let arena = create_mult_arena::<SrcNodeId>();
    let mut queue = HeightQueue::<SrcNodeId>::new();
    queue.push_children(NodeId::new(0), &arena);
    let expected1 = vec![NodeId::new(2)];
    assert_eq!(expected1, queue.pop());
    let expected2 = vec![NodeId::new(1)];
    assert_eq!(expected2, queue.pop());
}

#[test]
fn pop_and_push_children() {
    let arena = create_mult_arena::<SrcNodeId>();
    let mut queue = HeightQueue::<SrcNodeId>::new();
    assert!(queue.is_empty());
    queue.push(NodeId::new(0), &arena);
    assert!(!queue.is_empty());
    assert!(queue.peek_max().is_some());
    assert_eq!(NodeId::<SrcNodeId>::new(0).height(&arena), queue.peek_max().unwrap());
    let tallest_wrapped = queue.pop_and_push_children(&arena);
    assert!(tallest_wrapped.is_some());
    let tallest = tallest_wrapped.unwrap();
    assert_eq!(1, tallest.len());
    assert_eq!(NodeId::new(0), tallest[0]);
    assert_eq!(NodeId::<SrcNodeId>::new(0).children(&arena).len(), queue.size());
}

#[test]
fn peek_max() {
    let arena = create_mult_arena::<SrcNodeId>();
    let queue = get_priority_queue(&arena);
    let height = queue.peek_max().unwrap();
    assert_eq!(NodeId::<SrcNodeId>::new(0).height(&arena), height);
}

#[test]
fn pop() {
    let arena = create_mult_arena::<SrcNodeId>();
    let mut queue = get_priority_queue(&arena);
    assert_eq!(vec![NodeId::new(0)], queue.pop());
    assert_eq!(vec![NodeId::new(2)], queue.pop());
    // Nodes 1, 3, 4 have the same height, and so may be stored in any order.
    let expected = vec![NodeId::new(1), NodeId::new(3), NodeId::new(4)];
    let leaves = queue.pop();
    assert_eq!(expected.len(), leaves.len());
    for leaf in leaves {
        assert!(expected.contains(&leaf));
    }
    assert!(queue.is_empty());
}

#[test]
fn push() {
    let arena = create_mult_arena::<SrcNodeId>();
    let queue = get_priority_queue(&arena);
    assert_sorted(&queue, &arena);
}

#[test]
fn push_identical_nodes() {
    let arena = create_mult_arena::<SrcNodeId>();
    let mut queue = HeightQueue::new();
    queue.push(NodeId::new(0), &arena);
    let formatted = queue.to_debug_string();
    let expected = "[ (NodeId { index: 0 }, 2) ]";
    assert_eq!(expected, formatted);
    queue.push(NodeId::new(0), &arena);
    assert_eq!(expected, queue.to_debug_string());
}

#[test]
fn test_match_heights() {
    let plus = create_plus_arena::<SrcNodeId>();
    let mult = create_mult_arena::<DstNodeId>();
    let mut plus_q: HeightQueue<SrcNodeId> = HeightQueue::new();
    let mut mult_q: HeightQueue<DstNodeId> = HeightQueue::new();
    assert!(plus_q.is_empty());
    assert!(mult_q.is_empty());
    for node in [0, 1, 2] {
        plus_q.push(NodeId::new(node), &plus);
    }
    for node in [0, 1, 2, 3, 4] {
        mult_q.push(NodeId::new(node), &mult);
    }
    assert_eq!(1, NodeId::<SrcNodeId>::new(0).height(&plus));
    assert_eq!(2, NodeId::<DstNodeId>::new(0).height(&mult));
    match_heights(&mut plus_q, &plus, &mut mult_q, &mult);
    assert_eq!(plus_q.peek_max().unwrap(), mult_q.peek_max().unwrap());
    assert_eq!(1, plus_q.peek_max().unwrap());
    assert_eq!(1, mult_q.peek_max().unwrap());
}

// A chain of `n + 1` nodes, node 0 on top, so the root has height `n`.
fn chain<U>(n: usize) -> Arena<U> {
    let mut arena = Arena::new();
    for _ in 0..=n {
        arena.new_node();
    }
    for i in (0..n).rev() {
        arena.make_child_of(NodeId::new(i + 1), NodeId::new(i));
    }
    arena
}

#[test]
fn heights_follow_shape() {
    let arena = create_mult_arena::<SrcNodeId>();
    let heights: Vec<u32> = (0..5).map(|i| NodeId::<SrcNodeId>::new(i).height(&arena)).collect();
    assert_eq!(vec![2, 0, 1, 0, 0], heights);
    let kids = indices(NodeId::<SrcNodeId>::new(0).children(&arena));
    assert_eq!(vec![1, 2], kids);
    assert_eq!(3, NodeId::<SrcNodeId>::new(0).height(&chain::<SrcNodeId>(3)));
}

#[test]
fn empty_queue_degrades() {
    let arena = create_mult_arena::<SrcNodeId>();
    let mut queue = HeightQueue::<SrcNodeId>::default();
    assert_eq!(None, queue.peek_max());
    assert!(queue.pop().is_empty());
    assert!(queue.pop_and_push_children(&arena).is_none());
    assert_eq!(0, queue.size());
}

#[test]
fn push_twice_keeps_size() {
    let arena = create_mult_arena::<SrcNodeId>();
    let mut queue = HeightQueue::new();
    queue.push(NodeId::new(3), &arena);
    queue.push(NodeId::new(2), &arena);
    let before = queue.to_debug_string();
    queue.push(NodeId::new(3), &arena);
    queue.push(NodeId::new(2), &arena);
    assert_eq!(2, queue.size());
    assert_eq!(before, queue.to_debug_string());
}

#[test]
fn push_places_by_height() {
    let arena = create_mult_arena::<SrcNodeId>();
    let mut queue = HeightQueue::new();
    queue.push(NodeId::new(2), &arena);
    queue.push(NodeId::new(0), &arena);
    queue.push(NodeId::new(1), &arena);
    assert_eq!(
        "[ (NodeId { index: 1 }, 0) (NodeId { index: 2 }, 1) (NodeId { index: 0 }, 2) ]",
        queue.to_debug_string()
    );
    let deep = chain::<SrcNodeId>(3);
    let mut q = HeightQueue::new();
    for i in [3, 0, 2, 1] {
        q.push(NodeId::new(i), &deep);
    }
    let heights: Vec<u32> = q.entries().iter().map(|e| e.1).collect();
    assert_eq!(vec![0, 1, 2, 3], heights);
}

#[test]
fn pop_takes_whole_tier() {
    let arena = create_mult_arena::<SrcNodeId>();
    let mut queue = HeightQueue::new();
    for i in [1, 3, 4, 2] {
        queue.push(NodeId::new(i), &arena);
    }
    assert_eq!(vec![2], indices(&queue.pop()));
    assert_eq!(vec![1, 3, 4], indices(&queue.pop()));
    assert!(queue.is_empty());
}

#[test]
fn drain_in_decreasing_tiers() {
    let arena = create_mult_arena::<SrcNodeId>();
    let mut queue = get_priority_queue(&arena);
    let mut seen: Vec<usize> = Vec::new();
    let mut last: Option<u32> = None;
    while let Some(h) = queue.peek_max() {
        if let Some(l) = last {
            assert!(h < l);
        }
        last = Some(h);
        seen.extend(indices(&queue.pop()));
    }
    seen.sort();
    assert_eq!(vec![0, 1, 2, 3, 4], seen);
}

#[test]
fn expansion_walks_the_tree() {
    let arena = create_mult_arena::<SrcNodeId>();
    let mut queue = HeightQueue::new();
    queue.push(NodeId::new(0), &arena);
    assert_eq!(Some(2), queue.peek_max());
    let root = queue.pop_and_push_children(&arena).unwrap();
    assert_eq!(vec![0], indices(&root));
    assert_eq!(2, queue.size());
    assert_eq!(Some(1), queue.peek_max());
    assert_eq!(vec![2], indices(&queue.pop_and_push_children(&arena).unwrap()));
    assert_eq!(3, queue.size());
    assert_eq!(Some(0), queue.peek_max());
    assert_eq!(vec![1, 3, 4], indices(&queue.pop_and_push_children(&arena).unwrap()));
    assert!(queue.is_empty());
}

#[test]
fn expansion_descends_one_level() {
    let arena = create_mult_arena::<SrcNodeId>();
    let mut queue = HeightQueue::new();
    queue.push(NodeId::new(0), &arena);
    assert_eq!(Some(2), queue.peek_max());
    assert_eq!(vec![0], indices(&queue.clone().pop()));
    let mut all: Vec<usize> = Vec::new();
    let mut last = queue.peek_max().unwrap() + 1;
    while let Some(h) = queue.peek_max() {
        assert!(h < last);
        last = h;
        all.extend(indices(&queue.pop_and_push_children(&arena).unwrap()));
    }
    all.sort();
    assert_eq!(vec![0, 1, 2, 3, 4], all);
}

#[test]
fn cross_tree_expands_taller_side_only() {
    let src = chain::<SrcNodeId>(2);
    let dst = chain::<DstNodeId>(3);
    let mut src_q = HeightQueue::new();
    let mut dst_q = HeightQueue::new();
    src_q.push(NodeId::new(0), &src);
    dst_q.push(NodeId::new(0), &dst);
    let src_before = src_q.to_debug_string();
    match_heights(&mut src_q, &src, &mut dst_q, &dst);
    assert_eq!(src_before, src_q.to_debug_string());
    assert_eq!(Some(2), dst_q.peek_max());
    assert_eq!("[ (NodeId { index: 1 }, 2) ]", dst_q.to_debug_string());
}

#[test]
fn match_heights_meets_at_the_shorter() {
    let src = create_mult_arena::<SrcNodeId>();
    let dst = chain::<DstNodeId>(5);
    let mut src_q = HeightQueue::new();
    let mut dst_q = HeightQueue::new();
    src_q.push(NodeId::new(0), &src);
    dst_q.push(NodeId::new(0), &dst);
    match_heights(&mut src_q, &src, &mut dst_q, &dst);
    assert_eq!(Some(2), src_q.peek_max());
    assert_eq!(Some(2), dst_q.peek_max());
    assert_eq!(1, src_q.size());
}

#[test]
fn match_heights_leaves_empty_side_alone() {
    let src = create_mult_arena::<SrcNodeId>();
    let dst = create_plus_arena::<DstNodeId>();
    let mut src_q = HeightQueue::new();
    let mut dst_q: HeightQueue<DstNodeId> = HeightQueue::new();
    src_q.push(NodeId::new(0), &src);
    match_heights(&mut src_q, &src, &mut dst_q, &dst);
    assert_eq!(Some(2), src_q.peek_max());
    assert!(dst_q.is_empty());
}

#[test]
fn clone_is_independent() {
    let arena = create_mult_arena::<SrcNodeId>();
    let mut queue = get_priority_queue(&arena);
    let copy = queue.clone();
    queue.clear();
    assert_eq!(5, copy.size());
    assert!(queue.is_empty());
}

// Root 0 with children 1 and 2; node 1 has the single leaf child 3.
#[test]
fn small_tree_drains_every_node_once() {
    let mut arena = Arena::<SrcNodeId>::new();
    for _ in 0..4 {
        arena.new_node();
    }
    arena.make_child_of(NodeId::new(3), NodeId::new(1));
    arena.make_child_of(NodeId::new(1), NodeId::new(0));
    arena.make_child_of(NodeId::new(2), NodeId::new(0));
    let mut queue = HeightQueue::new();
    queue.push(NodeId::new(0), &arena);
    assert_eq!(Some(2), queue.peek_max());
    assert_eq!(vec![0], indices(&queue.clone().pop()));
    assert_eq!(vec![0], indices(&queue.pop_and_push_children(&arena).unwrap()));
    assert_eq!(
        "[ (NodeId { index: 2 }, 0) (NodeId { index: 1 }, 1) ]",
        queue.to_debug_string()
    );
    assert_eq!(vec![1], indices(&queue.pop_and_push_children(&arena).unwrap()));
    assert_eq!(Some(0), queue.peek_max());
    assert_eq!(vec![2, 3], indices(&queue.pop()));
    assert!(queue.is_empty());
}
