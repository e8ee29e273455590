use alloy_primitives::Address;
use call_trace_arena::arena::{CallTraceArena, DisconnectedTrace, PushTraceKind};
use call_trace_arena::types::{CallTrace, CallTraceNode, TraceMemberOrder};

fn call(depth: usize, to: u8, from: u8) -> CallTrace {
    CallTrace { depth, address: Address::with_last_byte(to), caller: Address::with_last_byte(from) }
}

const ATTACH: PushTraceKind = PushTraceKind::PushAndAttachToParent;
const STORE: PushTraceKind = PushTraceKind::PushOnly;

#[test]
fn fresh_arena_holds_placeholder_root() {
    let arena = CallTraceArena::default();
    let nodes = arena.nodes();
    assert_eq!(nodes.len(), 1);
    assert_eq!(nodes[0].idx, 0);
    assert_eq!(nodes[0].parent, None);
    assert!(nodes[0].children.is_empty());
    assert!(nodes[0].ordering.is_empty());
    assert_eq!(nodes[0].trace.depth, 0);
    assert_eq!(nodes[0].trace.address, Address::ZERO);
    assert_eq!(nodes[0].trace.caller, Address::ZERO);
    assert_eq!(nodes[0], CallTraceNode::default());
}

#[test]
fn nested_scenario() {
    let mut arena = CallTraceArena::default();
    assert_eq!(arena.push_trace(0, ATTACH, call(0, 1, 9)), Ok(0));
    assert_eq!(arena.nodes()[0].trace, call(0, 1, 9));
    assert_eq!(arena.nodes().len(), 1);

    assert_eq!(arena.push_trace(0, ATTACH, call(1, 2, 1)), Ok(1));
    assert_eq!(arena.nodes()[0].children, vec![1]);

    assert_eq!(arena.push_trace(1, ATTACH, call(2, 3, 2)), Ok(2));
    assert_eq!(arena.nodes()[1].children, vec![2]);
    assert_eq!(arena.nodes()[2].parent, Some(1));

    assert_eq!(arena.push_trace(0, STORE, call(1, 4, 1)), Ok(3));
    assert_eq!(arena.nodes()[0].children, vec![1]);
    assert_eq!(arena.nodes()[3].parent, Some(0));
    assert_eq!(arena.nodes()[3].trace, call(1, 4, 1));
}

#[test]
fn skipped_depth_is_a_disconnected_trace() {
    let mut arena = CallTraceArena::default();
    assert_eq!(arena.push_trace(0, ATTACH, call(0, 1, 9)), Ok(0));
    let before = arena.clone();
    assert_eq!(arena.push_trace(0, ATTACH, call(2, 2, 1)), Err(DisconnectedTrace));
    assert_eq!(arena, before);
}

#[test]
fn search_descends_through_last_children() {
    let mut arena = CallTraceArena::default();
    arena.push_trace(0, ATTACH, call(0, 1, 9)).unwrap();
    arena.push_trace(0, ATTACH, call(1, 2, 1)).unwrap();
    arena.push_trace(0, ATTACH, call(1, 3, 1)).unwrap();
    // from the root, depth 2 goes below the most recent depth-1 call
    assert_eq!(arena.push_trace(0, ATTACH, call(2, 4, 3)), Ok(3));
    assert_eq!(arena.nodes()[3].parent, Some(2));
    assert_eq!(arena.nodes()[2].children, vec![3]);
    assert!(arena.nodes()[1].children.is_empty());
    // depth 3 from the root reaches node 3
    assert_eq!(arena.push_trace(0, ATTACH, call(3, 5, 4)), Ok(4));
    assert_eq!(arena.nodes()[4].parent, Some(3));
    // a sibling at depth 1 again
    assert_eq!(arena.push_trace(4, ATTACH, call(1, 6, 1)), Err(DisconnectedTrace));
    assert_eq!(arena.push_trace(0, ATTACH, call(1, 6, 1)), Ok(5));
    assert_eq!(arena.nodes()[0].children, vec![1, 2, 5]);
}

#[test]
fn self_index_matches_position() {
    let mut arena = CallTraceArena::default();
    arena.push_trace(0, ATTACH, call(0, 1, 9)).unwrap();
    let a = arena.push_trace(0, ATTACH, call(1, 2, 1)).unwrap();
    arena.push_trace(a, STORE, call(2, 3, 2)).unwrap();
    arena.push_trace(a, ATTACH, call(2, 4, 2)).unwrap();
    arena.push_trace(0, ATTACH, call(1, 5, 1)).unwrap();
    for (i, node) in arena.nodes().iter().enumerate() {
        assert_eq!(node.idx, i);
    }
    assert_eq!(arena.nodes().len(), 5);
}

#[test]
fn store_only_leaves_parent_lists_unchanged() {
    let mut arena = CallTraceArena::default();
    arena.push_trace(0, ATTACH, call(0, 1, 9)).unwrap();
    arena.push_trace(0, ATTACH, call(1, 2, 1)).unwrap();
    let parent_before = arena.nodes()[0].clone();
    let count = arena.nodes().len();
    assert_eq!(arena.push_trace(0, STORE, call(1, 3, 1)), Ok(2));
    assert_eq!(arena.nodes().len(), count + 1);
    assert_eq!(arena.nodes()[0].children, parent_before.children);
    assert_eq!(arena.nodes()[0].ordering, parent_before.ordering);
}

#[test]
fn attach_appends_child_and_call_entry() {
    let mut arena = CallTraceArena::default();
    arena.push_trace(0, ATTACH, call(0, 1, 9)).unwrap();
    arena.push_trace(0, ATTACH, call(1, 2, 1)).unwrap();
    arena.nodes_mut()[0].ordering.push(TraceMemberOrder::Log(0));
    assert_eq!(arena.push_trace(0, ATTACH, call(1, 3, 1)), Ok(2));
    assert_eq!(arena.nodes()[0].children, vec![1, 2]);
    assert_eq!(
        arena.nodes()[0].ordering,
        vec![TraceMemberOrder::Call(0), TraceMemberOrder::Log(0), TraceMemberOrder::Call(1)]
    );
}

#[test]
fn addresses_come_in_arena_order() {
    let mut arena = CallTraceArena::default();
    assert_eq!(arena.trace_addresses(), vec![Address::ZERO, Address::ZERO]);
    arena.push_trace(0, ATTACH, call(0, 1, 9)).unwrap();
    arena.push_trace(0, ATTACH, call(1, 2, 1)).unwrap();
    arena.push_trace(1, STORE, call(2, 3, 2)).unwrap();
    let expected: Vec<Address> =
        [1u8, 9, 2, 1, 3, 2].iter().map(|b| Address::with_last_byte(*b)).collect();
    assert_eq!(arena.trace_addresses(), expected);
    assert_eq!(arena.trace_addresses().len(), 2 * arena.nodes().len());
}

#[test]
fn clear_then_replay_matches_fresh() {
    let ops = [(0usize, ATTACH, call(0, 1, 9)), (0, ATTACH, call(1, 2, 1)), (1, STORE, call(2, 3, 2))];
    let mut reused = CallTraceArena::default();
    for (entry, kind, t) in ops.iter() {
        reused.push_trace(*entry, *kind, *t).unwrap();
    }
    reused.push_trace(0, ATTACH, call(1, 7, 7)).unwrap();
    reused.clear();
    assert_eq!(reused, CallTraceArena::default());
    let mut fresh = CallTraceArena::default();
    for (entry, kind, t) in ops.iter() {
        assert_eq!(reused.push_trace(*entry, *kind, *t), fresh.push_trace(*entry, *kind, *t));
    }
    assert_eq!(reused.nodes(), fresh.nodes());
}

#[test]
fn re_entering_depth_zero_overwrites_root() {
    let mut arena = CallTraceArena::default();
    arena.push_trace(0, ATTACH, call(0, 1, 9)).unwrap();
    arena.push_trace(0, ATTACH, call(1, 2, 1)).unwrap();
    assert_eq!(arena.push_trace(1, ATTACH, call(0, 5, 6)), Ok(0));
    assert_eq!(arena.nodes().len(), 2);
    assert_eq!(arena.nodes()[0].trace, call(0, 5, 6));
    assert_eq!(arena.nodes()[0].children, vec![1]);
}

#[test]
fn into_nodes_returns_all_nodes() {
    let mut arena = CallTraceArena::default();
    arena.push_trace(0, ATTACH, call(0, 1, 9)).unwrap();
    arena.push_trace(0, STORE, call(1, 2, 1)).unwrap();
    let copy: Vec<CallTraceNode> = arena.nodes().to_vec();
    let nodes = arena.into_nodes();
    assert_eq!(nodes, copy);
    assert_eq!(nodes.len(), 2);
}

#[test]
fn push_kind_reports_attachment() {
    assert!(ATTACH.is_attach_to_parent());
    assert!(!STORE.is_attach_to_parent());
}

#[test]
fn placeholder_record_has_zero_addresses() {
    let t = CallTrace::placeholder();
    assert_eq!(t.depth, 0);
    assert_eq!(t.address, Address::ZERO);
    assert_eq!(t.caller, Address::ZERO);
}
