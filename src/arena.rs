//! The arena of call nodes and its insertion algorithm.
use alloy_primitives::Address;
use crate::types::{
    call_entries, lemma_call_entries_push, placeholder_node, positions, CallTrace,
    CallTraceNode, CallTraceNodeView, TraceMemberOrder,
};
use vstd::prelude::*;

verus! {

/// How a new call is placed into the arena.
#[derive(Clone, Copy, Debug, PartialEq, Eq)]
pub enum PushTraceKind {
    /// Only store the node: it gets an index but its parent does not list it.
    PushOnly,
    /// Store the node and also list it among its parent's visible children.
    PushAndAttachToParent,
}

impl PushTraceKind {
    pub open spec fn attaches(&self) -> bool {
        *self is PushAndAttachToParent
    }

    /// Whether a node pushed this way is listed among its parent's children.
    pub fn is_attach_to_parent(&self) -> (r: bool)
        ensures
            r == self.attaches(),
    {
        match self {
            PushTraceKind::PushAndAttachToParent => true,
            PushTraceKind::PushOnly => false,
        }
    }
}

/// The structural invariant of an arena's node sequence.
pub open spec fn well_formed(nodes: Seq<CallTraceNodeView>) -> bool {
    &&& nodes.len() >= 1
    &&& nodes[0].parent is None
    &&& nodes[0].trace.depth == 0
    &&& forall|i: int| 0 <= i < nodes.len() ==> #[trigger] nodes[i].idx == i
    &&& forall|i: int|
        0 < i < nodes.len() ==> {
            let p = (#[trigger] nodes[i]).parent;
            &&& p is Some
            &&& p->0 < i
            &&& nodes[p->0 as int].trace.depth + 1 == nodes[i].trace.depth
        }
    &&& forall|i: int, j: int|
        0 <= i < nodes.len() && 0 <= j < nodes[i].children.len() ==> {
            let c = #[trigger] nodes[i].children[j];
            &&& i < c < nodes.len()
            &&& nodes[c as int].parent == Some(i as usize)
        }
    &&& forall|i: int|
        0 <= i < nodes.len() ==> call_entries(#[trigger] nodes[i].ordering) == positions(
            nodes[i].children.len(),
        )
}

/// The node at which the search for a parent of depth `depth - 1` stops,
/// starting from `cur` and moving to the most recently added child while the
/// depth does not match; `None` where it meets a node without children.
pub open spec fn find_parent(nodes: Seq<CallTraceNodeView>, cur: int, depth: int) -> Option<int>
    decreases nodes.len() - cur,
{
    if !(0 <= cur < nodes.len()) {
        None
    } else if nodes[cur].trace.depth == depth - 1 {
        Some(cur)
    } else if nodes[cur].children.len() == 0 {
        None
    } else {
        let next = nodes[cur].children.last() as int;
        if cur < next < nodes.len() {
            find_parent(nodes, next, depth)
        } else {
            None
        }
    }
}

/// The nodes after a new node holding `trace` is appended below `p`, and,
/// where `attach` holds, listed as the last child of `p` with a call entry
/// appended to the ordering of `p`.
pub open spec fn insert_child(
    nodes: Seq<CallTraceNodeView>,
    p: int,
    attach: bool,
    trace: CallTrace,
) -> Seq<CallTraceNodeView> {
    let id = nodes.len() as usize;
    let node = CallTraceNodeView {
        parent: Some(p as usize),
        children: Seq::empty(),
        idx: id,
        trace,
        ordering: Seq::empty(),
    };
    let pushed = nodes.push(node);
    if attach {
        let parent = nodes[p];
        pushed.update(
            p,
            CallTraceNodeView {
                children: parent.children.push(id),
                ordering: parent.ordering.push(TraceMemberOrder::Call(parent.children.len() as usize)),
                ..parent
            },
        )
    } else {
        pushed
    }
}

/// The nodes after the root's record is replaced by `trace`.
pub open spec fn overwrite_root(nodes: Seq<CallTraceNodeView>, trace: CallTrace) -> Seq<
    CallTraceNodeView,
> {
    nodes.update(0, CallTraceNodeView { trace, ..nodes[0] })
}

/// Every address the nodes record: for each node in arena order, the called
/// address followed by the caller.
pub open spec fn all_addresses(nodes: Seq<CallTraceNodeView>) -> Seq<Address> {
    Seq::new(
        2 * nodes.len(),
        |k: int|
            if k % 2 == 0 {
                nodes[k / 2].trace.address
            } else {
                nodes[k / 2].trace.caller
            },
    )
}

/// Whether node `i` is reached from the root by following `children` links.
pub open spec fn visible(nodes: Seq<CallTraceNodeView>, i: int) -> bool
    decreases i,
{
    if i <= 0 {
        i == 0
    } else if i >= nodes.len() {
        false
    } else {
        match nodes[i].parent {
            Some(p) => p < i && nodes[p as int].children.contains(i as usize) && visible(
                nodes,
                p as int,
            ),
            None => false,
        }
    }
}

/// Every node is reached from the root through `children`, or is a leaf that
/// was stored without being attached.
pub open spec fn tree_shaped(nodes: Seq<CallTraceNodeView>) -> bool {
    forall|i: int|
        0 <= i < nodes.len() ==> visible(nodes, i) || (#[trigger] nodes[i]).children.len() == 0
}

/// The nodes after one insertion of `trace` from `entry`, as `push_trace` makes it.
pub open spec fn after_push(
    nodes: Seq<CallTraceNodeView>,
    entry: int,
    attach: bool,
    trace: CallTrace,
) -> Seq<CallTraceNodeView> {
    if trace.depth == 0 {
        overwrite_root(nodes, trace)
    } else {
        match find_parent(nodes, entry, trace.depth as int) {
            Some(p) => insert_child(nodes, p, attach, trace),
            None => nodes,
        }
    }
}

/// One insertion: the start index, the kind and the record.
pub struct PushOp {
    pub entry: usize,
    pub kind: PushTraceKind,
    pub trace: CallTrace,
}

/// The nodes after the insertions `ops`, in order, starting from `nodes`.
pub open spec fn replay(nodes: Seq<CallTraceNodeView>, ops: Seq<PushOp>) -> Seq<CallTraceNodeView>
    decreases ops.len(),
{
    if ops.len() == 0 {
        nodes
    } else {
        let op = ops.last();
        after_push(replay(nodes, ops.drop_last()), op.entry as int, op.kind.attaches(), op.trace)
    }
}

/// Each insertion of `ops` starts from a node reached from the root and,
/// unless it is the entry call, finds its parent along the chain of most
/// recently added children.
pub open spec fn valid_ops(nodes: Seq<CallTraceNodeView>, ops: Seq<PushOp>) -> bool
    decreases ops.len(),
{
    if ops.len() == 0 {
        true
    } else {
        let op = ops.last();
        let before = replay(nodes, ops.drop_last());
        &&& valid_ops(nodes, ops.drop_last())
        &&& op.entry < before.len() <= usize::MAX
        &&& visible(before, op.entry as int)
        &&& (op.trace.depth > 0 ==> find_parent(
            before,
            op.entry as int,
            op.trace.depth as int,
        ) is Some)
    }
}

/// The search for a parent stops, if at all, at a node of depth `depth - 1`,
/// and one reached from the root where it started from such a node.
pub proof fn lemma_find_parent(nodes: Seq<CallTraceNodeView>, cur: int, depth: int)
    requires
        well_formed(nodes),
    ensures
        find_parent(nodes, cur, depth) matches Some(p) ==> {
            &&& 0 <= p < nodes.len()
            &&& nodes[p].trace.depth == depth - 1
            &&& visible(nodes, cur) ==> visible(nodes, p)
        },
    decreases nodes.len() - cur,
{
    if 0 <= cur < nodes.len() && nodes[cur].trace.depth != depth - 1 && nodes[cur].children.len()
        > 0 {
        let k = nodes[cur].children.len() - 1;
        let next = nodes[cur].children[k] as int;
        assert(nodes[cur].children.last() == nodes[cur].children[k]);
        if cur < next < nodes.len() {
            lemma_find_parent(nodes, next, depth);
            if visible(nodes, cur) {
                assert(nodes[cur].children.contains(next as usize));
                assert(visible(nodes, next));
            }
        }
    }
}

/// Reachability of the old nodes does not change when a node is appended
/// below `p`, attached or not.
proof fn lemma_insert_child_visible(
    nodes: Seq<CallTraceNodeView>,
    p: int,
    attach: bool,
    trace: CallTrace,
    i: int,
)
    requires
        well_formed(nodes),
        nodes.len() <= usize::MAX,
        0 <= p < nodes.len(),
        0 <= i < nodes.len(),
    ensures
        visible(insert_child(nodes, p, attach, trace), i) == visible(nodes, i),
    decreases i,
{
    let after = insert_child(nodes, p, attach, trace);
    if i > 0 {
        let q = nodes[i].parent->0;
        assert(after[i].parent == nodes[i].parent);
        lemma_insert_child_visible(nodes, p, attach, trace, q as int);
        if attach && q == p {
            assert(after[p].children == nodes[p].children.push(nodes.len() as usize));
            if nodes[p].children.contains(i as usize) {
                let j = choose|j: int|
                    0 <= j < nodes[p].children.len() && nodes[p].children[j] == i as usize;
                assert(after[p].children[j] == i as usize);
            }
            if after[p].children.contains(i as usize) {
                let j = choose|j: int|
                    0 <= j < after[p].children.len() && after[p].children[j] == i as usize;
                if j == nodes[p].children.len() {
                    assert(after[p].children[j] == nodes.len() as usize);
                }
                assert(j < nodes[p].children.len());
                assert(nodes[p].children[j] == i as usize);
            }
        }
    }
}

/// Appending a node below a parent of depth one less keeps the invariant.
/// Where the parent is reached from the root, the nodes stay tree-shaped.
pub proof fn lemma_insert_child(
    nodes: Seq<CallTraceNodeView>,
    p: int,
    attach: bool,
    trace: CallTrace,
)
    requires
        well_formed(nodes),
        nodes.len() <= usize::MAX,
        0 <= p < nodes.len(),
        nodes[p].trace.depth + 1 == trace.depth,
    ensures
        well_formed(insert_child(nodes, p, attach, trace)),
        tree_shaped(nodes) && visible(nodes, p) ==> tree_shaped(
            insert_child(nodes, p, attach, trace),
        ),
{
    let after = insert_child(nodes, p, attach, trace);
    let id = nodes.len() as usize;
    assert(call_entries(Seq::<TraceMemberOrder>::empty()) == Seq::<usize>::empty());
    assert(positions(0) =~= Seq::<usize>::empty());
    if attach {
        let par = nodes[p];
        lemma_call_entries_push(par.ordering, TraceMemberOrder::Call(par.children.len() as usize));
        assert(positions(par.children.len()).push(par.children.len() as usize) =~= positions(
            par.children.len() + 1,
        ));
        assert forall|i: int, j: int|
            0 <= i < after.len() && 0 <= j < after[i].children.len() implies {
            let c = #[trigger] after[i].children[j];
            &&& i < c < after.len()
            &&& after[c as int].parent == Some(i as usize)
        } by {
            if i == p && j == par.children.len() {
                assert(after[i].children[j] == id);
            } else {
                assert(after[i].children[j] == nodes[i].children[j]);
            }
        }
    }
    if tree_shaped(nodes) && visible(nodes, p) {
        assert forall|i: int| 0 <= i < after.len() implies visible(after, i) || (
        #[trigger] after[i]).children.len() == 0 by {
            if i < nodes.len() {
                lemma_insert_child_visible(nodes, p, attach, trace, i);
                lemma_insert_child_visible(nodes, p, attach, trace, p);
            } else if attach {
                lemma_insert_child_visible(nodes, p, attach, trace, p);
                assert(after[p].children.last() == id);
                assert(after[p].children.contains(id));
            }
        }
    }
}

/// One insertion keeps the invariant, and keeps the nodes tree-shaped when it
/// starts from a node reached from the root.
pub proof fn lemma_after_push(
    nodes: Seq<CallTraceNodeView>,
    entry: int,
    attach: bool,
    trace: CallTrace,
)
    requires
        well_formed(nodes),
        nodes.len() <= usize::MAX,
    ensures
        well_formed(after_push(nodes, entry, attach, trace)),
        tree_shaped(nodes) && visible(nodes, entry) ==> tree_shaped(
            after_push(nodes, entry, attach, trace),
        ),
{
    if trace.depth == 0 {
        let after = overwrite_root(nodes, trace);
        assert forall|i: int| 0 <= i < after.len() implies visible(after, i) == visible(nodes, i)
            by {
            lemma_overwrite_root_visible(nodes, trace, i);
        }
    } else {
        lemma_find_parent(nodes, entry, trace.depth as int);
        if let Some(p) = find_parent(nodes, entry, trace.depth as int) {
            lemma_insert_child(nodes, p, attach, trace);
        }
    }
}

proof fn lemma_overwrite_root_visible(nodes: Seq<CallTraceNodeView>, trace: CallTrace, i: int)
    requires
        0 <= i < nodes.len(),
    ensures
        visible(overwrite_root(nodes, trace), i) == visible(nodes, i),
    decreases i,
{
    let after = overwrite_root(nodes, trace);
    if i > 0 {
        if let Some(q) = nodes[i].parent {
            if q < i {
                lemma_overwrite_root_visible(nodes, trace, q as int);
            }
        }
    }
}

/// Any valid sequence of insertions on a fresh arena builds a tree: every
/// non-root node has a parent of depth one less at a smaller index, each
/// visible child links back to its parent, and every node is reached from the
/// root through `children` or is a leaf stored without being attached.
pub proof fn lemma_valid_sequence_builds_tree(ops: Seq<PushOp>)
    requires
        valid_ops(initial_nodes(), ops),
    ensures
        well_formed(replay(initial_nodes(), ops)),
        tree_shaped(replay(initial_nodes(), ops)),
    decreases ops.len(),
{
    if ops.len() == 0 {
        lemma_initial_nodes();
    } else {
        lemma_valid_sequence_builds_tree(ops.drop_last());
        let op = ops.last();
        lemma_after_push(
            replay(initial_nodes(), ops.drop_last()),
            op.entry as int,
            op.kind.attaches(),
            op.trace,
        );
    }
}

/// The placeholder root alone is well formed and tree-shaped.
pub proof fn lemma_initial_nodes()
    ensures
        well_formed(initial_nodes()),
        tree_shaped(initial_nodes()),
{
    assert(call_entries(Seq::<TraceMemberOrder>::empty()) == Seq::<usize>::empty());
    assert(positions(0) =~= Seq::<usize>::empty());
    assert(visible(initial_nodes(), 0));
}

/// Clearing an arena, whatever it held, and then inserting `ops` gives node
/// for node what the same insertions give on a fresh arena.
pub proof fn lemma_reset_then_replay(cleared: CallTraceArena, fresh: CallTraceArena, ops: Seq<PushOp>)
    requires
        cleared@ == initial_nodes(),
        fresh@ == initial_nodes(),
    ensures
        replay(cleared@, ops) == replay(fresh@, ops),
{
}

/// An insertion that stores without attaching adds one node and leaves the
/// parent's `children` and `ordering` as they were.
pub proof fn lemma_store_only_insertion(nodes: Seq<CallTraceNodeView>, p: int, trace: CallTrace)
    requires
        well_formed(nodes),
        0 <= p < nodes.len(),
    ensures
        insert_child(nodes, p, false, trace).len() == nodes.len() + 1,
        insert_child(nodes, p, false, trace)[p].children == nodes[p].children,
        insert_child(nodes, p, false, trace)[p].ordering == nodes[p].ordering,
        insert_child(nodes, p, false, trace)[nodes.len() as int].parent == Some(p as usize),
{
}

/// An insertion that attaches adds one node, appends its index to the
/// parent's `children`, and appends exactly one call entry, naming that
/// child's position, to the parent's `ordering`.
pub proof fn lemma_attach_insertion(nodes: Seq<CallTraceNodeView>, p: int, trace: CallTrace)
    requires
        well_formed(nodes),
        0 <= p < nodes.len(),
    ensures
        insert_child(nodes, p, true, trace).len() == nodes.len() + 1,
        insert_child(nodes, p, true, trace)[p].children == nodes[p].children.push(
            nodes.len() as usize,
        ),
        insert_child(nodes, p, true, trace)[p].ordering == nodes[p].ordering.push(
            TraceMemberOrder::Call(nodes[p].children.len() as usize),
        ),
        call_entries(insert_child(nodes, p, true, trace)[p].ordering) == call_entries(
            nodes[p].ordering,
        ).push(nodes[p].children.len() as usize),
{
    lemma_call_entries_push(
        nodes[p].ordering,
        TraceMemberOrder::Call(nodes[p].children.len() as usize),
    );
}

/// The search for a parent met a node without children: the depths supplied
/// do not describe a connected call tree.
#[derive(Clone, Copy, Debug, PartialEq, Eq)]
pub struct DisconnectedTrace;

/// An arena of recorded call traces, each node identified by its position.
#[derive(Clone, Debug, PartialEq, Eq)]
pub struct CallTraceArena {
    /// The recorded nodes, indexed by position.
    pub(crate) arena: Vec<CallTraceNode>,
}

impl View for CallTraceArena {
    type V = Seq<CallTraceNodeView>;

    closed spec fn view(&self) -> Seq<CallTraceNodeView> {
        self.arena@.map_values(|n: CallTraceNode| n@)
    }
}

/// The nodes of a fresh or just-cleared arena: the placeholder root alone.
pub open spec fn initial_nodes() -> Seq<CallTraceNodeView> {
    seq![placeholder_node()]
}

impl Default for CallTraceArena {
    /// An arena holding only the placeholder root.
    fn default() -> (r: CallTraceArena)
        ensures
            r@ == initial_nodes(),
            well_formed(r@),
            tree_shaped(r@),
    {
        let mut this = CallTraceArena { arena: Vec::with_capacity(8) };
        this.clear();
        this
    }
}

impl CallTraceArena {
    /// The nodes of the arena.
    pub fn nodes(&self) -> (r: &[CallTraceNode])
        ensures
            r@.map_values(|n: CallTraceNode| n@) == self@,
    {
        self.arena.as_slice()
    }

    /// Mutable access to the nodes of the arena.
    pub fn nodes_mut(&mut self) -> (r: &mut Vec<CallTraceNode>)
        ensures
            (*r)@.map_values(|n: CallTraceNode| n@) == old(self)@,
            (*final(r))@.map_values(|n: CallTraceNode| n@) == final(self)@,
    {
        &mut self.arena
    }

    /// Consumes the arena and returns its nodes.
    pub fn into_nodes(self) -> (r: Vec<CallTraceNode>)
        ensures
            r@.map_values(|n: CallTraceNode| n@) == self@,
    {
        self.arena
    }

    /// All addresses of the recorded calls: for each node in order, the called
    /// address and then the caller.
    pub fn trace_addresses(&self) -> (r: Vec<Address>)
        ensures
            r@ == all_addresses(self@),
    {
        let mut out: Vec<Address> = Vec::new();
        let mut i: usize = 0;
        while i < self.arena.len()
            invariant
                i <= self.arena@.len(),
                self@.len() == self.arena@.len(),
                out@ =~= all_addresses(self@.take(i as int)),
            decreases self.arena@.len() - i,
        {
            proof {
                assert(self@[i as int] == self.arena@[i as int]@);
            }
            out.push(self.arena[i].trace.address);
            out.push(self.arena[i].trace.caller);
            i = i + 1;
            proof {
                assert(out@ =~= all_addresses(self@.take(i as int)));
            }
        }
        proof {
            assert(self@.take(i as int) =~= self@);
        }
        out
    }

    /// Removes every node and puts the placeholder root back at index zero.
    /// The allocated capacity is kept.
    pub fn clear(&mut self)
        ensures
            final(self)@ == initial_nodes(),
            well_formed(final(self)@),
            tree_shaped(final(self)@),
    {
        self.arena.clear();
        self.arena.push(CallTraceNode::default());
        proof {
            assert(self@ =~= initial_nodes());
            lemma_initial_nodes();
        }
    }

    /// Inserts a new call and returns its index.
    ///
    /// A call of depth zero overwrites the root's record and gets index zero.
    /// Any other call is placed below the parent found by `find_parent` from
    /// `entry`: it is appended at the next free index and, where `kind`
    /// attaches, listed as the parent's last child with a call entry in the
    /// parent's ordering. Where the search meets a node without children, the
    /// arena is left as it was and `DisconnectedTrace` is returned.
    pub fn push_trace(&mut self, entry: usize, kind: PushTraceKind, new_trace: CallTrace) -> (r:
        Result<usize, DisconnectedTrace>)
        requires
            well_formed(old(self)@),
            entry < old(self)@.len(),
        ensures
            well_formed(final(self)@),
            final(self)@ == after_push(old(self)@, entry as int, kind.attaches(), new_trace),
            tree_shaped(old(self)@) && visible(old(self)@, entry as int) ==> tree_shaped(
                final(self)@,
            ),
            new_trace.depth == 0 ==> r == Ok::<usize, DisconnectedTrace>(0) && final(self)@
                == overwrite_root(old(self)@, new_trace),
            new_trace.depth > 0 ==> match find_parent(
                old(self)@,
                entry as int,
                new_trace.depth as int,
            ) {
                Some(p) => r == Ok::<usize, DisconnectedTrace>(old(self)@.len() as usize)
                    && final(self)@ == insert_child(old(self)@, p, kind.attaches(), new_trace),
                None => r is Err && final(self)@ == old(self)@,
            },
    {
        let n = self.arena.len();
        proof {
            assert(old(self)@.len() == n);
            lemma_after_push(old(self)@, entry as int, kind.attaches(), new_trace);
        }
        if new_trace.depth == 0 {
            self.arena[0].trace = new_trace;
            proof {
                assert(self@ =~= overwrite_root(old(self)@, new_trace));
            }
            return Ok(0);
        }
        let target = new_trace.depth - 1;
        let mut cur = entry;
        loop
            invariant
                self@ == old(self)@,
                well_formed(self@),
                cur < self@.len(),
                target + 1 == new_trace.depth,
                find_parent(self@, cur as int, new_trace.depth as int) == find_parent(
                    self@,
                    entry as int,
                    new_trace.depth as int,
                ),
            decreases self@.len() - cur,
        {
            proof {
                assert(self@[cur as int] == self.arena@[cur as int]@);
            }
            if self.arena[cur].trace.depth == target {
                let ghost before = self@;
                let id = self.arena.len();
                proof {
                    lemma_after_push(before, entry as int, kind.attaches(), new_trace);
                    assert(find_parent(before, cur as int, new_trace.depth as int) == Some(
                        cur as int,
                    ));
                }
                let node = CallTraceNode {
                    parent: Some(cur),
                    children: Vec::new(),
                    idx: id,
                    trace: new_trace,
                    ordering: Vec::new(),
                };
                self.arena.push(node);
                proof {
                    assert(node@.children =~= Seq::<usize>::empty());
                    assert(node@.ordering =~= Seq::<TraceMemberOrder>::empty());
                    assert(self@ =~= before.push(node@));
                }
                if kind.is_attach_to_parent() {
                    let loc = self.arena[cur].children.len();
                    self.arena[cur].ordering.push(TraceMemberOrder::Call(loc));
                    self.arena[cur].children.push(id);
                    proof {
                        assert(self@ =~= insert_child(before, cur as int, true, new_trace));
                    }
                } else {
                    proof {
                        assert(self@ =~= insert_child(before, cur as int, false, new_trace));
                    }
                }
                return Ok(id);
            }
            match self.arena[cur].children.last() {
                Some(c) => {
                    proof {
                        let k = self@[cur as int].children.len() - 1;
                        assert(self@[cur as int].children[k] == *c);
                    }
                    cur = *c;
                },
                None => {
                    return Err(DisconnectedTrace);
                },
            }
        }
    }
}

} // verus!
