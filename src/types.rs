//! The records kept for each call, and the nodes that hold them.
use alloy_primitives::Address;
use vstd::prelude::*;

verus! {

/// An Ethereum address, carried through the arena without being inspected.
#[verifier::external_type_specification]
#[verifier::external_body]
pub struct ExAddress(alloy_primitives::Address);

/// The address that `Address::new` builds from the given twenty bytes.
pub uninterp spec fn address_of_bytes(b: Seq<u8>) -> Address;

/// Relies on `alloy_primitives::Address::new`: wraps the twenty bytes given.
#[verifier::external_body]
pub(crate) fn address_from_bytes(b: [u8; 20]) -> (r: Address)
    ensures
        r == address_of_bytes(b@),
{
    Address::new(b)
}

/// The all-zero address.
pub open spec fn zero_address() -> Address {
    address_of_bytes(Seq::new(20, |i: int| 0u8))
}

/// The data of one call that the arena needs to place it in the tree.
#[derive(Clone, Copy, Debug, PartialEq, Eq)]
pub struct CallTrace {
    /// Nesting level of the call; the entry call has depth zero.
    pub depth: usize,
    /// The address that was called.
    pub address: Address,
    /// The address that made the call.
    pub caller: Address,
}

/// The record held by the root until the entry call is inserted.
pub open spec fn placeholder_trace() -> CallTrace {
    CallTrace { depth: 0, address: zero_address(), caller: zero_address() }
}

impl CallTrace {
    /// The placeholder record: depth zero, zero addresses.
    pub fn placeholder() -> (r: CallTrace)
        ensures
            r == placeholder_trace(),
    {
        let bytes: [u8; 20] = [0u8; 20];
        proof {
            broadcast use vstd::array::group_array_axioms;
            assert(bytes@ =~= Seq::new(20, |i: int| 0u8));
        }
        let z = address_from_bytes(bytes);
        CallTrace { depth: 0, address: z, caller: z }
    }
}

/// One entry of a node's ordering: which kind of trace member comes next in
/// the frame, with its position among the members of that kind.
#[derive(Clone, Copy, Debug, PartialEq, Eq)]
pub enum TraceMemberOrder {
    /// The k-th log emitted by this frame.
    Log(usize),
    /// The k-th visible child call, that is `children[k]`.
    Call(usize),
    /// The k-th recorded execution step of this frame.
    Step(usize),
}

/// The positions carried by the call-tagged entries of an ordering, in order.
pub open spec fn call_entries(s: Seq<TraceMemberOrder>) -> Seq<usize>
    decreases s.len(),
{
    if s.len() == 0 {
        Seq::empty()
    } else {
        let rest = call_entries(s.drop_last());
        match s.last() {
            TraceMemberOrder::Call(k) => rest.push(k),
            _ => rest,
        }
    }
}

/// Appending an entry extends the call-tagged positions by that entry's
/// position exactly when it is call-tagged.
pub proof fn lemma_call_entries_push(s: Seq<TraceMemberOrder>, e: TraceMemberOrder)
    ensures
        call_entries(s.push(e)) == match e {
            TraceMemberOrder::Call(k) => call_entries(s).push(k),
            _ => call_entries(s),
        },
{
    assert(s.push(e).drop_last() =~= s);
}

/// The positions `0, 1, ..., n - 1`.
pub open spec fn positions(n: nat) -> Seq<usize> {
    Seq::new(n, |k: int| k as usize)
}

/// A node of the arena.
#[derive(Clone, Debug, PartialEq, Eq)]
pub struct CallTraceNode {
    /// Index of the node that was found as parent on insertion; `None` for the root.
    pub parent: Option<usize>,
    /// Indices of the visible child calls, in the order they were attached.
    pub children: Vec<usize>,
    /// This node's own position in the arena.
    pub idx: usize,
    /// The call this node records.
    pub trace: CallTrace,
    /// How visible child calls interleave with the frame's other trace members.
    pub ordering: Vec<TraceMemberOrder>,
}

/// The mathematical model of a node: its sequences as `Seq`.
pub struct CallTraceNodeView {
    pub parent: Option<usize>,
    pub children: Seq<usize>,
    pub idx: usize,
    pub trace: CallTrace,
    pub ordering: Seq<TraceMemberOrder>,
}

impl View for CallTraceNode {
    type V = CallTraceNodeView;

    open spec fn view(&self) -> CallTraceNodeView {
        CallTraceNodeView {
            parent: self.parent,
            children: self.children@,
            idx: self.idx,
            trace: self.trace,
            ordering: self.ordering@,
        }
    }
}

/// The root node of a fresh arena: no parent, no children, the placeholder record.
pub open spec fn placeholder_node() -> CallTraceNodeView {
    CallTraceNodeView {
        parent: None,
        children: Seq::empty(),
        idx: 0,
        trace: placeholder_trace(),
        ordering: Seq::empty(),
    }
}

impl Default for CallTraceNode {
    /// A node at index zero with the placeholder record and no links.
    fn default() -> (r: CallTraceNode)
        ensures
            r@ == placeholder_node(),
    {
        let r = CallTraceNode {
            parent: None,
            children: Vec::new(),
            idx: 0,
            trace: CallTrace::placeholder(),
            ordering: Vec::new(),
        };
        proof {
            assert(r@.children =~= Seq::<usize>::empty());
            assert(r@.ordering =~= Seq::<TraceMemberOrder>::empty());
        }
        r
    }
}

} // verus!
