//! Node identifiers, oriented handles and canonical edges.

use vstd::prelude::*;

verus! {

/// The largest node id that fits in a handle, plus one.
pub const ID_LIMIT: u64 = 0x8000_0000_0000_0000;

/// The graph-wide identity of a node.
#[derive(Debug, Clone, Copy, PartialEq, Eq, Structural, Hash, PartialOrd, Ord)]
pub struct NodeId(pub u64);

impl NodeId {
    /// The id as a plain integer.
    pub fn as_u64(self) -> (r: u64)
        ensures
            r == self.0,
    {
        self.0
    }
}

impl From<u64> for NodeId {
    fn from(num: u64) -> (r: NodeId) {
        NodeId(num)
    }
}

impl vstd::std_specs::convert::FromSpecImpl<u64> for NodeId {
    open spec fn obeys_from_spec() -> bool {
        true
    }

    open spec fn from_spec(num: u64) -> NodeId {
        NodeId(num)
    }
}

impl From<NodeId> for u64 {
    fn from(id: NodeId) -> (r: u64) {
        id.0
    }
}

impl vstd::std_specs::convert::FromSpecImpl<NodeId> for u64 {
    open spec fn obeys_from_spec() -> bool {
        true
    }

    open spec fn from_spec(id: NodeId) -> u64 {
        id.0
    }
}

/// A node id and an orientation packed in one integer: the id in the upper
/// 63 bits, the orientation in the lowest bit (set means reverse).
#[derive(Debug, Clone, Copy, PartialEq, Eq, Structural, Hash, PartialOrd, Ord)]
pub struct Handle(pub u64);

/// The id that a packed value holds.
pub open spec fn id_of(h: Handle) -> u64 {
    h.0 / 2
}

/// Whether a packed value stands for the reverse orientation.
pub open spec fn rev_of(h: Handle) -> bool {
    h.0 % 2 == 1
}

/// The packed value of an id and an orientation.
pub open spec fn pack_spec(id: u64, is_reverse: bool) -> Handle {
    Handle((id * 2 + if is_reverse { 1int } else { 0int }) as u64)
}

/// The same node in the other orientation.
pub open spec fn flip_spec(h: Handle) -> Handle {
    if h.0 % 2 == 0 {
        Handle((h.0 + 1) as u64)
    } else {
        Handle((h.0 - 1) as u64)
    }
}

/// The canonical representative of the edge from `a` to `b`.
pub open spec fn edge_spec(a: Handle, b: Handle) -> Edge {
    let fb = flip_spec(b);
    let fa = flip_spec(a);
    if a.0 > fb.0 {
        Edge(fb, fa)
    } else if a.0 == fb.0 {
        if b.0 > fa.0 {
            Edge(fb, fa)
        } else {
            Edge(a, b)
        }
    } else {
        Edge(a, b)
    }
}

impl Handle {
    pub fn as_integer(self) -> (r: u64)
        ensures
            r == self.0,
    {
        self.0
    }

    pub fn from_integer(i: u64) -> (r: Handle)
        ensures
            r.0 == i,
    {
        Handle(i)
    }

    pub fn unpack_number(self) -> (r: u64)
        ensures
            r == id_of(self),
    {
        let v = self.0;
        assert(v >> 1u64 == v / 2) by (bit_vector);
        v >> 1u64
    }

    pub fn unpack_bit(self) -> (r: bool)
        ensures
            r == rev_of(self),
    {
        let v = self.0;
        assert((v & 1u64 != 0) == (v % 2 == 1)) by (bit_vector);
        v & 1u64 != 0
    }

    /// Packs an id and an orientation; the id must leave the top bit free.
    pub fn pack(id: NodeId, is_reverse: bool) -> (r: Handle)
        requires
            id.0 < ID_LIMIT,
        ensures
            r == pack_spec(id.0, is_reverse),
            id_of(r) == id.0,
            rev_of(r) == is_reverse,
    {
        let v = id.0;
        let b: u64 = if is_reverse { 1 } else { 0 };
        assert(v < 0x8000_0000_0000_0000u64 && b <= 1 ==> (v << 1u64) | b == v * 2 + b)
            by (bit_vector);
        Handle((v << 1u64) | b)
    }

    /// Packs an id with an orientation given as a segment orientation.
    pub fn new(id: NodeId, orient: Orientation) -> (r: Handle)
        requires
            id.0 < ID_LIMIT,
        ensures
            r == pack_spec(id.0, orient == Orientation::Backward),
    {
        let is_reverse = match orient {
            Orientation::Forward => false,
            Orientation::Backward => true,
        };
        Handle::pack(id, is_reverse)
    }

    pub fn id(self) -> (r: NodeId)
        ensures
            r.0 == id_of(self),
    {
        NodeId(self.unpack_number())
    }

    pub fn is_reverse(&self) -> (r: bool)
        ensures
            r == rev_of(*self),
    {
        self.unpack_bit()
    }

    pub fn flip(self) -> (r: Handle)
        ensures
            r == flip_spec(self),
            id_of(r) == id_of(self),
            rev_of(r) != rev_of(self),
    {
        let v = self.0;
        assert(v ^ 1u64 == if v % 2 == 0 { (v + 1) as u64 } else { (v - 1) as u64 })
            by (bit_vector);
        Handle(v ^ 1u64)
    }

    pub fn forward(self) -> (r: Handle)
        ensures
            id_of(r) == id_of(self),
            !rev_of(r),
            r == if rev_of(self) { flip_spec(self) } else { self },
    {
        if self.is_reverse() {
            self.flip()
        } else {
            self
        }
    }
}

/// An edge: traverse the left handle, then the right one.
#[derive(Debug, Clone, Copy, PartialEq, Eq, Structural, Hash, PartialOrd, Ord)]
pub struct Edge(pub Handle, pub Handle);

impl Edge {
    /// The canonical form of the edge from `left` to `right`: of the two
    /// pairs that describe one connection, the one chosen is the same for
    /// both.
    pub fn edge_handle(left: Handle, right: Handle) -> (r: Edge)
        ensures
            r == edge_spec(left, right),
    {
        let flipped_right = right.flip();
        let flipped_left = left.flip();
        if left.0 > flipped_right.0 {
            Edge(flipped_right, flipped_left)
        } else if left.0 == flipped_right.0 {
            if right.0 > flipped_left.0 {
                Edge(flipped_right, flipped_left)
            } else {
                Edge(left, right)
            }
        } else {
            Edge(left, right)
        }
    }
}

/// The orientation in which a segment is read.
#[derive(Debug, Clone, Copy, PartialEq, Eq, Structural)]
pub enum Orientation {
    Forward,
    Backward,
}

/// A side of a handle, as seen in the handle's own orientation.
#[derive(Debug, Clone, Copy, PartialEq, Eq, Structural, PartialOrd, Ord)]
pub enum Direction {
    Left,
    Right,
}

/// Packing and unpacking are inverse: any id that leaves the top bit free,
/// with either orientation, comes back out of its handle unchanged.
pub proof fn lemma_pack_round_trip(id: u64, is_reverse: bool)
    requires
        id < ID_LIMIT,
    ensures
        id_of(pack_spec(id, is_reverse)) == id,
        rev_of(pack_spec(id, is_reverse)) == is_reverse,
{
}

/// Every handle is the packing of its id and orientation.
pub proof fn lemma_unpack_round_trip(h: Handle)
    ensures
        id_of(h) < ID_LIMIT,
        pack_spec(id_of(h), rev_of(h)) == h,
{
}

/// Flipping twice gives the handle back, and a flip keeps the node and
/// changes the orientation.
pub proof fn lemma_flip_involution(h: Handle)
    ensures
        flip_spec(flip_spec(h)) == h,
        id_of(flip_spec(h)) == id_of(h),
        rev_of(flip_spec(h)) != rev_of(h),
{
}

/// An edge and its reverse traversal have the same canonical form.
pub proof fn lemma_edge_handle_symmetric(a: Handle, b: Handle)
    ensures
        edge_spec(a, b) == edge_spec(flip_spec(b), flip_spec(a)),
{
    lemma_flip_involution(a);
    lemma_flip_involution(b);
}

} // verus!
