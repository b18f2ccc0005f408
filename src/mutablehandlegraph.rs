//! The capabilities of a mutable handle graph, as narrow interfaces that a
//! graph backend implements: adding, removing, replacing, and reshaping.

use vstd::prelude::*;

use crate::divide::{ascending_inside, chain_id, fwd_pieces, rev_pieces};
use crate::graph::{GraphError, HashGraph, PathId};
use crate::handle::{id_of, pack_spec, rev_of, Edge, Handle, NodeId, ID_LIMIT};

verus! {

/// What the capability contracts say of a graph.
pub trait HandleGraphView {
    /// The graph's internal invariants hold.
    spec fn well_formed(&self) -> bool;

    /// A node with this id is present.
    spec fn contains_node(&self, id: u64) -> bool;

    /// The length of the sequence of a present node.
    spec fn node_length(&self, id: u64) -> nat;

    /// The largest node id used so far.
    spec fn max_node(&self) -> u64;

    /// `right` can follow `left`.
    spec fn follows(&self, left: Handle, right: Handle) -> bool;

    /// A path with this name is present.
    spec fn path_named(&self, name: Seq<u8>) -> bool;
}

pub trait SubtractiveHandleGraph: HandleGraphView {
    /// Removes a node with its edges and the paths through it.
    fn remove_handle(&mut self, node: NodeId) -> (r: bool)
        requires
            old(self).well_formed(),
        ensures
            final(self).well_formed(),
            r == old(self).contains_node(node.0),
            !final(self).contains_node(node.0),
            forall|j: u64| j != node.0 ==> #[trigger] final(self).contains_node(j) == old(self).contains_node(j),
    ;

    /// Removes an edge from both of its ends, with the paths that take it.
    fn remove_edge(&mut self, edge: Edge) -> (r: bool)
        requires
            old(self).well_formed(),
        ensures
            final(self).well_formed(),
            r == (old(self).contains_node(id_of(edge.0)) && old(self).contains_node(id_of(edge.1)) && old(self).follows(edge.0, edge.1)),
            r ==> !final(self).follows(edge.0, edge.1),
            forall|j: u64| #[trigger] final(self).contains_node(j) == old(self).contains_node(j),
    ;

    /// Removes a path by name.
    fn remove_path(&mut self, name: &[u8]) -> (r: bool)
        requires
            old(self).well_formed(),
        ensures
            final(self).well_formed(),
            r == old(self).path_named(name@),
            forall|j: u64| #[trigger] final(self).contains_node(j) == old(self).contains_node(j),
    ;

    /// Removes everything.
    fn clear_graph(&mut self)
        ensures
            final(self).well_formed(),
            forall|j: u64| !#[trigger] final(self).contains_node(j),
            final(self).max_node() == 0,
    ;
}

pub trait AdditiveHandleGraph: HandleGraphView {
    /// Adds a node with the next id after the largest one used so far.
    fn append_handle(&mut self, seq: &[u8]) -> (r: Result<Handle, GraphError>)
        requires
            old(self).well_formed(),
        ensures
            final(self).well_formed(),
            r is Ok <==> seq@.len() > 0 && old(self).max_node() + 1 < ID_LIMIT,
            r matches Ok(h) ==> {
                &&& h == pack_spec((old(self).max_node() + 1) as u64, false)
                &&& final(self).contains_node(id_of(h))
                &&& final(self).node_length(id_of(h)) == seq@.len()
            },
    ;

    /// Adds a node with the given id.
    fn create_handle(&mut self, seq: &[u8], node_id: NodeId) -> (r: Result<Handle, GraphError>)
        requires
            old(self).well_formed(),
        ensures
            final(self).well_formed(),
            r is Ok <==> seq@.len() > 0 && node_id.0 < ID_LIMIT && !old(self).contains_node(node_id.0),
            r matches Ok(h) ==> {
                &&& h == pack_spec(node_id.0, false)
                &&& final(self).contains_node(node_id.0)
                &&& final(self).node_length(node_id.0) == seq@.len()
            },
    ;

    /// Adds an edge unless it is there; says whether it added it.
    fn create_edge(&mut self, edge: Edge) -> (r: bool)
        requires
            old(self).well_formed(),
            old(self).contains_node(id_of(edge.0)),
            old(self).contains_node(id_of(edge.1)),
        ensures
            final(self).well_formed(),
            r == !(old(self).follows(edge.0, edge.1) && old(self).follows(crate::handle::flip_spec(edge.1), crate::handle::flip_spec(edge.0))),
            final(self).follows(edge.0, edge.1),
    ;
}

pub trait ModdableHandleGraph: HandleGraphView {
    /// Replaces the sequence of a node.
    fn modify_handle(&mut self, node_id: NodeId, seq: &[u8]) -> (r: bool)
        requires
            old(self).well_formed(),
        ensures
            final(self).well_formed(),
            r == old(self).contains_node(node_id.0),
            r ==> final(self).node_length(node_id.0) == seq@.len(),
    ;

    /// Replaces an edge by another one.
    fn modify_edge(&mut self, old_edge: Edge, left_node: Option<Handle>, right_node: Option<Handle>) -> (r: bool)
        requires
            old(self).well_formed(),
            left_node matches Some(h) ==> old(self).contains_node(id_of(h)),
            right_node matches Some(h) ==> old(self).contains_node(id_of(h)),
        ensures
            final(self).well_formed(),
            r == (old(self).contains_node(id_of(old_edge.0)) && old(self).contains_node(id_of(old_edge.1)) && old(self).follows(old_edge.0, old_edge.1)),
    ;

    /// Replaces the steps of a path.
    fn modify_path(&mut self, path_name: &[u8], sequence_of_id: Vec<Handle>) -> (r: bool)
        requires
            old(self).well_formed(),
            forall|i: int| 0 <= i < sequence_of_id@.len() ==> old(self).contains_node(id_of(#[trigger] sequence_of_id@[i])),
        ensures
            final(self).well_formed(),
            r == old(self).path_named(path_name@),
            r ==> final(self).path_named(path_name@),
    ;
}

pub trait MutableHandleGraph: HandleGraphView {
    /// Divides a node into pieces at the given offsets.
    fn divide_handle(&mut self, handle: Handle, offsets: Vec<usize>) -> (r: Vec<Handle>)
        requires
            old(self).well_formed(),
            old(self).contains_node(id_of(handle)),
            ascending_inside(offsets@, old(self).node_length(id_of(handle)) as int),
            old(self).max_node() + offsets@.len() < ID_LIMIT,
        ensures
            final(self).well_formed(),
            r@.len() == offsets@.len() + 1,
            forall|i: int| 0 <= i < r@.len() ==> final(self).contains_node(id_of(#[trigger] r@[i])),
    ;

    /// Divides a node into two pieces.
    fn split_handle(&mut self, handle: Handle, offset: usize) -> (r: (Handle, Handle))
        requires
            old(self).well_formed(),
            old(self).contains_node(id_of(handle)),
            0 < offset < old(self).node_length(id_of(handle)),
            old(self).max_node() + 1 < ID_LIMIT,
        ensures
            final(self).well_formed(),
            final(self).contains_node(id_of(r.0)),
            final(self).contains_node(id_of(r.1)),
    ;

    /// Turns a node around so that the handle reads forward.
    fn apply_orientation(&mut self, handle: Handle) -> (r: Handle)
        requires
            old(self).well_formed(),
            old(self).contains_node(id_of(handle)),
        ensures
            final(self).well_formed(),
            id_of(r) == id_of(handle),
            !rev_of(r),
            final(self).node_length(id_of(handle)) == old(self).node_length(id_of(handle)),
    ;
}

impl HandleGraphView for HashGraph {
    open spec fn well_formed(&self) -> bool {
        self.wf()
    }

    open spec fn contains_node(&self, id: u64) -> bool {
        self.has(id)
    }

    open spec fn node_length(&self, id: u64) -> nat {
        self.seq_of(id).len()
    }

    open spec fn max_node(&self) -> u64 {
        self.max_id.0
    }

    open spec fn follows(&self, left: Handle, right: Handle) -> bool {
        self.has_edge_spec(left, right)
    }

    open spec fn path_named(&self, name: Seq<u8>) -> bool {
        exists|q: PathId| #[trigger] self.path_live(q) && self.path(q).name@ == name
    }
}

impl SubtractiveHandleGraph for HashGraph {
    fn remove_handle(&mut self, node: NodeId) -> (r: bool) {
        HashGraph::remove_handle(self, node)
    }

    fn remove_edge(&mut self, edge: Edge) -> (r: bool) {
        HashGraph::remove_edge(self, edge)
    }

    fn remove_path(&mut self, name: &[u8]) -> (r: bool) {
        let r = HashGraph::remove_path(self, name);
        proof {
            assert(self.graph@.dom() == old(self).graph@.dom());
        }
        r
    }

    fn clear_graph(&mut self) {
        HashGraph::clear_graph(self)
    }
}

impl AdditiveHandleGraph for HashGraph {
    fn append_handle(&mut self, seq: &[u8]) -> (r: Result<Handle, GraphError>) {
        HashGraph::append_handle(self, seq)
    }

    fn create_handle(&mut self, seq: &[u8], node_id: NodeId) -> (r: Result<Handle, GraphError>) {
        HashGraph::create_handle(self, seq, node_id)
    }

    fn create_edge(&mut self, edge: Edge) -> (r: bool) {
        let r = HashGraph::create_edge(self, edge);
        proof {
            if r {
                assert(self.out_list(edge.0) == old(self).added_out(edge.0, edge.0, edge.1));
                if !old(self).out_list(edge.0).contains(edge.1) {
                    assert(self.out_list(edge.0)[self.out_list(edge.0).len() - 1] == edge.1);
                }
            }
        }
        r
    }
}

impl ModdableHandleGraph for HashGraph {
    fn modify_handle(&mut self, node_id: NodeId, seq: &[u8]) -> (r: bool) {
        HashGraph::modify_handle(self, node_id, seq)
    }

    fn modify_edge(&mut self, old_edge: Edge, left_node: Option<Handle>, right_node: Option<Handle>) -> (r: bool) {
        HashGraph::modify_edge(self, old_edge, left_node, right_node)
    }

    fn modify_path(&mut self, path_name: &[u8], sequence_of_id: Vec<Handle>) -> (r: bool) {
        let ghost p = old(self).paths@.len() as PathId;
        let r = HashGraph::modify_path(self, path_name, sequence_of_id);
        proof {
            if r {
                assert(self.path_live(p) && self.path(p).name@ == path_name@);
            }
        }
        r
    }
}

impl MutableHandleGraph for HashGraph {
    fn divide_handle(&mut self, handle: Handle, offsets: Vec<usize>) -> (r: Vec<Handle>) {
        let ghost m = offsets@.len() as int;
        let ghost k = id_of(handle);
        let ghost base = old(self).max_id.0;
        let r = HashGraph::divide_handle(self, handle, offsets);
        proof {
            if m > 0 {
                assert(k <= base);
                assert forall|i: int| 0 <= i < r@.len() implies self.has(id_of(#[trigger] r@[i])) by {
                    if rev_of(handle) {
                        assert(r@[i] == rev_pieces(k, base, m)[i]);
                        assert(self.has(chain_id(k, base, m - i)));
                    } else {
                        assert(r@[i] == fwd_pieces(k, base, m)[i]);
                        assert(self.has(chain_id(k, base, i)));
                    }
                }
            }
        }
        r
    }

    fn split_handle(&mut self, handle: Handle, offset: usize) -> (r: (Handle, Handle)) {
        let ghost k = id_of(handle);
        let ghost base = old(self).max_id.0;
        let r = HashGraph::split_handle(self, handle, offset);
        proof {
            assert(k <= base);
            assert(self.has(chain_id(k, base, 0)));
            assert(self.has(chain_id(k, base, 1)));
            if rev_of(handle) {
                assert(seq![r.0, r.1] == rev_pieces(k, base, 1));
                assert(seq![r.0, r.1][0] == r.0);
                assert(seq![r.0, r.1][1] == r.1);
            } else {
                assert(seq![r.0, r.1] == fwd_pieces(k, base, 1));
                assert(seq![r.0, r.1][0] == r.0);
                assert(seq![r.0, r.1][1] == r.1);
            }
        }
        r
    }

    fn apply_orientation(&mut self, handle: Handle) -> (r: Handle) {
        HashGraph::apply_orientation(self, handle)
    }
}

/// A shared reference through which a graph with these capabilities is
/// read.
pub trait MutHandleGraphRef {}

impl<'a> MutHandleGraphRef for &'a HashGraph {}

} // verus!
