//! The graph container: a node table, a path table, and the operations
//! that keep adjacency lists and path occurrences consistent.

use std::collections::HashMap;
use vstd::prelude::*;

use crate::dna::{revcomp, revcomp_of};
use crate::handle::{flip_spec, id_of, lemma_flip_involution, pack_spec, rev_of, Direction, Edge, Handle, NodeId, ID_LIMIT};

verus! {

broadcast use vstd::std_specs::hash::group_hash_axioms;

/// The identifier of a path: its index in the path table.
pub type PathId = usize;

/// Why an operation on the graph did not proceed.
#[derive(Debug, Clone, Copy, PartialEq, Eq, Structural)]
pub enum GraphError {
    /// A node with this id is already present.
    DuplicateId,
    /// The id needs the bit that handles reserve for the orientation.
    InvalidId,
    /// A node cannot hold an empty sequence.
    EmptySequence,
    /// The node, edge or path does not exist.
    NotFound,
    /// The two step handles of a rewrite belong to different paths.
    CrossPathRewrite,
}

/// A node: its forward sequence, its neighbours on each side (in its own
/// forward frame), and for each path that visits it the index of its last
/// step there.
#[derive(Debug)]
pub struct Node {
    pub sequence: Vec<u8>,
    pub left_edges: Vec<Handle>,
    pub right_edges: Vec<Handle>,
    pub occurrences: HashMap<PathId, usize>,
}

impl Node {
    pub fn new(sequence: &[u8]) -> (r: Node)
        ensures
            r.sequence@ == sequence@,
            r.left_edges@.len() == 0,
            r.right_edges@.len() == 0,
            r.occurrences@ == Map::<PathId, usize>::empty(),
    {
        Node {
            sequence: vstd::slice::slice_to_vec(sequence),
            left_edges: Vec::new(),
            right_edges: Vec::new(),
            occurrences: HashMap::new(),
        }
    }
}

/// A named walk through the graph.
#[derive(Debug)]
pub struct Path {
    pub path_id: PathId,
    pub name: Vec<u8>,
    pub is_circular: bool,
    pub nodes: Vec<Handle>,
}

/// A position on a path: before the first step, at a step, or after the
/// last step.
#[derive(Debug, Clone, Copy, PartialEq, Eq, Structural)]
pub enum PathStep {
    Front(PathId),
    Step(PathId, usize),
    End(PathId),
}

impl PathStep {
    pub open spec fn path_of(self) -> PathId {
        match self {
            PathStep::Front(p) => p,
            PathStep::Step(p, _) => p,
            PathStep::End(p) => p,
        }
    }

    pub fn path_id(&self) -> (r: PathId)
        ensures
            r == self.path_of(),
    {
        match self {
            PathStep::Front(p) => *p,
            PathStep::Step(p, _) => *p,
            PathStep::End(p) => *p,
        }
    }
}

/// Among the first `n` steps of `s`, `i` is the last one on node `k`.
pub open spec fn last_visit_before(s: Seq<Handle>, n: int, k: u64, i: int) -> bool {
    &&& 0 <= i < n
    &&& id_of(s[i]) == k
    &&& forall|j: int| i < j < n ==> id_of(#[trigger] s[j]) != k
}

/// One of the first `n` steps of `s` is on node `k`.
pub open spec fn visits_before(s: Seq<Handle>, n: int, k: u64) -> bool {
    exists|i: int| 0 <= i < n && id_of(#[trigger] s[i]) == k
}

/// Step `i` of `s` is on node `k`.
pub open spec fn visit_at(s: Seq<Handle>, k: u64, i: int) -> bool {
    0 <= i < s.len() && id_of(s[i]) == k
}

/// Some step of `s` is on node `k`.
pub open spec fn visits(s: Seq<Handle>, k: u64) -> bool {
    visits_before(s, s.len() as int, k)
}

/// The graph.
#[derive(Debug)]
pub struct HashGraph {
    pub max_id: NodeId,
    pub min_id: NodeId,
    pub graph: HashMap<u64, Node>,
    pub node_ids: Vec<u64>,
    pub paths: Vec<Option<Path>>,
}

impl HashGraph {
    pub open spec fn has(&self, k: u64) -> bool {
        self.graph@.contains_key(k)
    }

    pub open spec fn node(&self, k: u64) -> Node {
        self.graph@[k]
    }

    pub open spec fn seq_of(&self, k: u64) -> Seq<u8> {
        self.graph@[k].sequence@
    }

    pub open spec fn left_of(&self, k: u64) -> Seq<Handle> {
        self.graph@[k].left_edges@
    }

    pub open spec fn right_of(&self, k: u64) -> Seq<Handle> {
        self.graph@[k].right_edges@
    }

    pub open spec fn occ_of(&self, k: u64) -> Map<PathId, usize> {
        self.graph@[k].occurrences@
    }

    /// The neighbours on the far side of `h`, in its own orientation: the
    /// handles that can follow `h`.
    pub open spec fn out_list(&self, h: Handle) -> Seq<Handle> {
        if rev_of(h) {
            self.left_of(id_of(h))
        } else {
            self.right_of(id_of(h))
        }
    }

    /// The list consulted for the neighbours of `h` on side `dir`.
    pub open spec fn side_list(&self, h: Handle, dir: Direction) -> Seq<Handle> {
        match dir {
            Direction::Right => self.out_list(h),
            Direction::Left => self.out_list(flip_spec(h)),
        }
    }

    pub open spec fn has_edge_spec(&self, left: Handle, right: Handle) -> bool {
        self.out_list(left).contains(right)
    }

    pub open spec fn path_live(&self, p: PathId) -> bool {
        p < self.paths@.len() && self.paths@[p as int] is Some
    }

    pub open spec fn path(&self, p: PathId) -> Path {
        self.paths@[p as int]->Some_0
    }

    pub open spec fn steps(&self, p: PathId) -> Seq<Handle> {
        self.path(p).nodes@
    }

    /// The node table and the list of its keys agree, and every id fits
    /// the recorded range.
    pub open spec fn nodes_wf(&self) -> bool {
        &&& self.node_ids@.no_duplicates()
        &&& forall|i: int| 0 <= i < self.node_ids@.len() ==> #[trigger] self.has(self.node_ids@[i])
        &&& forall|k: u64| #[trigger] self.has(k) ==> self.node_ids@.contains(k)
        &&& forall|k: u64| #[trigger] self.has(k) ==> k < ID_LIMIT && self.min_id.0 <= k <= self.max_id.0
        &&& self.max_id.0 < ID_LIMIT
    }

    /// Each live path knows its own id and walks only over present nodes.
    pub open spec fn paths_wf(&self) -> bool {
        forall|p: PathId| #[trigger] self.path_live(p) ==> {
            &&& self.path(p).path_id == p
            &&& forall|i: int| 0 <= i < self.steps(p).len() ==> self.has(id_of(#[trigger] self.steps(p)[i]))
        }
    }

    /// A node records a path exactly when the path visits it, and then
    /// records the index of one of its steps there.
    pub open spec fn occurrences_wf(&self) -> bool {
        forall|k: u64, p: PathId| self.has(k) ==> #[trigger] self.occ_ok(k, p)
    }

    /// Node `k` records path `p` exactly when `p` visits it, with the index
    /// of a step of `p` on `k`.
    pub open spec fn occ_ok(&self, k: u64, p: PathId) -> bool {
        &&& (self.occ_of(k).contains_key(p) <==> self.path_live(p) && visits(self.steps(p), k))
        &&& self.occ_of(k).contains_key(p) ==> visit_at(self.steps(p), k, self.occ_of(k)[p] as int)
    }

    /// No two live paths share a name.
    pub open spec fn names_unique(&self) -> bool {
        forall|p: PathId, q: PathId| #[trigger] self.path_live(p) && #[trigger] self.path_live(q) && p != q ==> self.path(p).name@ != self.path(q).name@
    }

    /// Every entry of `s` leads to a present node.
    pub open spec fn present_all(&self, s: Seq<Handle>) -> bool {
        forall|i: int| 0 <= i < s.len() ==> self.has(id_of(#[trigger] s[i]))
    }

    /// Every adjacency entry leads to a present node.
    pub open spec fn edges_wf(&self) -> bool {
        forall|k: u64| #[trigger] self.has(k) ==> self.present_all(self.left_of(k)) && self.present_all(self.right_of(k))
    }

    pub open spec fn wf(&self) -> bool {
        &&& self.nodes_wf()
        &&& self.paths_wf()
        &&& self.occurrences_wf()
        &&& self.names_unique()
        &&& self.edges_wf()
    }

    /// An empty graph.
    pub fn new() -> (r: HashGraph)
        ensures
            r.wf(),
            r.graph@ == Map::<u64, Node>::empty(),
            r.paths@.len() == 0,
            r.max_id.0 == 0,
            r.min_id.0 == u64::MAX,
    {
        HashGraph {
            max_id: NodeId(0),
            min_id: NodeId(u64::MAX),
            graph: HashMap::new(),
            node_ids: Vec::new(),
            paths: Vec::new(),
        }
    }

    pub fn min_node_id(&self) -> (r: NodeId)
        ensures
            r == self.min_id,
    {
        self.min_id
    }

    pub fn max_node_id(&self) -> (r: NodeId)
        ensures
            r == self.max_id,
    {
        self.max_id
    }

    pub fn node_count(&self) -> (r: usize)
        ensures
            r == self.graph@.len(),
    {
        self.graph.len()
    }

    pub fn has_node(&self, id: NodeId) -> (r: bool)
        ensures
            r == self.has(id.0),
    {
        self.graph.contains_key(&id.0)
    }

    pub fn get_node(&self, id: &NodeId) -> (r: Option<&Node>)
        ensures
            match r {
                Some(n) => self.has(id.0) && *n == self.node(id.0),
                None => !self.has(id.0),
            },
    {
        self.graph.get(&id.0)
    }

    /// The length of the node's sequence.
    pub fn node_len(&self, handle: Handle) -> (r: usize)
        requires
            self.has(id_of(handle)),
        ensures
            r == self.seq_of(id_of(handle)).len(),
    {
        let n = self.graph.get(&handle.id().0).unwrap();
        n.sequence.len()
    }

    /// The sequence read in the handle's orientation.
    pub fn sequence(&self, handle: Handle) -> (r: Vec<u8>)
        requires
            self.has(id_of(handle)),
        ensures
            r@ == if rev_of(handle) {
                revcomp_of(self.seq_of(id_of(handle)))
            } else {
                self.seq_of(id_of(handle))
            },
    {
        let n = self.graph.get(&handle.id().0).unwrap();
        if handle.is_reverse() {
            revcomp(n.sequence.as_slice())
        } else {
            n.sequence.clone()
        }
    }

    /// The other nodes are as they were.
    pub open spec fn same_nodes_except(&self, o: &HashGraph, k: u64) -> bool {
        forall|j: u64| j != k ==> (#[trigger] self.has(j) == o.has(j)) && (self.has(j) ==> self.node(j) == o.node(j))
    }

    /// Only adjacency lists may differ between the two graphs.
    pub open spec fn same_but_edges(&self, o: &HashGraph) -> bool {
        &&& self.graph@.dom() == o.graph@.dom()
        &&& forall|k: u64| #[trigger] self.has(k) ==> self.seq_of(k) == o.seq_of(k) && self.occ_of(k) == o.occ_of(k)
        &&& self.paths@ == o.paths@
        &&& self.node_ids@ == o.node_ids@
        &&& self.min_id == o.min_id
        &&& self.max_id == o.max_id
    }

    /// What the list that follows `h` holds once the edge from `left` to
    /// `right` has been added to a graph that lacked it.
    pub open spec fn added_out(&self, h: Handle, left: Handle, right: Handle) -> Seq<Handle> {
        if h == left {
            if self.out_list(h).contains(right) {
                self.out_list(h)
            } else {
                self.out_list(h).push(right)
            }
        } else if h == flip_spec(right) {
            if self.out_list(h).contains(flip_spec(left)) {
                self.out_list(h)
            } else {
                self.out_list(h).push(flip_spec(left))
            }
        } else {
            self.out_list(h)
        }
    }

    /// Both entries of the edge from `left` to `right` are present: `right`
    /// follows `left`, and `left` reversed follows `right` reversed.
    pub open spec fn edge_both_ways(&self, left: Handle, right: Handle) -> bool {
        &&& self.has_edge_spec(left, right)
        &&& self.has_edge_spec(flip_spec(right), flip_spec(left))
    }

    /// The outcome of `create_edge` on the edge from `left` to `right`.
    pub open spec fn edge_created(&self, o: &HashGraph, left: Handle, right: Handle, r: bool) -> bool {
        &&& r == !o.edge_both_ways(left, right)
        &&& !r ==> *self == *o
        &&& r ==> self.same_but_edges(o) && forall|h: Handle| #[trigger] self.out_list(h) == o.added_out(h, left, right)
    }

    /// Adds a node with the given sequence and id.
    pub fn create_handle(&mut self, seq: &[u8], node_id: NodeId) -> (r: Result<Handle, GraphError>)
        requires
            old(self).wf(),
        ensures
            final(self).wf(),
            match r {
                Err(GraphError::EmptySequence) => seq@.len() == 0,
                Err(GraphError::InvalidId) => seq@.len() > 0 && node_id.0 >= ID_LIMIT,
                Err(GraphError::DuplicateId) => seq@.len() > 0 && node_id.0 < ID_LIMIT && old(self).has(node_id.0),
                Err(_) => false,
                Ok(h) => {
                    &&& seq@.len() > 0 && node_id.0 < ID_LIMIT && !old(self).has(node_id.0)
                    &&& h == pack_spec(node_id.0, false)
                },
            },
            r is Err ==> *final(self) == *old(self),
            r is Ok ==> {
                &&& final(self).has(node_id.0)
                &&& final(self).seq_of(node_id.0) == seq@
                &&& final(self).left_of(node_id.0).len() == 0
                &&& final(self).right_of(node_id.0).len() == 0
                &&& final(self).occ_of(node_id.0) == Map::<PathId, usize>::empty()
                &&& final(self).same_nodes_except(old(self), node_id.0)
                &&& final(self).paths@ == old(self).paths@
                &&& final(self).max_id.0 == if node_id.0 > old(self).max_id.0 { node_id.0 } else { old(self).max_id.0 }
                &&& final(self).min_id.0 == if node_id.0 < old(self).min_id.0 { node_id.0 } else { old(self).min_id.0 }
            },
    {
        if seq.len() == 0 {
            return Err(GraphError::EmptySequence);
        }
        let id = node_id.0;
        if id >= ID_LIMIT {
            return Err(GraphError::InvalidId);
        }
        if self.graph.contains_key(&id) {
            return Err(GraphError::DuplicateId);
        }
        let ghost old_self = *self;
        proof {
            if old_self.node_ids@.contains(id) {
                let i = choose|i: int| 0 <= i < old_self.node_ids@.len() && old_self.node_ids@[i] == id;
                assert(old_self.has(old_self.node_ids@[i]));
            }
        }
        self.graph.insert(id, Node::new(seq));
        self.node_ids.push(id);
        if id > self.max_id.0 {
            self.max_id = NodeId(id);
        }
        if id < self.min_id.0 {
            self.min_id = NodeId(id);
        }
        proof {
            assert forall|k: u64| #[trigger] self.has(k) implies self.node_ids@.contains(k) by {
                if k != id {
                    assert(old_self.has(k));
                    assert(old_self.node_ids@.contains(k));
                    let i = choose|i: int| 0 <= i < old_self.node_ids@.len() && old_self.node_ids@[i] == k;
                    assert(self.node_ids@[i] == k);
                } else {
                    assert(self.node_ids@[self.node_ids@.len() - 1] == id);
                }
            }
            assert forall|i: int| 0 <= i < self.node_ids@.len() implies #[trigger] self.has(self.node_ids@[i]) by {
                if i < old_self.node_ids@.len() {
                    assert(old_self.has(old_self.node_ids@[i]));
                }
            }
            assert forall|k: u64| #[trigger] self.has(k) implies k < ID_LIMIT && self.min_id.0 <= k <= self.max_id.0 by {
                if k != id {
                    assert(old_self.has(k));
                }
            }
            assert forall|p: PathId| #[trigger] self.path_live(p) implies {
                &&& self.path(p).path_id == p
                &&& forall|i: int| 0 <= i < self.steps(p).len() ==> self.has(id_of(#[trigger] self.steps(p)[i]))
            } by {
                assert(old_self.path_live(p));
                assert forall|i: int| 0 <= i < self.steps(p).len() implies self.has(id_of(#[trigger] self.steps(p)[i])) by {
                    assert(old_self.has(id_of(old_self.steps(p)[i])));
                }
            }
            assert forall|p: PathId| #[trigger] self.path_live(p) implies !visits(self.steps(p), id) by {
                assert(old_self.path_live(p));
                if visits(self.steps(p), id) {
                    let i = choose|i: int| 0 <= i < self.steps(p).len() && id_of(#[trigger] self.steps(p)[i]) == id;
                    assert(old_self.has(id_of(old_self.steps(p)[i])));
                }
            }
            assert forall|k: u64, p: PathId| self.has(k) implies #[trigger] self.occ_ok(k, p) by {
                if k != id {
                    assert(old_self.has(k));
                    assert(self.occ_of(k) == old_self.occ_of(k));
                    assert(old_self.occ_ok(k, p));
                } else {
                    assert(!self.occ_of(k).contains_key(p));
                    if self.path_live(p) {
                        assert(!visits(self.steps(p), id));
                    }
                }
            }
            assert forall|q: PathId| #[trigger] self.path_live(q) implies old_self.path_live(q) && self.path(q).name@ == old_self.path(q).name@ by {}
            lemma_names_frame(&*self, &old_self);
            assert forall|j: u64| #[trigger] self.has(j) implies self.present_all(self.left_of(j)) && self.present_all(self.right_of(j)) by {
                if j != id {
                    assert(old_self.has(j));
                    lemma_present_grow(&*self, &old_self, old_self.left_of(j));
                    lemma_present_grow(&*self, &old_self, old_self.right_of(j));
                }
            }
        }
        Ok(Handle::pack(node_id, false))
    }

    /// Adds a node with the next id after the largest one used so far.
    pub fn append_handle(&mut self, seq: &[u8]) -> (r: Result<Handle, GraphError>)
        requires
            old(self).wf(),
        ensures
            final(self).wf(),
            match r {
                Err(GraphError::EmptySequence) => seq@.len() == 0,
                Err(GraphError::InvalidId) => seq@.len() > 0 && old(self).max_id.0 + 1 >= ID_LIMIT,
                Err(_) => false,
                Ok(h) => {
                    &&& seq@.len() > 0 && old(self).max_id.0 + 1 < ID_LIMIT
                    &&& h == pack_spec((old(self).max_id.0 + 1) as u64, false)
                },
            },
            r is Err ==> *final(self) == *old(self),
            r is Ok ==> {
                let id = (old(self).max_id.0 + 1) as u64;
                &&& !old(self).has(id)
                &&& final(self).has(id)
                &&& final(self).seq_of(id) == seq@
                &&& final(self).left_of(id).len() == 0
                &&& final(self).right_of(id).len() == 0
                &&& final(self).occ_of(id) == Map::<PathId, usize>::empty()
                &&& final(self).same_nodes_except(old(self), id)
                &&& final(self).paths@ == old(self).paths@
                &&& final(self).max_id.0 == id
                &&& final(self).min_id.0 == if id < old(self).min_id.0 { id } else { old(self).min_id.0 }
            },
    {
        let next = NodeId(self.max_id.0 + 1);
        proof {
            if self.has(next.0) {
                assert(next.0 <= self.max_id.0);
            }
        }
        self.create_handle(seq, next)
    }

    /// Whether `right` can follow `left`.
    pub fn has_edge(&self, left: Handle, right: Handle) -> (r: bool)
        requires
            self.has(id_of(left)),
        ensures
            r == self.has_edge_spec(left, right),
    {
        let n = self.graph.get(&left.id().0).unwrap();
        let list = if left.is_reverse() {
            &n.left_edges
        } else {
            &n.right_edges
        };
        let mut i: usize = 0;
        while i < list.len()
            invariant
                i <= list@.len(),
                list@ == self.out_list(left),
                forall|j: int| 0 <= j < i ==> list@[j] != right,
            decreases list@.len() - i,
        {
            if list[i] == right {
                assert(list@[i as int] == right);
                return true;
            }
            i += 1;
        }
        false
    }

    /// Adds the edge from `left` to `right` to each of its ends that lacks
    /// it; says whether it added anything.
    pub fn create_edge(&mut self, edge: Edge) -> (r: bool)
        requires
            old(self).wf(),
            old(self).has(id_of(edge.0)),
            old(self).has(id_of(edge.1)),
        ensures
            final(self).wf(),
            final(self).edge_created(old(self), edge.0, edge.1, r),
    {
        let Edge(left, right) = edge;
        let forward_there = self.has_edge(left, right);
        let back_there = self.has_edge(right.flip(), left.flip());
        if forward_there && back_there {
            return false;
        }
        let ghost old_self = *self;
        let lid = left.id().0;
        if !forward_there {
            let mut ln = self.graph.remove(&lid).unwrap();
            if left.is_reverse() {
                ln.left_edges.push(right);
            } else {
                ln.right_edges.push(right);
            }
            self.graph.insert(lid, ln);
        }
        let ghost mid = *self;
        assert(mid.graph@.dom() =~= old_self.graph@.dom());
        proof {
            lemma_flip_involution(left);
            lemma_flip_involution(right);
        }
        if left != right.flip() && !back_there {
            let rid = right.id().0;
            let mut rn = self.graph.remove(&rid).unwrap();
            if right.is_reverse() {
                rn.right_edges.push(left.flip());
            } else {
                rn.left_edges.push(left.flip());
            }
            self.graph.insert(rid, rn);
        }
        proof {
            assert(self.graph@.dom() =~= old_self.graph@.dom());
            assert(self.same_but_edges(&old_self));
            assert forall|j: u64| #[trigger] self.has(j) implies self.present_all(self.left_of(j)) && self.present_all(self.right_of(j)) by {
                assert(old_self.has(j));
                assert(mid.has(j));
                lemma_present_grow(&*self, &old_self, old_self.left_of(j));
                lemma_present_grow(&*self, &old_self, old_self.right_of(j));
                lemma_present_push(&*self, old_self.left_of(j), right);
                lemma_present_push(&*self, old_self.right_of(j), right);
                lemma_present_grow(&*self, &old_self, mid.left_of(j));
                lemma_present_push(&*self, mid.left_of(j), flip_spec(left));
                lemma_present_push(&*self, mid.right_of(j), flip_spec(left));
                if j == lid {
                    lemma_present_push(&mid, old_self.left_of(j), right);
                    lemma_present_push(&mid, old_self.right_of(j), right);
                }
                lemma_present_grow(&mid, &old_self, old_self.left_of(j));
                lemma_present_grow(&mid, &old_self, old_self.right_of(j));
                lemma_present_grow(&*self, &mid, mid.left_of(j));
                lemma_present_grow(&*self, &mid, mid.right_of(j));
            }
            lemma_same_but_edges_wf(&*self, &old_self);
            assert forall|h: Handle| #[trigger] self.out_list(h) == old_self.added_out(h, left, right) by {
                lemma_flip_involution(h);
            }
        }
        true
    }

    /// The neighbours of `handle` on side `dir`, in list order, or in
    /// reverse list order when the handle is reverse.
    pub fn neighbors(&self, handle: Handle, dir: Direction) -> (r: Vec<Handle>)
        requires
            self.has(id_of(handle)),
        ensures
            r@ == if rev_of(handle) {
                reversed(self.side_list(handle, dir))
            } else {
                self.side_list(handle, dir)
            },
    {
        let n = self.graph.get(&handle.id().0).unwrap();
        let list = match (dir, handle.is_reverse()) {
            (Direction::Left, true) => &n.right_edges,
            (Direction::Left, false) => &n.left_edges,
            (Direction::Right, true) => &n.left_edges,
            (Direction::Right, false) => &n.right_edges,
        };
        let mut out: Vec<Handle> = Vec::new();
        let len = list.len();
        let rev = handle.is_reverse();
        let mut i: usize = 0;
        while i < len
            invariant
                len == list@.len(),
                list@ == self.side_list(handle, dir),
                rev == rev_of(handle),
                i <= len,
                out@.len() == i,
                forall|j: int| 0 <= j < i ==> out@[j] == if rev { list@[len - 1 - j] } else { list@[j] },
            decreases len - i,
        {
            if rev {
                out.push(list[len - 1 - i]);
            } else {
                out.push(list[i]);
            }
            i += 1;
        }
        proof {
            if rev {
                assert(out@ =~= reversed(self.side_list(handle, dir)));
            } else {
                assert(out@ =~= self.side_list(handle, dir));
            }
        }
        out
    }

    /// The number of neighbours of `handle` on side `dir`.
    pub fn degree(&self, handle: Handle, dir: Direction) -> (r: usize)
        requires
            self.has(id_of(handle)),
        ensures
            r == self.side_list(handle, dir).len(),
    {
        let n = self.graph.get(&handle.id().0).unwrap();
        match (dir, handle.is_reverse()) {
            (Direction::Left, true) => n.right_edges.len(),
            (Direction::Left, false) => n.left_edges.len(),
            (Direction::Right, true) => n.left_edges.len(),
            (Direction::Right, false) => n.right_edges.len(),
        }
    }
}

/// Entries that lead to present nodes still do in a graph with at least
/// those nodes.
pub proof fn lemma_present_grow(g: &HashGraph, o: &HashGraph, s: Seq<Handle>)
    requires
        o.present_all(s),
        forall|k: u64| #[trigger] o.has(k) ==> g.has(k),
    ensures
        g.present_all(s),
{
    assert forall|i: int| 0 <= i < s.len() implies g.has(id_of(#[trigger] s[i])) by {
        assert(o.has(id_of(s[i])));
    }
}

/// Appending an entry on a present node keeps a list's entries present.
pub proof fn lemma_present_push(g: &HashGraph, s: Seq<Handle>, x: Handle)
    requires
        g.present_all(s),
        g.has(id_of(x)),
    ensures
        g.present_all(s.push(x)),
{
    assert forall|i: int| 0 <= i < s.push(x).len() implies g.has(id_of(#[trigger] s.push(x)[i])) by {
        if i < s.len() {
            assert(s.push(x)[i] == s[i]);
        }
    }
}

/// Dropping entries keeps a list's entries present.
pub proof fn lemma_present_without_entry(g: &HashGraph, s: Seq<Handle>, x: Handle)
    requires
        g.present_all(s),
    ensures
        g.present_all(crate::remove::without_entry(s, x)),
    decreases s.len(),
{
    if s.len() > 0 {
        assert(g.present_all(s.drop_last())) by {
            assert forall|i: int| 0 <= i < s.drop_last().len() implies g.has(id_of(#[trigger] s.drop_last()[i])) by {
                assert(s.drop_last()[i] == s[i]);
            }
        }
        lemma_present_without_entry(g, s.drop_last(), x);
        if s.last() != x {
            assert(g.has(id_of(s[s.len() - 1])));
            lemma_present_push(g, crate::remove::without_entry(s.drop_last(), x), s.last());
        }
    }
}

/// Dropping the entries on node `k` keeps a list's entries present in a
/// graph that has every node but perhaps `k`.
pub proof fn lemma_present_without(g: &HashGraph, o: &HashGraph, s: Seq<Handle>, k: u64)
    requires
        o.present_all(s),
        forall|j: u64| #[trigger] o.has(j) && j != k ==> g.has(j),
    ensures
        g.present_all(crate::remove::without(s, k)),
    decreases s.len(),
{
    if s.len() > 0 {
        assert(o.present_all(s.drop_last())) by {
            assert forall|i: int| 0 <= i < s.drop_last().len() implies o.has(id_of(#[trigger] s.drop_last()[i])) by {
                assert(s.drop_last()[i] == s[i]);
            }
        }
        lemma_present_without(g, o, s.drop_last(), k);
        if id_of(s.last()) != k {
            assert(o.has(id_of(s[s.len() - 1])));
            lemma_present_push(g, crate::remove::without(s.drop_last(), k), s.last());
        }
    }
}

/// A graph with the same nodes and adjacency lists as one whose entries
/// all lead to present nodes has that property too.
pub proof fn lemma_edges_frame(g: &HashGraph, o: &HashGraph)
    requires
        o.edges_wf(),
        g.graph@.dom() == o.graph@.dom(),
        forall|k: u64| #[trigger] g.has(k) ==> g.left_of(k) == o.left_of(k) && g.right_of(k) == o.right_of(k),
    ensures
        g.edges_wf(),
{
    assert forall|k: u64| #[trigger] g.has(k) implies g.present_all(g.left_of(k)) && g.present_all(g.right_of(k)) by {
        assert(o.has(k));
        lemma_present_grow(g, o, o.left_of(k));
        lemma_present_grow(g, o, o.right_of(k));
    }
}

/// Paths that keep their names, or go, keep the names unique.
pub proof fn lemma_names_frame(g: &HashGraph, o: &HashGraph)
    requires
        o.names_unique(),
        forall|q: PathId| #[trigger] g.path_live(q) ==> o.path_live(q) && g.path(q).name@ == o.path(q).name@,
    ensures
        g.names_unique(),
{
    assert forall|p: PathId, q: PathId| #[trigger] g.path_live(p) && #[trigger] g.path_live(q) && p != q implies g.path(p).name@ != g.path(q).name@ by {
        assert(o.path_live(p));
        assert(o.path_live(q));
    }
}

/// Changing adjacency lists alone keeps the graph well formed.
pub proof fn lemma_same_but_edges_wf(g: &HashGraph, o: &HashGraph)
    requires
        o.wf(),
        g.edges_wf(),
        g.same_but_edges(o),
    ensures
        g.wf(),
{
    assert forall|k: u64| #[trigger] g.has(k) implies g.node_ids@.contains(k) by {
        assert(o.has(k));
    }
    assert forall|k: u64| #[trigger] g.has(k) implies k < ID_LIMIT && g.min_id.0 <= k <= g.max_id.0 by {
        assert(o.has(k));
    }
    assert forall|i: int| 0 <= i < g.node_ids@.len() implies #[trigger] g.has(g.node_ids@[i]) by {
        assert(o.has(o.node_ids@[i]));
    }
    assert forall|p: PathId| #[trigger] g.path_live(p) implies {
        &&& g.path(p).path_id == p
        &&& forall|i: int| 0 <= i < g.steps(p).len() ==> g.has(id_of(#[trigger] g.steps(p)[i]))
    } by {
        assert(o.path_live(p));
        assert forall|i: int| 0 <= i < g.steps(p).len() implies g.has(id_of(#[trigger] g.steps(p)[i])) by {
            assert(o.has(id_of(o.steps(p)[i])));
        }
    }
    assert forall|k: u64, p: PathId| g.has(k) implies #[trigger] g.occ_ok(k, p) by {
        assert(o.has(k));
        assert(o.occ_ok(k, p));
    }
    assert forall|q: PathId| #[trigger] g.path_live(q) implies o.path_live(q) && g.path(q).name@ == o.path(q).name@ by {}
    lemma_names_frame(g, o);
}

/// The node table alone decides `nodes_wf`.
pub proof fn lemma_nodes_wf_frame(g: &HashGraph, o: &HashGraph)
    requires
        o.nodes_wf(),
        g.graph@.dom() == o.graph@.dom(),
        g.node_ids@ == o.node_ids@,
        g.min_id == o.min_id,
        g.max_id == o.max_id,
    ensures
        g.nodes_wf(),
{
    assert forall|k: u64| #[trigger] g.has(k) implies g.node_ids@.contains(k) by {
        assert(o.has(k));
    }
    assert forall|k: u64| #[trigger] g.has(k) implies k < ID_LIMIT && g.min_id.0 <= k <= g.max_id.0 by {
        assert(o.has(k));
    }
    assert forall|i: int| 0 <= i < g.node_ids@.len() implies #[trigger] g.has(g.node_ids@[i]) by {
        assert(o.has(o.node_ids@[i]));
    }
}

/// Changing sequences and adjacency lists keeps the graph well formed.
pub proof fn lemma_same_occ_wf(g: &HashGraph, o: &HashGraph)
    requires
        o.wf(),
        g.edges_wf(),
        g.graph@.dom() == o.graph@.dom(),
        g.node_ids@ == o.node_ids@,
        g.min_id == o.min_id,
        g.max_id == o.max_id,
        g.paths@ == o.paths@,
        forall|k: u64| #[trigger] g.has(k) ==> g.occ_of(k) == o.occ_of(k),
    ensures
        g.wf(),
{
    lemma_same_occ_parts(g, o);
}

/// The parts of well-formedness that do not look at adjacency lists carry
/// over a change of sequences and lists.
pub proof fn lemma_same_occ_parts(g: &HashGraph, o: &HashGraph)
    requires
        o.nodes_wf(),
        o.paths_wf(),
        o.occurrences_wf(),
        o.names_unique(),
        g.graph@.dom() == o.graph@.dom(),
        g.node_ids@ == o.node_ids@,
        g.min_id == o.min_id,
        g.max_id == o.max_id,
        g.paths@ == o.paths@,
        forall|k: u64| #[trigger] g.has(k) ==> g.occ_of(k) == o.occ_of(k),
    ensures
        g.nodes_wf(),
        g.paths_wf(),
        g.occurrences_wf(),
        g.names_unique(),
{
    lemma_nodes_wf_frame(g, o);
    assert forall|p: PathId| #[trigger] g.path_live(p) implies {
        &&& g.path(p).path_id == p
        &&& forall|i: int| 0 <= i < g.steps(p).len() ==> g.has(id_of(#[trigger] g.steps(p)[i]))
    } by {
        assert(o.path_live(p));
        assert forall|i: int| 0 <= i < g.steps(p).len() implies g.has(id_of(#[trigger] g.steps(p)[i])) by {
            assert(o.has(id_of(o.steps(p)[i])));
        }
    }
    assert forall|k: u64, p: PathId| g.has(k) implies #[trigger] g.occ_ok(k, p) by {
        assert(o.has(k));
        assert(o.occ_ok(k, p));
    }
    assert forall|q: PathId| #[trigger] g.path_live(q) implies o.path_live(q) && g.path(q).name@ == o.path(q).name@ by {}
    lemma_names_frame(g, o);
}

/// The sequence in reverse order.
pub open spec fn reversed(s: Seq<Handle>) -> Seq<Handle> {
    Seq::new(s.len(), |i: int| s[s.len() - 1 - i])
}

impl Default for HashGraph {
    fn default() -> (r: HashGraph)
        ensures
            r.wf(),
            r.graph@ == Map::<u64, Node>::empty(),
            r.paths@.len() == 0,
            r.max_id.0 == 0,
            r.min_id.0 == u64::MAX,
    {
        HashGraph::new()
    }
}

} // verus!
