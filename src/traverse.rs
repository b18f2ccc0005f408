//! Walking the whole graph: every node, every edge, every occurrence.

use vstd::prelude::*;

use crate::graph::{HashGraph, Node, Path, PathId, PathStep};
use crate::handle::{edge_spec, id_of, lemma_unpack_round_trip, pack_spec, rev_of, Edge, Handle, NodeId};

verus! {

broadcast use vstd::std_specs::hash::group_hash_axioms;

/// The sum of the sequence lengths of the nodes `ids`.
pub open spec fn length_of(g: &HashGraph, ids: Seq<u64>) -> int
    decreases ids.len(),
{
    if ids.len() == 0 {
        0
    } else {
        length_of(g, ids.drop_last()) + g.seq_of(ids.last()).len()
    }
}

impl HashGraph {
    /// The canonical edge from `a` to `b` is in `r`, and only such edges are.
    pub open spec fn edge_sound(&self, e: Edge) -> bool {
        &&& self.has(id_of(e.0))
        &&& self.has_edge_spec(e.0, e.1)
        &&& edge_spec(e.0, e.1) == e
    }

    /// The node with this id, which must be present.
    pub fn get_node_unchecked(&self, node_id: &NodeId) -> (r: &Node)
        requires
            self.has(node_id.0),
        ensures
            *r == self.node(node_id.0),
    {
        self.graph.get(&node_id.0).unwrap()
    }

    /// The path with this id, which must be live.
    pub fn get_path_unchecked(&self, path_id: &PathId) -> (r: &Path)
        requires
            self.path_live(*path_id),
        ensures
            *r == self.path(*path_id),
    {
        self.paths[*path_id].as_ref().unwrap()
    }

    /// The forward handle of every node, each once.
    pub fn all_handles(&self) -> (r: Vec<Handle>)
        requires
            self.wf(),
        ensures
            r@.len() == self.graph@.len(),
            r@.no_duplicates(),
            forall|i: int| 0 <= i < r@.len() ==> self.has(id_of(#[trigger] r@[i])) && !rev_of(r@[i]),
            forall|k: u64| #[trigger] self.has(k) ==> r@.contains(pack_spec(k, false)),
    {
        let mut out: Vec<Handle> = Vec::new();
        let mut i: usize = 0;
        while i < self.node_ids.len()
            invariant
                self.wf(),
                i <= self.node_ids@.len(),
                out@.len() == i,
                forall|x: int| 0 <= x < i ==> #[trigger] out@[x] == pack_spec(self.node_ids@[x], false),
            decreases self.node_ids@.len() - i,
        {
            let k = self.node_ids[i];
            proof {
                assert(self.has(self.node_ids@[i as int]));
            }
            out.push(Handle::pack(NodeId(k), false));
            i += 1;
        }
        proof {
            assert forall|a: int, b: int| 0 <= a < b < out@.len() implies out@[a] != out@[b] by {
                assert(self.has(self.node_ids@[a]));
                assert(self.has(self.node_ids@[b]));
                assert(self.node_ids@[a] != self.node_ids@[b]);
            }
            assert forall|x: int| 0 <= x < out@.len() implies self.has(id_of(#[trigger] out@[x])) && !rev_of(out@[x]) by {
                assert(self.has(self.node_ids@[x]));
            }
            assert forall|k: u64| #[trigger] self.has(k) implies out@.contains(pack_spec(k, false)) by {
                assert(self.node_ids@.contains(k));
                let x = choose|x: int| 0 <= x < self.node_ids@.len() && self.node_ids@[x] == k;
                assert(out@[x] == pack_spec(k, false));
            }
            self.lemma_ids_cover(out@.len());
        }
        out
    }

    /// The node table has as many entries as the key list.
    proof fn lemma_ids_cover(&self, n: nat)
        requires
            self.wf(),
            n == self.node_ids@.len(),
        ensures
            n == self.graph@.len(),
    {
        self.node_ids@.unique_seq_to_set();
        assert(self.node_ids@.to_set() =~= self.graph@.dom()) by {
            assert forall|k: u64| self.node_ids@.to_set().contains(k) implies self.graph@.dom().contains(k) by {
                let x = choose|x: int| 0 <= x < self.node_ids@.len() && self.node_ids@[x] == k;
                assert(self.has(self.node_ids@[x]));
            }
            assert forall|k: u64| self.graph@.dom().contains(k) implies self.node_ids@.to_set().contains(k) by {
                assert(self.has(k));
            }
        }
    }

    /// Appends to `out` the canonical edges that start with `h`.
    fn collect_canonical(&self, h: Handle, out: &mut Vec<Edge>)
        requires
            self.has(id_of(h)),
            old(out)@.no_duplicates(),
        ensures
            final(out)@.no_duplicates(),
            final(out)@.len() >= old(out)@.len(),
            forall|i: int| 0 <= i < old(out)@.len() ==> #[trigger] final(out)@[i] == old(out)@[i],
            forall|i: int| old(out)@.len() <= i < final(out)@.len() ==> self.edge_sound(#[trigger] final(out)@[i]) && final(out)@[i].0 == h,
            forall|b: Handle| self.has_edge_spec(h, b) && edge_spec(h, b) == Edge(h, b) ==> #[trigger] final(out)@.contains(Edge(h, b)),
    {
        let n = self.graph.get(&h.id().0).unwrap();
        let list = if h.is_reverse() {
            &n.left_edges
        } else {
            &n.right_edges
        };
        let ghost start = out@;
        let mut x: usize = 0;
        while x < list.len()
            invariant
                list@ == self.out_list(h),
                self.has(id_of(h)),
                x <= list@.len(),
                out@.no_duplicates(),
                out@.len() >= start.len(),
                forall|i: int| 0 <= i < start.len() ==> #[trigger] out@[i] == start[i],
                forall|i: int| start.len() <= i < out@.len() ==> self.edge_sound(#[trigger] out@[i]) && out@[i].0 == h,
                forall|y: int| 0 <= y < x && edge_spec(h, list@[y]) == Edge(h, list@[y]) ==> #[trigger] out@.contains(Edge(h, list@[y])),
            decreases list@.len() - x,
        {
            let b = list[x];
            let e = Edge::edge_handle(h, b);
            proof {
                assert(list@[x as int] == b);
                assert(self.has_edge_spec(h, b));
            }
            if e == Edge(h, b) && !holds_edge(out, e) {
                let ghost before = out@;
                out.push(e);
                proof {
                    assert forall|a: int, c: int| 0 <= a < c < out@.len() implies out@[a] != out@[c] by {
                        if c == out@.len() - 1 {
                            assert(before[a] == out@[a]);
                        } else {
                            assert(before[a] != before[c]);
                        }
                    }
                    assert forall|y: int| 0 <= y < x + 1 && edge_spec(h, list@[y]) == Edge(h, list@[y]) implies #[trigger] out@.contains(Edge(h, list@[y])) by {
                        if y < x {
                            assert(before.contains(Edge(h, list@[y])));
                            let w = choose|w: int| 0 <= w < before.len() && before[w] == Edge(h, list@[y]);
                            assert(out@ == before.push(e));
                            assert(out@[w] == Edge(h, list@[y]));
                        } else {
                            assert(out@[out@.len() - 1] == Edge(h, list@[y]));
                        }
                    }
                }
            }
            x += 1;
        }
        proof {
            assert forall|b: Handle| self.has_edge_spec(h, b) && edge_spec(h, b) == Edge(h, b) implies #[trigger] out@.contains(Edge(h, b)) by {
                let y = choose|y: int| 0 <= y < list@.len() && list@[y] == b;
                assert(edge_spec(h, list@[y]) == Edge(h, list@[y]));
            }
        }
    }

    /// Every edge once, in canonical form.
    pub fn all_edges(&self) -> (r: Vec<Edge>)
        requires
            self.wf(),
        ensures
            r@.no_duplicates(),
            forall|i: int| 0 <= i < r@.len() ==> self.edge_sound(#[trigger] r@[i]),
            forall|a: Handle, b: Handle| self.has(id_of(a)) && self.has_edge_spec(a, b) && edge_spec(a, b) == Edge(a, b) ==> #[trigger] r@.contains(Edge(a, b)),
    {
        let mut out: Vec<Edge> = Vec::new();
        let mut i: usize = 0;
        while i < self.node_ids.len()
            invariant
                self.wf(),
                i <= self.node_ids@.len(),
                out@.no_duplicates(),
                forall|x: int| 0 <= x < out@.len() ==> self.edge_sound(#[trigger] out@[x]),
                forall|a: Handle, b: Handle| self.node_ids@.take(i as int).contains(id_of(a)) && self.has_edge_spec(a, b) && edge_spec(a, b) == Edge(a, b) ==> #[trigger] out@.contains(Edge(a, b)),
            decreases self.node_ids@.len() - i,
        {
            let k = self.node_ids[i];
            proof {
                assert(self.has(self.node_ids@[i as int]));
            }
            let ghost before = out@;
            let f = Handle::pack(NodeId(k), false);
            let rv = Handle::pack(NodeId(k), true);
            self.collect_canonical(f, &mut out);
            let ghost mid = out@;
            self.collect_canonical(rv, &mut out);
            proof {
                assert forall|a: Handle, b: Handle| self.node_ids@.take(i + 1).contains(id_of(a)) && self.has_edge_spec(a, b) && edge_spec(a, b) == Edge(a, b) implies #[trigger] out@.contains(Edge(a, b)) by {
                    let w = choose|w: int| 0 <= w < i + 1 && #[trigger] self.node_ids@.take(i + 1)[w] == id_of(a);
                    if w < i {
                        assert(self.node_ids@.take(i as int)[w] == id_of(a));
                        assert(self.node_ids@.take(i as int).contains(id_of(a)));
                        assert(before.contains(Edge(a, b)));
                        let z = choose|z: int| 0 <= z < before.len() && before[z] == Edge(a, b);
                        assert(mid[z] == Edge(a, b));
                        assert(out@[z] == Edge(a, b));
                    } else {
                        lemma_unpack_round_trip(a);
                        if rev_of(a) {
                            assert(a == rv);
                        } else {
                            assert(a == f);
                            assert(mid.contains(Edge(a, b)));
                            let z = choose|z: int| 0 <= z < mid.len() && mid[z] == Edge(a, b);
                            assert(out@[z] == Edge(a, b));
                        }
                    }
                }
            }
            i += 1;
        }
        proof {
            assert forall|a: Handle, b: Handle| self.has(id_of(a)) && self.has_edge_spec(a, b) && edge_spec(a, b) == Edge(a, b) implies #[trigger] out@.contains(Edge(a, b)) by {
                assert(self.node_ids@.contains(id_of(a)));
                assert(self.node_ids@.take(self.node_ids@.len() as int) =~= self.node_ids@);
            }
        }
        out
    }

    /// The total length of all node sequences.
    pub fn total_length(&self) -> (r: usize)
        requires
            self.wf(),
            length_of(self, self.node_ids@) <= usize::MAX,
        ensures
            r == length_of(self, self.node_ids@),
    {
        let mut total: usize = 0;
        let mut i: usize = 0;
        while i < self.node_ids.len()
            invariant
                self.wf(),
                i <= self.node_ids@.len(),
                total == length_of(self, self.node_ids@.take(i as int)),
                length_of(self, self.node_ids@) <= usize::MAX,
            decreases self.node_ids@.len() - i,
        {
            let k = self.node_ids[i];
            proof {
                assert(self.has(self.node_ids@[i as int]));
                assert(self.node_ids@.take(i + 1).drop_last() =~= self.node_ids@.take(i as int));
                lemma_length_prefix(self, self.node_ids@, i + 1);
            }
            let n = self.graph.get(&k).unwrap();
            total = total + n.sequence.len();
            i += 1;
        }
        assert(self.node_ids@.take(self.node_ids@.len() as int) =~= self.node_ids@);
        total
    }

    /// A step handle for each path that node of `handle` records.
    pub fn occurrences_iter(&self, handle: Handle) -> (r: Vec<PathStep>)
        requires
            self.wf(),
            self.has(id_of(handle)),
        ensures
            forall|i: int| 0 <= i < r@.len() ==> match #[trigger] r@[i] {
                PathStep::Step(p, ix) => self.occ_of(id_of(handle)).contains_key(p) && self.occ_of(id_of(handle))[p] == ix,
                _ => false,
            },
            forall|p: PathId| #[trigger] self.occ_of(id_of(handle)).contains_key(p) ==> r@.contains(PathStep::Step(p, self.occ_of(id_of(handle))[p])),
    {
        let k = handle.id().0;
        let n = self.graph.get(&k).unwrap();
        let mut out: Vec<PathStep> = Vec::new();
        let mut q: usize = 0;
        while q < self.paths.len()
            invariant
                self.wf(),
                self.has(k),
                *n == self.node(k),
                k == id_of(handle),
                q <= self.paths@.len(),
                forall|i: int| 0 <= i < out@.len() ==> match #[trigger] out@[i] {
                    PathStep::Step(p, ix) => self.occ_of(k).contains_key(p) && self.occ_of(k)[p] == ix,
                    _ => false,
                },
                forall|p: PathId| p < q && #[trigger] self.occ_of(k).contains_key(p) ==> out@.contains(PathStep::Step(p, self.occ_of(k)[p])),
            decreases self.paths@.len() - q,
        {
            match n.occurrences.get(&q) {
                Some(ix) => {
                    let ghost before = out@;
                    out.push(PathStep::Step(q, *ix));
                    proof {
                        assert forall|p: PathId| p < q + 1 && #[trigger] self.occ_of(k).contains_key(p) implies out@.contains(PathStep::Step(p, self.occ_of(k)[p])) by {
                            if p < q {
                                let w = choose|w: int| 0 <= w < before.len() && before[w] == PathStep::Step(p, self.occ_of(k)[p]);
                                assert(out@[w] == before[w]);
                            } else {
                                assert(out@[out@.len() - 1] == PathStep::Step(p, self.occ_of(k)[p]));
                            }
                        }
                    }
                },
                None => {},
            }
            q += 1;
        }
        proof {
            assert forall|p: PathId| #[trigger] self.occ_of(k).contains_key(p) implies out@.contains(PathStep::Step(p, self.occ_of(k)[p])) by {
                assert(self.occ_ok(k, p));
            }
        }
        out
    }
}

/// Whether `out` holds `e`.
fn holds_edge(out: &Vec<Edge>, e: Edge) -> (r: bool)
    ensures
        r == out@.contains(e),
{
    let mut i: usize = 0;
    while i < out.len()
        invariant
            i <= out@.len(),
            forall|j: int| 0 <= j < i ==> out@[j] != e,
        decreases out@.len() - i,
    {
        if out[i] == e {
            assert(out@[i as int] == e);
            return true;
        }
        i += 1;
    }
    false
}

proof fn lemma_length_prefix(g: &HashGraph, ids: Seq<u64>, i: int)
    requires
        0 <= i <= ids.len(),
    ensures
        length_of(g, ids.take(i)) <= length_of(g, ids),
    decreases ids.len(),
{
    if i < ids.len() {
        assert(ids.drop_last().take(i) =~= ids.take(i));
        lemma_length_prefix(g, ids.drop_last(), i);
    } else {
        assert(ids.take(i) =~= ids);
    }
}

} // verus!
