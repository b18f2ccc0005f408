//! Edits that reshape a node: turning it around, and dividing it.

use vstd::prelude::*;

use crate::dna::{complement_of, lemma_complement_involution, revcomp, revcomp_of};
use crate::divide::{lemma_leads_to_step, leads_to};
use crate::graph::{lemma_nodes_wf_frame, visits, HashGraph, PathId};
use crate::handle::{flip_spec, id_of, lemma_flip_involution, rev_of, Handle};
use crate::paths::take_path;

verus! {

broadcast use vstd::std_specs::hash::group_hash_axioms;

/// `s` with every entry on node `k` flipped.
pub open spec fn flip_on(s: Seq<Handle>, k: u64) -> Seq<Handle> {
    Seq::new(s.len(), |i: int| if id_of(s[i]) == k { flip_spec(s[i]) } else { s[i] })
}

/// List `s` of node `j` (its right list when `right_side`) once node `k`
/// is turned around: where an edge of `k` (in `targets`) leads to that
/// list, every entry on `k` in it is flipped.
pub open spec fn turned(s: Seq<Handle>, targets: Seq<Handle>, j: u64, right_side: bool, k: u64) -> Seq<Handle> {
    if leads_to(targets, targets.len() as int, j, right_side) {
        flip_on(s, k)
    } else {
        s
    }
}

/// The two step sequences visit the same nodes in the same order.
pub open spec fn same_ids(s: Seq<Handle>, t: Seq<Handle>) -> bool {
    &&& s.len() == t.len()
    &&& forall|i: int| 0 <= i < s.len() ==> id_of(#[trigger] t[i]) == id_of(s[i])
}

impl HashGraph {
    /// No adjacency entry of node `k` leads back to `k`.
    pub open spec fn no_self_loop(&self, k: u64) -> bool {
        &&& forall|i: int| 0 <= i < self.left_of(k).len() ==> id_of(#[trigger] self.left_of(k)[i]) != k
        &&& forall|i: int| 0 <= i < self.right_of(k).len() ==> id_of(#[trigger] self.right_of(k)[i]) != k
    }

    /// The steps of path `q` once the step that node `k` records there is
    /// flipped.
    pub open spec fn reoriented_steps(&self, k: u64, q: PathId) -> Seq<Handle> {
        if self.occ_of(k).contains_key(q) {
            let ix = self.occ_of(k)[q] as int;
            self.steps(q).update(ix, flip_spec(self.steps(q)[ix]))
        } else {
            self.steps(q)
        }
    }

    /// Slot `q` of the path table holds what `o` held there, with the step
    /// recorded for node `k` flipped.
    pub open spec fn path_reoriented(&self, o: &HashGraph, k: u64, q: PathId) -> bool {
        &&& (self.paths@[q as int] is Some <==> o.paths@[q as int] is Some)
        &&& self.paths@[q as int] is Some ==> {
            &&& self.path(q).path_id == o.path(q).path_id
            &&& self.path(q).name@ == o.path(q).name@
            &&& self.path(q).is_circular == o.path(q).is_circular
            &&& self.steps(q) == o.reoriented_steps(k, q)
        }
    }

    /// The outcome of `apply_orientation` on a reverse handle of node `k`.
    pub open spec fn reoriented(&self, o: &HashGraph, k: u64) -> bool {
        &&& self.graph@.dom() == o.graph@.dom()
        &&& self.node_ids@ == o.node_ids@
        &&& self.min_id == o.min_id
        &&& self.max_id == o.max_id
        &&& self.seq_of(k) == revcomp_of(o.seq_of(k))
        &&& forall|i: int| 0 <= i < o.seq_of(k).len() ==> complement_of(#[trigger] self.seq_of(k)[i]) == o.seq_of(k)[o.seq_of(k).len() - 1 - i]
        &&& self.left_of(k) == turned(o.right_of(k), o.left_of(k) + o.right_of(k), k, true, k)
        &&& self.right_of(k) == turned(o.left_of(k), o.left_of(k) + o.right_of(k), k, false, k)
        &&& forall|j: u64| #[trigger] self.has(j) && j != k ==> {
            &&& self.seq_of(j) == o.seq_of(j)
            &&& self.left_of(j) == turned(o.left_of(j), o.left_of(k) + o.right_of(k), j, false, k)
            &&& self.right_of(j) == turned(o.right_of(j), o.left_of(k) + o.right_of(k), j, true, k)
        }
        &&& forall|j: u64| #[trigger] self.has(j) ==> self.occ_of(j) == o.occ_of(j)
        &&& self.paths@.len() == o.paths@.len()
        &&& forall|q: PathId| q < self.paths@.len() ==> #[trigger] self.path_reoriented(o, k, q)
    }

    /// Turns node `k` around so that the reverse handle reads forward: the
    /// sequence becomes its reverse complement, the two adjacency lists
    /// trade places, in each neighbour list that an edge of the node leads
    /// back through every entry on the node is flipped, and so is each
    /// recorded path step on the node. A forward handle is returned as it
    /// is.
    pub fn apply_orientation(&mut self, handle: Handle) -> (r: Handle)
        requires
            old(self).wf(),
            old(self).has(id_of(handle)),
        ensures
            final(self).wf(),
            !rev_of(handle) ==> r == handle && *final(self) == *old(self),
            rev_of(handle) ==> r == flip_spec(handle) && final(self).reoriented(old(self), id_of(handle)),
    {
        if !handle.is_reverse() {
            return handle;
        }
        let k = handle.id().0;
        let ghost g0 = *self;
        let mut node = self.graph.remove(&k).unwrap();
        let rc = revcomp(node.sequence.as_slice());
        proof {
            assert forall|i: int| 0 <= i < rc@.len() implies complement_of(#[trigger] rc@[i]) == node.sequence@[node.sequence@.len() - 1 - i] by {
                lemma_complement_involution(node.sequence@[node.sequence@.len() - 1 - i]);
            }
        }
        node.sequence = rc;
        let mut targets: Vec<Handle> = Vec::new();
        let mut i: usize = 0;
        while i < node.left_edges.len()
            invariant
                i <= node.left_edges@.len(),
                targets@ == node.left_edges@.subrange(0, i as int),
            decreases node.left_edges@.len() - i,
        {
            targets.push(node.left_edges[i]);
            i += 1;
            assert(targets@ =~= node.left_edges@.subrange(0, i as int));
        }
        let mut i: usize = 0;
        while i < node.right_edges.len()
            invariant
                i <= node.right_edges@.len(),
                targets@ == node.left_edges@ + node.right_edges@.subrange(0, i as int),
            decreases node.right_edges@.len() - i,
        {
            targets.push(node.right_edges[i]);
            i += 1;
            assert(targets@ =~= node.left_edges@ + node.right_edges@.subrange(0, i as int));
        }
        self.graph.insert(k, node);
        let ghost g1 = *self;
        proof {
            assert(self.graph@.dom() =~= g0.graph@.dom());
        }
        let mut t: usize = 0;
        while t < targets.len()
            invariant
                g0.wf(),
                g0.has(k),
                targets@ == g0.left_of(k) + g0.right_of(k),
                t <= targets@.len(),
                self.graph@.dom() == g0.graph@.dom(),
                self.node_ids == g0.node_ids,
                self.min_id == g0.min_id,
                self.max_id == g0.max_id,
                self.paths == g0.paths,
                self.seq_of(k) == revcomp_of(g0.seq_of(k)),
                forall|i: int| 0 <= i < g0.seq_of(k).len() ==> complement_of(#[trigger] self.seq_of(k)[i]) == g0.seq_of(k)[g0.seq_of(k).len() - 1 - i],
                forall|j: u64| #[trigger] self.has(j) ==> {
                    &&& (j != k ==> self.seq_of(j) == g0.seq_of(j))
                    &&& self.occ_of(j) == g0.occ_of(j)
                    &&& self.left_of(j) == if leads_to(targets@, t as int, j, false) { flip_on(g0.left_of(j), k) } else { g0.left_of(j) }
                    &&& self.right_of(j) == if leads_to(targets@, t as int, j, true) { flip_on(g0.right_of(j), k) } else { g0.right_of(j) }
                },
            decreases targets@.len() - t,
        {
            let target = targets[t];
            let tid = target.id().0;
            let seen = seen_before(&targets, t);
            let ghost before = *self;
            if !seen && self.graph.contains_key(&tid) {
                let mut other = self.graph.remove(&tid).unwrap();
                if target.is_reverse() {
                    other.right_edges = flip_all_on(&other.right_edges, k);
                } else {
                    other.left_edges = flip_all_on(&other.left_edges, k);
                }
                self.graph.insert(tid, other);
            }
            t += 1;
            proof {
                assert(self.graph@.dom() =~= before.graph@.dom());
                assert forall|j: u64| #[trigger] self.has(j) implies {
                    &&& (j != k ==> self.seq_of(j) == g0.seq_of(j))
                    &&& self.occ_of(j) == g0.occ_of(j)
                    &&& self.left_of(j) == if leads_to(targets@, t as int, j, false) { flip_on(g0.left_of(j), k) } else { g0.left_of(j) }
                    &&& self.right_of(j) == if leads_to(targets@, t as int, j, true) { flip_on(g0.right_of(j), k) } else { g0.right_of(j) }
                } by {
                    assert(before.has(j));
                    lemma_leads_to_step(targets@, t - 1, j, false);
                    lemma_leads_to_step(targets@, t - 1, j, true);
                    if seen && j == tid {
                        if rev_of(target) {
                            assert(leads_to(targets@, t - 1, j, true));
                        } else {
                            assert(leads_to(targets@, t - 1, j, false));
                        }
                    }
                }
            }
        }
        let ghost g2 = *self;
        let mut node = self.graph.remove(&k).unwrap();
        std::mem::swap(&mut node.left_edges, &mut node.right_edges);
        self.graph.insert(k, node);
        let ghost g3 = *self;
        proof {
            assert(self.graph@.dom() =~= g0.graph@.dom());
            assert forall|j: u64| #[trigger] g3.has(j) implies g3.occ_of(j) == g0.occ_of(j) by {
                assert(g2.has(j));
            }
        }
        let mut q: usize = 0;
        while q < self.paths.len()
            invariant
                g0.wf(),
                g0.has(k),
                self.graph == g3.graph,
                self.node_ids == g0.node_ids,
                self.min_id == g0.min_id,
                self.max_id == g0.max_id,
                g3.graph@.dom() == g0.graph@.dom(),
                forall|j: u64| #[trigger] g3.has(j) ==> g3.occ_of(j) == g0.occ_of(j),
                q <= self.paths@.len(),
                self.paths@.len() == g0.paths@.len(),
                forall|x: PathId| x < q ==> #[trigger] self.path_reoriented(&g0, k, x),
                forall|x: PathId| q <= x < self.paths@.len() ==> #[trigger] self.paths@[x as int] == g0.paths@[x as int],
            decreases self.paths@.len() - q,
        {
            let found = match self.graph.get(&k) {
                Some(n) => match n.occurrences.get(&q) {
                    Some(ix) => Some(*ix),
                    None => None,
                },
                None => None,
            };
            proof {
                assert(g3.has(k));
                assert(g0.occ_ok(k, q));
            }
            match found {
                Some(ix) => {
                    let ghost before = *self;
                    let mut path = take_path(&mut self.paths, q).unwrap();
                    let h = path.nodes[ix];
                    path.nodes.set(ix, h.flip());
                    self.paths.set(q, Some(path));
                    proof {
                        assert(self.path_reoriented(&g0, k, q));
                        assert forall|x: PathId| x < q + 1 implies #[trigger] self.path_reoriented(&g0, k, x) by {
                            if x < q {
                                assert(before.path_reoriented(&g0, k, x));
                                assert(self.paths@[x as int] == before.paths@[x as int]);
                            }
                        }
                    }
                },
                None => {
                    proof {
                        assert(self.path_reoriented(&g0, k, q));
                    }
                },
            }
            q += 1;
        }
        proof {
            lemma_nodes_wf_frame(&*self, &g0);
            assert forall|j: u64| #[trigger] self.has(j) && j != k implies {
                &&& self.seq_of(j) == g0.seq_of(j)
                &&& self.left_of(j) == turned(g0.left_of(j), g0.left_of(k) + g0.right_of(k), j, false, k)
                &&& self.right_of(j) == turned(g0.right_of(j), g0.left_of(k) + g0.right_of(k), j, true, k)
            } by {
                assert(g2.has(j));
            }
            assert(g2.has(k));
            assert(self.has(k));
            assert forall|j: u64| #[trigger] self.has(j) implies self.occ_of(j) == g0.occ_of(j) by {
                assert(g3.has(j));
            }
            assert forall|q: PathId| #[trigger] self.path_live(q) implies same_ids(g0.steps(q), self.steps(q)) by {
                assert(self.path_reoriented(&g0, k, q));
                if g0.occ_of(k).contains_key(q) {
                    assert(g0.occ_ok(k, q));
                    let ix = g0.occ_of(k)[q] as int;
                    lemma_flip_involution(g0.steps(q)[ix]);
                }
            }
            assert forall|q: PathId| q < self.paths@.len() implies (self.paths@[q as int] is Some <==> g0.paths@[q as int] is Some) by {
                assert(self.path_reoriented(&g0, k, q));
            }
            assert forall|q: PathId| #[trigger] self.path_live(q) implies self.path(q).path_id == g0.path(q).path_id && self.path(q).name@ == g0.path(q).name@ by {
                assert(self.path_reoriented(&g0, k, q));
            }
            assert forall|j: u64| #[trigger] self.has(j) implies self.present_all(self.left_of(j)) && self.present_all(self.right_of(j)) by {
                assert(g0.has(j));
                lemma_present_flip_on(&*self, &g0, g0.left_of(j), k);
                lemma_present_flip_on(&*self, &g0, g0.right_of(j), k);
                lemma_present_flip_on(&*self, &g0, g0.left_of(k), k);
                lemma_present_flip_on(&*self, &g0, g0.right_of(k), k);
                crate::graph::lemma_present_grow(&*self, &g0, g0.left_of(j));
                crate::graph::lemma_present_grow(&*self, &g0, g0.right_of(j));
                crate::graph::lemma_present_grow(&*self, &g0, g0.left_of(k));
                crate::graph::lemma_present_grow(&*self, &g0, g0.right_of(k));
            }
            lemma_same_ids_wf(&*self, &g0);
        }
        handle.flip()
    }
}

/// `list` with every entry on node `k` flipped.
fn flip_all_on(list: &Vec<Handle>, k: u64) -> (r: Vec<Handle>)
    ensures
        r@ == flip_on(list@, k),
{
    let mut out: Vec<Handle> = Vec::new();
    let mut i: usize = 0;
    while i < list.len()
        invariant
            i <= list@.len(),
            out@.len() == i,
            forall|j: int| 0 <= j < i ==> #[trigger] out@[j] == if id_of(list@[j]) == k { flip_spec(list@[j]) } else { list@[j] },
        decreases list@.len() - i,
    {
        let h = list[i];
        if h.id().0 == k {
            out.push(h.flip());
        } else {
            out.push(h);
        }
        i += 1;
    }
    assert(out@ =~= flip_on(list@, k));
    out
}

/// Whether an entry before index `t` leads to the same node and side as
/// entry `t`.
fn seen_before(targets: &Vec<Handle>, t: usize) -> (r: bool)
    requires
        t < targets@.len(),
    ensures
        r == leads_to(targets@, t as int, id_of(targets@[t as int]), rev_of(targets@[t as int])),
{
    let x = targets[t];
    let mut i: usize = 0;
    while i < t
        invariant
            t < targets@.len(),
            x == targets@[t as int],
            i <= t,
            !leads_to(targets@, i as int, id_of(x), rev_of(x)),
        decreases t - i,
    {
        let y = targets[i];
        if y.id().0 == x.id().0 && y.is_reverse() == x.is_reverse() {
            assert(targets@[i as int] == y);
            return true;
        }
        proof {
            lemma_leads_to_step(targets@, i as int, id_of(x), rev_of(x));
        }
        i += 1;
    }
    false
}

/// Flipping entries keeps the nodes they lead to.
proof fn lemma_present_flip_on(g: &HashGraph, o: &HashGraph, s: Seq<Handle>, k: u64)
    requires
        o.present_all(s),
        forall|j: u64| #[trigger] o.has(j) ==> g.has(j),
    ensures
        g.present_all(flip_on(s, k)),
{
    assert forall|i: int| 0 <= i < flip_on(s, k).len() implies g.has(id_of(#[trigger] flip_on(s, k)[i])) by {
        assert(o.has(id_of(s[i])));
        lemma_flip_involution(s[i]);
    }
}

/// Flipping every entry on `k` twice gives the list back.
pub proof fn lemma_flip_on_twice(s: Seq<Handle>, k: u64)
    ensures
        flip_on(flip_on(s, k), k) == s,
{
    assert forall|i: int| 0 <= i < s.len() implies #[trigger] flip_on(flip_on(s, k), k)[i] == s[i] by {
        lemma_flip_involution(s[i]);
    }
    assert(flip_on(flip_on(s, k), k) =~= s);
}

/// A graph whose paths visit the same nodes as those of a well-formed
/// graph, with the same node table but for adjacency and sequences, is well
/// formed.
proof fn lemma_same_ids_wf(g: &HashGraph, o: &HashGraph)
    requires
        o.wf(),
        g.nodes_wf(),
        g.graph@.dom() == o.graph@.dom(),
        g.paths@.len() == o.paths@.len(),
        forall|q: PathId| q < g.paths@.len() ==> (g.paths@[q as int] is Some <==> o.paths@[q as int] is Some),
        forall|q: PathId| #[trigger] g.path_live(q) ==> g.path(q).path_id == o.path(q).path_id,
        forall|q: PathId| #[trigger] g.path_live(q) ==> g.path(q).name@ == o.path(q).name@,
        g.edges_wf(),
        forall|q: PathId| #[trigger] g.path_live(q) ==> same_ids(o.steps(q), g.steps(q)),
        forall|j: u64| #[trigger] g.has(j) ==> g.occ_of(j) == o.occ_of(j),
    ensures
        g.wf(),
{
    assert forall|q: PathId| #[trigger] g.path_live(q) implies {
        &&& g.path(q).path_id == q
        &&& forall|x: int| 0 <= x < g.steps(q).len() ==> g.has(id_of(#[trigger] g.steps(q)[x]))
    } by {
        assert(o.path_live(q));
        assert forall|x: int| 0 <= x < g.steps(q).len() implies g.has(id_of(#[trigger] g.steps(q)[x])) by {
            assert(o.has(id_of(o.steps(q)[x])));
        }
    }
    assert forall|q: PathId| #[trigger] g.path_live(q) implies o.path_live(q) && g.path(q).name@ == o.path(q).name@ by {
        assert(g.paths@[q as int] is Some);
    }
    crate::graph::lemma_names_frame(g, o);
    assert forall|j: u64, q: PathId| g.has(j) implies #[trigger] g.occ_ok(j, q) by {
        assert(o.has(j));
        assert(o.occ_ok(j, q));
        if q < g.paths@.len() && g.paths@[q as int] is Some {
            assert(g.path_live(q));
            lemma_same_ids_visits(o.steps(q), g.steps(q), j);
        }
    }
}

/// Sequences that visit the same nodes in order agree on visits.
proof fn lemma_same_ids_visits(s: Seq<Handle>, t: Seq<Handle>, k: u64)
    requires
        same_ids(s, t),
    ensures
        visits(s, k) == visits(t, k),
{
    if visits(s, k) {
        let i = choose|i: int| 0 <= i < s.len() && id_of(#[trigger] s[i]) == k;
        assert(id_of(t[i]) == k);
    }
    if visits(t, k) {
        let i = choose|i: int| 0 <= i < t.len() && id_of(#[trigger] t[i]) == k;
        assert(id_of(t[i]) == id_of(s[i]));
    }
}

} // verus!
