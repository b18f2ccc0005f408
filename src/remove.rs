//! Removing nodes, edges and paths, replacing them, and clearing the graph.

use vstd::prelude::*;

use crate::graph::{lemma_same_occ_wf, visits, HashGraph, Node, PathId};
use crate::handle::{id_of, Edge, Handle, NodeId};

verus! {

broadcast use vstd::std_specs::hash::group_hash_axioms;

/// `s` without the entries on node `k`, in order.
pub open spec fn without(s: Seq<Handle>, k: u64) -> Seq<Handle>
    decreases s.len(),
{
    if s.len() == 0 {
        s
    } else {
        let w = without(s.drop_last(), k);
        if id_of(s.last()) == k {
            w
        } else {
            w.push(s.last())
        }
    }
}

/// The entries of `list` that are not on node `k`.
fn strip(list: &Vec<Handle>, k: u64) -> (r: Vec<Handle>)
    ensures
        r@ == without(list@, k),
{
    let mut out: Vec<Handle> = Vec::new();
    let mut i: usize = 0;
    while i < list.len()
        invariant
            i <= list@.len(),
            out@ == without(list@.take(i as int), k),
        decreases list@.len() - i,
    {
        let h = list[i];
        proof {
            assert(list@.take(i + 1).drop_last() =~= list@.take(i as int));
            assert(list@.take(i + 1).last() == h);
        }
        if h.id().0 != k {
            out.push(h);
        }
        i += 1;
    }
    assert(list@.take(list@.len() as int) =~= list@);
    out
}

impl HashGraph {
    /// Deletes every path that visits node `k`.
    fn destroy_paths_through(&mut self, k: u64)
        requires
            old(self).wf(),
            old(self).has(k),
        ensures
            final(self).wf(),
            final(self).same_but_occ(old(self)),
            final(self).paths@.len() == old(self).paths@.len(),
            forall|q: PathId| q < final(self).paths@.len() ==> #[trigger] final(self).paths@[q as int] == if old(self).path_live(q) && visits(old(self).steps(q), k) {
                None
            } else {
                old(self).paths@[q as int]
            },
    {
        let ghost g0 = *self;
        let mut q: usize = 0;
        while q < self.paths.len()
            invariant
                g0.wf(),
                g0.has(k),
                self.wf(),
                self.same_but_occ(&g0),
                q <= self.paths@.len(),
                self.paths@.len() == g0.paths@.len(),
                forall|x: PathId| x < q ==> #[trigger] self.paths@[x as int] == if g0.path_live(x) && visits(g0.steps(x), k) {
                    None
                } else {
                    g0.paths@[x as int]
                },
                forall|x: PathId| q <= x < self.paths@.len() ==> #[trigger] self.paths@[x as int] == g0.paths@[x as int],
            decreases self.paths@.len() - q,
        {
            proof {
                assert(self.has(k));
                assert(self.occ_ok(k, q));
                assert(g0.paths@[q as int] == self.paths@[q as int]);
            }
            let through = match self.graph.get(&k) {
                Some(n) => n.occurrences.contains_key(&q),
                None => false,
            };
            let ghost before = *self;
            if through {
                self.destroy_path(&q);
                proof {
                    assert forall|j: u64| #[trigger] self.has(j) implies {
                        &&& self.seq_of(j) == g0.seq_of(j)
                        &&& self.left_of(j) == g0.left_of(j)
                        &&& self.right_of(j) == g0.right_of(j)
                    } by {
                        assert(before.has(j));
                    }
                    assert(self.paths@[q as int] is None);
                }
            }
            proof {
                assert forall|x: PathId| x < q + 1 implies #[trigger] self.paths@[x as int] == if g0.path_live(x) && visits(g0.steps(x), k) {
                    None
                } else {
                    g0.paths@[x as int]
                } by {
                    if x < q {
                        assert(before.paths@[x as int] == self.paths@[x as int]);
                    } else if !through {
                        assert(self.paths@[x as int] == before.paths@[x as int]);
                    } else {
                        assert(self.paths@[x as int] is None);
                    }
                }
            }
            q += 1;
        }
    }

    /// Deletes node `id`, every path that visits it, and every adjacency
    /// entry that leads to it; says whether the node was there.
    pub fn remove_handle(&mut self, node: NodeId) -> (r: bool)
        requires
            old(self).wf(),
        ensures
            final(self).wf(),
            r == old(self).has(node.0),
            !r ==> *final(self) == *old(self),
            r ==> {
                &&& final(self).graph@.dom() == old(self).graph@.dom().remove(node.0)
                &&& forall|j: u64| #[trigger] final(self).has(j) ==> {
                    &&& final(self).seq_of(j) == old(self).seq_of(j)
                    &&& final(self).left_of(j) == without(old(self).left_of(j), node.0)
                    &&& final(self).right_of(j) == without(old(self).right_of(j), node.0)
                }
                &&& final(self).paths@.len() == old(self).paths@.len()
                &&& forall|q: PathId| q < final(self).paths@.len() ==> #[trigger] final(self).paths@[q as int] == if old(self).path_live(q) && visits(old(self).steps(q), node.0) {
                    None
                } else {
                    old(self).paths@[q as int]
                }
                &&& final(self).min_id == old(self).min_id
                &&& final(self).max_id == old(self).max_id
            },
    {
        let k = node.0;
        if !self.graph.contains_key(&k) {
            return false;
        }
        let ghost g0 = *self;
        self.destroy_paths_through(k);
        let ghost g1 = *self;
        // drop the node and its key
        let mut i: usize = 0;
        while i < self.node_ids.len() && self.node_ids[i] != k
            invariant
                i <= self.node_ids@.len(),
                forall|x: int| 0 <= x < i ==> self.node_ids@[x] != k,
            decreases self.node_ids@.len() - i,
        {
            i += 1;
        }
        proof {
            assert(self.has(k));
            assert(self.node_ids@.contains(k));
            if i == self.node_ids@.len() {
                let x = choose|x: int| 0 <= x < self.node_ids@.len() && self.node_ids@[x] == k;
                assert(false);
            }
        }
        let _ = self.node_ids.remove(i);
        let _ = self.graph.remove(&k);
        let ghost g2 = *self;
        proof {
            let ids0 = g1.node_ids@;
            assert(self.node_ids@ == ids0.remove(i as int));
            assert forall|a: int, b: int| 0 <= a < b < self.node_ids@.len() implies self.node_ids@[a] != self.node_ids@[b] by {
                let a0 = if a < i { a } else { a + 1 };
                let b0 = if b < i { b } else { b + 1 };
                assert(ids0[a0] != ids0[b0]);
            }
            assert forall|x: int| 0 <= x < self.node_ids@.len() implies #[trigger] self.has(self.node_ids@[x]) by {
                let x0 = if x < i { x } else { x + 1 };
                assert(g1.has(ids0[x0]));
                assert(ids0[x0] != k);
            }
            assert forall|j: u64| #[trigger] self.has(j) implies self.node_ids@.contains(j) by {
                assert(g1.has(j));
                assert(ids0.contains(j));
                let x0 = choose|x0: int| 0 <= x0 < ids0.len() && ids0[x0] == j;
                assert(x0 != i);
                let x = if x0 < i { x0 } else { x0 - 1 };
                assert(self.node_ids@[x] == j);
            }
            assert forall|j: u64| #[trigger] self.has(j) implies j < crate::handle::ID_LIMIT && self.min_id.0 <= j <= self.max_id.0 by {
                assert(g1.has(j));
            }
            assert forall|p: PathId| #[trigger] self.path_live(p) implies {
                &&& self.path(p).path_id == p
                &&& forall|x: int| 0 <= x < self.steps(p).len() ==> self.has(id_of(#[trigger] self.steps(p)[x]))
            } by {
                assert(g1.path_live(p));
                assert(g0.path_live(p));
                assert(!visits(g0.steps(p), k));
                assert forall|x: int| 0 <= x < self.steps(p).len() implies self.has(id_of(#[trigger] self.steps(p)[x])) by {
                    assert(g1.has(id_of(g1.steps(p)[x])));
                    assert(id_of(g0.steps(p)[x]) != k);
                }
            }
            assert forall|j: u64, p: PathId| self.has(j) implies #[trigger] self.occ_ok(j, p) by {
                assert(g1.has(j));
                assert(g1.occ_ok(j, p));
            }
            assert forall|q: PathId| #[trigger] self.path_live(q) implies g1.path_live(q) && self.path(q).name@ == g1.path(q).name@ by {}
            crate::graph::lemma_names_frame(&*self, &g1);
        }
        // strip the entries that lead to the removed node
        let mut t: usize = 0;
        while t < self.node_ids.len()
            invariant
                g0.wf(),
                g2.nodes_wf(),
                g2.paths_wf(),
                g2.occurrences_wf(),
                g2.names_unique(),
                self.nodes_wf(),
                self.paths_wf(),
                self.occurrences_wf(),
                self.names_unique(),
                t <= self.node_ids@.len(),
                self.node_ids@ == g2.node_ids@,
                self.graph@.dom() == g2.graph@.dom(),
                self.min_id == g2.min_id,
                self.max_id == g2.max_id,
                self.paths@ == g2.paths@,
                forall|j: u64| #[trigger] self.has(j) ==> {
                    &&& self.seq_of(j) == g2.seq_of(j)
                    &&& self.occ_of(j) == g2.occ_of(j)
                    &&& self.left_of(j) == if g2.node_ids@.take(t as int).contains(j) { without(g2.left_of(j), k) } else { g2.left_of(j) }
                    &&& self.right_of(j) == if g2.node_ids@.take(t as int).contains(j) { without(g2.right_of(j), k) } else { g2.right_of(j) }
                },
            decreases self.node_ids@.len() - t,
        {
            let j = self.node_ids[t];
            let ghost before = *self;
            proof {
                assert(g2.has(g2.node_ids@[t as int]));
                if g2.node_ids@.take(t as int).contains(j) {
                    let x = choose|x: int| 0 <= x < t && g2.node_ids@.take(t as int)[x] == j;
                    assert(g2.node_ids@[x] == g2.node_ids@[t as int]);
                }
            }
            let mut n = self.graph.remove(&j).unwrap();
            let l = strip(&n.left_edges, k);
            let r = strip(&n.right_edges, k);
            n.left_edges = l;
            n.right_edges = r;
            self.graph.insert(j, n);
            t += 1;
            proof {
                assert(self.graph@.dom() =~= before.graph@.dom());
                assert forall|y: u64| #[trigger] self.has(y) implies {
                    &&& self.seq_of(y) == g2.seq_of(y)
                    &&& self.occ_of(y) == g2.occ_of(y)
                    &&& self.left_of(y) == if g2.node_ids@.take(t as int).contains(y) { without(g2.left_of(y), k) } else { g2.left_of(y) }
                    &&& self.right_of(y) == if g2.node_ids@.take(t as int).contains(y) { without(g2.right_of(y), k) } else { g2.right_of(y) }
                } by {
                    assert(before.has(y));
                    assert(g2.node_ids@.take(t as int) =~= g2.node_ids@.take(t - 1).push(j));
                    if y != j {
                        assert(g2.node_ids@.take(t as int).contains(y) == g2.node_ids@.take(t - 1).contains(y));
                    } else {
                        assert(g2.node_ids@.take(t as int)[t - 1] == j);
                    }
                }
                crate::graph::lemma_same_occ_parts(&*self, &before);
            }
        }
        proof {
            assert(self.graph@.dom() =~= g0.graph@.dom().remove(k));
            assert forall|j: u64| #[trigger] self.has(j) implies {
                &&& self.seq_of(j) == g0.seq_of(j)
                &&& self.left_of(j) == without(g0.left_of(j), k)
                &&& self.right_of(j) == without(g0.right_of(j), k)
            } by {
                assert(g2.has(j));
                assert(g2.node_ids@.contains(j));
                assert(g2.node_ids@.take(g2.node_ids@.len() as int) =~= g2.node_ids@);
                assert(g1.has(j));
                assert(g0.has(j));
            }
            assert forall|j: u64| #[trigger] self.has(j) implies self.present_all(self.left_of(j)) && self.present_all(self.right_of(j)) by {
                assert(g0.has(j));
                crate::graph::lemma_present_without(&*self, &g0, g0.left_of(j), k);
                crate::graph::lemma_present_without(&*self, &g0, g0.right_of(j), k);
            }
        }
        true
    }
}

/// The handle held by `o`, or `d` if it holds none.
pub open spec fn or_else(o: Option<Handle>, d: Handle) -> Handle {
    match o {
        Some(h) => h,
        None => d,
    }
}

/// `s` without any entry equal to `x`, in order.
pub open spec fn without_entry(s: Seq<Handle>, x: Handle) -> Seq<Handle>
    decreases s.len(),
{
    if s.len() == 0 {
        s
    } else {
        let w = without_entry(s.drop_last(), x);
        if s.last() == x {
            w
        } else {
            w.push(s.last())
        }
    }
}

/// Dropping every `x` leaves no `x`.
pub proof fn lemma_without_entry_lacks(s: Seq<Handle>, x: Handle)
    ensures
        !without_entry(s, x).contains(x),
    decreases s.len(),
{
    if s.len() > 0 {
        lemma_without_entry_lacks(s.drop_last(), x);
        let w = without_entry(s.drop_last(), x);
        if s.last() != x {
            assert forall|i: int| 0 <= i < w.push(s.last()).len() implies w.push(s.last())[i] != x by {
                if i < w.len() {
                    assert(w.push(s.last())[i] == w[i]);
                }
            }
        }
    }
}

/// Some step of `s` on `a` is followed by a step on `b`.
pub open spec fn consecutive(s: Seq<Handle>, a: Handle, b: Handle) -> bool {
    exists|i: int| 0 <= i && i + 1 < s.len() && #[trigger] s[i] == a && s[i + 1] == b
}

/// The entries of `list` that differ from `x`.
fn strip_entry(list: &Vec<Handle>, x: Handle) -> (r: Vec<Handle>)
    ensures
        r@ == without_entry(list@, x),
{
    let mut out: Vec<Handle> = Vec::new();
    let mut i: usize = 0;
    while i < list.len()
        invariant
            i <= list@.len(),
            out@ == without_entry(list@.take(i as int), x),
        decreases list@.len() - i,
    {
        let h = list[i];
        proof {
            assert(list@.take(i + 1).drop_last() =~= list@.take(i as int));
            assert(list@.take(i + 1).last() == h);
        }
        if h != x {
            out.push(h);
        }
        i += 1;
    }
    assert(list@.take(list@.len() as int) =~= list@);
    out
}

impl HashGraph {
    /// What the list that follows `h` holds once the edge from `left` to
    /// `right` has been removed.
    pub open spec fn dropped_out(&self, h: Handle, left: Handle, right: Handle) -> Seq<Handle> {
        if h == left {
            without_entry(self.out_list(h), right)
        } else if h == crate::handle::flip_spec(right) {
            without_entry(self.out_list(h), crate::handle::flip_spec(left))
        } else {
            self.out_list(h)
        }
    }

    /// The edge from `left` to `right` is present: both nodes are, and
    /// `right` can follow `left`.
    pub open spec fn edge_present(&self, left: Handle, right: Handle) -> bool {
        &&& self.has(id_of(left))
        &&& self.has(id_of(right))
        &&& self.has_edge_spec(left, right)
    }

    /// The outcome of `remove_edge` on the edge from `left` to `right`:
    /// every entry for it goes from both ends.
    pub open spec fn edge_removed(&self, o: &HashGraph, left: Handle, right: Handle, r: bool) -> bool {
        &&& r == o.edge_present(left, right)
        &&& !r ==> *self == *o
        &&& r ==> {
            &&& !self.has_edge_spec(left, right)
            &&& self.graph@.dom() == o.graph@.dom()
            &&& forall|k: u64| #[trigger] self.has(k) ==> self.seq_of(k) == o.seq_of(k)
            &&& self.node_ids@ == o.node_ids@
            &&& self.min_id == o.min_id
            &&& self.max_id == o.max_id
            &&& forall|h: Handle| #[trigger] self.has(id_of(h)) ==> self.out_list(h) == o.dropped_out(h, left, right)
            &&& self.paths@.len() == o.paths@.len()
            &&& forall|q: PathId| q < self.paths@.len() ==> #[trigger] self.paths@[q as int] == if o.path_live(q) && consecutive(o.steps(q), left, right) {
                None
            } else {
                o.paths@[q as int]
            }
        }
    }

    /// Whether path `q` takes the edge from `a` to `b`.
    fn takes_edge(&self, q: PathId, a: Handle, b: Handle) -> (r: bool)
        requires
            self.path_live(q),
        ensures
            r == consecutive(self.steps(q), a, b),
    {
        let n = self.step_count(&q);
        if n < 2 {
            return false;
        }
        let mut i: usize = 0;
        while i < n - 1
            invariant
                n >= 2,
                n == self.steps(q).len(),
                self.path_live(q),
                forall|j: int| 0 <= j < i && j + 1 < n ==> !(#[trigger] self.steps(q)[j] == a && self.steps(q)[j + 1] == b),
            decreases n - i,
        {
            if self.step_at(q, i) == a && self.step_at(q, i + 1) == b {
                return true;
            }
            i += 1;
        }
        false
    }

    /// Removes every entry of the edge from `left` to `right` from both of
    /// its ends, and deletes every path that takes it; says whether the
    /// edge was there (a missing node means it was not).
    pub fn remove_edge(&mut self, edge: Edge) -> (r: bool)
        requires
            old(self).wf(),
        ensures
            final(self).wf(),
            final(self).edge_removed(old(self), edge.0, edge.1, r),
    {
        let Edge(left, right) = edge;
        if !self.has_node(left.id()) || !self.has_node(right.id()) {
            return false;
        }
        if !self.has_edge(left, right) {
            return false;
        }
        let ghost g0 = *self;
        let lid = left.id().0;
        let mut ln = self.graph.remove(&lid).unwrap();
        if left.is_reverse() {
            ln.left_edges = strip_entry(&ln.left_edges, right);
        } else {
            ln.right_edges = strip_entry(&ln.right_edges, right);
        }
        self.graph.insert(lid, ln);
        let ghost mid = *self;
        assert(mid.graph@.dom() =~= g0.graph@.dom());
        if left != right.flip() {
            let rid = right.id().0;
            let mut rn = self.graph.remove(&rid).unwrap();
            if right.is_reverse() {
                rn.right_edges = strip_entry(&rn.right_edges, left.flip());
            } else {
                rn.left_edges = strip_entry(&rn.left_edges, left.flip());
            }
            self.graph.insert(rid, rn);
        }
        let ghost g1 = *self;
        proof {
            assert(self.graph@.dom() =~= g0.graph@.dom());
            assert(self.same_but_edges(&g0));
            assert forall|j: u64| #[trigger] self.has(j) implies self.present_all(self.left_of(j)) && self.present_all(self.right_of(j)) by {
                assert(g0.has(j));
                assert(mid.has(j));
                crate::graph::lemma_present_without_entry(&g0, g0.left_of(j), right);
                crate::graph::lemma_present_without_entry(&g0, g0.right_of(j), right);
                crate::graph::lemma_present_grow(&mid, &g0, g0.left_of(j));
                crate::graph::lemma_present_grow(&mid, &g0, g0.right_of(j));
                crate::graph::lemma_present_grow(&mid, &g0, without_entry(g0.left_of(j), right));
                crate::graph::lemma_present_grow(&mid, &g0, without_entry(g0.right_of(j), right));
                crate::graph::lemma_present_without_entry(&mid, mid.left_of(j), crate::handle::flip_spec(left));
                crate::graph::lemma_present_without_entry(&mid, mid.right_of(j), crate::handle::flip_spec(left));
                crate::graph::lemma_present_grow(&*self, &mid, mid.left_of(j));
                crate::graph::lemma_present_grow(&*self, &mid, mid.right_of(j));
                crate::graph::lemma_present_grow(&*self, &mid, without_entry(mid.left_of(j), crate::handle::flip_spec(left)));
                crate::graph::lemma_present_grow(&*self, &mid, without_entry(mid.right_of(j), crate::handle::flip_spec(left)));
            }
            crate::graph::lemma_same_but_edges_wf(&*self, &g0);
            assert forall|h: Handle| #[trigger] self.out_list(h) == g0.dropped_out(h, left, right) by {
                crate::handle::lemma_flip_involution(h);
            }
            lemma_without_entry_lacks(g0.out_list(left), right);
        }
        let mut q: usize = 0;
        while q < self.paths.len()
            invariant
                self.wf(),
                g1.wf(),
                self.same_but_occ(&g1),
                g1.paths@ == g0.paths@,
                q <= self.paths@.len(),
                self.paths@.len() == g0.paths@.len(),
                forall|x: PathId| x < q ==> #[trigger] self.paths@[x as int] == if g0.path_live(x) && consecutive(g0.steps(x), left, right) {
                    None
                } else {
                    g0.paths@[x as int]
                },
                forall|x: PathId| q <= x < self.paths@.len() ==> #[trigger] self.paths@[x as int] == g0.paths@[x as int],
            decreases self.paths@.len() - q,
        {
            let live = self.paths[q].is_some();
            let ghost before = *self;
            if live && self.takes_edge(q, left, right) {
                self.destroy_path(&q);
                proof {
                    assert(self.paths@[q as int] is None);
                    assert forall|j: u64| #[trigger] self.has(j) implies {
                        &&& self.seq_of(j) == g1.seq_of(j)
                        &&& self.left_of(j) == g1.left_of(j)
                        &&& self.right_of(j) == g1.right_of(j)
                    } by {
                        assert(before.has(j));
                    }
                }
            }
            proof {
                assert forall|x: PathId| x < q + 1 implies #[trigger] self.paths@[x as int] == if g0.path_live(x) && consecutive(g0.steps(x), left, right) {
                    None
                } else {
                    g0.paths@[x as int]
                } by {
                    if x < q {
                        assert(before.paths@[x as int] == self.paths@[x as int]);
                    }
                }
            }
            q += 1;
        }
        proof {
            assert forall|h: Handle| #[trigger] self.has(id_of(h)) implies self.out_list(h) == g0.dropped_out(h, left, right) by {
                assert(g1.has(id_of(h)));
                assert(g1.out_list(h) == g0.dropped_out(h, left, right));
            }
            assert forall|k: u64| #[trigger] self.has(k) implies self.seq_of(k) == g0.seq_of(k) by {
                assert(g1.has(k));
            }
            assert(g1.has(id_of(left)));
            assert(self.has(id_of(left)));
            assert(self.out_list(left) == g0.dropped_out(left, left, right));
            assert(!self.has_edge_spec(left, right));
        }
        true
    }
}

impl HashGraph {
    /// Replaces the sequence of node `node_id`; says whether the node was
    /// there.
    pub fn modify_handle(&mut self, node_id: NodeId, seq: &[u8]) -> (r: bool)
        requires
            old(self).wf(),
        ensures
            final(self).wf(),
            r == old(self).has(node_id.0),
            !r ==> *final(self) == *old(self),
            r ==> {
                &&& final(self).graph@.dom() == old(self).graph@.dom()
                &&& final(self).seq_of(node_id.0) == seq@
                &&& final(self).left_of(node_id.0) == old(self).left_of(node_id.0)
                &&& final(self).right_of(node_id.0) == old(self).right_of(node_id.0)
                &&& final(self).occ_of(node_id.0) == old(self).occ_of(node_id.0)
                &&& forall|j: u64| j != node_id.0 && #[trigger] final(self).has(j) ==> final(self).node(j) == old(self).node(j)
                &&& final(self).paths@ == old(self).paths@
            },
    {
        let k = node_id.0;
        if !self.graph.contains_key(&k) {
            return false;
        }
        let ghost g0 = *self;
        let mut n = self.graph.remove(&k).unwrap();
        if !crate::paths::bytes_eq(n.sequence.as_slice(), seq) {
            n.sequence = vstd::slice::slice_to_vec(seq);
        }
        self.graph.insert(k, n);
        proof {
            assert(self.graph@.dom() =~= g0.graph@.dom());
            crate::graph::lemma_edges_frame(&*self, &g0);
            lemma_same_occ_wf(&*self, &g0);
        }
        true
    }

    /// Replaces the edge `old_edge` by the edge with the given left and
    /// right handles, each defaulting to the old one: the old edge is
    /// removed and the new one created. Says whether the old edge was there.
    pub fn modify_edge(&mut self, old_edge: Edge, left_node: Option<Handle>, right_node: Option<Handle>) -> (r: bool)
        requires
            old(self).wf(),
            left_node matches Some(h) ==> old(self).has(id_of(h)),
            right_node matches Some(h) ==> old(self).has(id_of(h)),
        ensures
            final(self).wf(),
            r == old(self).edge_present(old_edge.0, old_edge.1),
            (!r || Edge(or_else(left_node, old_edge.0), or_else(right_node, old_edge.1)) == old_edge) ==> *final(self) == *old(self),
            (r && Edge(or_else(left_node, old_edge.0), or_else(right_node, old_edge.1)) != old_edge) ==> exists|mid: HashGraph, added: bool| {
                &&& mid.edge_removed(old(self), old_edge.0, old_edge.1, true)
                &&& #[trigger] final(self).edge_created(&mid, or_else(left_node, old_edge.0), or_else(right_node, old_edge.1), added)
            },
    {
        let Edge(left, right) = old_edge;
        let nl = match left_node {
            Some(h) => h,
            None => left,
        };
        let nr = match right_node {
            Some(h) => h,
            None => right,
        };
        if !self.has_node(left.id()) || !self.has_node(right.id()) {
            return false;
        }
        if !self.has_edge(left, right) {
            return false;
        }
        if nl == left && nr == right {
            return true;
        }
        self.remove_edge(old_edge);
        let ghost mid = *self;
        let added = self.create_edge(Edge(nl, nr));
        proof {
            assert(mid.edge_removed(old(self), left, right, true));
            assert(self.edge_created(&mid, nl, nr, added));
            assert(exists|m: HashGraph, a: bool| {
                &&& m.edge_removed(old(self), left, right, true)
                &&& #[trigger] self.edge_created(&m, nl, nr, a)
            });
        }
        true
    }

    /// Replaces the steps of the most recently created live path with
    /// this name: that path is deleted and a new, not circular, path with
    /// the name and the given steps is created. Says whether there was one.
    pub fn modify_path(&mut self, path_name: &[u8], sequence_of_id: Vec<Handle>) -> (r: bool)
        requires
            old(self).wf(),
            forall|i: int| 0 <= i < sequence_of_id@.len() ==> old(self).has(id_of(#[trigger] sequence_of_id@[i])),
        ensures
            final(self).wf(),
            r == exists|q: PathId| #[trigger] old(self).path_live(q) && old(self).path(q).name@ == path_name@,
            !r ==> *final(self) == *old(self),
            r ==> {
                let p = old(self).paths@.len() as PathId;
                &&& final(self).paths@.len() == old(self).paths@.len() + 1
                &&& final(self).path_live(p)
                &&& final(self).path(p).name@ == path_name@
                &&& !final(self).path(p).is_circular
                &&& final(self).steps(p) == sequence_of_id@
                &&& exists|q: PathId| {
                    &&& #[trigger] old(self).path_live(q)
                    &&& old(self).path(q).name@ == path_name@
                    &&& !final(self).path_live(q)
                    &&& forall|t: PathId| t != q && t < old(self).paths@.len() ==> #[trigger] final(self).paths@[t as int] == old(self).paths@[t as int]
                }
                &&& final(self).graph@.dom() == old(self).graph@.dom()
                &&& forall|k: u64| #[trigger] final(self).has(k) ==> {
                    &&& final(self).seq_of(k) == old(self).seq_of(k)
                    &&& final(self).left_of(k) == old(self).left_of(k)
                    &&& final(self).right_of(k) == old(self).right_of(k)
                }
            },
    {
        let ghost g0 = *self;
        if !self.remove_path(path_name) {
            return false;
        }
        let ghost g1 = *self;
        let p = self.create_path_handle(path_name, false);
        let ghost g2 = *self;
        assert(g2.graph@.dom() == g0.graph@.dom());
        let n = sequence_of_id.len();
        let mut i: usize = 0;
        while i < n
            invariant
                g0.wf(),
                forall|x: int| 0 <= x < n ==> g0.has(id_of(#[trigger] sequence_of_id@[x])),
                n == sequence_of_id@.len(),
                i <= n,
                self.wf(),
                self.same_but_occ(&g2),
                g2.graph@.dom() == g0.graph@.dom(),
                self.paths@.len() == g2.paths@.len(),
                self.path_live(p),
                self.path(p).name@ == path_name@,
                !self.path(p).is_circular,
                self.steps(p) == sequence_of_id@.take(i as int),
                forall|t: PathId| t != p && t < self.paths@.len() ==> #[trigger] self.paths@[t as int] == g2.paths@[t as int],
            decreases n - i,
        {
            let ghost before = *self;
            proof {
                assert(g0.has(id_of(sequence_of_id@[i as int])));
                assert(self.has(id_of(sequence_of_id@[i as int])));
            }
            self.append_step(&p, sequence_of_id[i]);
            i += 1;
            proof {
                assert(self.steps(p) =~= sequence_of_id@.take(i as int));
                assert forall|t: PathId| t != p && t < self.paths@.len() implies #[trigger] self.paths@[t as int] == g2.paths@[t as int] by {
                    assert(self.paths@[t as int] == before.paths@[t as int]);
                }
                assert forall|j: u64| #[trigger] self.has(j) implies {
                    &&& self.seq_of(j) == g2.seq_of(j)
                    &&& self.left_of(j) == g2.left_of(j)
                    &&& self.right_of(j) == g2.right_of(j)
                } by {
                    assert(before.has(j));
                }
            }
        }
        proof {
            assert(sequence_of_id@.take(n as int) =~= sequence_of_id@);
            let q = choose|q: PathId| {
                &&& #[trigger] g0.path_live(q)
                &&& g0.path(q).name@ == path_name@
                &&& !g1.path_live(q)
                &&& forall|t: PathId| t != q && t < g1.paths@.len() ==> #[trigger] g1.paths@[t as int] == g0.paths@[t as int]
            };
            assert(self.paths@[q as int] == g2.paths@[q as int]);
            assert(g2.paths@[q as int] == g1.paths@[q as int]);
            assert forall|t: PathId| t != q && t < g0.paths@.len() implies #[trigger] self.paths@[t as int] == g0.paths@[t as int] by {
                assert(self.paths@[t as int] == g2.paths@[t as int]);
                assert(g2.paths@[t as int] == g1.paths@[t as int]);
            }
            assert forall|k: u64| #[trigger] self.has(k) implies {
                &&& self.seq_of(k) == g0.seq_of(k)
                &&& self.left_of(k) == g0.left_of(k)
                &&& self.right_of(k) == g0.right_of(k)
            } by {
                assert(g2.has(k));
                assert(g1.has(k));
            }
        }
        true
    }

    /// Empties the graph: no nodes, no paths, and the id range reset.
    pub fn clear_graph(&mut self)
        ensures
            final(self).wf(),
            final(self).graph@ == Map::<u64, Node>::empty(),
            final(self).paths@.len() == 0,
            final(self).max_id.0 == 0,
            final(self).min_id.0 == u64::MAX,
    {
        self.max_id = NodeId(0);
        self.min_id = NodeId(u64::MAX);
        self.graph.clear();
        self.node_ids.clear();
        self.paths.clear();
    }
}

} // verus!
