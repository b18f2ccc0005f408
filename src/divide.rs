//! Dividing a node into a chain of nodes that together hold its sequence.

use vstd::prelude::*;

use crate::graph::{lemma_present_grow, lemma_present_push, lemma_same_occ_wf, HashGraph, PathId, PathStep};
use crate::handle::{id_of, pack_spec, rev_of, Handle, NodeId, ID_LIMIT};

verus! {

broadcast use vstd::std_specs::hash::group_hash_axioms;

/// Offsets that cut a sequence of length `len` strictly inside, in
/// increasing order.
pub open spec fn ascending_inside(o: Seq<usize>, len: int) -> bool {
    &&& forall|i: int| 0 <= i < o.len() ==> 0 < #[trigger] o[i] < len
    &&& forall|i: int, j: int| 0 <= i < j < o.len() ==> o[i] < o[j]
}

/// The cut points in the forward frame of a node of length `len`, given
/// offsets read in a handle of orientation `rev`.
pub open spec fn fwd_cuts(o: Seq<usize>, len: int, rev: bool) -> Seq<int> {
    if rev {
        Seq::new(o.len(), |i: int| len - o[o.len() - 1 - i])
    } else {
        Seq::new(o.len(), |i: int| o[i] as int)
    }
}

/// The start of piece `i` of a sequence of length `len` cut at `c`; piece
/// `i` runs from `bound(c, len, i)` to `bound(c, len, i + 1)`.
pub open spec fn bound(c: Seq<int>, len: int, i: int) -> int {
    if i <= 0 {
        0
    } else if i > c.len() {
        len
    } else {
        c[i - 1]
    }
}

/// The id of the node that holds piece `t + 1`, the first piece after the
/// one kept in place being piece one.
pub open spec fn piece_id(base: u64, t: int) -> u64 {
    (base + 1 + t) as u64
}

/// The cut points, in increasing order in the forward frame.
fn forward_cuts(offsets: &Vec<usize>, len: usize, rev: bool) -> (r: Vec<usize>)
    requires
        ascending_inside(offsets@, len as int),
    ensures
        r@.len() == offsets@.len(),
        forall|i: int| 0 <= i < r@.len() ==> #[trigger] r@[i] as int == fwd_cuts(offsets@, len as int, rev)[i],
        ascending_inside(r@, len as int),
{
    let m = offsets.len();
    let mut out: Vec<usize> = Vec::new();
    let mut i: usize = 0;
    while i < m
        invariant
            m == offsets@.len(),
            ascending_inside(offsets@, len as int),
            i <= m,
            out@.len() == i,
            forall|j: int| 0 <= j < i ==> #[trigger] out@[j] as int == fwd_cuts(offsets@, len as int, rev)[j],
        decreases m - i,
    {
        if rev {
            out.push(len - offsets[m - 1 - i]);
        } else {
            out.push(offsets[i]);
        }
        i += 1;
    }
    proof {
        assert forall|a: int, b: int| 0 <= a < b < out@.len() implies out@[a] < out@[b] by {
            assert(out@[a] as int == fwd_cuts(offsets@, len as int, rev)[a]);
            assert(out@[b] as int == fwd_cuts(offsets@, len as int, rev)[b]);
        }
        assert forall|a: int| 0 <= a < out@.len() implies 0 < #[trigger] out@[a] < len by {
            assert(out@[a] as int == fwd_cuts(offsets@, len as int, rev)[a]);
        }
    }
    out
}

/// The bytes of `v` from `a` up to `b`.
fn copy_range(v: &Vec<u8>, a: usize, b: usize) -> (r: Vec<u8>)
    requires
        a <= b <= v@.len(),
    ensures
        r@ == v@.subrange(a as int, b as int),
{
    let mut out: Vec<u8> = Vec::new();
    let mut i: usize = a;
    while i < b
        invariant
            a <= i <= b,
            b <= v@.len(),
            out@ == v@.subrange(a as int, i as int),
        decreases b - i,
    {
        out.push(v[i]);
        i += 1;
        assert(out@ =~= v@.subrange(a as int, i as int));
    }
    out
}

impl HashGraph {
    /// Node `piece_id(base, x)` was absent from `o` and holds piece `x + 1`
    /// of `seq` cut at `cuts`, with no neighbours.
    pub open spec fn piece_ok(&self, o: &HashGraph, seq: Seq<u8>, cuts: Seq<usize>, x: int) -> bool {
        let id = piece_id(o.max_id.0, x);
        &&& !o.has(id)
        &&& self.has(id)
        &&& self.seq_of(id) == seq.subrange(cuts[x] as int, if x + 1 < cuts.len() { cuts[x + 1] as int } else { seq.len() as int })
        &&& self.left_of(id).len() == 0
        &&& self.right_of(id).len() == 0
    }

    /// Appends one node for each piece after the first of `seq` cut at
    /// `cuts`, in order, and returns their forward handles.
    fn add_pieces(&mut self, seq: &Vec<u8>, cuts: &Vec<usize>) -> (r: Vec<Handle>)
        requires
            old(self).wf(),
            ascending_inside(cuts@, seq@.len() as int),
            old(self).max_id.0 + cuts@.len() < ID_LIMIT,
            old(self).min_id.0 <= old(self).max_id.0,
        ensures
            final(self).wf(),
            r@.len() == cuts@.len(),
            final(self).max_id.0 == old(self).max_id.0 + cuts@.len(),
            final(self).min_id == old(self).min_id,
            final(self).paths@ == old(self).paths@,
            forall|t: int| 0 <= t < cuts@.len() ==> #[trigger] r@[t] == pack_spec(piece_id(old(self).max_id.0, t), false),
            forall|t: int| 0 <= t < cuts@.len() ==> #[trigger] final(self).piece_ok(old(self), seq@, cuts@, t),
            forall|j: u64| !(old(self).max_id.0 < j <= old(self).max_id.0 + cuts@.len()) ==> (#[trigger] final(self).has(j) == old(self).has(j)) && (final(self).has(j) ==> final(self).node(j) == old(self).node(j)),
    {
        let ghost g0 = *self;
        let m = cuts.len();
        let n = seq.len();
        let mut out: Vec<Handle> = Vec::new();
        let mut t: usize = 0;
        while t < m
            invariant
                self.wf(),
                m == cuts@.len(),
                n == seq@.len(),
                ascending_inside(cuts@, n as int),
                g0.max_id.0 + m < ID_LIMIT,
                g0.min_id.0 <= g0.max_id.0,
                t <= m,
                out@.len() == t,
                self.max_id.0 == g0.max_id.0 + t,
                self.min_id == g0.min_id,
                self.paths@ == g0.paths@,
                forall|x: int| 0 <= x < t ==> #[trigger] out@[x] == pack_spec(piece_id(g0.max_id.0, x), false),
                forall|x: int| 0 <= x < t ==> #[trigger] self.piece_ok(&g0, seq@, cuts@, x),
                forall|j: u64| !(g0.max_id.0 < j <= g0.max_id.0 + t) ==> (#[trigger] self.has(j) == g0.has(j)) && (self.has(j) ==> self.node(j) == g0.node(j)),
            decreases m - t,
        {
            let a = cuts[t];
            let b = if t + 1 < m { cuts[t + 1] } else { n };
            let piece = copy_range(seq, a, b);
            let ghost before = *self;
            let ghost out_before = out@;
            let res = self.append_handle(piece.as_slice());
            let h = match res {
                Ok(h) => h,
                Err(_) => Handle(0),
            };
            out.push(h);
            t += 1;
            proof {
                assert(res is Ok);
                let id = piece_id(g0.max_id.0, t - 1);
                if g0.has(id) {
                    assert(id <= g0.max_id.0);
                }
                assert forall|x: int| 0 <= x < t implies #[trigger] self.piece_ok(&g0, seq@, cuts@, x) by {
                    let idx = piece_id(g0.max_id.0, x);
                    if x < t - 1 {
                        assert(before.piece_ok(&g0, seq@, cuts@, x));
                        assert(before.has(idx));
                        assert(idx != piece_id(g0.max_id.0, t - 1));
                        assert(self.has(idx) == before.has(idx));
                        assert(self.node(idx) == before.node(idx));
                        if g0.has(idx) {
                            assert(idx <= g0.max_id.0);
                        }
                    } else {
                        assert(idx == (before.max_id.0 + 1) as u64);
                        if g0.has(idx) {
                            assert(idx <= g0.max_id.0);
                        }
                    }
                }
                assert forall|j: u64| !(g0.max_id.0 < j <= g0.max_id.0 + t) implies (#[trigger] self.has(j) == g0.has(j)) && (self.has(j) ==> self.node(j) == g0.node(j)) by {
                    assert(before.has(j) == g0.has(j));
                }
            }
        }
        out
    }

    /// Every node but `a` and `b` is as it was, and so are the tables
    /// around the nodes.
    pub open spec fn others_same(&self, o: &HashGraph, a: u64, b: u64) -> bool {
        &&& self.graph@.dom() == o.graph@.dom()
        &&& self.node_ids@ == o.node_ids@
        &&& self.min_id == o.min_id
        &&& self.max_id == o.max_id
        &&& self.paths@ == o.paths@
        &&& forall|j: u64| j != a && j != b && #[trigger] self.has(j) ==> self.node(j) == o.node(j)
        &&& forall|j: u64| #[trigger] self.has(j) ==> self.occ_of(j) == o.occ_of(j)
    }

    /// Keeps the first `first_len` bytes of node `k` and hands its right
    /// adjacency list to node `last`, whose own right list is empty.
    fn move_right_side(&mut self, k: u64, last: u64, first_len: usize)
        requires
            old(self).wf(),
            old(self).has(k),
            old(self).has(last),
            k != last,
            first_len <= old(self).seq_of(k).len(),
            old(self).right_of(last).len() == 0,
        ensures
            final(self).wf(),
            final(self).others_same(old(self), k, last),
            final(self).seq_of(k) == old(self).seq_of(k).subrange(0, first_len as int),
            final(self).left_of(k) == old(self).left_of(k),
            final(self).right_of(k).len() == 0,
            final(self).seq_of(last) == old(self).seq_of(last),
            final(self).left_of(last) == old(self).left_of(last),
            final(self).right_of(last) == old(self).right_of(k),
    {
        let ghost g0 = *self;
        let mut kn = self.graph.remove(&k).unwrap();
        let mut moved: Vec<Handle> = Vec::new();
        std::mem::swap(&mut kn.right_edges, &mut moved);
        let first = copy_range(&kn.sequence, 0, first_len);
        kn.sequence = first;
        self.graph.insert(k, kn);
        let mut ln = self.graph.remove(&last).unwrap();
        ln.right_edges = moved;
        self.graph.insert(last, ln);
        proof {
            assert(self.graph@.dom() =~= g0.graph@.dom());
            assert forall|j: u64| #[trigger] self.has(j) implies self.present_all(self.left_of(j)) && self.present_all(self.right_of(j)) by {
                assert(g0.has(j));
                lemma_present_grow(&*self, &g0, g0.left_of(j));
                lemma_present_grow(&*self, &g0, g0.right_of(j));
                lemma_present_grow(&*self, &g0, g0.right_of(k));
            }
            lemma_same_occ_wf(&*self, &g0);
        }
    }

    /// In the back-side list of each node that an entry of `moved` leads
    /// to, replaces `from` by `to`.
    fn redirect_back(&mut self, moved: &Vec<Handle>, from: Handle, to: Handle)
        requires
            old(self).wf(),
            old(self).has(id_of(to)),
        ensures
            final(self).wf(),
            final(self).graph@.dom() == old(self).graph@.dom(),
            final(self).node_ids@ == old(self).node_ids@,
            final(self).min_id == old(self).min_id,
            final(self).max_id == old(self).max_id,
            final(self).paths@ == old(self).paths@,
            forall|j: u64| #[trigger] final(self).has(j) ==> {
                &&& final(self).seq_of(j) == old(self).seq_of(j)
                &&& final(self).occ_of(j) == old(self).occ_of(j)
                &&& final(self).left_of(j) == if leads_to(moved@, moved@.len() as int, j, false) {
                    replaced(old(self).left_of(j), from, to)
                } else {
                    old(self).left_of(j)
                }
                &&& final(self).right_of(j) == if leads_to(moved@, moved@.len() as int, j, true) {
                    replaced(old(self).right_of(j), from, to)
                } else {
                    old(self).right_of(j)
                }
            },
    {
        let ghost g0 = *self;
        let mut t: usize = 0;
        while t < moved.len()
            invariant
                g0.wf(),
                t <= moved@.len(),
                self.graph@.dom() == g0.graph@.dom(),
                self.node_ids@ == g0.node_ids@,
                self.min_id == g0.min_id,
                self.max_id == g0.max_id,
                self.paths@ == g0.paths@,
                forall|j: u64| #[trigger] self.has(j) ==> {
                    &&& self.seq_of(j) == g0.seq_of(j)
                    &&& self.occ_of(j) == g0.occ_of(j)
                    &&& self.left_of(j) == if leads_to(moved@, t as int, j, false) {
                        replaced(g0.left_of(j), from, to)
                    } else {
                        g0.left_of(j)
                    }
                    &&& self.right_of(j) == if leads_to(moved@, t as int, j, true) {
                        replaced(g0.right_of(j), from, to)
                    } else {
                        g0.right_of(j)
                    }
                },
            decreases moved@.len() - t,
        {
            let x = moved[t];
            let xid = x.id().0;
            let ghost before = *self;
            if self.graph.contains_key(&xid) {
                let mut node = self.graph.remove(&xid).unwrap();
                if x.is_reverse() {
                    replace_all(&mut node.right_edges, from, to);
                } else {
                    replace_all(&mut node.left_edges, from, to);
                }
                self.graph.insert(xid, node);
            }
            t += 1;
            proof {
                assert(self.graph@.dom() =~= g0.graph@.dom());
                assert forall|j: u64| #[trigger] self.has(j) implies {
                    &&& self.seq_of(j) == g0.seq_of(j)
                    &&& self.occ_of(j) == g0.occ_of(j)
                    &&& self.left_of(j) == if leads_to(moved@, t as int, j, false) {
                        replaced(g0.left_of(j), from, to)
                    } else {
                        g0.left_of(j)
                    }
                    &&& self.right_of(j) == if leads_to(moved@, t as int, j, true) {
                        replaced(g0.right_of(j), from, to)
                    } else {
                        g0.right_of(j)
                    }
                } by {
                    assert(before.has(j));
                    lemma_leads_to_step(moved@, t - 1, j, false);
                    lemma_leads_to_step(moved@, t - 1, j, true);
                    lemma_replaced_idempotent(g0.left_of(j), from, to);
                    lemma_replaced_idempotent(g0.right_of(j), from, to);
                }
            }
        }
        proof {
            assert(g0.has(id_of(to)));
            assert forall|j: u64| #[trigger] self.has(j) implies self.present_all(self.left_of(j)) && self.present_all(self.right_of(j)) by {
                assert(g0.has(j));
                lemma_present_replaced(&g0, g0.left_of(j), from, to);
                lemma_present_replaced(&g0, g0.right_of(j), from, to);
                lemma_present_grow(&*self, &g0, g0.left_of(j));
                lemma_present_grow(&*self, &g0, g0.right_of(j));
                lemma_present_grow(&*self, &g0, replaced(g0.left_of(j), from, to));
                lemma_present_grow(&*self, &g0, replaced(g0.right_of(j), from, to));
            }
            lemma_same_occ_wf(&*self, &g0);
        }
    }

    /// Adds the edge from the forward handle of `a` to the forward handle
    /// of `b`, at the end of both lists.
    fn link_forward(&mut self, a: u64, b: u64)
        requires
            old(self).wf(),
            old(self).has(a),
            old(self).has(b),
            a != b,
        ensures
            final(self).wf(),
            final(self).others_same(old(self), a, b),
            final(self).seq_of(a) == old(self).seq_of(a),
            final(self).seq_of(b) == old(self).seq_of(b),
            final(self).left_of(a) == old(self).left_of(a),
            final(self).right_of(a) == old(self).right_of(a).push(pack_spec(b, false)),
            final(self).left_of(b) == old(self).left_of(b).push(pack_spec(a, true)),
            final(self).right_of(b) == old(self).right_of(b),
    {
        let ghost g0 = *self;
        assert(a < ID_LIMIT && b < ID_LIMIT);
        let mut an = self.graph.remove(&a).unwrap();
        an.right_edges.push(Handle::pack(NodeId(b), false));
        self.graph.insert(a, an);
        let mut bn = self.graph.remove(&b).unwrap();
        bn.left_edges.push(Handle::pack(NodeId(a), true));
        self.graph.insert(b, bn);
        proof {
            assert(self.graph@.dom() =~= g0.graph@.dom());
            assert(id_of(pack_spec(b, false)) == b);
            assert(id_of(pack_spec(a, true)) == a);
            assert forall|j: u64| #[trigger] self.has(j) implies self.present_all(self.left_of(j)) && self.present_all(self.right_of(j)) by {
                assert(g0.has(j));
                lemma_present_grow(&*self, &g0, g0.left_of(j));
                lemma_present_grow(&*self, &g0, g0.right_of(j));
                lemma_present_push(&*self, g0.right_of(j), pack_spec(b, false));
                lemma_present_push(&*self, g0.left_of(j), pack_spec(a, true));
            }
            lemma_same_occ_wf(&*self, &g0);
        }
    }
}

/// One of the first `t` entries of `moved` leads to node `j` with the
/// orientation that `right_side` gives (reverse: the right side).
pub open spec fn leads_to(moved: Seq<Handle>, t: int, j: u64, right_side: bool) -> bool {
    exists|i: int| 0 <= i < t && id_of(#[trigger] moved[i]) == j && rev_of(moved[i]) == right_side
}

/// Replacing entries by one on a present node keeps a list's entries
/// present.
proof fn lemma_present_replaced(g: &HashGraph, s: Seq<Handle>, from: Handle, to: Handle)
    requires
        g.present_all(s),
        g.has(id_of(to)),
    ensures
        g.present_all(replaced(s, from, to)),
{
    assert forall|i: int| 0 <= i < replaced(s, from, to).len() implies g.has(id_of(#[trigger] replaced(s, from, to)[i])) by {
        assert(g.has(id_of(s[i])));
    }
}

/// `a` with every `from` replaced by `to`.
pub open spec fn replaced(a: Seq<Handle>, from: Handle, to: Handle) -> Seq<Handle> {
    Seq::new(a.len(), |i: int| if a[i] == from { to } else { a[i] })
}

pub proof fn lemma_leads_to_step(moved: Seq<Handle>, t: int, j: u64, right_side: bool)
    requires
        0 <= t < moved.len(),
    ensures
        leads_to(moved, t + 1, j, right_side) == (leads_to(moved, t, j, right_side) || (id_of(moved[t]) == j && rev_of(moved[t]) == right_side)),
{
    if leads_to(moved, t + 1, j, right_side) && !(id_of(moved[t]) == j && rev_of(moved[t]) == right_side) {
        let i = choose|i: int| 0 <= i < t + 1 && id_of(#[trigger] moved[i]) == j && rev_of(moved[i]) == right_side;
        assert(i < t);
    }
}

proof fn lemma_replaced_idempotent(a: Seq<Handle>, from: Handle, to: Handle)
    ensures
        replaced(replaced(a, from, to), from, to) == replaced(a, from, to),
{
    assert(replaced(replaced(a, from, to), from, to) =~= replaced(a, from, to));
}

/// Replaces every `from` in `list` by `to`.
fn replace_all(list: &mut Vec<Handle>, from: Handle, to: Handle)
    ensures
        final(list)@ == replaced(old(list)@, from, to),
{
    let mut i: usize = 0;
    while i < list.len()
        invariant
            i <= list@.len(),
            list@.len() == old(list)@.len(),
            forall|j: int| 0 <= j < i ==> list@[j] == if old(list)@[j] == from { to } else { old(list)@[j] },
            forall|j: int| i <= j < list@.len() ==> list@[j] == old(list)@[j],
        decreases list@.len() - i,
    {
        if list[i] == from {
            list.set(i, to);
        }
        i += 1;
    }
    assert(list@ =~= replaced(old(list)@, from, to));
}

/// The node of piece `i` of a division of node `k`: `k` itself keeps piece
/// zero, and piece `i` after it goes to the `i`-th new node.
pub open spec fn chain_id(k: u64, base: u64, i: int) -> u64 {
    if i == 0 {
        k
    } else {
        piece_id(base, i - 1)
    }
}

/// The forward handles of the `m + 1` pieces, in order.
pub open spec fn fwd_pieces(k: u64, base: u64, m: int) -> Seq<Handle> {
    Seq::new((m + 1) as nat, |i: int| pack_spec(chain_id(k, base, i), false))
}

/// The reverse handles of the pieces, last piece first.
pub open spec fn rev_pieces(k: u64, base: u64, m: int) -> Seq<Handle> {
    Seq::new((m + 1) as nat, |i: int| pack_spec(chain_id(k, base, m - i), true))
}

impl HashGraph {
    /// The steps of path `q` once the step that `self` records there for
    /// node `k` is replaced by `fwd`, or by `rev` where that step is
    /// reverse.
    pub open spec fn split_steps(&self, k: u64, q: PathId, fwd: Seq<Handle>, rev: Seq<Handle>) -> Seq<Handle> {
        if self.occ_of(k).contains_key(q) {
            let ix = self.occ_of(k)[q] as int;
            self.steps(q).subrange(0, ix) + (if rev_of(self.steps(q)[ix]) { rev } else { fwd }) + self.steps(q).subrange(ix + 1, self.steps(q).len() as int)
        } else {
            self.steps(q)
        }
    }

    /// Slot `q` of the path table holds what `o` held there, with the step
    /// recorded for node `k` replaced as `split_steps` says.
    pub open spec fn path_split(&self, o: &HashGraph, k: u64, q: PathId, fwd: Seq<Handle>, rev: Seq<Handle>) -> bool {
        &&& (self.paths@[q as int] is Some <==> o.paths@[q as int] is Some)
        &&& self.paths@[q as int] is Some ==> {
            &&& self.path(q).path_id == o.path(q).path_id
            &&& self.path(q).name@ == o.path(q).name@
            &&& self.path(q).is_circular == o.path(q).is_circular
            &&& self.steps(q) == o.split_steps(k, q, fwd, rev)
        }
    }

    /// On every path that records node `k`, replaces the recorded step by
    /// `fwd` where that step is forward and by `rev` where it is reverse.
    fn split_path_steps(&mut self, k: u64, fwd: &Vec<Handle>, rev: &Vec<Handle>)
        requires
            old(self).wf(),
            old(self).has(k),
            forall|i: int| 0 <= i < fwd@.len() ==> old(self).has(id_of(#[trigger] fwd@[i])),
            forall|i: int| 0 <= i < rev@.len() ==> old(self).has(id_of(#[trigger] rev@[i])),
        ensures
            final(self).wf(),
            final(self).same_but_occ(old(self)),
            final(self).paths@.len() == old(self).paths@.len(),
            forall|q: PathId| q < final(self).paths@.len() ==> #[trigger] final(self).path_split(old(self), k, q, fwd@, rev@),
    {
        let ghost g0 = *self;
        let mut q: usize = 0;
        while q < self.paths.len()
            invariant
                g0.wf(),
                g0.has(k),
                forall|i: int| 0 <= i < fwd@.len() ==> g0.has(id_of(#[trigger] fwd@[i])),
                forall|i: int| 0 <= i < rev@.len() ==> g0.has(id_of(#[trigger] rev@[i])),
                self.wf(),
                self.same_but_occ(&g0),
                q <= self.paths@.len(),
                self.paths@.len() == g0.paths@.len(),
                forall|x: PathId| x < q ==> #[trigger] self.path_split(&g0, k, x, fwd@, rev@),
                forall|x: PathId| q <= x < self.paths@.len() ==> #[trigger] self.paths@[x as int] == g0.paths@[x as int],
                forall|x: PathId| q <= x ==> (#[trigger] self.occ_of(k).contains_key(x) == g0.occ_of(k).contains_key(x)),
                forall|x: PathId| q <= x && #[trigger] self.occ_of(k).contains_key(x) ==> self.occ_of(k)[x] == g0.occ_of(k)[x],
            decreases self.paths@.len() - q,
        {
            proof {
                assert(self.has(k));
                assert(g0.occ_ok(k, q));
                assert(self.occ_ok(k, q));
            }
            let found = match self.graph.get(&k) {
                Some(n) => match n.occurrences.get(&q) {
                    Some(ix) => Some(*ix),
                    None => None,
                },
                None => None,
            };
            let ghost before = *self;
            match found {
                Some(ix) => {
                    let step = self.step_at(q, ix);
                    let seg = if step.is_reverse() { copy_handles(rev) } else { copy_handles(fwd) };
                    proof {
                        assert forall|i: int| 0 <= i < seg@.len() implies self.has(id_of(#[trigger] seg@[i])) by {
                            if rev_of(step) {
                                assert(g0.has(id_of(rev@[i])));
                            } else {
                                assert(g0.has(id_of(fwd@[i])));
                            }
                        }
                    }
                    let _ = self.rewrite_segment(&PathStep::Step(q, ix), &PathStep::Step(q, ix), seg);
                    proof {
                        lemma_same_but_occ_trans(&*self, &before, &g0);
                        assert(before.has(k));
                        assert(self.has(k));
                        assert(self.occ_of(k).remove(q) == before.occ_of(k).remove(q));
                        assert(self.path_split(&g0, k, q, fwd@, rev@)) by {
                            assert(self.steps(q) =~= g0.split_steps(k, q, fwd@, rev@));
                        }
                        assert forall|x: PathId| x < q + 1 implies #[trigger] self.path_split(&g0, k, x, fwd@, rev@) by {
                            if x < q {
                                assert(before.path_split(&g0, k, x, fwd@, rev@));
                                assert(self.paths@[x as int] == before.paths@[x as int]);
                            }
                        }
                        assert forall|x: PathId| q + 1 <= x && x < self.paths@.len() implies #[trigger] self.paths@[x as int] == g0.paths@[x as int] by {
                            assert(self.paths@[x as int] == before.paths@[x as int]);
                        }
                        assert forall|x: PathId| q + 1 <= x implies (#[trigger] self.occ_of(k).contains_key(x) == g0.occ_of(k).contains_key(x)) by {
                            assert(self.occ_of(k).remove(q) == before.occ_of(k).remove(q));
                            assert(self.occ_of(k).remove(q).contains_key(x) == self.occ_of(k).contains_key(x));
                            assert(before.occ_of(k).remove(q).contains_key(x) == before.occ_of(k).contains_key(x));
                        }
                        assert forall|x: PathId| q + 1 <= x && #[trigger] self.occ_of(k).contains_key(x) implies self.occ_of(k)[x] == g0.occ_of(k)[x] by {
                            assert(self.occ_of(k).remove(q) == before.occ_of(k).remove(q));
                            assert(self.occ_of(k).remove(q).contains_key(x));
                            assert(before.occ_of(k).contains_key(x));
                            assert(self.occ_of(k).remove(q)[x] == self.occ_of(k)[x]);
                            assert(before.occ_of(k).remove(q)[x] == before.occ_of(k)[x]);
                        }
                    }
                },
                None => {
                    proof {
                        assert(self.path_split(&g0, k, q, fwd@, rev@));
                    }
                },
            }
            q += 1;
        }
    }
}

/// Facts about the node table carry over two steps that change only
/// occurrence indexes.
proof fn lemma_same_but_occ_trans(a: &HashGraph, b: &HashGraph, c: &HashGraph)
    requires
        a.same_but_occ(b),
        b.same_but_occ(c),
    ensures
        a.same_but_occ(c),
{
    assert forall|k: u64| #[trigger] a.has(k) implies {
        &&& a.seq_of(k) == c.seq_of(k)
        &&& a.left_of(k) == c.left_of(k)
        &&& a.right_of(k) == c.right_of(k)
    } by {
        assert(b.has(k));
    }
}

/// A copy of a list of handles.
fn copy_handles(v: &Vec<Handle>) -> (r: Vec<Handle>)
    ensures
        r@ == v@,
{
    let mut out: Vec<Handle> = Vec::new();
    let mut i: usize = 0;
    while i < v.len()
        invariant
            i <= v@.len(),
            out@ == v@.subrange(0, i as int),
        decreases v@.len() - i,
    {
        out.push(v[i]);
        i += 1;
        assert(out@ =~= v@.subrange(0, i as int));
    }
    assert(out@ =~= v@);
    out
}

impl HashGraph {
    /// The outcome of `divide_handle` on handle `h` with a nonempty list of
    /// offsets: piece zero stays on the node, the other pieces go to new
    /// nodes with the next ids, the pieces are chained left to right, the
    /// right side of the node moves to the last piece, and each path step
    /// recorded for the node becomes the list of pieces.
    pub open spec fn divided(&self, o: &HashGraph, h: Handle, offsets: Seq<usize>, r: Seq<Handle>) -> bool {
        let k = id_of(h);
        let len = o.seq_of(k).len() as int;
        let m = offsets.len() as int;
        let c = fwd_cuts(offsets, len, rev_of(h));
        let base = o.max_id.0;
        let last = piece_id(base, m - 1);
        let moved = o.right_of(k);
        let from = pack_spec(k, true);
        let to = pack_spec(last, true);
        &&& r == if rev_of(h) { rev_pieces(k, base, m) } else { fwd_pieces(k, base, m) }
        &&& self.max_id.0 == base + m
        &&& self.min_id == o.min_id
        &&& forall|j: u64| #[trigger] self.has(j) <==> o.has(j) || (base < j <= base + m)
        &&& forall|i: int| 0 <= i <= m ==> #[trigger] self.seq_of(chain_id(k, base, i)) == o.seq_of(k).subrange(bound(c, len, i), bound(c, len, i + 1))
        &&& forall|i: int| 0 <= i < m ==> #[trigger] self.right_of(chain_id(k, base, i)) == seq![pack_spec(chain_id(k, base, i + 1), false)]
        &&& forall|i: int| 1 <= i <= m ==> #[trigger] self.left_of(chain_id(k, base, i)) == seq![pack_spec(chain_id(k, base, i - 1), true)]
        &&& self.left_of(k) == if leads_to(moved, moved.len() as int, k, false) { replaced(o.left_of(k), from, to) } else { o.left_of(k) }
        &&& self.right_of(last) == if leads_to(moved, moved.len() as int, last, true) { replaced(moved, from, to) } else { moved }
        &&& forall|j: u64| j != k && #[trigger] o.has(j) ==> {
            &&& self.seq_of(j) == o.seq_of(j)
            &&& self.left_of(j) == if leads_to(moved, moved.len() as int, j, false) { replaced(o.left_of(j), from, to) } else { o.left_of(j) }
            &&& self.right_of(j) == if leads_to(moved, moved.len() as int, j, true) { replaced(o.right_of(j), from, to) } else { o.right_of(j) }
        }
        &&& self.paths@.len() == o.paths@.len()
        &&& forall|q: PathId| q < self.paths@.len() ==> #[trigger] self.path_split(o, k, q, fwd_pieces(k, base, m), rev_pieces(k, base, m))
    }

    /// Divides the node of `handle` at the given offsets, read in the
    /// handle's orientation, and returns the handles of the pieces in
    /// that orientation; with no offsets the handle comes back alone.
    #[verifier::loop_isolation(false)]
    pub fn divide_handle(&mut self, handle: Handle, offsets: Vec<usize>) -> (r: Vec<Handle>)
        requires
            old(self).wf(),
            old(self).has(id_of(handle)),
            ascending_inside(offsets@, old(self).seq_of(id_of(handle)).len() as int),
            old(self).max_id.0 + offsets@.len() < ID_LIMIT,
        ensures
            final(self).wf(),
            offsets@.len() == 0 ==> r@ == seq![handle] && *final(self) == *old(self),
            offsets@.len() > 0 ==> final(self).divided(old(self), handle, offsets@, r@),
    {
        if offsets.len() == 0 {
            return vec![handle];
        }
        let ghost g0 = *self;
        let k = handle.id().0;
        let m = offsets.len();
        let len = self.node_len(handle);
        let seq = match self.graph.get(&k) {
            Some(n) => copy_range(&n.sequence, 0, n.sequence.len()),
            None => Vec::new(),
        };
        let cuts = forward_cuts(&offsets, len, handle.is_reverse());
        let base = self.max_id.0;
        proof {
            assert(self.min_id.0 <= k <= self.max_id.0);
        }
        let _news = self.add_pieces(&seq, &cuts);
        let ghost g1 = *self;
        let last = base + m as u64;
        proof {
            assert(g1.piece_ok(&g0, seq@, cuts@, m - 1));
            assert(piece_id(base, m - 1) == last);
            assert(g0.has(k));
            assert(k <= base);
            assert(g1.has(k) == g0.has(k));
            assert(g1.has(k) && g1.node(k) == g0.node(k));
        }
        self.move_right_side(k, last, cuts[0]);
        let ghost g2 = *self;
        let moved = match self.graph.get(&last) {
            Some(n) => copy_handles(&n.right_edges),
            None => Vec::new(),
        };
        proof {
            assert(g2.has(last));
            assert(id_of(pack_spec(last, true)) == last);
        }
        self.redirect_back(&moved, Handle::pack(NodeId(k), true), Handle::pack(NodeId(last), true));
        let ghost g3 = *self;
        proof {
            assert forall|x: int| 0 <= x <= m implies #[trigger] g3.has(chain_id(k, base, x)) && g3.right_of(chain_id(k, base, x)) == (if x < m { Seq::<Handle>::empty() } else { g3.right_of(last) }) && g3.left_of(chain_id(k, base, x)) == (if x >= 1 { Seq::<Handle>::empty() } else { g3.left_of(k) }) by {
                if x >= 1 {
                    assert(g1.piece_ok(&g0, seq@, cuts@, x - 1));
                    assert(g2.has(chain_id(k, base, x)));
                    assert(g3.has(chain_id(k, base, x)));
                    assert(replaced(Seq::<Handle>::empty(), pack_spec(k, true), pack_spec(last, true)) =~= Seq::<Handle>::empty());
                } else {
                    assert(g3.has(k));
                    assert(replaced(Seq::<Handle>::empty(), pack_spec(k, true), pack_spec(last, true)) =~= Seq::<Handle>::empty());
                }
            }
        }
        let mut i: usize = 0;
        while i < m
            invariant
                self.wf(),
                i <= m,
                self.graph@.dom() == g3.graph@.dom(),
                self.node_ids@ == g3.node_ids@,
                self.min_id == g3.min_id,
                self.max_id == g3.max_id,
                self.paths@ == g3.paths@,
                forall|j: u64| #[trigger] self.has(j) ==> self.occ_of(j) == g3.occ_of(j) && self.seq_of(j) == g3.seq_of(j),
                forall|j: u64| j != k && !(base < j <= base + m) && #[trigger] self.has(j) ==> self.node(j) == g3.node(j),
                forall|x: int| 0 <= x <= m ==> #[trigger] self.right_of(chain_id(k, base, x)) == if x < i {
                    g3.right_of(chain_id(k, base, x)).push(pack_spec(chain_id(k, base, x + 1), false))
                } else {
                    g3.right_of(chain_id(k, base, x))
                },
                forall|x: int| 0 <= x <= m ==> #[trigger] self.left_of(chain_id(k, base, x)) == if 1 <= x <= i {
                    g3.left_of(chain_id(k, base, x)).push(pack_spec(chain_id(k, base, x - 1), true))
                } else {
                    g3.left_of(chain_id(k, base, x))
                },
            decreases m - i,
        {
            let a = if i == 0 { k } else { base + i as u64 };
            let b = base + i as u64 + 1;
            proof {
                assert(a == chain_id(k, base, i as int));
                assert(b == chain_id(k, base, i + 1));
                assert(g3.has(chain_id(k, base, i as int)));
                assert(g3.has(chain_id(k, base, i + 1)));
            }
            let ghost before = *self;
            self.link_forward(a, b);
            proof {
                assert forall|x: int| 0 <= x <= m implies #[trigger] self.right_of(chain_id(k, base, x)) == if x < i + 1 {
                    g3.right_of(chain_id(k, base, x)).push(pack_spec(chain_id(k, base, x + 1), false))
                } else {
                    g3.right_of(chain_id(k, base, x))
                } by {
                    assert(before.right_of(chain_id(k, base, x)) == if x < i {
                        g3.right_of(chain_id(k, base, x)).push(pack_spec(chain_id(k, base, x + 1), false))
                    } else {
                        g3.right_of(chain_id(k, base, x))
                    });
                    let j = chain_id(k, base, x);
                    assert(g3.has(chain_id(k, base, x)));
                    if j != a && j != b {
                        assert(self.has(j));
                        assert(self.node(j) == before.node(j));
                    }
                }
                assert forall|x: int| 0 <= x <= m implies #[trigger] self.left_of(chain_id(k, base, x)) == if 1 <= x <= i + 1 {
                    g3.left_of(chain_id(k, base, x)).push(pack_spec(chain_id(k, base, x - 1), true))
                } else {
                    g3.left_of(chain_id(k, base, x))
                } by {
                    assert(before.left_of(chain_id(k, base, x)) == if 1 <= x <= i {
                        g3.left_of(chain_id(k, base, x)).push(pack_spec(chain_id(k, base, x - 1), true))
                    } else {
                        g3.left_of(chain_id(k, base, x))
                    });
                    let j = chain_id(k, base, x);
                    assert(g3.has(chain_id(k, base, x)));
                    if j != a && j != b {
                        assert(self.has(j));
                        assert(self.node(j) == before.node(j));
                    }
                }
                assert forall|j: u64| #[trigger] self.has(j) implies self.occ_of(j) == g3.occ_of(j) && self.seq_of(j) == g3.seq_of(j) by {
                    assert(before.has(j));
                    if j != a && j != b {
                        assert(self.node(j) == before.node(j));
                    }
                }
                assert forall|j: u64| j != k && !(base < j <= base + m) && #[trigger] self.has(j) implies self.node(j) == g3.node(j) by {
                    assert(before.has(j));
                    assert(self.node(j) == before.node(j));
                }
            }
            i += 1;
        }
        let ghost g4 = *self;
        let mut fwd: Vec<Handle> = Vec::new();
        let mut rev: Vec<Handle> = Vec::new();
        let mut x: usize = 0;
        while x < m
            invariant
                x <= m,
                base + m < ID_LIMIT,
                fwd@.len() == x,
                rev@.len() == x,
                forall|y: int| 0 <= y < x ==> #[trigger] fwd@[y] == pack_spec(chain_id(k, base, y), false),
                forall|y: int| 0 <= y < x ==> #[trigger] rev@[y] == pack_spec(chain_id(k, base, m - y), true),
            decreases m - x,
        {
            let f = if x == 0 { k } else { base + x as u64 };
            let rv = base + (m - x) as u64;
            fwd.push(Handle::pack(NodeId(f), false));
            rev.push(Handle::pack(NodeId(rv), true));
            x += 1;
        }
        fwd.push(Handle::pack(NodeId(base + m as u64), false));
        rev.push(Handle::pack(NodeId(k), true));
        proof {
            assert(fwd@ =~= fwd_pieces(k, base, m as int));
            assert(rev@ =~= rev_pieces(k, base, m as int));
            assert forall|y: int| 0 <= y < fwd@.len() implies self.has(id_of(#[trigger] fwd@[y])) by {
                assert(g3.has(chain_id(k, base, y)));
            }
            assert forall|y: int| 0 <= y < rev@.len() implies self.has(id_of(#[trigger] rev@[y])) by {
                assert(g3.has(chain_id(k, base, m - y)));
            }
        }
        self.split_path_steps(k, &fwd, &rev);
        proof {
            let len_i = g0.seq_of(k).len() as int;
            let c = fwd_cuts(offsets@, len_i, rev_of(handle));
            assert(seq@ =~= g0.seq_of(k));
            assert(g4.paths@ == g0.paths@);
            assert(g1.occ_of(k) == g0.occ_of(k));
            assert(g2.has(k));
            assert(g3.has(k));
            assert(g4.has(k));
            assert(g4.occ_of(k) == g0.occ_of(k));
            assert forall|q: PathId| q < self.paths@.len() implies #[trigger] self.path_split(&g0, k, q, fwd_pieces(k, base, m as int), rev_pieces(k, base, m as int)) by {
                assert(self.path_split(&g4, k, q, fwd@, rev@));
            }
            assert forall|j: u64| #[trigger] self.has(j) <==> g0.has(j) || (base < j <= base + m) by {
                assert(g4.has(j) == self.has(j));
                assert(g1.has(j) == g4.has(j));
                if base < j <= base + m {
                    assert(g1.piece_ok(&g0, seq@, cuts@, j - base - 1));
                } else {
                    assert(g1.has(j) == g0.has(j));
                }
            }
            assert forall|i: int| 0 <= i <= m implies #[trigger] self.seq_of(chain_id(k, base, i)) == g0.seq_of(k).subrange(bound(c, len_i, i), bound(c, len_i, i + 1)) by {
                let j = chain_id(k, base, i);
                assert(g3.has(j));
                assert(g4.has(j));
                assert(g2.has(j));
                assert(self.has(j));
                assert(self.seq_of(j) == g4.seq_of(j));
                assert(g4.seq_of(j) == g3.seq_of(j));
                assert(g3.seq_of(j) == g2.seq_of(j));
                if i == 0 {
                    assert(cuts@[0] as int == c[0]);
                } else {
                    assert(g1.piece_ok(&g0, seq@, cuts@, i - 1));
                    assert(cuts@[i - 1] as int == c[i - 1]);
                    if i < m {
                        assert(cuts@[i] as int == c[i]);
                    }
                    if j != last {
                        assert(g2.node(j) == g1.node(j));
                    }
                }
            }
            assert forall|i: int| 0 <= i < m implies #[trigger] self.right_of(chain_id(k, base, i)) == seq![pack_spec(chain_id(k, base, i + 1), false)] by {
                let j = chain_id(k, base, i);
                assert(g3.has(j));
                assert(g4.has(j));
                assert(self.has(j));
                assert(self.right_of(j) == g4.right_of(j));
                assert(g4.right_of(j) == g3.right_of(j).push(pack_spec(chain_id(k, base, i + 1), false)));
                assert(g3.right_of(j) == Seq::<Handle>::empty());
                assert(g4.right_of(j) =~= seq![pack_spec(chain_id(k, base, i + 1), false)]);
            }
            assert forall|i: int| 1 <= i <= m implies #[trigger] self.left_of(chain_id(k, base, i)) == seq![pack_spec(chain_id(k, base, i - 1), true)] by {
                let j = chain_id(k, base, i);
                assert(g3.has(j));
                assert(g4.has(j));
                assert(self.has(j));
                assert(self.left_of(j) == g4.left_of(j));
                assert(g4.left_of(j) == g3.left_of(j).push(pack_spec(chain_id(k, base, i - 1), true)));
                assert(g3.left_of(j) == Seq::<Handle>::empty());
                assert(g4.left_of(j) =~= seq![pack_spec(chain_id(k, base, i - 1), true)]);
            }
            assert(moved@ == g0.right_of(k));
            assert(self.has(k));
            assert(self.has(last));
            assert(self.left_of(k) == g4.left_of(chain_id(k, base, 0)));
            assert(self.right_of(last) == g4.right_of(chain_id(k, base, m as int)));
            assert(g3.has(last));
            assert forall|j: u64| j != k && #[trigger] g0.has(j) implies {
                &&& self.seq_of(j) == g0.seq_of(j)
                &&& self.left_of(j) == if leads_to(moved@, moved@.len() as int, j, false) { replaced(g0.left_of(j), pack_spec(k, true), pack_spec(last, true)) } else { g0.left_of(j) }
                &&& self.right_of(j) == if leads_to(moved@, moved@.len() as int, j, true) { replaced(g0.right_of(j), pack_spec(k, true), pack_spec(last, true)) } else { g0.right_of(j) }
            } by {
                assert(j <= base);
                assert(g1.has(j) == g0.has(j));
                assert(g1.node(j) == g0.node(j));
                assert(g2.has(j));
                assert(g2.node(j) == g1.node(j));
                assert(g3.has(j));
                assert(g4.has(j));
                assert(g4.node(j) == g3.node(j));
                assert(self.has(j));
            }
        }
        if handle.is_reverse() {
            rev
        } else {
            fwd
        }
    }
}

impl HashGraph {
    /// Divides the node of `handle` at one offset and returns the two
    /// pieces, in the handle's orientation.
    pub fn split_handle(&mut self, handle: Handle, offset: usize) -> (r: (Handle, Handle))
        requires
            old(self).wf(),
            old(self).has(id_of(handle)),
            0 < offset < old(self).seq_of(id_of(handle)).len(),
            old(self).max_id.0 + 1 < ID_LIMIT,
        ensures
            final(self).wf(),
            final(self).divided(old(self), handle, seq![offset], seq![r.0, r.1]),
    {
        let mut offsets: Vec<usize> = Vec::new();
        offsets.push(offset);
        proof {
            assert(offsets@ =~= seq![offset]);
        }
        let hs = self.divide_handle(handle, offsets);
        proof {
            assert(hs@.len() == 2);
        }
        let r = (hs[0], hs[1]);
        proof {
            assert(hs@ =~= seq![r.0, r.1]);
        }
        r
    }
}

} // verus!
