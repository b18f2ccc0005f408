//! Properties that relate several operations of the graph.

use vstd::prelude::*;

use crate::dna::{lemma_revcomp_concat, lemma_revcomp_involution, revcomp_of};
use crate::edit::lemma_flip_on_twice;
use crate::divide::{ascending_inside, bound, chain_id, fwd_cuts, fwd_pieces, leads_to, piece_id, replaced, rev_pieces};
use crate::graph::{visit_at, visits, HashGraph, PathId};
use crate::handle::{flip_spec, id_of, lemma_flip_involution, lemma_unpack_round_trip, pack_spec, rev_of, Handle, ID_LIMIT};

verus! {

/// `x` occurs exactly once in `s`.
pub open spec fn once_in(s: Seq<Handle>, x: Handle) -> bool {
    &&& s.contains(x)
    &&& forall|i: int, j: int| 0 <= i < s.len() && 0 <= j < s.len() && s[i] == x && s[j] == x ==> i == j
}

/// Creating an edge twice, the second time with the same handles or with
/// its reverse traversal, changes nothing the second time: after the first
/// call both ends hold the edge, and where neither end held it before, each
/// holds it exactly once.
pub proof fn lemma_create_edge_idempotent(
    g0: &HashGraph,
    g1: &HashGraph,
    g2: &HashGraph,
    left: Handle,
    right: Handle,
    r1: bool,
    r2: bool,
)
    requires
        g1.edge_created(g0, left, right, r1),
        g2.edge_created(g1, left, right, r2) || g2.edge_created(g1, flip_spec(right), flip_spec(left), r2),
    ensures
        g1.edge_both_ways(left, right),
        !r2,
        *g2 == *g1,
        !g0.has_edge_spec(left, right) && !g0.has_edge_spec(flip_spec(right), flip_spec(left)) ==> {
            &&& once_in(g1.out_list(left), right)
            &&& once_in(g1.out_list(flip_spec(right)), flip_spec(left))
        },
{
    lemma_flip_involution(left);
    lemma_flip_involution(right);
    let fr = flip_spec(right);
    let fl = flip_spec(left);
    if r1 {
        assert(g1.out_list(left) == g0.added_out(left, left, right));
        assert(g1.out_list(fr) == g0.added_out(fr, left, right));
        if !g0.out_list(left).contains(right) {
            assert(g1.out_list(left)[g1.out_list(left).len() - 1] == right);
        }
        if fr != left && !g0.out_list(fr).contains(fl) {
            assert(g1.out_list(fr)[g1.out_list(fr).len() - 1] == fl);
        }
        if !g0.has_edge_spec(left, right) && !g0.has_edge_spec(fr, fl) {
            let s = g0.out_list(left);
            assert forall|i: int, j: int| 0 <= i < s.len() + 1 && 0 <= j < s.len() + 1 && s.push(right)[i] == right && s.push(right)[j] == right implies i == j by {
                if i < s.len() {
                    assert(s[i] == right);
                }
                if j < s.len() {
                    assert(s[j] == right);
                }
            }
            let t = g0.out_list(fr);
            assert forall|i: int, j: int| 0 <= i < t.len() + 1 && 0 <= j < t.len() + 1 && t.push(fl)[i] == fl && t.push(fl)[j] == fl implies i == j by {
                if i < t.len() {
                    assert(t[i] == fl);
                }
                if j < t.len() {
                    assert(t[j] == fl);
                }
            }
        }
    }
    assert(g1.edge_both_ways(fr, fl) == g1.edge_both_ways(left, right));
}

/// In a well-formed graph, and so after any sequence of operations, the
/// node of every step records the path, at the index of a step on that
/// node; where the node has no other step on the path, at this very index.
pub proof fn lemma_occurrence_consistency(g: &HashGraph, p: PathId, i: int)
    requires
        g.wf(),
        g.path_live(p),
        0 <= i < g.steps(p).len(),
    ensures
        g.has(id_of(g.steps(p)[i])),
        g.occ_of(id_of(g.steps(p)[i])).contains_key(p),
        visit_at(g.steps(p), id_of(g.steps(p)[i]), g.occ_of(id_of(g.steps(p)[i]))[p] as int),
        (forall|j: int| 0 <= j < g.steps(p).len() && j != i ==> id_of(#[trigger] g.steps(p)[j]) != id_of(g.steps(p)[i]))
            ==> g.occ_of(id_of(g.steps(p)[i]))[p] == i,
{
    let k = id_of(g.steps(p)[i]);
    assert(g.has(k));
    assert(g.occ_ok(k, p));
    assert(visits(g.steps(p), k));
}

/// Turning a node around twice, each time through its reverse handle,
/// gives back its sequence; and where no edge of the node leads back to
/// itself, it gives back every adjacency list, the node's and its
/// neighbours', and every path step.
pub proof fn lemma_apply_orientation_involution(g0: &HashGraph, g1: &HashGraph, g2: &HashGraph, k: u64)
    requires
        g0.wf(),
        g0.has(k),
        g1.reoriented(g0, k),
        g2.reoriented(g1, k),
    ensures
        g2.seq_of(k) == g0.seq_of(k),
        g0.no_self_loop(k) ==> {
            &&& g2.left_of(k) == g0.left_of(k)
            &&& g2.right_of(k) == g0.right_of(k)
            &&& forall|j: u64| #[trigger] g2.has(j) ==> g2.left_of(j) == g0.left_of(j) && g2.right_of(j) == g0.right_of(j)
            &&& forall|q: PathId| #[trigger] g0.path_live(q) ==> g2.path_live(q) && g2.steps(q) == g0.steps(q)
        },
{
    lemma_revcomp_involution(g0.seq_of(k), g1.seq_of(k));
    if g0.no_self_loop(k) {
        let l0 = g0.left_of(k);
        let r0 = g0.right_of(k);
        let t0 = l0 + r0;
        assert forall|side: bool| !leads_to(t0, t0.len() as int, k, side) by {
            if leads_to(t0, t0.len() as int, k, side) {
                let i = choose|i: int| 0 <= i < t0.len() && id_of(#[trigger] t0[i]) == k && rev_of(t0[i]) == side;
                if i < l0.len() {
                    assert(t0[i] == l0[i]);
                } else {
                    assert(t0[i] == r0[i - l0.len()]);
                }
            }
        }
        assert(g1.left_of(k) == r0);
        assert(g1.right_of(k) == l0);
        let t1 = g1.left_of(k) + g1.right_of(k);
        assert forall|j: u64, side: bool| #[trigger] leads_to(t1, t1.len() as int, j, side) == leads_to(t0, t0.len() as int, j, side) by {
            if leads_to(t1, t1.len() as int, j, side) {
                let i = choose|i: int| 0 <= i < t1.len() && id_of(#[trigger] t1[i]) == j && rev_of(t1[i]) == side;
                let i0 = if i < r0.len() { l0.len() + i } else { i - r0.len() };
                assert(t0[i0] == t1[i]);
            }
            if leads_to(t0, t0.len() as int, j, side) {
                let i = choose|i: int| 0 <= i < t0.len() && id_of(#[trigger] t0[i]) == j && rev_of(t0[i]) == side;
                let i1 = if i < l0.len() { r0.len() + i } else { i - l0.len() };
                assert(t1[i1] == t0[i]);
            }
        }
        assert(!leads_to(t1, t1.len() as int, k, true));
        assert(!leads_to(t1, t1.len() as int, k, false));
        assert forall|j: u64| #[trigger] g2.has(j) implies g2.left_of(j) == g0.left_of(j) && g2.right_of(j) == g0.right_of(j) by {
            if j != k {
                assert(g1.has(j));
                assert(leads_to(t1, t1.len() as int, j, false) == leads_to(t0, t0.len() as int, j, false));
                assert(leads_to(t1, t1.len() as int, j, true) == leads_to(t0, t0.len() as int, j, true));
                lemma_flip_on_twice(g0.left_of(j), k);
                lemma_flip_on_twice(g0.right_of(j), k);
            }
        }
        assert(g1.has(k));
        assert(g1.occ_of(k) == g0.occ_of(k));
        assert forall|q: PathId| #[trigger] g0.path_live(q) implies g2.path_live(q) && g2.steps(q) == g0.steps(q) by {
            assert(g1.path_reoriented(g0, k, q));
            assert(g2.path_reoriented(g1, k, q));
            assert(g0.occ_ok(k, q));
            if g0.occ_of(k).contains_key(q) {
                let ix = g0.occ_of(k)[q] as int;
                lemma_flip_involution(g0.steps(q)[ix]);
                assert(g2.steps(q) =~= g0.steps(q));
            }
        }
    }
}

/// The forward sequences of the nodes of `hs`, one after the other.
pub open spec fn joined(g: &HashGraph, hs: Seq<Handle>) -> Seq<u8>
    decreases hs.len(),
{
    if hs.len() == 0 {
        Seq::empty()
    } else {
        joined(g, hs.drop_last()) + g.seq_of(id_of(hs.last()))
    }
}

/// Dividing a node loses and adds nothing: the forward sequences of the
/// pieces, read left to right, are the node's sequence before the division.
pub proof fn lemma_divide_preserves_content(g0: &HashGraph, g1: &HashGraph, h: Handle, offsets: Seq<usize>, r: Seq<Handle>)
    requires
        g0.wf(),
        g0.has(id_of(h)),
        ascending_inside(offsets, g0.seq_of(id_of(h)).len() as int),
        g0.max_id.0 + offsets.len() < ID_LIMIT,
        offsets.len() > 0,
        g1.divided(g0, h, offsets, r),
    ensures
        joined(g1, fwd_pieces(id_of(h), g0.max_id.0, offsets.len() as int)) == g0.seq_of(id_of(h)),
        !rev_of(h) ==> joined(g1, r) == g0.seq_of(id_of(h)),
        read_joined(g1, r) == read_of(g0, h),
{
    let k = id_of(h);
    let s = g0.seq_of(k);
    let len = s.len() as int;
    let m = offsets.len() as int;
    let c = fwd_cuts(offsets, len, rev_of(h));
    let base = g0.max_id.0;
    assert(k <= base);
    assert forall|t: int| 0 <= t <= m implies 0 <= #[trigger] bound(c, len, t) <= bound(c, len, t + 1) <= len by {
        if 1 <= t && t < m {
            if rev_of(h) {
                assert(offsets[m - 1 - t] < offsets[m - t]);
            } else {
                assert(offsets[t - 1] < offsets[t]);
            }
        }
        if 1 <= t <= m {
            if rev_of(h) {
                assert(0 < offsets[m - t] < len);
            } else {
                assert(0 < offsets[t - 1] < len);
            }
        }
        if t == 0 && m > 0 {
            if rev_of(h) {
                assert(0 < offsets[m - 1] < len);
            } else {
                assert(0 < offsets[0] < len);
            }
        }
    }
    lemma_joined_prefix(g1, k, base, m, s, c, m);
    assert(fwd_pieces(k, base, m).take(m + 1) =~= fwd_pieces(k, base, m));
    assert(s.subrange(0, len) =~= s);
    if rev_of(h) {
        lemma_read_prefix_rev(g1, k, base, m, s, c, m);
        assert(rev_pieces(k, base, m).take(m + 1) =~= rev_pieces(k, base, m));
        assert(s.subrange(bound(c, len, 0), len) =~= s);
    } else {
        lemma_read_joined_forward(g1, r);
    }
}

/// The sequence that handle `h` reads: the node's sequence, reverse
/// complemented for a reverse handle.
pub open spec fn read_of(g: &HashGraph, h: Handle) -> Seq<u8> {
    if rev_of(h) {
        revcomp_of(g.seq_of(id_of(h)))
    } else {
        g.seq_of(id_of(h))
    }
}

/// What the handles `hs` read, one after the other, each in its own
/// orientation.
pub open spec fn read_joined(g: &HashGraph, hs: Seq<Handle>) -> Seq<u8>
    decreases hs.len(),
{
    if hs.len() == 0 {
        Seq::empty()
    } else {
        read_joined(g, hs.drop_last()) + read_of(g, hs.last())
    }
}

proof fn lemma_read_joined_forward(g: &HashGraph, hs: Seq<Handle>)
    requires
        forall|i: int| 0 <= i < hs.len() ==> !rev_of(#[trigger] hs[i]),
    ensures
        read_joined(g, hs) == joined(g, hs),
    decreases hs.len(),
{
    if hs.len() > 0 {
        assert(!rev_of(hs[hs.len() - 1]));
        lemma_read_joined_forward(g, hs.drop_last());
    }
}

proof fn lemma_read_prefix_rev(g1: &HashGraph, k: u64, base: u64, m: int, s: Seq<u8>, c: Seq<int>, i: int)
    requires
        0 <= i <= m,
        c.len() == m,
        k <= base,
        base + m < ID_LIMIT,
        forall|t: int| 0 <= t <= m ==> 0 <= #[trigger] bound(c, s.len() as int, t) <= bound(c, s.len() as int, t + 1) <= s.len(),
        forall|t: int| 0 <= t <= m ==> #[trigger] g1.seq_of(chain_id(k, base, t)) == s.subrange(bound(c, s.len() as int, t), bound(c, s.len() as int, t + 1)),
    ensures
        read_joined(g1, rev_pieces(k, base, m).take(i + 1)) == revcomp_of(s.subrange(bound(c, s.len() as int, m - i), s.len() as int)),
    decreases i,
{
    let f = rev_pieces(k, base, m);
    let len = s.len() as int;
    let t = m - i;
    assert(f.take(i + 1).last() == pack_spec(chain_id(k, base, t), true));
    assert(id_of(pack_spec(chain_id(k, base, t), true)) == chain_id(k, base, t));
    assert(rev_of(pack_spec(chain_id(k, base, t), true)));
    let piece = s.subrange(bound(c, len, t), bound(c, len, t + 1));
    assert(g1.seq_of(chain_id(k, base, t)) == piece);
    assert(0 <= bound(c, len, t) <= bound(c, len, t + 1) <= len);
    assert(read_of(g1, f.take(i + 1).last()) == revcomp_of(piece));
    assert(read_joined(g1, f.take(i + 1)) == read_joined(g1, f.take(i + 1).drop_last()) + revcomp_of(piece));
    if i == 0 {
        assert(f.take(1).drop_last() =~= Seq::<Handle>::empty());
        assert(read_joined(g1, Seq::<Handle>::empty()) == Seq::<u8>::empty());
        assert(bound(c, len, m + 1) == len);
        assert(Seq::<u8>::empty() + revcomp_of(piece) =~= revcomp_of(piece));
    } else {
        lemma_read_prefix_rev(g1, k, base, m, s, c, i - 1);
        assert(f.take(i + 1).drop_last() =~= f.take(i));
        let rest = s.subrange(bound(c, len, t + 1), len);
        assert(0 <= bound(c, len, t + 1) <= bound(c, len, t + 2) <= len);
        assert(read_joined(g1, f.take(i)) == revcomp_of(rest));
        lemma_revcomp_concat(piece, rest);
        assert(piece + rest =~= s.subrange(bound(c, len, t), len));
    }
}

proof fn lemma_joined_prefix(g1: &HashGraph, k: u64, base: u64, m: int, s: Seq<u8>, c: Seq<int>, i: int)
    requires
        0 <= i <= m,
        c.len() == m,
        k <= base,
        base + m < ID_LIMIT,
        forall|t: int| 0 <= t <= m ==> 0 <= #[trigger] bound(c, s.len() as int, t) <= bound(c, s.len() as int, t + 1) <= s.len(),
        forall|t: int| 0 <= t <= m ==> #[trigger] g1.seq_of(chain_id(k, base, t)) == s.subrange(bound(c, s.len() as int, t), bound(c, s.len() as int, t + 1)),
    ensures
        joined(g1, fwd_pieces(k, base, m).take(i + 1)) == s.subrange(0, bound(c, s.len() as int, i + 1)),
    decreases i,
{
    let f = fwd_pieces(k, base, m);
    let len = s.len() as int;
    assert(f.take(i + 1).last() == pack_spec(chain_id(k, base, i), false));
    assert(id_of(pack_spec(chain_id(k, base, i), false)) == chain_id(k, base, i));
    assert(g1.seq_of(chain_id(k, base, i)) == s.subrange(bound(c, len, i), bound(c, len, i + 1)));
    assert(0 <= bound(c, len, i) <= bound(c, len, i + 1) <= len);
    if i == 0 {
        assert(f.take(1).drop_last() =~= Seq::<Handle>::empty());
        assert(joined(g1, Seq::<Handle>::empty()) == Seq::<u8>::empty());
        assert(s.subrange(0, bound(c, len, 0)) =~= Seq::<u8>::empty());
        assert(Seq::<u8>::empty() + s.subrange(0, bound(c, len, 1)) =~= s.subrange(0, bound(c, len, 1)));
    } else {
        lemma_joined_prefix(g1, k, base, m, s, c, i - 1);
        assert(f.take(i + 1).drop_last() =~= f.take(i));
        assert(0 <= bound(c, len, i - 1) <= bound(c, len, i));
        assert(s.subrange(0, bound(c, len, i)) + s.subrange(bound(c, len, i), bound(c, len, i + 1)) =~= s.subrange(0, bound(c, len, i + 1)));
    }
}

/// Dividing a forward handle of a node without an edge to itself keeps its
/// sides: the first piece is the handle and keeps the left list, so every
/// other node that led into the handle still does; the last piece gets the
/// right list, and the handle no longer leads to those neighbours; the
/// pieces are chained left to right.
pub proof fn lemma_divide_keeps_sides(g0: &HashGraph, g1: &HashGraph, h: Handle, offsets: Seq<usize>, r: Seq<Handle>)
    requires
        g0.wf(),
        g0.has(id_of(h)),
        !rev_of(h),
        g0.no_self_loop(id_of(h)),
        g0.max_id.0 + offsets.len() < ID_LIMIT,
        offsets.len() > 0,
        g1.divided(g0, h, offsets, r),
    ensures
        r.len() == offsets.len() + 1,
        r[0] == h,
        g1.left_of(id_of(h)) == g0.left_of(id_of(h)),
        forall|x: Handle| id_of(x) != id_of(h) && g0.has(id_of(x)) ==> (#[trigger] g1.has_edge_spec(x, h) == g0.has_edge_spec(x, h)),
        g1.right_of(id_of(r[r.len() - 1])) == g0.right_of(id_of(h)),
        forall|x: Handle| #[trigger] g0.right_of(id_of(h)).contains(x) ==> g1.has_edge_spec(r[r.len() - 1], x) && !g1.has_edge_spec(h, x),
        forall|i: int| 0 <= i < r.len() - 1 ==> #[trigger] g1.has_edge_spec(r[i], r[i + 1]),
{
    let k = id_of(h);
    let base = g0.max_id.0;
    let m = offsets.len() as int;
    let last = piece_id(base, m - 1);
    let moved = g0.right_of(k);
    let from = pack_spec(k, true);
    let to = pack_spec(last, true);
    assert(k <= base);
    lemma_unpack_round_trip(h);
    assert(r == fwd_pieces(k, base, m));
    assert(r[0] == pack_spec(k, false));
    assert(!g0.has(last));
    assert(g0.present_all(moved));
    assert forall|j: u64, side: bool| j == k || j == last implies !#[trigger] leads_to(moved, moved.len() as int, j, side) by {
        if leads_to(moved, moved.len() as int, j, side) {
            let i = choose|i: int| 0 <= i < moved.len() && id_of(#[trigger] moved[i]) == j && rev_of(moved[i]) == side;
            assert(g0.has(id_of(moved[i])));
        }
    }
    assert(chain_id(k, base, m) == last);
    assert(r[m] == pack_spec(last, false));
    assert(id_of(pack_spec(last, false)) == last);
    assert forall|x: Handle| id_of(x) != k && g0.has(id_of(x)) implies (#[trigger] g1.has_edge_spec(x, h) == g0.has_edge_spec(x, h)) by {
        let j = id_of(x);
        lemma_replaced_keeps(g0.left_of(j), from, to, h);
        lemma_replaced_keeps(g0.right_of(j), from, to, h);
    }
    assert(g1.right_of(k) == seq![pack_spec(chain_id(k, base, 1), false)]);
    assert forall|x: Handle| #[trigger] g0.right_of(k).contains(x) implies g1.has_edge_spec(r[r.len() - 1], x) && !g1.has_edge_spec(h, x) by {
        let i = choose|i: int| 0 <= i < moved.len() && moved[i] == x;
        assert(g0.has(id_of(moved[i])));
        assert(!g0.has(chain_id(k, base, 1)));
        if g1.out_list(h).contains(x) {
            assert(g1.out_list(h)[0] == x);
        }
    }
    assert forall|i: int| 0 <= i < r.len() - 1 implies #[trigger] g1.has_edge_spec(r[i], r[i + 1]) by {
        assert(r[i] == pack_spec(chain_id(k, base, i), false));
        assert(id_of(pack_spec(chain_id(k, base, i), false)) == chain_id(k, base, i));
        assert(g1.right_of(chain_id(k, base, i))[0] == r[i + 1]);
    }
}

/// Replacing `from` by `to` changes nothing about a third entry.
proof fn lemma_replaced_keeps(s: Seq<Handle>, from: Handle, to: Handle, y: Handle)
    requires
        y != from,
        y != to,
    ensures
        replaced(s, from, to).contains(y) == s.contains(y),
{
    if s.contains(y) {
        let i = choose|i: int| 0 <= i < s.len() && s[i] == y;
        assert(replaced(s, from, to)[i] == y);
    }
    if replaced(s, from, to).contains(y) {
        let i = choose|i: int| 0 <= i < replaced(s, from, to).len() && replaced(s, from, to)[i] == y;
        assert(s[i] == y);
    }
}

} // verus!
