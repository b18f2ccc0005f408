//! Paths: creating and destroying them, walking their steps, and editing
//! their steps while every node's occurrence index stays exact.

use vstd::prelude::*;

use crate::graph::{
    lemma_nodes_wf_frame, last_visit_before, visit_at, visits, visits_before, HashGraph, Path, PathId, PathStep, GraphError,
};
use crate::handle::{id_of, Handle};

verus! {

broadcast use vstd::std_specs::hash::group_hash_axioms;

/// The index that a step handle stands for on a path of `len` steps: the
/// front sentinel is the first step, the end sentinel the last one.
pub open spec fn step_index(s: PathStep, len: int) -> int {
    match s {
        PathStep::Front(_) => 0,
        PathStep::End(_) => len - 1,
        PathStep::Step(_, i) => i as int,
    }
}

/// The steps of `s` with the inclusive range `[l, r]` replaced by `seg`.
pub open spec fn spliced(s: Seq<Handle>, l: int, r: int, seg: Seq<Handle>) -> Seq<Handle> {
    s.subrange(0, l) + seg + s.subrange(r + 1, s.len() as int)
}

impl HashGraph {
    /// Only occurrence indexes may differ between the two graphs.
    pub open spec fn same_but_occ(&self, o: &HashGraph) -> bool {
        &&& self.graph@.dom() == o.graph@.dom()
        &&& forall|k: u64| #[trigger] self.has(k) ==> {
            &&& self.seq_of(k) == o.seq_of(k)
            &&& self.left_of(k) == o.left_of(k)
            &&& self.right_of(k) == o.right_of(k)
        }
        &&& self.node_ids@ == o.node_ids@
        &&& self.min_id == o.min_id
        &&& self.max_id == o.max_id
    }

    /// Path `p` has new steps; every other path, and the name and
    /// circularity of `p`, are as they were.
    pub open spec fn only_steps_of(&self, o: &HashGraph, p: PathId, steps: Seq<Handle>) -> bool {
        &&& self.paths@.len() == o.paths@.len()
        &&& self.path_live(p)
        &&& self.steps(p) == steps
        &&& self.path(p).name@ == o.path(p).name@
        &&& self.path(p).is_circular == o.path(p).is_circular
        &&& forall|q: PathId| q != p && 0 <= q < self.paths@.len() ==> #[trigger] self.paths@[q as int] == o.paths@[q as int]
    }

    /// The step at index `i` of path `p`.
    pub fn step_at(&self, p: PathId, i: usize) -> (r: Handle)
        requires
            self.path_live(p),
            i < self.steps(p).len(),
        ensures
            r == self.steps(p)[i as int],
    {
        match &self.paths[p] {
            Some(path) => path.nodes[i],
            None => Handle(0),
        }
    }

    pub fn step_count(&self, p: &PathId) -> (r: usize)
        requires
            self.path_live(*p),
        ensures
            r == self.steps(*p).len(),
    {
        match &self.paths[*p] {
            Some(path) => path.nodes.len(),
            None => 0,
        }
    }

    pub fn is_circular(&self, p: &PathId) -> (r: bool)
        requires
            self.path_live(*p),
        ensures
            r == self.path(*p).is_circular,
    {
        match &self.paths[*p] {
            Some(path) => path.is_circular,
            None => false,
        }
    }

    pub fn path_handle_to_name(&self, p: &PathId) -> (r: Vec<u8>)
        requires
            self.path_live(*p),
        ensures
            r@ == self.path(*p).name@,
    {
        match &self.paths[*p] {
            Some(path) => path.name.clone(),
            None => Vec::new(),
        }
    }

    pub fn get_path(&self, p: &PathId) -> (r: Option<&Path>)
        ensures
            match r {
                Some(path) => self.path_live(*p) && *path == self.path(*p),
                None => !self.path_live(*p),
            },
    {
        if *p >= self.paths.len() {
            return None;
        }
        self.paths[*p].as_ref()
    }

    /// The id of the most recently created live path with this name.
    pub fn name_to_path_handle(&self, name: &[u8]) -> (r: Option<PathId>)
        ensures
            match r {
                Some(p) => self.path_live(p) && self.path(p).name@ == name@
                    && forall|q: PathId| p < q && #[trigger] self.path_live(q) ==> self.path(q).name@ != name@,
                None => forall|q: PathId| #[trigger] self.path_live(q) ==> self.path(q).name@ != name@,
            },
    {
        let mut i: usize = self.paths.len();
        while i > 0
            invariant
                i <= self.paths@.len(),
                forall|q: PathId| i <= q && #[trigger] self.path_live(q) ==> self.path(q).name@ != name@,
            decreases i,
        {
            i -= 1;
            match &self.paths[i] {
                Some(path) => {
                    if bytes_eq(path.name.as_slice(), name) {
                        return Some(i);
                    }
                },
                None => {},
            }
        }
        None
    }

    pub fn has_path(&self, name: &[u8]) -> (r: bool)
        ensures
            r == exists|q: PathId| #[trigger] self.path_live(q) && self.path(q).name@ == name@,
    {
        match self.name_to_path_handle(name) {
            Some(p) => true,
            None => false,
        }
    }

    /// The handle at a step; none at the sentinels or past the last step.
    pub fn handle_of_step(&self, step: &PathStep) -> (r: Option<Handle>)
        requires
            self.path_live(step.path_of()),
        ensures
            r == match *step {
                PathStep::Step(p, i) => if i < self.steps(p).len() {
                    Some(self.steps(p)[i as int])
                } else {
                    None
                },
                _ => None::<Handle>,
            },
    {
        match step {
            PathStep::Step(p, i) => {
                if *i < self.step_count(p) {
                    Some(self.step_at(*p, *i))
                } else {
                    None
                }
            },
            _ => None,
        }
    }

    pub fn path_handle_of_step(&self, step: &PathStep) -> (r: PathId)
        ensures
            r == step.path_of(),
    {
        step.path_id()
    }

    pub fn path_begin(&self, p: &PathId) -> (r: PathStep)
        ensures
            r == PathStep::Step(*p, 0),
    {
        PathStep::Step(*p, 0)
    }

    pub fn path_end(&self, p: &PathId) -> (r: PathStep)
        ensures
            r == PathStep::End(*p),
    {
        PathStep::End(*p)
    }

    pub fn path_front_end(&self, p: &PathId) -> (r: PathStep)
        ensures
            r == PathStep::Front(*p),
    {
        PathStep::Front(*p)
    }

    pub fn path_back(&self, p: &PathId) -> (r: PathStep)
        requires
            self.path_live(*p),
            self.steps(*p).len() > 0,
        ensures
            r == PathStep::Step(*p, (self.steps(*p).len() - 1) as usize),
    {
        PathStep::Step(*p, self.step_count(p) - 1)
    }

    /// Whether the step is the end sentinel.
    pub fn has_next_step(&self, step: &PathStep) -> (r: bool)
        ensures
            r == step is End,
    {
        match step {
            PathStep::End(_) => true,
            _ => false,
        }
    }

    /// Whether the step is the front sentinel.
    pub fn has_previous_step(&self, step: &PathStep) -> (r: bool)
        ensures
            r == step is Front,
    {
        match step {
            PathStep::Front(_) => true,
            _ => false,
        }
    }

    /// The following step, or the end sentinel after the last one.
    pub fn next_step(&self, step: &PathStep) -> (r: PathStep)
        requires
            self.path_live(step.path_of()),
        ensures
            r == match *step {
                PathStep::Front(p) => PathStep::Step(p, 0),
                PathStep::End(p) => PathStep::End(p),
                PathStep::Step(p, i) => if i + 1 < self.steps(p).len() {
                    PathStep::Step(p, (i + 1) as usize)
                } else {
                    PathStep::End(p)
                },
            },
    {
        match step {
            PathStep::Front(p) => self.path_begin(p),
            PathStep::End(p) => self.path_end(p),
            PathStep::Step(p, i) => {
                if *i < self.step_count(p) && *i + 1 < self.step_count(p) {
                    PathStep::Step(*p, *i + 1)
                } else {
                    self.path_end(p)
                }
            },
        }
    }

    /// The preceding step, or the front sentinel before the first one.
    pub fn previous_step(&self, step: &PathStep) -> (r: PathStep)
        requires
            self.path_live(step.path_of()),
            step is End ==> self.steps(step.path_of()).len() > 0,
        ensures
            r == match *step {
                PathStep::Front(p) => PathStep::Front(p),
                PathStep::End(p) => PathStep::Step(p, (self.steps(p).len() - 1) as usize),
                PathStep::Step(p, i) => if i > 0 {
                    PathStep::Step(p, (i - 1) as usize)
                } else {
                    PathStep::Front(p)
                },
            },
    {
        match step {
            PathStep::Front(p) => self.path_front_end(p),
            PathStep::End(p) => self.path_back(p),
            PathStep::Step(p, i) => {
                if *i > 0 {
                    PathStep::Step(*p, *i - 1)
                } else {
                    self.path_front_end(p)
                }
            },
        }
    }

    /// A step handle for each step of the path, in order.
    pub fn steps_iter(&self, p: &PathId) -> (r: Vec<PathStep>)
        requires
            self.path_live(*p),
        ensures
            r@.len() == self.steps(*p).len(),
            forall|i: int| 0 <= i < r@.len() ==> #[trigger] r@[i] == PathStep::Step(*p, i as usize),
    {
        let n = self.step_count(p);
        let mut out: Vec<PathStep> = Vec::new();
        let mut i: usize = 0;
        while i < n
            invariant
                i <= n,
                out@.len() == i,
                forall|j: int| 0 <= j < i ==> #[trigger] out@[j] == PathStep::Step(*p, j as usize),
            decreases n - i,
        {
            out.push(PathStep::Step(*p, i));
            i += 1;
        }
        out
    }

    /// The ids of the live paths, in increasing order.
    pub fn paths_iter(&self) -> (r: Vec<PathId>)
        ensures
            forall|q: PathId| #[trigger] self.path_live(q) <==> r@.contains(q),
            forall|i: int, j: int| 0 <= i < j < r@.len() ==> r@[i] < r@[j],
    {
        let mut out: Vec<PathId> = Vec::new();
        let mut i: usize = 0;
        while i < self.paths.len()
            invariant
                i <= self.paths@.len(),
                forall|q: PathId| #[trigger] out@.contains(q) ==> q < i && self.path_live(q),
                forall|q: PathId| q < i && #[trigger] self.path_live(q) ==> out@.contains(q),
                forall|a: int, b: int| 0 <= a < b < out@.len() ==> out@[a] < out@[b],
                forall|a: int| 0 <= a < out@.len() ==> out@[a] < i,
            decreases self.paths@.len() - i,
        {
            let ghost before = out@;
            if self.paths[i].is_some() {
                out.push(i);
                proof {
                    assert(self.path_live(i));
                    assert(out@ == before.push(i));
                    assert forall|q: PathId| #[trigger] out@.contains(q) implies q < i + 1 && self.path_live(q) by {
                        let a = choose|a: int| 0 <= a < out@.len() && out@[a] == q;
                        if a < before.len() {
                            assert(before[a] == q);
                            assert(before.contains(q));
                        }
                    }
                    assert forall|q: PathId| q < i + 1 && #[trigger] self.path_live(q) implies out@.contains(q) by {
                        if q == i {
                            assert(out@[out@.len() - 1] == q);
                        } else {
                            assert(before.contains(q));
                            let a = choose|a: int| 0 <= a < before.len() && before[a] == q;
                            assert(out@[a] == q);
                        }
                    }
                }
            } else {
                proof {
                    assert forall|q: PathId| #[trigger] out@.contains(q) implies q < i + 1 && self.path_live(q) by {}
                    assert forall|q: PathId| q < i + 1 && #[trigger] self.path_live(q) implies out@.contains(q) by {
                        assert(q != i);
                    }
                }
            }
            i += 1;
        }
        proof {
            assert forall|q: PathId| #[trigger] self.path_live(q) implies out@.contains(q) by {
                assert(0 <= q < i);
            }
        }
        out
    }
}

/// Whether two byte strings are equal.
pub fn bytes_eq(a: &[u8], b: &[u8]) -> (r: bool)
    ensures
        r == (a@ == b@),
{
    if a.len() != b.len() {
        return false;
    }
    let mut i: usize = 0;
    while i < a.len()
        invariant
            i <= a@.len(),
            a@.len() == b@.len(),
            forall|j: int| 0 <= j < i ==> a@[j] == b@[j],
        decreases a@.len() - i,
    {
        if a[i] != b[i] {
            return false;
        }
        i += 1;
    }
    assert(a@ =~= b@);
    true
}

impl HashGraph {
    /// Adds an empty path with this name and returns its id.
    fn push_path(&mut self, name: &[u8], is_circular: bool) -> (r: PathId)
        requires
            old(self).wf(),
            forall|q: PathId| #[trigger] old(self).path_live(q) ==> old(self).path(q).name@ != name@,
        ensures
            final(self).wf(),
            r == old(self).paths@.len(),
            final(self).paths@.len() == old(self).paths@.len() + 1,
            final(self).path_live(r),
            final(self).path(r).name@ == name@,
            final(self).path(r).is_circular == is_circular,
            final(self).steps(r).len() == 0,
            forall|q: PathId| q < old(self).paths@.len() ==> #[trigger] final(self).paths@[q as int] == old(self).paths@[q as int],
            final(self).graph@ == old(self).graph@,
            final(self).node_ids@ == old(self).node_ids@,
            final(self).min_id == old(self).min_id,
            final(self).max_id == old(self).max_id,
    {
        let ghost g0 = *self;
        let id = self.paths.len();
        let path = Path { path_id: id, name: vstd::slice::slice_to_vec(name), is_circular, nodes: Vec::new() };
        let ghost gp = path;
        self.paths.push(Some(path));
        proof {
            assert(self.paths@[id as int] == Some(gp));
            assert(self.steps(id).len() == 0);
            assert forall|q: PathId| #[trigger] self.path_live(q) implies {
                &&& self.path(q).path_id == q
                &&& forall|i: int| 0 <= i < self.steps(q).len() ==> self.has(id_of(#[trigger] self.steps(q)[i]))
            } by {
                if q != id {
                    assert(g0.path_live(q));
                    assert(self.paths@[q as int] == g0.paths@[q as int]);
                    assert forall|i: int| 0 <= i < self.steps(q).len() implies self.has(id_of(#[trigger] self.steps(q)[i])) by {
                        assert(g0.has(id_of(g0.steps(q)[i])));
                    }
                }
            }
            assert forall|k: u64, q: PathId| self.has(k) implies #[trigger] self.occ_ok(k, q) by {
                assert(g0.occ_ok(k, q));
                if q == id {
                    assert(!g0.path_live(q));
                } else if q < id {
                    assert(self.paths@[q as int] == g0.paths@[q as int]);
                }
            }
            crate::graph::lemma_edges_frame(&*self, &g0);
            lemma_nodes_wf_frame(&*self, &g0);
            assert forall|p: PathId, q: PathId| #[trigger] self.path_live(p) && #[trigger] self.path_live(q) && p != q implies self.path(p).name@ != self.path(q).name@ by {
                if p != id {
                    assert(g0.path_live(p));
                    assert(self.paths@[p as int] == g0.paths@[p as int]);
                }
                if q != id {
                    assert(g0.path_live(q));
                    assert(self.paths@[q as int] == g0.paths@[q as int]);
                }
            }
        }
        id
    }

    /// Adds an empty path with this name and returns its id; a live path
    /// that had the name is deleted first, so that names stay unique.
    pub fn create_path_handle(&mut self, name: &[u8], is_circular: bool) -> (r: PathId)
        requires
            old(self).wf(),
        ensures
            final(self).wf(),
            r == old(self).paths@.len(),
            final(self).paths@.len() == old(self).paths@.len() + 1,
            final(self).path_live(r),
            final(self).path(r).name@ == name@,
            final(self).path(r).is_circular == is_circular,
            final(self).steps(r).len() == 0,
            forall|q: PathId| q < old(self).paths@.len() ==> #[trigger] final(self).paths@[q as int] == if old(self).path_live(q) && old(self).path(q).name@ == name@ {
                None
            } else {
                old(self).paths@[q as int]
            },
            final(self).same_but_occ(old(self)),
    {
        let ghost g0 = *self;
        match self.name_to_path_handle(name) {
            Some(q) => {
                self.destroy_path(&q);
                proof {
                    assert forall|t: PathId| #[trigger] self.path_live(t) implies self.path(t).name@ != name@ by {
                        assert(g0.path_live(t));
                        assert(t != q);
                    }
                }
            },
            None => {},
        }
        let ghost g1 = *self;
        let r = self.push_path(name, is_circular);
        proof {
            assert forall|q: PathId| q < g0.paths@.len() implies #[trigger] self.paths@[q as int] == if g0.path_live(q) && g0.path(q).name@ == name@ {
                None
            } else {
                g0.paths@[q as int]
            } by {
                assert(self.paths@[q as int] == g1.paths@[q as int]);
            }
            assert forall|k: u64| #[trigger] self.has(k) implies {
                &&& self.seq_of(k) == g0.seq_of(k)
                &&& self.left_of(k) == g0.left_of(k)
                &&& self.right_of(k) == g0.right_of(k)
            } by {
                assert(g1.has(k));
            }
        }
        r
    }

    /// Drops path `p` from the occurrence index of every node.
    fn clear_occurrences(&mut self, p: PathId)
        requires
            old(self).wf(),
            old(self).path_live(p),
        ensures
            final(self).same_but_occ(old(self)),
            final(self).paths@ == old(self).paths@,
            forall|k: u64| #[trigger] final(self).has(k) ==> final(self).occ_of(k) == old(self).occ_of(k).remove(p),
    {
        let ghost g0 = *self;
        let n = self.step_count(&p);
        let mut i: usize = 0;
        while i < n
            invariant
                g0.wf(),
                g0.path_live(p),
                n == g0.steps(p).len(),
                i <= n,
                self.same_but_occ(&g0),
                self.paths@ == g0.paths@,
                forall|k: u64| #[trigger] self.has(k) ==> self.occ_of(k) == if visits_before(g0.steps(p), i as int, k) {
                    g0.occ_of(k).remove(p)
                } else {
                    g0.occ_of(k)
                },
            decreases n - i,
        {
            let h = self.step_at(p, i);
            let k = h.id().0;
            assert(g0.has(id_of(g0.steps(p)[i as int])));
            let ghost before = *self;
            let mut node = self.graph.remove(&k).unwrap();
            node.occurrences.remove(&p);
            self.graph.insert(k, node);
            proof {
                assert(self.graph@.dom() =~= before.graph@.dom());
                assert forall|j: u64| #[trigger] self.has(j) implies {
                    &&& self.seq_of(j) == g0.seq_of(j)
                    &&& self.left_of(j) == g0.left_of(j)
                    &&& self.right_of(j) == g0.right_of(j)
                } by {
                    assert(before.has(j));
                }
                assert forall|j: u64| #[trigger] self.has(j) implies self.occ_of(j) == if visits_before(g0.steps(p), i + 1, j) {
                    g0.occ_of(j).remove(p)
                } else {
                    g0.occ_of(j)
                } by {
                    assert(before.has(j));
                    if j == k {
                        assert(id_of(g0.steps(p)[i as int]) == j);
                        assert(visits_before(g0.steps(p), i + 1, j));
                        assert(self.occ_of(j) =~= g0.occ_of(j).remove(p));
                    } else {
                        if visits_before(g0.steps(p), i + 1, j) {
                            let a = choose|a: int| 0 <= a < i + 1 && id_of(#[trigger] g0.steps(p)[a]) == j;
                            assert(visits_before(g0.steps(p), i as int, j));
                        }
                        if visits_before(g0.steps(p), i as int, j) {
                            let a = choose|a: int| 0 <= a < i && id_of(#[trigger] g0.steps(p)[a]) == j;
                            assert(visits_before(g0.steps(p), i + 1, j));
                        }
                    }
                }
            }
            i += 1;
        }
        proof {
            assert forall|k: u64| #[trigger] self.has(k) implies self.occ_of(k) == g0.occ_of(k).remove(p) by {
                assert(g0.has(k));
                assert(g0.occ_ok(k, p));
                if !visits_before(g0.steps(p), n as int, k) {
                    assert(g0.occ_of(k).remove(p) =~= g0.occ_of(k));
                }
            }
        }
    }

    /// Records path `p` in the occurrence index of the nodes it visits,
    /// given that no node records it yet.
    fn index_occurrences(&mut self, p: PathId)
        requires
            old(self).nodes_wf(),
            old(self).paths_wf(),
            old(self).path_live(p),
            old(self).names_unique(),
            old(self).edges_wf(),
            forall|k: u64, q: PathId| q != p && old(self).has(k) ==> #[trigger] old(self).occ_ok(k, q),
            forall|k: u64| #[trigger] old(self).has(k) ==> !old(self).occ_of(k).contains_key(p),
        ensures
            final(self).wf(),
            final(self).same_but_occ(old(self)),
            final(self).paths@ == old(self).paths@,
            forall|k: u64| #[trigger] final(self).has(k) ==> final(self).occ_of(k).remove(p) == old(self).occ_of(k),
    {
        let ghost g0 = *self;
        let n = self.step_count(&p);
        let mut i: usize = 0;
        while i < n
            invariant
                g0.nodes_wf(),
                g0.paths_wf(),
                g0.names_unique(),
                g0.edges_wf(),
                g0.path_live(p),
                forall|k: u64| #[trigger] g0.has(k) ==> !g0.occ_of(k).contains_key(p),
                n == g0.steps(p).len(),
                i <= n,
                self.same_but_occ(&g0),
                self.paths@ == g0.paths@,
                forall|k: u64| #[trigger] self.has(k) ==> self.occ_of(k).remove(p) == g0.occ_of(k),
                forall|k: u64| #[trigger] self.has(k) ==> (self.occ_of(k).contains_key(p) <==> visits_before(g0.steps(p), i as int, k)),
                forall|k: u64| #[trigger] self.has(k) && self.occ_of(k).contains_key(p) ==> last_visit_before(g0.steps(p), i as int, k, self.occ_of(k)[p] as int),
            decreases n - i,
        {
            let h = self.step_at(p, i);
            let k = h.id().0;
            assert(g0.has(id_of(g0.steps(p)[i as int])));
            let ghost before = *self;
            let mut node = self.graph.remove(&k).unwrap();
            node.occurrences.insert(p, i);
            self.graph.insert(k, node);
            proof {
                let s = g0.steps(p);
                assert(self.graph@.dom() =~= before.graph@.dom());
                assert forall|j: u64| #[trigger] self.has(j) implies {
                    &&& self.seq_of(j) == g0.seq_of(j)
                    &&& self.left_of(j) == g0.left_of(j)
                    &&& self.right_of(j) == g0.right_of(j)
                } by {
                    assert(before.has(j));
                }
                assert forall|j: u64| #[trigger] self.has(j) implies {
                    &&& self.occ_of(j).remove(p) == g0.occ_of(j)
                    &&& (self.occ_of(j).contains_key(p) <==> visits_before(s, i + 1, j))
                    &&& self.occ_of(j).contains_key(p) ==> last_visit_before(s, i + 1, j, self.occ_of(j)[p] as int)
                } by {
                    assert(before.has(j));
                    if j == k {
                        assert(id_of(s[i as int]) == j);
                        assert(self.occ_of(j).remove(p) =~= before.occ_of(j).remove(p));
                        assert(visits_before(s, i + 1, j));
                    } else {
                        if visits_before(s, i + 1, j) {
                            let a = choose|a: int| 0 <= a < i + 1 && id_of(#[trigger] s[a]) == j;
                            assert(visits_before(s, i as int, j));
                        }
                        if visits_before(s, i as int, j) {
                            let a = choose|a: int| 0 <= a < i && id_of(#[trigger] s[a]) == j;
                            assert(visits_before(s, i + 1, j));
                        }
                    }
                }
            }
            i += 1;
        }
        proof {
            assert forall|k: u64, q: PathId| self.has(k) implies #[trigger] self.occ_ok(k, q) by {
                assert(g0.has(k));
                if q != p {
                    assert(g0.occ_ok(k, q));
                    assert(self.occ_of(k).remove(p).contains_key(q) == self.occ_of(k).contains_key(q));
                    if self.occ_of(k).contains_key(q) {
                        assert(self.occ_of(k).remove(p)[q] == self.occ_of(k)[q]);
                    }
                }
            }
            assert forall|q: PathId| #[trigger] self.path_live(q) implies g0.path_live(q) && self.path(q).name@ == g0.path(q).name@ by {}
            crate::graph::lemma_names_frame(&*self, &g0);
            crate::graph::lemma_edges_frame(&*self, &g0);
            lemma_nodes_wf_frame(&*self, &g0);
            assert forall|q: PathId| #[trigger] self.path_live(q) implies {
                &&& self.path(q).path_id == q
                &&& forall|x: int| 0 <= x < self.steps(q).len() ==> self.has(id_of(#[trigger] self.steps(q)[x]))
            } by {
                assert(g0.path_live(q));
                assert forall|x: int| 0 <= x < self.steps(q).len() implies self.has(id_of(#[trigger] self.steps(q)[x])) by {
                    assert(g0.has(id_of(g0.steps(q)[x])));
                }
            }
        }
    }

    /// Adds a step at the end of path `p`.
    pub fn append_step(&mut self, path_id: &PathId, to_append: Handle) -> (r: PathStep)
        requires
            old(self).wf(),
            old(self).path_live(*path_id),
            old(self).has(id_of(to_append)),
        ensures
            final(self).wf(),
            r == PathStep::Step(*path_id, old(self).steps(*path_id).len() as usize),
            final(self).only_steps_of(old(self), *path_id, old(self).steps(*path_id).push(to_append)),
            final(self).same_but_occ(old(self)),
            final(self).occ_of(id_of(to_append)) == old(self).occ_of(id_of(to_append)).insert(
                *path_id,
                old(self).steps(*path_id).len() as usize,
            ),
            forall|k: u64| k != id_of(to_append) && #[trigger] final(self).has(k) ==> final(self).occ_of(k) == old(self).occ_of(k),
    {
        let p = *path_id;
        let ghost g0 = *self;
        let mut path = take_path(&mut self.paths, p).unwrap();
        path.nodes.push(to_append);
        let ix = path.nodes.len() - 1;
        self.paths.set(p, Some(path));
        let k = to_append.id().0;
        let ghost before = *self;
        let mut node = self.graph.remove(&k).unwrap();
        node.occurrences.insert(p, ix);
        self.graph.insert(k, node);
        proof {
            let s0 = g0.steps(p);
            let s1 = s0.push(to_append);
            assert(self.steps(p) == s1);
            assert(self.graph@.dom() =~= g0.graph@.dom());
            assert forall|j: u64| #[trigger] self.has(j) implies {
                &&& self.seq_of(j) == g0.seq_of(j)
                &&& self.left_of(j) == g0.left_of(j)
                &&& self.right_of(j) == g0.right_of(j)
            } by {
                assert(g0.has(j));
            }
            lemma_nodes_wf_frame(&*self, &g0);
            assert forall|q: PathId| #[trigger] self.path_live(q) implies {
                &&& self.path(q).path_id == q
                &&& forall|x: int| 0 <= x < self.steps(q).len() ==> self.has(id_of(#[trigger] self.steps(q)[x]))
            } by {
                assert(g0.path_live(q));
                assert forall|x: int| 0 <= x < self.steps(q).len() implies self.has(id_of(#[trigger] self.steps(q)[x])) by {
                    if q != p || x < s0.len() {
                        assert(g0.has(id_of(g0.steps(q)[x])));
                    }
                }
            }
            assert forall|j: u64, q: PathId| self.has(j) implies #[trigger] self.occ_ok(j, q) by {
                assert(g0.has(j));
                assert(g0.occ_ok(j, q));
                if q == p {
                    if j == k {
                        assert(id_of(s1[s0.len() as int]) == j);
                    } else {
                        lemma_push_visits(s0, to_append, j);
                    }
                }
            }
            assert forall|q: PathId| #[trigger] self.path_live(q) implies g0.path_live(q) && self.path(q).name@ == g0.path(q).name@ by {}
            crate::graph::lemma_names_frame(&*self, &g0);
            crate::graph::lemma_edges_frame(&*self, &g0);
        }
        PathStep::Step(p, ix)
    }

    /// Adds a step at the front of path `p`: every node that records `p`
    /// has its index moved up by one, and the prepended node records `p`
    /// at index zero.
    pub fn prepend_step(&mut self, path_id: &PathId, to_prepend: Handle) -> (r: PathStep)
        requires
            old(self).wf(),
            old(self).path_live(*path_id),
            old(self).has(id_of(to_prepend)),
        ensures
            final(self).wf(),
            r == PathStep::Step(*path_id, 0),
            final(self).only_steps_of(old(self), *path_id, seq![to_prepend] + old(self).steps(*path_id)),
            final(self).same_but_occ(old(self)),
            final(self).occ_of(id_of(to_prepend)) == old(self).occ_of(id_of(to_prepend)).insert(*path_id, 0),
            forall|k: u64| k != id_of(to_prepend) && #[trigger] final(self).has(k) ==> final(self).occ_of(k) == if old(self).occ_of(k).contains_key(*path_id) {
                old(self).occ_of(k).insert(*path_id, (old(self).occ_of(k)[*path_id] + 1) as usize)
            } else {
                old(self).occ_of(k)
            },
    {
        let p = *path_id;
        let ghost g0 = *self;
        let mut path = take_path(&mut self.paths, p).unwrap();
        path.nodes.insert(0, to_prepend);
        let new_len = path.nodes.len();
        self.paths.set(p, Some(path));
        let ghost g1 = *self;
        assert(g1.steps(p) =~= seq![to_prepend] + g0.steps(p));
        let mut t: usize = 0;
        while t < self.node_ids.len()
            invariant
                g0.wf(),
                g0.path_live(p),
                new_len == g0.steps(p).len() + 1,
                self.paths == g1.paths,
                self.node_ids == g0.node_ids,
                self.min_id == g0.min_id,
                self.max_id == g0.max_id,
                self.graph@.dom() == g0.graph@.dom(),
                t <= self.node_ids@.len(),
                forall|j: u64| #[trigger] self.has(j) ==> {
                    &&& self.seq_of(j) == g0.seq_of(j)
                    &&& self.left_of(j) == g0.left_of(j)
                    &&& self.right_of(j) == g0.right_of(j)
                    &&& self.occ_of(j) == if g0.node_ids@.take(t as int).contains(j) && g0.occ_of(j).contains_key(p) {
                        g0.occ_of(j).insert(p, (g0.occ_of(j)[p] + 1) as usize)
                    } else {
                        g0.occ_of(j)
                    }
                },
            decreases self.node_ids@.len() - t,
        {
            let j = self.node_ids[t];
            let ghost before = *self;
            proof {
                assert(g0.has(g0.node_ids@[t as int]));
                if g0.node_ids@.take(t as int).contains(j) {
                    let x = choose|x: int| 0 <= x < t && g0.node_ids@.take(t as int)[x] == j;
                    assert(g0.node_ids@[x] == g0.node_ids@[t as int]);
                }
                assert(g0.occ_ok(j, p));
            }
            let mut n = self.graph.remove(&j).unwrap();
            let cur = match n.occurrences.get(&p) {
                Some(ix) => Some(*ix),
                None => None,
            };
            match cur {
                Some(ix) => {
                    proof {
                        assert(before.has(j));
                        assert(!g0.node_ids@.take(t as int).contains(j));
                        assert(before.occ_of(j) == g0.occ_of(j));
                        assert(ix < g0.steps(p).len());
                    }
                    n.occurrences.insert(p, ix + 1);
                },
                None => {},
            }
            self.graph.insert(j, n);
            t += 1;
            proof {
                assert(self.graph@.dom() =~= before.graph@.dom());
                assert forall|y: u64| #[trigger] self.has(y) implies {
                    &&& self.seq_of(y) == g0.seq_of(y)
                    &&& self.left_of(y) == g0.left_of(y)
                    &&& self.right_of(y) == g0.right_of(y)
                    &&& self.occ_of(y) == if g0.node_ids@.take(t as int).contains(y) && g0.occ_of(y).contains_key(p) {
                        g0.occ_of(y).insert(p, (g0.occ_of(y)[p] + 1) as usize)
                    } else {
                        g0.occ_of(y)
                    }
                } by {
                    assert(before.has(y));
                    assert(g0.node_ids@.take(t as int) =~= g0.node_ids@.take(t - 1).push(j));
                    if y != j {
                        assert(g0.node_ids@.take(t as int).contains(y) == g0.node_ids@.take(t - 1).contains(y));
                    } else {
                        assert(g0.node_ids@.take(t as int)[t - 1] == j);
                    }
                }
            }
        }
        let k = to_prepend.id().0;
        let ghost g2 = *self;
        let mut n = self.graph.remove(&k).unwrap();
        n.occurrences.insert(p, 0);
        self.graph.insert(k, n);
        proof {
            assert(self.graph@.dom() =~= g0.graph@.dom());
            assert(g0.node_ids@.take(g0.node_ids@.len() as int) =~= g0.node_ids@);
            let s0 = g0.steps(p);
            let s1 = self.steps(p);
            assert(s1 == seq![to_prepend] + s0);
            assert forall|y: u64| #[trigger] self.has(y) implies {
                &&& self.seq_of(y) == g0.seq_of(y)
                &&& self.left_of(y) == g0.left_of(y)
                &&& self.right_of(y) == g0.right_of(y)
                &&& (y != k ==> self.occ_of(y) == if g0.occ_of(y).contains_key(p) {
                    g0.occ_of(y).insert(p, (g0.occ_of(y)[p] + 1) as usize)
                } else {
                    g0.occ_of(y)
                })
            } by {
                assert(g2.has(y));
                assert(g0.has(y));
                assert(g0.node_ids@.contains(y));
            }
            assert(g2.has(k));
            assert(g0.has(k));
            assert(g0.node_ids@.contains(k));
            assert(self.occ_of(k) =~= g0.occ_of(k).insert(p, 0));
            lemma_nodes_wf_frame(&*self, &g0);
            assert forall|q: PathId| #[trigger] self.path_live(q) implies {
                &&& self.path(q).path_id == q
                &&& forall|x: int| 0 <= x < self.steps(q).len() ==> self.has(id_of(#[trigger] self.steps(q)[x]))
            } by {
                assert(g0.path_live(q));
                assert forall|x: int| 0 <= x < self.steps(q).len() implies self.has(id_of(#[trigger] self.steps(q)[x])) by {
                    if q == p {
                        if x > 0 {
                            assert(self.steps(q)[x] == s0[x - 1]);
                            assert(g0.has(id_of(g0.steps(q)[x - 1])));
                        }
                    } else {
                        assert(g0.has(id_of(g0.steps(q)[x])));
                    }
                }
            }
            assert forall|y: u64, q: PathId| self.has(y) implies #[trigger] self.occ_ok(y, q) by {
                assert(g0.has(y));
                assert(g0.occ_ok(y, q));
                if q != p {
                    assert(self.occ_of(y).contains_key(q) == g0.occ_of(y).contains_key(q));
                    if self.occ_of(y).contains_key(q) {
                        assert(self.occ_of(y)[q] == g0.occ_of(y)[q]);
                    }
                } else if y == k {
                    assert(visit_at(s1, k, 0));
                    assert(visits(s1, k));
                } else {
                    if visits(s1, y) {
                        let i = choose|i: int| 0 <= i < s1.len() && id_of(#[trigger] s1[i]) == y;
                        assert(i > 0);
                        assert(s0[i - 1] == s1[i]);
                        assert(visits(s0, y));
                    }
                    if visits(s0, y) {
                        let i = choose|i: int| 0 <= i < s0.len() && id_of(#[trigger] s0[i]) == y;
                        assert(s1[i + 1] == s0[i]);
                        assert(visits(s1, y));
                    }
                    if g0.occ_of(y).contains_key(p) {
                        let ix = g0.occ_of(y)[p] as int;
                        assert(s1[ix + 1] == s0[ix]);
                    }
                }
            }
            assert forall|q: PathId| #[trigger] self.path_live(q) implies g0.path_live(q) && self.path(q).name@ == g0.path(q).name@ by {}
            crate::graph::lemma_names_frame(&*self, &g0);
            crate::graph::lemma_edges_frame(&*self, &g0);
        }
        PathStep::Step(p, 0)
    }

    /// After the occurrences of `p` were cleared and `p` was given new
    /// steps on present nodes, the graph is ready to be re-indexed.
    proof fn lemma_new_steps_ready(&self, g0: &HashGraph, p: PathId)
        requires
            g0.wf(),
            g0.path_live(p),
            self.same_but_occ(g0),
            self.paths@.len() == g0.paths@.len(),
            self.path_live(p),
            self.path(p).path_id == p,
            self.path(p).name@ == g0.path(p).name@,
            forall|q: PathId| q != p && q < self.paths@.len() ==> #[trigger] self.paths@[q as int] == g0.paths@[q as int],
            forall|x: int| 0 <= x < self.steps(p).len() ==> g0.has(id_of(#[trigger] self.steps(p)[x])),
            forall|k: u64| #[trigger] self.has(k) ==> self.occ_of(k) == g0.occ_of(k).remove(p),
        ensures
            self.nodes_wf(),
            self.paths_wf(),
            forall|k: u64, q: PathId| q != p && self.has(k) ==> #[trigger] self.occ_ok(k, q),
            forall|k: u64| #[trigger] self.has(k) ==> !self.occ_of(k).contains_key(p),
            self.names_unique(),
            self.edges_wf(),
    {
        crate::graph::lemma_edges_frame(self, g0);
        lemma_nodes_wf_frame(self, g0);
        assert forall|q: PathId| #[trigger] self.path_live(q) implies g0.path_live(q) && self.path(q).name@ == g0.path(q).name@ by {
            if q != p {
                assert(self.paths@[q as int] == g0.paths@[q as int]);
            }
        }
        crate::graph::lemma_names_frame(self, g0);
        assert forall|q: PathId| #[trigger] self.path_live(q) implies {
            &&& self.path(q).path_id == q
            &&& forall|x: int| 0 <= x < self.steps(q).len() ==> self.has(id_of(#[trigger] self.steps(q)[x]))
        } by {
            if q != p {
                assert(self.paths@[q as int] == g0.paths@[q as int]);
                assert(g0.path_live(q));
                assert forall|x: int| 0 <= x < self.steps(q).len() implies self.has(id_of(#[trigger] self.steps(q)[x])) by {
                    assert(g0.has(id_of(g0.steps(q)[x])));
                }
            } else {
                assert forall|x: int| 0 <= x < self.steps(q).len() implies self.has(id_of(#[trigger] self.steps(q)[x])) by {
                    assert(g0.has(id_of(self.steps(q)[x])));
                }
            }
        }
        assert forall|k: u64, q: PathId| q != p && self.has(k) implies #[trigger] self.occ_ok(k, q) by {
            assert(g0.has(k));
            assert(g0.occ_ok(k, q));
            if q < self.paths@.len() {
                assert(self.paths@[q as int] == g0.paths@[q as int]);
            }
            assert(self.occ_of(k).contains_key(q) == g0.occ_of(k).contains_key(q));
            if self.occ_of(k).contains_key(q) {
                assert(self.occ_of(k)[q] == g0.occ_of(k)[q]);
            }
        }
    }

    /// Replaces the steps from `begin` to `end`, both included, with
    /// `new_segment`, and returns the step handles at the start of the new
    /// segment and just after it. A front sentinel stands for the first
    /// step and an end sentinel for the last one.
    #[verifier::loop_isolation(false)]
    pub fn rewrite_segment(&mut self, begin: &PathStep, end: &PathStep, new_segment: Vec<Handle>) -> (r: Result<
        (PathStep, PathStep),
        GraphError,
    >)
        requires
            old(self).wf(),
            begin.path_of() == end.path_of() ==> {
                let p = begin.path_of();
                let len = old(self).steps(p).len() as int;
                &&& old(self).path_live(p)
                &&& len > 0
                &&& 0 <= step_index(*begin, len) <= step_index(*end, len) + 1
                &&& step_index(*end, len) < len
                &&& forall|i: int| 0 <= i < new_segment@.len() ==> old(self).has(id_of(#[trigger] new_segment@[i]))
            },
        ensures
            final(self).wf(),
            begin.path_of() != end.path_of() ==> r == Err::<(PathStep, PathStep), GraphError>(GraphError::CrossPathRewrite) && *final(self) == *old(self),
            begin.path_of() == end.path_of() ==> {
                let p = begin.path_of();
                let len = old(self).steps(p).len() as int;
                let l = step_index(*begin, len);
                let rr = step_index(*end, len);
                &&& r == Ok::<(PathStep, PathStep), GraphError>((PathStep::Step(p, l as usize), PathStep::Step(p, (l + new_segment@.len()) as usize)))
                &&& final(self).only_steps_of(old(self), p, spliced(old(self).steps(p), l, rr, new_segment@))
                &&& final(self).same_but_occ(old(self))
                &&& forall|k: u64| #[trigger] final(self).has(k) ==> final(self).occ_of(k).remove(p) == old(self).occ_of(k).remove(p)
            },
    {
        if begin.path_id() != end.path_id() {
            return Err(GraphError::CrossPathRewrite);
        }
        let p = begin.path_id();
        let ghost g0 = *self;
        let len = self.step_count(&p);
        let l: usize = match begin {
            PathStep::Front(_) => 0,
            PathStep::End(_) => len - 1,
            PathStep::Step(_, i) => *i,
        };
        let r: usize = match end {
            PathStep::Front(_) => 0,
            PathStep::End(_) => len - 1,
            PathStep::Step(_, i) => *i,
        };
        self.clear_occurrences(p);
        let ghost mid = *self;
        let mut path = take_path(&mut self.paths, p).unwrap();
        let ghost s0 = path.nodes@;
        let mut out: Vec<Handle> = Vec::new();
        let mut i: usize = 0;
        while i < l
            invariant
                i <= l,
                l <= len,
                s0.len() == len,
                path.nodes@ == s0,
                out@ == s0.subrange(0, i as int),
            decreases l - i,
        {
            out.push(path.nodes[i]);
            i += 1;
            assert(out@ =~= s0.subrange(0, i as int));
        }
        let mut j: usize = 0;
        while j < new_segment.len()
            invariant
                j <= new_segment@.len(),
                out@ == s0.subrange(0, l as int) + new_segment@.subrange(0, j as int),
            decreases new_segment@.len() - j,
        {
            out.push(new_segment[j]);
            j += 1;
            assert(out@ =~= s0.subrange(0, l as int) + new_segment@.subrange(0, j as int));
        }
        let end_of_new = out.len();
        let mut i: usize = r + 1;
        while i < len
            invariant
                r + 1 <= i <= len,
                s0.len() == len,
                path.nodes@ == s0,
                out@ == s0.subrange(0, l as int) + new_segment@ + s0.subrange(r + 1, i as int),
            decreases len - i,
        {
            out.push(path.nodes[i]);
            i += 1;
            assert(out@ =~= s0.subrange(0, l as int) + new_segment@ + s0.subrange(r + 1, i as int));
        }
        assert(new_segment@.subrange(0, new_segment@.len() as int) =~= new_segment@);
        path.nodes = out;
        self.paths.set(p, Some(path));
        proof {
            lemma_after_clear(&*self, &mid, &g0, p);
            let s1 = spliced(s0, l as int, r as int, new_segment@);
            assert(self.steps(p) =~= s1);
            assert forall|x: int| 0 <= x < self.steps(p).len() implies g0.has(id_of(#[trigger] self.steps(p)[x])) by {
                if x < l {
                    assert(self.steps(p)[x] == s0[x]);
                    assert(g0.has(id_of(g0.steps(p)[x])));
                } else if x < l + new_segment@.len() {
                    assert(self.steps(p)[x] == new_segment@[x - l]);
                } else {
                    assert(self.steps(p)[x] == s0[x - l - new_segment@.len() + r + 1]);
                    assert(g0.has(id_of(g0.steps(p)[x - l - new_segment@.len() + r + 1])));
                }
            }
            self.lemma_new_steps_ready(&g0, p);
        }
        let ghost pre = *self;
        self.index_occurrences(p);
        proof {
            lemma_after_index(&*self, &pre, &g0, p);
        }
        Ok((PathStep::Step(p, l), PathStep::Step(p, l + new_segment.len())))
    }

    /// Deletes path `p` and drops it from the occurrence index of its nodes.
    pub fn destroy_path(&mut self, path_id: &PathId)
        requires
            old(self).wf(),
        ensures
            final(self).wf(),
            !final(self).path_live(*path_id),
            final(self).paths@.len() == old(self).paths@.len(),
            forall|q: PathId| q != *path_id && q < final(self).paths@.len() ==> #[trigger] final(self).paths@[q as int] == old(self).paths@[q as int],
            final(self).same_but_occ(old(self)),
            forall|k: u64| #[trigger] final(self).has(k) ==> final(self).occ_of(k) == old(self).occ_of(k).remove(*path_id),
    {
        let p = *path_id;
        if p >= self.paths.len() || self.paths[p].is_none() {
            proof {
                assert forall|k: u64| #[trigger] self.has(k) implies self.occ_of(k) == self.occ_of(k).remove(p) by {
                    assert(self.occ_ok(k, p));
                    assert(self.occ_of(k) =~= self.occ_of(k).remove(p));
                }
            }
            return;
        }
        let ghost g0 = *self;
        self.clear_occurrences(p);
        let ghost mid = *self;
        self.paths.set(p, None);
        proof {
            lemma_after_clear(&*self, &mid, &g0, p);
            lemma_nodes_wf_frame(&*self, &g0);
            assert forall|q: PathId| #[trigger] self.path_live(q) implies {
                &&& self.path(q).path_id == q
                &&& forall|x: int| 0 <= x < self.steps(q).len() ==> self.has(id_of(#[trigger] self.steps(q)[x]))
            } by {
                assert(g0.path_live(q));
                assert forall|x: int| 0 <= x < self.steps(q).len() implies self.has(id_of(#[trigger] self.steps(q)[x])) by {
                    assert(g0.has(id_of(g0.steps(q)[x])));
                }
            }
            assert forall|q: PathId| #[trigger] self.path_live(q) implies g0.path_live(q) && self.path(q).name@ == g0.path(q).name@ by {}
            crate::graph::lemma_names_frame(&*self, &g0);
            crate::graph::lemma_edges_frame(&*self, &g0);
            assert forall|k: u64, q: PathId| self.has(k) implies #[trigger] self.occ_ok(k, q) by {
                assert(g0.has(k));
                assert(g0.occ_ok(k, q));
                if q != p {
                    assert(self.occ_of(k).contains_key(q) == g0.occ_of(k).contains_key(q));
                    if self.occ_of(k).contains_key(q) {
                        assert(self.occ_of(k)[q] == g0.occ_of(k)[q]);
                    }
                }
            }
        }
    }

    /// Deletes the most recently created live path with this name; says
    /// whether there was one.
    pub fn remove_path(&mut self, name: &[u8]) -> (r: bool)
        requires
            old(self).wf(),
        ensures
            final(self).wf(),
            r == exists|q: PathId| #[trigger] old(self).path_live(q) && old(self).path(q).name@ == name@,
            !r ==> *final(self) == *old(self),
            r ==> exists|q: PathId| {
                &&& #[trigger] old(self).path_live(q)
                &&& old(self).path(q).name@ == name@
                &&& !final(self).path_live(q)
                &&& forall|t: PathId| t != q && t < final(self).paths@.len() ==> #[trigger] final(self).paths@[t as int] == old(self).paths@[t as int]
                &&& forall|k: u64| #[trigger] final(self).has(k) ==> final(self).occ_of(k) == old(self).occ_of(k).remove(q)
            },
            final(self).paths@.len() == old(self).paths@.len(),
            final(self).same_but_occ(old(self)),
            forall|q: PathId| #[trigger] final(self).path_live(q) ==> final(self).path(q).name@ != name@,
    {
        let ghost g0 = *self;
        match self.name_to_path_handle(name) {
            Some(p) => {
                self.destroy_path(&p);
                proof {
                    assert forall|t: PathId| #[trigger] self.path_live(t) implies self.path(t).name@ != name@ by {
                        assert(g0.path_live(t));
                        assert(t != p);
                    }
                }
                true
            },
            None => false,
        }
    }
}

/// Facts about the node table carry over a change of the path table.
proof fn lemma_after_clear(g: &HashGraph, mid: &HashGraph, g0: &HashGraph, p: PathId)
    requires
        mid.same_but_occ(g0),
        forall|k: u64| #[trigger] mid.has(k) ==> mid.occ_of(k) == g0.occ_of(k).remove(p),
        g.graph == mid.graph,
        g.node_ids == mid.node_ids,
        g.min_id == mid.min_id,
        g.max_id == mid.max_id,
    ensures
        g.same_but_occ(g0),
        forall|k: u64| #[trigger] g.has(k) ==> g.occ_of(k) == g0.occ_of(k).remove(p),
{
    assert forall|k: u64| #[trigger] g.has(k) implies {
        &&& g.seq_of(k) == g0.seq_of(k)
        &&& g.left_of(k) == g0.left_of(k)
        &&& g.right_of(k) == g0.right_of(k)
        &&& g.occ_of(k) == g0.occ_of(k).remove(p)
    } by {
        assert(mid.has(k));
    }
}

/// Re-indexing path `p` after clearing it touches no other path's entries.
proof fn lemma_after_index(g: &HashGraph, pre: &HashGraph, g0: &HashGraph, p: PathId)
    requires
        pre.same_but_occ(g0),
        forall|k: u64| #[trigger] pre.has(k) ==> pre.occ_of(k) == g0.occ_of(k).remove(p),
        g.same_but_occ(pre),
        forall|k: u64| #[trigger] g.has(k) ==> g.occ_of(k).remove(p) == pre.occ_of(k),
    ensures
        g.same_but_occ(g0),
        forall|k: u64| #[trigger] g.has(k) ==> g.occ_of(k).remove(p) == g0.occ_of(k).remove(p),
{
    assert forall|k: u64| #[trigger] g.has(k) implies {
        &&& g.seq_of(k) == g0.seq_of(k)
        &&& g.left_of(k) == g0.left_of(k)
        &&& g.right_of(k) == g0.right_of(k)
        &&& g.occ_of(k).remove(p) == g0.occ_of(k).remove(p)
    } by {
        assert(pre.has(k));
    }
}

/// Takes the path out of slot `p`, leaving the slot empty.
pub(crate) fn take_path(paths: &mut Vec<Option<Path>>, p: usize) -> (r: Option<Path>)
    requires
        p < old(paths)@.len(),
    ensures
        r == old(paths)@[p as int],
        final(paths)@ == old(paths)@.update(p as int, None),
{
    let mut slot: Option<Path> = None;
    paths.set_and_swap(p, &mut slot);
    slot
}

/// Appending a step on another node does not change whether a sequence
/// visits `k`.
pub proof fn lemma_push_visits(s: Seq<Handle>, h: Handle, k: u64)
    requires
        id_of(h) != k,
    ensures
        visits(s.push(h), k) == visits(s, k),
{
    let t = s.push(h);
    if visits(t, k) {
        let i = choose|i: int| 0 <= i < t.len() && id_of(#[trigger] t[i]) == k;
        assert(s[i] == t[i]);
    }
    if visits(s, k) {
        let i = choose|i: int| 0 <= i < s.len() && id_of(#[trigger] s[i]) == k;
        assert(s[i] == t[i]);
    }
}

} // verus!
