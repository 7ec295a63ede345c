//! Strongly connected components by Tarjan's algorithm, run on an explicit
//! stack of frames so that the depth of the search never reaches the native
//! call stack. The result is proved to label two vertices alike exactly when
//! they reach each other, with ids dense from 0.
use vstd::prelude::*;
use vstd::set_lib::{set_int_range, lemma_int_range, lemma_len_subset};
use crate::types::VId;
use crate::graph::{LsmCommunity, GraphModel, table_wf, table_graph};
use crate::bfs::{reachable, has_path, lemma_reach_refl, lemma_path_concat};
use crate::tarjan::{
    reach, sound, complete, frames_placed, lemma_frames_placed_drop, lemma_frames_placed_push_path,
    lemma_sound_empty_path, lemma_sound_push_first_visit, lemma_sound_fold_path, lemma_sound_push_vertex,
    lemma_sound_push_frame, lemma_sound_resume, lemma_sound_not_root, lemma_sound_pop_root, lemma_sound_order,
    lemma_complete_empty_path, lemma_complete_push_first_visit, lemma_complete_looked, lemma_complete_push_leaf,
    lemma_complete_push_vertex, lemma_complete_resume_more, lemma_complete_resume_last, lemma_complete_pop_root,
};

verus! {

/// Where a paused visit of a vertex resumes.
pub enum Cursor {
    /// The vertex has not been discovered yet.
    FirstVisit,
    /// The child at this index of the vertex's neighbor list has just been
    /// explored.
    AfterChild(usize),
}

/// One paused visit: the explicit analogue of a native call frame.
pub struct Frame {
    pub node: VId,
    pub cursor: Cursor,
}

/// The work that a frame still owes: one step per child not yet resumed.
pub open spec fn frame_weight(adj: Seq<Vec<VId>>, f: Frame) -> nat {
    match f.cursor {
        Cursor::FirstVisit => 0,
        Cursor::AfterChild(i) => (adj[f.node as int]@.len() - i) as nat,
    }
}

/// The work that a stack of frames still owes.
pub open spec fn pending(adj: Seq<Vec<VId>>, s: Seq<Frame>) -> nat
    decreases s.len(),
{
    if s.len() == 0 {
        0
    } else {
        pending(adj, s.drop_last()) + frame_weight(adj, s.last())
    }
}

proof fn lemma_pending_push(adj: Seq<Vec<VId>>, s: Seq<Frame>, f: Frame)
    ensures
        pending(adj, s.push(f)) == pending(adj, s) + frame_weight(adj, f),
{
    assert(s.push(f).drop_last() =~= s);
}

/// The discovery time, and low-link, of a vertex not yet discovered.
pub(crate) const UNSET: u32 = 0xFFFF_FFFF;

/// `x` and `y` reach each other in `g`.
pub open spec fn strongly_connected(g: GraphModel, x: int, y: int) -> bool {
    reachable(g, x, y) && reachable(g, y, x)
}

/// `r` labels the vertices of `g` by strongly connected component: two
/// vertices share a label exactly when they reach each other.
pub open spec fn is_scc_labelling(g: GraphModel, r: Seq<VId>) -> bool {
    &&& r.len() == g.len()
    &&& forall|x: int, y: int| 0 <= x < r.len() && 0 <= y < r.len() ==>
        (#[trigger] r[x] == #[trigger] r[y] <==> strongly_connected(g, x, y))
}

/// `g` has no cycle: no path of one edge or more leads from a vertex back
/// to itself.
pub open spec fn acyclic(g: GraphModel) -> bool {
    forall|v: int, k: nat| k >= 1 ==> !#[trigger] has_path(g, v, v, k)
}

/// In a graph without cycles every strongly connected component is a single
/// vertex: the labelling gives each vertex a label of its own, so there are
/// as many components as vertices.
pub proof fn lemma_acyclic_components_are_singletons(g: GraphModel, r: Seq<VId>)
    requires
        acyclic(g),
        is_scc_labelling(g, r),
    ensures
        forall|x: int, y: int| 0 <= x < r.len() && 0 <= y < r.len() && x != y ==> r[x] != r[y],
{
    assert forall|x: int, y: int| 0 <= x < r.len() && 0 <= y < r.len() && x != y implies r[x] != r[y] by {
        if r[x] == r[y] {
            assert(reachable(g, x, y));
            assert(reachable(g, y, x));
            let k1 = choose|k: nat| #[trigger] has_path(g, x, y, k);
            let k2 = choose|k: nat| #[trigger] has_path(g, y, x, k);
            lemma_path_concat(g, x, y, x, k1, k2);
            if k1 == 0 {
                let p = choose|p: Seq<int>| #[trigger] crate::bfs::is_path(g, p) && p.len() == k1 + 1 && p[0] == x && p[p.len() - 1] == y;
            }
            assert(has_path(g, x, x, k1 + k2));
        }
    }
}

/// `r` labels vertices with dense ids: every label lies below `k`, and every
/// id below `k` labels some vertex.
pub open spec fn is_dense_labelling(r: Seq<VId>, k: nat) -> bool {
    &&& forall|v: int| 0 <= v < r.len() ==> (#[trigger] r[v] as nat) < k
    &&& forall|c: nat| c < k ==> #[trigger] id_used(r, c)
}

/// Some vertex carries label `c`.
pub open spec fn id_used(r: Seq<VId>, c: nat) -> bool {
    exists|v: int| 0 <= v < r.len() && r[v] as nat == c
}

/// Some vertex already given a component carries id `c`.
spec fn id_given(done: Set<int>, comp: Seq<VId>, c: nat) -> bool {
    exists|v: int| #[trigger] done.contains(v) && comp[v] as nat == c
}

/// The state of one run of Tarjan's algorithm.
struct Tarjan {
    dfn: Vec<u32>,
    low: Vec<u32>,
    on_path: Vec<bool>,
    path: Vec<VId>,
    comp: Vec<VId>,
    timestamp: u32,
    next_comp: VId,
    frames: Vec<Frame>,
    /// The vertices discovered so far.
    visited: Ghost<Set<int>>,
    /// The vertices already given a component.
    done: Ghost<Set<int>>,
    /// The start of the current search tree and its discovery time.
    root: Ghost<int>,
    t0: Ghost<int>,
    /// For each resumption frame, the position of its vertex on the path.
    fpos: Ghost<Seq<int>>,
}

impl Tarjan {
    spec fn inv(&self, adj: Seq<Vec<VId>>) -> bool {
        let n = adj.len();
        &&& table_wf(adj)
        &&& self.dfn@.len() == n
        &&& self.low@.len() == n
        &&& self.on_path@.len() == n
        &&& self.comp@.len() == n
        &&& self.visited@.finite()
        &&& self.done@.finite()
        &&& forall|v: int| #[trigger] self.visited@.contains(v) ==> 0 <= v < n
        &&& forall|v: int| 0 <= v < n ==> (self.visited@.contains(v) <==> self.dfn@[v] != UNSET)
        &&& forall|v: int| #[trigger] self.visited@.contains(v) ==> self.dfn@[v] < self.timestamp
            && self.low@[v] <= self.dfn@[v]
        &&& self.timestamp as nat == self.visited@.len()
        &&& self.path@.len() + self.done@.len() == self.timestamp as nat
        &&& self.next_comp as nat <= self.done@.len()
        &&& self.path@.no_duplicates()
        &&& forall|i: int| 0 <= i < self.path@.len() ==> (#[trigger] self.path@[i] as nat) < n
        &&& forall|v: int| 0 <= v < n ==> (self.on_path@[v] <==> self.path@.contains(v as VId))
        &&& forall|v: int| #[trigger] self.done@.contains(v) ==> 0 <= v < n && self.visited@.contains(v)
            && !self.on_path@[v] && self.comp@[v] < self.next_comp
        &&& forall|v: int| 0 <= v < n && #[trigger] self.visited@.contains(v) ==> self.on_path@[v] || self.done@.contains(v)
        &&& forall|c: nat| c < self.next_comp ==> #[trigger] id_given(self.done@, self.comp@, c)
        &&& forall|v: int| 0 <= v < n ==> (#[trigger] self.comp@[v] as nat) < n
        &&& forall|v: int| 0 <= v < n && !#[trigger] self.visited@.contains(v) ==> self.low@[v] == UNSET
        &&& forall|i: int| 0 <= i < self.path@.len() ==> self.visited@.contains(#[trigger] self.path@[i] as int)
        &&& forall|i: int| 0 <= i < self.frames@.len() ==> (#[trigger] self.frames@[i]).node < n
        &&& forall|i: int| 0 <= i < self.frames@.len() ==>
            match (#[trigger] self.frames@[i]).cursor {
                Cursor::FirstVisit => i == self.frames@.len() - 1
                    && !self.visited@.contains(self.frames@[i].node as int),
                Cursor::AfterChild(c) => c < adj[self.frames@[i].node as int]@.len(),
            }
    }

    /// The search from `root` is under way: resumption frames sit on the
    /// path in order, the path starts at `root`, and nothing found in this
    /// search has a low-link below the root's discovery time.
    spec fn tree_inv(&self, adj: Seq<Vec<VId>>) -> bool {
        let f = self.frames@;
        let q = self.fpos@;
        &&& self.tree_core(adj)
        &&& f.len() > 0 && self.path@.len() == 0 ==> f.len() == 1 && f[0].cursor is FirstVisit && self.timestamp == self.t0@
        &&& f.len() == 0 ==> self.path@.len() == 0
        &&& self.path@.len() > 0 && f.len() > 0 ==> f[0].cursor is AfterChild && q[0] == 0
    }

    spec fn tree_core(&self, adj: Seq<Vec<VId>>) -> bool {
        let n = adj.len();
        let t0 = self.t0@;
        let f = self.frames@;
        let q = self.fpos@;
        &&& q.len() == f.len()
        &&& forall|i: int| 0 <= i < f.len() && (#[trigger] f[i]).cursor is AfterChild ==>
            0 <= q[i] < self.path@.len() && self.path@[q[i]] == f[i].node
        &&& forall|i: int, j: int| 0 <= i < j < f.len() && (#[trigger] f[i]).cursor is AfterChild
            && (#[trigger] f[j]).cursor is AfterChild ==> q[i] < q[j]
        &&& forall|i: int| 0 <= i < self.path@.len() ==> self.dfn@[#[trigger] self.path@[i] as int] >= t0
        &&& forall|v: int| 0 <= v < n && #[trigger] self.visited@.contains(v) && self.dfn@[v] >= t0 ==> self.low@[v] >= t0
        &&& f.len() > 0 ==> f[0].node as int == self.root@
        &&& self.path@.len() > 0 ==> self.path@[0] as int == self.root@ && self.dfn@[self.root@] == t0
        &&& self.path@.len() > 0 || f.len() == 0 ==> self.visited@.contains(self.root@)
        &&& self.timestamp >= t0
        &&& 0 <= self.root@ < n
    }

    /// The soundness facts of this state, with the governing-frame facts
    /// asked only below path position `m`.
    spec fn sound_below(&self, adj: Seq<Vec<VId>>, m: int) -> bool {
        sound(adj, self.path@, self.frames@, self.fpos@, self.dfn@, self.low@, self.done@, self.comp@, m)
    }

    spec fn sound_inv(&self, adj: Seq<Vec<VId>>) -> bool {
        self.sound_below(adj, self.path@.len() as int)
    }

    spec fn complete_inv(&self, adj: Seq<Vec<VId>>, h: bool) -> bool {
        complete(adj, self.path@, self.frames@, self.fpos@, self.dfn@, self.low@, self.done@, self.comp@, h)
    }

    proof fn lemma_frames_placed(&self, adj: Seq<Vec<VId>>)
        requires
            self.inv(adj),
            self.tree_core(adj),
        ensures
            frames_placed(adj, self.path@, self.frames@, self.fpos@),
    {
        assert forall|a: int| 0 <= a < self.frames@.len() - 1 implies (#[trigger] self.frames@[a]).cursor is AfterChild by {
            match self.frames@[a].cursor {
                Cursor::FirstVisit => {},
                Cursor::AfterChild(_) => {},
            }
        }
    }

    proof fn lemma_timestamp_bound(&self, adj: Seq<Vec<VId>>)
        requires
            self.inv(adj),
        ensures
            self.timestamp as nat <= adj.len(),
    {
        lemma_int_range(0, adj.len() as int);
        lemma_len_subset(self.visited@, set_int_range(0, adj.len() as int));
    }

    /// When `u`, which sits at position `q` of the path, is the root of its
    /// component, pops the path down through `u` and gives each popped
    /// vertex the next component id.
    fn close_if_root(&mut self, Ghost(adj): Ghost<Seq<Vec<VId>>>, u: VId, Ghost(q): Ghost<int>)
        requires
            old(self).inv(adj),
            old(self).tree_core(adj),
            (u as nat) < adj.len(),
            0 <= q < old(self).path@.len(),
            old(self).frames@.len() > 0 ==> old(self).frames@[0].cursor is AfterChild && old(self).fpos@[0] == 0,
            old(self).path@[q] == u,
            q == 0 <==> old(self).frames@.len() == 0,
            forall|i: int| 0 <= i < old(self).frames@.len() && (#[trigger] old(self).frames@[i]).cursor is AfterChild
                ==> old(self).fpos@[i] < q,
            old(self).frames@.len() == 0 ==> old(self).low@[u as int] == old(self).dfn@[u as int],
            old(self).sound_below(adj, q),
            forall|k: int| q <= k < old(self).path@.len() ==> reach(adj, #[trigger] old(self).path@[k] as int, u as int)
                && reach(adj, u as int, old(self).path@[k] as int)
                && old(self).low@[u as int] <= old(self).low@[old(self).path@[k] as int],
            old(self).frames@.len() > 0 ==> (old(self).frames@.last().cursor matches Cursor::AfterChild(i)
                && u == adj[old(self).frames@.last().node as int]@[i as int]),
            old(self).complete_inv(adj, true),
        ensures
            final(self).complete_inv(adj, true),
            final(self).sound_inv(adj),
            final(self).inv(adj),
            final(self).tree_inv(adj),
            final(self).frames@ == old(self).frames@,
            final(self).timestamp == old(self).timestamp,
            final(self).dfn@ == old(self).dfn@,
            final(self).low@ == old(self).low@,
            final(self).visited@ == old(self).visited@,
            final(self).fpos@ == old(self).fpos@,
            final(self).root@ == old(self).root@,
            final(self).t0@ == old(self).t0@,
            final(self).path@ == old(self).path@ || final(self).path@ == old(self).path@.subrange(0, q),
    {
        let ui = u as usize;
        proof {
            self.lemma_frames_placed(adj);
            assert(self.visited@.contains(self.path@[q] as int));
        }
        if self.dfn[ui] != self.low[ui] {
            proof {
                lemma_sound_not_root(adj, self.path@, self.frames@, self.fpos@, self.dfn@, self.low@, self.done@,
                    self.comp@, q);
            }
            return;
        }
        let ghost n = adj.len();
        let ghost p0 = self.path@;
        let ghost c0 = self.next_comp;
        let ghost mut found = false;
        proof { self.lemma_timestamp_bound(adj); }
        while self.path.len() > 0
            invariant_except_break
                !found,
                q < self.path@.len(),
            invariant
                forall|w: int| old(self).done@.contains(w) ==> #[trigger] self.done@.contains(w),
                forall|w: int| old(self).done@.contains(w) ==> #[trigger] self.comp@[w] == old(self).comp@[w],
                forall|w: int| #[trigger] self.done@.contains(w) && !old(self).done@.contains(w) ==>
                    exists|k: int| self.path@.len() <= k < p0.len() && p0[k] as int == w,
                forall|k: int| self.path@.len() <= k < p0.len() ==> self.done@.contains(#[trigger] p0[k] as int)
                    && self.comp@[p0[k] as int] == c0,
                0 <= q < p0.len(),
                self.path@.len() <= p0.len(),

                table_wf(adj),
                n == adj.len(),
                self.dfn@.len() == n,
                self.low@.len() == n,
                self.on_path@.len() == n,
                self.comp@.len() == n,
                self.visited@.finite(),
                self.done@.finite(),
                forall|v: int| #[trigger] self.visited@.contains(v) ==> 0 <= v < n,
                forall|v: int| 0 <= v < n ==> (self.visited@.contains(v) <==> self.dfn@[v] != UNSET),
                forall|v: int| #[trigger] self.visited@.contains(v) ==> self.dfn@[v] < self.timestamp
                    && self.low@[v] <= self.dfn@[v],
                self.timestamp as nat == self.visited@.len(),
                self.timestamp as nat <= n,
                self.path@.len() + self.done@.len() == self.timestamp as nat,
                c0 as nat <= old(self).done@.len(),
                self.done@.len() >= old(self).done@.len(),
                self.path@.no_duplicates(),
                forall|i: int| 0 <= i < self.path@.len() ==> (#[trigger] self.path@[i] as nat) < n,
                forall|v: int| 0 <= v < n ==> (self.on_path@[v] <==> self.path@.contains(v as VId)),
                forall|v: int| #[trigger] self.done@.contains(v) ==> 0 <= v < n && self.visited@.contains(v)
                    && !self.on_path@[v] && self.comp@[v] <= c0
                    && (self.comp@[v] == c0 ==> !old(self).done@.contains(v)),
                forall|v: int| 0 <= v < n && #[trigger] self.visited@.contains(v) ==> self.on_path@[v] || self.done@.contains(v),
                forall|c: nat| c < c0 ==> #[trigger] id_given(self.done@, self.comp@, c),
                self.done@.len() > old(self).done@.len() ==> exists|v: int| #[trigger] self.done@.contains(v) && self.comp@[v] == c0,
                forall|v: int| 0 <= v < n ==> (#[trigger] self.comp@[v] as nat) < n,
                forall|v: int| 0 <= v < n && !#[trigger] self.visited@.contains(v) ==> self.low@[v] == UNSET,
                forall|i: int| 0 <= i < self.path@.len() ==> self.visited@.contains(#[trigger] self.path@[i] as int),
                self.next_comp == c0,
                self.path@ == p0.subrange(0, self.path@.len() as int),
                self.frames@ == old(self).frames@,
                self.fpos@ == old(self).fpos@,
                self.dfn@ == old(self).dfn@,
                self.low@ == old(self).low@,
                self.visited@ == old(self).visited@,
                self.timestamp == old(self).timestamp,
                self.root@ == old(self).root@,
                self.t0@ == old(self).t0@,
                p0 == old(self).path@,
                p0.no_duplicates(),
                p0[q] == u,
            ensures
                found,
                self.path@ == p0.subrange(0, q),
                self.done@.len() > old(self).done@.len(),
            decreases self.path.len(),
        {
            let ghost before = self.path@;
            let ghost done_before = self.done@;
            let ghost comp_before = self.comp@;
            let ghost onp_before = self.on_path@;
            let v = self.path.pop().unwrap();
            let vi = v as usize;
            proof {
                assert(v == before[before.len() - 1]);
                assert(self.path@ == before.drop_last());
                assert(!self.done@.contains(v as int));
                self.done@ = self.done@.insert(v as int);
                assert(!self.path@.contains(v)) by {
                    if self.path@.contains(v) {
                        let k = choose|k: int| 0 <= k < self.path@.len() && self.path@[k] == v;
                        assert(before[k] == before[before.len() - 1]);
                    }
                }
                assert(c0 as nat <= self.done@.len());
            }
            self.on_path.set(vi, false);
            self.comp.set(vi, self.next_comp);
            proof {
                assert forall|w: int| 0 <= w < n implies (self.on_path@[w] <==> self.path@.contains(w as VId)) by {
                    if w != vi as int {
                        if before.contains(w as VId) {
                            let k = choose|k: int| 0 <= k < before.len() && before[k] == w as VId;
                            assert(k != before.len() - 1);
                            assert(self.path@[k] == w as VId);
                        }
                    }
                }
                assert forall|w: int| #[trigger] self.done@.contains(w) implies 0 <= w < n && self.visited@.contains(w)
                    && !self.on_path@[w] && self.comp@[w] <= c0
                    && (self.comp@[w] == c0 ==> !old(self).done@.contains(w)) by {
                    if w != v as int {
                        assert(self.comp@[w] == comp_before[w]);
                        assert(self.on_path@[w] == onp_before[w]);
                    }
                }
                assert forall|c: nat| c < c0 implies #[trigger] id_given(self.done@, self.comp@, c) by {
                    assert(id_given(done_before, comp_before, c));
                    let w = choose|w: int| #[trigger] done_before.contains(w) && comp_before[w] as nat == c;
                    assert(w != v as int);
                    assert(self.done@.contains(w) && self.comp@[w] == comp_before[w]);
                }
                assert(self.done@.contains(v as int) && self.comp@[v as int] == c0);
                assert forall|w: int| old(self).done@.contains(w) implies #[trigger] self.comp@[w] == old(self).comp@[w] by {
                    assert(done_before.contains(w));
                    assert(w != v as int);
                    assert(self.comp@[w] == comp_before[w]);
                }
                assert forall|w: int| #[trigger] self.done@.contains(w) && !old(self).done@.contains(w) implies
                    exists|k: int| self.path@.len() <= k < p0.len() && p0[k] as int == w by {
                    if w == v as int {
                        assert(p0[self.path@.len() as int] == v);
                    } else {
                        assert(done_before.contains(w));
                    }
                }
                assert forall|k: int| self.path@.len() <= k < p0.len() implies self.done@.contains(#[trigger] p0[k] as int)
                    && self.comp@[p0[k] as int] == c0 by {
                    if k == self.path@.len() {
                        assert(p0[k] == v);
                    } else {
                        assert(p0[k] != v) by {
                            assert(p0[self.path@.len() as int] == v);
                        }
                        assert(self.comp@[p0[k] as int] == comp_before[p0[k] as int]);
                    }
                }
            }
            if v == u {
                proof {
                    assert(p0[before.len() - 1] == before[before.len() - 1]);
                    if before.len() - 1 != q {
                        assert(p0[before.len() - 1] != p0[q]);
                    }
                    assert(self.path@ =~= p0.subrange(0, q));
                    assert(self.done@.len() == done_before.len() + 1);
                    found = true;
                }
                break;
            }
            proof {
                assert(p0[before.len() - 1] == before[before.len() - 1]);
                assert(before.len() - 1 != q);
                assert(self.path@ =~= p0.subrange(0, self.path@.len() as int));
            }
        }
        proof {
            assert(found);
            assert forall|x: int| #[trigger] old(self).done@.contains(x) implies !p0.contains(x as VId) by {
                assert(!old(self).on_path@[x]);
            }
            assert forall|x: int| #[trigger] old(self).done@.contains(x) implies self.done@.contains(x)
                && self.comp@[x] == old(self).comp@[x] && old(self).comp@[x] != c0 by {
            }
            assert forall|x: int| #[trigger] self.done@.contains(x) implies old(self).done@.contains(x)
                || exists|k: int| q <= k < p0.len() && p0[k] as int == x by {
                if !old(self).done@.contains(x) {
                    let k = choose|k: int| self.path@.len() <= k < p0.len() && p0[k] as int == x;
                }
            }
            lemma_sound_pop_root(adj, p0, self.frames@, self.fpos@, self.dfn@, self.low@, old(self).done@,
                old(self).comp@, q, self.done@, self.comp@, c0);
            lemma_sound_order(adj, p0, self.frames@, self.fpos@, self.dfn@, self.low@, old(self).done@,
                old(self).comp@, q);
            lemma_complete_pop_root(adj, p0, self.frames@, self.fpos@, self.dfn@, self.low@, old(self).done@,
                old(self).comp@, q, self.done@, self.comp@, c0);
        }
        self.next_comp = self.next_comp + 1;
    }
    /// Looks at child `i` of `u`, whose resumption frame is on the stack: an
    /// undiscovered child gets a first-visit frame; one still on the path
    /// folds its discovery time into `low[u]`.
    fn explore_child(&mut self, adj: &Vec<Vec<VId>>, u: VId, i: usize)
        requires
            old(self).inv(adj@),
            old(self).tree_inv(adj@),
            (u as nat) < adj@.len(),
            i < adj@[u as int]@.len(),
            old(self).visited@.contains(u as int),
            old(self).dfn@[u as int] >= old(self).t0@,
            old(self).frames@.len() > 0,
            forall|k: int| 0 <= k < old(self).frames@.len() ==> (#[trigger] old(self).frames@[k]).cursor is AfterChild,
            old(self).sound_inv(adj@),
            old(self).frames@.last() == (Frame { node: u, cursor: Cursor::AfterChild(i) }),
            old(self).complete_inv(adj@, false),
        ensures
            final(self).complete_inv(adj@, true),
            final(self).sound_inv(adj@),
            final(self).inv(adj@),
            final(self).tree_inv(adj@),
            final(self).timestamp == old(self).timestamp,
            final(self).visited@ == old(self).visited@,
            final(self).path@ == old(self).path@,
            pending(adj@, final(self).frames@) == pending(adj@, old(self).frames@),
    {
        let v = adj[u as usize][i];
        let vi = v as usize;
        if self.dfn[vi] == UNSET {
            let f = Frame { node: v, cursor: Cursor::FirstVisit };
            proof {
                lemma_sound_push_first_visit(adj@, self.path@, self.frames@, self.fpos@, self.dfn@, self.low@,
                    self.done@, self.comp@, self.path@.len() as int, v);
                lemma_complete_push_first_visit(adj@, self.path@, self.frames@, self.fpos@, self.dfn@, self.low@,
                    self.done@, self.comp@, v);
                lemma_pending_push(adj@, self.frames@, f);
                self.fpos@ = self.fpos@.push(0);
            }
            self.frames.push(f);
            proof {
                assert(self.frames@[0] == old(self).frames@[0]);
                assert forall|a: int| 0 <= a < self.frames@.len() && (#[trigger] self.frames@[a]).cursor is AfterChild implies
                    0 <= self.fpos@[a] < self.path@.len() && self.path@[self.fpos@[a]] == self.frames@[a].node by {
                    assert(a < old(self).frames@.len());
                    assert(old(self).frames@[a] == self.frames@[a]);
                }
                assert forall|a: int, b: int| 0 <= a < b < self.frames@.len() && (#[trigger] self.frames@[a]).cursor is AfterChild
                    && (#[trigger] self.frames@[b]).cursor is AfterChild implies self.fpos@[a] < self.fpos@[b] by {
                    assert(old(self).frames@[a] == self.frames@[a]);
                    assert(old(self).frames@[b] == self.frames@[b]);
                }
            }
        } else if self.on_path[vi] {
            let d = self.dfn[vi];
            proof {
                let k = choose|k: int| 0 <= k < self.path@.len() && self.path@[k] == v;
                assert(self.dfn@[self.path@[k] as int] >= self.t0@);
            }
            if d < self.low[u as usize] {
                proof {
                    let j = choose|j: int| 0 <= j < self.path@.len() && self.path@[j] == v;
                    let top = self.frames@.len() - 1;
                    assert(self.frames@[top] == self.frames@.last());
                    let qu = self.fpos@[top];
                    self.lemma_frames_placed(adj@);
                    assert(self.visited@.contains(u as int));
                    assert(!self.done@.contains(u as int)) by {
                        assert(self.path@.contains(u));
                    }
                    lemma_sound_fold_path(adj@, self.path@, self.frames@, self.fpos@, self.dfn@, self.low@,
                        self.done@, self.comp@, qu, j, i);
                }
                self.low.set(u as usize, d);
            }
        }
        proof {
            if old(self).dfn@[vi as int] != UNSET {
                let top = self.frames@.len() - 1;
                assert(self.frames@[top] == self.frames@.last());
                assert forall|k: int| 0 <= k < self.path@.len() implies (#[trigger] self.path@[k] as int) < self.low@.len() by {}
                if self.path@.contains(v) {
                    assert(self.on_path@[vi as int]);
                }
                lemma_complete_looked(adj@, self.path@, self.frames@, self.fpos@, self.dfn@, old(self).low@,
                    self.done@, self.comp@, self.low@);
            }
        }
    }

    /// Pops one frame and carries out its step.
    #[verifier::rlimit(100)]
    fn step(&mut self, adj: &Vec<Vec<VId>>)
        requires
            old(self).inv(adj@),
            old(self).tree_inv(adj@),
            old(self).frames@.len() > 0,
            old(self).sound_inv(adj@),
            old(self).complete_inv(adj@, true),
        ensures
            final(self).complete_inv(adj@, true),
            final(self).sound_inv(adj@),
            final(self).inv(adj@),
            final(self).tree_inv(adj@),
            final(self).root@ == old(self).root@,
            forall|v: int| old(self).visited@.contains(v) ==> #[trigger] final(self).visited@.contains(v),
            final(self).timestamp > old(self).timestamp || (final(self).timestamp == old(self).timestamp
                && pending(adj@, final(self).frames@) < pending(adj@, old(self).frames@)),
    {
        let ghost before = self.frames@;
        let ghost qs = self.fpos@;
        let ghost low0 = self.low@;
        proof {
            self.lemma_frames_placed(adj@);
            lemma_frames_placed_drop(adj@, self.path@, before, qs);
        }
        let frame = self.frames.pop().unwrap();
        proof {
            self.fpos@ = qs.drop_last();
            assert(before.drop_last() == self.frames@);
            assert forall|k: int| 0 <= k < self.frames@.len() implies (#[trigger] self.frames@[k]).cursor is AfterChild by {
                assert(before[k] == self.frames@[k]);
            }
        }
        let u = frame.node;
        let ui = u as usize;
        let deg = adj[ui].len();
        match frame.cursor {
            Cursor::FirstVisit => {
                let ghost q = self.path@.len() as int;
                proof {
                    self.lemma_timestamp_bound(adj@);
                    assert(!self.visited@.contains(ui as int));
                    self.visited@ = self.visited@.insert(ui as int);
                    assert(self.visited@.len() == self.timestamp + 1);
                    lemma_int_range(0, adj@.len() as int);
                    lemma_len_subset(self.visited@, set_int_range(0, adj@.len() as int));
                    if q == 0 {
                        assert(before.len() == 1);
                        assert(u as int == self.root@);
                    } else {
                        assert(before[0].cursor is AfterChild);
                        assert(self.frames@.len() > 0);
                    }
                    assert(!self.path@.contains(u)) by {
                        if self.path@.contains(u) {
                            let k = choose|k: int| 0 <= k < self.path@.len() && self.path@[k] == u;
                            assert(self.visited@.contains(self.path@[k] as int));
                        }
                    }
                    assert(before =~= self.frames@.push(frame));
                    assert(qs =~= self.fpos@.push(qs.last()));
                    assert(!self.done@.contains(u as int));
                    assert(self.low@[u as int] == UNSET);
                    assert forall|k: int| 0 <= k < self.path@.len() implies (#[trigger] self.path@[k] as int) < adj@.len()
                        && self.dfn@[self.path@[k] as int] < self.timestamp by {
                        assert(old(self).visited@.contains(self.path@[k] as int));
                    }
                    assert forall|x: int| #[trigger] self.done@.contains(x) implies 0 <= x < adj@.len()
                        && self.dfn@[x] < self.timestamp by {
                        assert(old(self).visited@.contains(x));
                    }
                    if self.frames@.len() == 0 {
                        assert(before.len() == 1);
                    }
                    lemma_sound_push_vertex(adj@, self.path@, self.frames@, self.fpos@, self.dfn@, self.low@,
                        self.done@, self.comp@, u, self.timestamp, qs.last());
                    assert(self.dfn@[u as int] == UNSET);
                    if deg == 0 {
                        lemma_complete_push_leaf(adj@, self.path@, self.frames@, self.fpos@, self.dfn@, self.low@,
                            self.done@, self.comp@, u, self.timestamp, qs.last());
                    } else {
                        lemma_complete_push_vertex(adj@, self.path@, self.frames@, self.fpos@, self.dfn@, self.low@,
                            self.done@, self.comp@, u, self.timestamp, qs.last());
                    }
                    lemma_frames_placed_push_path(adj@, self.path@, self.frames@, self.fpos@, u);
                }
                let t = self.timestamp;
                self.dfn.set(ui, t);
                self.low.set(ui, t);
                self.timestamp = t + 1;
                self.path.push(u);
                self.on_path.set(ui, true);
                proof {
                    assert(self.path@[q] == u);
                    assert forall|w: int| 0 <= w < adj@.len() implies (self.on_path@[w] <==> self.path@.contains(w as VId)) by {
                        if w != ui as int {
                            if old(self).path@.contains(w as VId) {
                                let k = choose|k: int| 0 <= k < old(self).path@.len() && old(self).path@[k] == w as VId;
                                assert(self.path@[k] == w as VId);
                            }
                            if self.path@.contains(w as VId) {
                                let k = choose|k: int| 0 <= k < self.path@.len() && self.path@[k] == w as VId;
                                assert(k != q);
                                assert(old(self).path@[k] == w as VId);
                            }
                        } else {
                            assert(self.path@.contains(u));
                        }
                    }
                    assert forall|k: int| 0 <= k < self.path@.len() implies self.visited@.contains(#[trigger] self.path@[k] as int) by {
                        if k < q {
                            assert(self.path@[k] == old(self).path@[k]);
                        }
                    }
                    assert forall|k: int| 0 <= k < self.path@.len() implies self.dfn@[#[trigger] self.path@[k] as int] >= self.t0@ by {
                        if k < q {
                            assert(self.path@[k] == old(self).path@[k]);
                        }
                    }
                    assert forall|k: int| 0 <= k < self.path@.len() implies (#[trigger] self.path@[k] as nat) < adj@.len() by {
                        if k < q {
                            assert(self.path@[k] == old(self).path@[k]);
                        }
                    }
                    assert(self.path@.no_duplicates()) by {
                        assert forall|a: int, b: int| 0 <= a < b < self.path@.len() implies self.path@[a] != self.path@[b] by {
                            if b == q {
                                assert(old(self).path@.contains(self.path@[a]));
                            } else {
                                assert(old(self).path@[a] == self.path@[a]);
                                assert(old(self).path@[b] == self.path@[b]);
                            }
                        }
                    }
                    assert forall|a: int| 0 <= a < self.frames@.len() && (#[trigger] self.frames@[a]).cursor is AfterChild implies
                        0 <= self.fpos@[a] < self.path@.len() && self.path@[self.fpos@[a]] == self.frames@[a].node by {
                        assert(before[a] == self.frames@[a]);
                        assert(qs[a] == self.fpos@[a]);
                    }
                    assert forall|a: int, b: int| 0 <= a < b < self.frames@.len() && (#[trigger] self.frames@[a]).cursor is AfterChild
                        && (#[trigger] self.frames@[b]).cursor is AfterChild implies self.fpos@[a] < self.fpos@[b] by {
                        assert(before[a] == self.frames@[a]);
                        assert(before[b] == self.frames@[b]);
                    }
                }
                proof {
                    assert(self.sound_below(adj@, q));
                    assert(reach(adj@, u as int, u as int)) by {
                        reveal(reach);
                        lemma_reach_refl(table_graph(adj@), u as int);
                    }
                    assert forall|k: int| q <= k < self.path@.len() implies reach(adj@, #[trigger] self.path@[k] as int, u as int)
                        && reach(adj@, u as int, self.path@[k] as int)
                        && self.low@[u as int] <= self.low@[self.path@[k] as int] by {
                        assert(k == q);
                    }
                }
                if deg == 0 {
                    proof {
                        assert forall|a: int| 0 <= a < self.frames@.len() && (#[trigger] self.frames@[a]).cursor is AfterChild
                            implies self.fpos@[a] < q by {
                            assert(before[a] == self.frames@[a]);
                        }
                        if q > 0 {
                            assert(self.frames@[0] == before[0]);
                        }
                    }
                    self.close_if_root(Ghost(adj@), u, Ghost(q));
                } else {
                    let f = Frame { node: u, cursor: Cursor::AfterChild(0) };
                    proof {
                        lemma_pending_push(adj@, self.frames@, f);
                        assert forall|a: int| 0 <= a < self.frames@.len() && (#[trigger] self.frames@[a]).cursor is AfterChild
                            implies self.fpos@[a] < q by {
                            assert(before[a] == self.frames@[a]);
                        }
                        assert(self.path@[q] == u);
                        lemma_sound_push_frame(adj@, self.path@, self.frames@, self.fpos@, self.dfn@, self.low@,
                            self.done@, self.comp@, q, 0);
                        self.fpos@ = self.fpos@.push(q);
                    }
                    self.frames.push(f);
                    proof {
                        assert forall|a: int| 0 <= a < self.frames@.len() && (#[trigger] self.frames@[a]).cursor is AfterChild implies
                            0 <= self.fpos@[a] < self.path@.len() && self.path@[self.fpos@[a]] == self.frames@[a].node by {
                            if a < self.frames@.len() - 1 {
                                assert(before[a] == self.frames@[a]);
                                assert(qs[a] == self.fpos@[a]);
                            }
                        }
                        assert forall|a: int, b: int| 0 <= a < b < self.frames@.len() && (#[trigger] self.frames@[a]).cursor is AfterChild
                            && (#[trigger] self.frames@[b]).cursor is AfterChild implies self.fpos@[a] < self.fpos@[b] by {
                            assert(before[a] == self.frames@[a]);
                            assert(qs[a] == self.fpos@[a]);
                            if b < self.frames@.len() - 1 {
                                assert(before[b] == self.frames@[b]);
                            }
                        }
                        assert forall|k: int| 0 <= k < self.frames@.len() implies (#[trigger] self.frames@[k]).cursor is AfterChild by {
                            if k < self.frames@.len() - 1 {
                                assert(before[k] == self.frames@[k]);
                            }
                        }
                        if q > 0 {
                            assert(self.frames@[0] == before[0]);
                        }
                    }
                    self.explore_child(adj, u, 0);
                }
            },
            Cursor::AfterChild(i) => {
                let ghost q = qs[qs.len() - 1];
                proof {
                    assert(before[before.len() - 1] == frame);
                    assert(self.path@[q] == u);
                    assert(self.visited@.contains(self.path@[q] as int));
                    assert(self.dfn@[self.path@[q] as int] >= self.t0@);
                }
                let v = adj[ui][i];
                let vi = v as usize;
                if self.dfn[vi] > self.dfn[ui] {
                    let l = self.low[vi];
                    proof {
                        if self.visited@.contains(vi as int) {
                            assert(self.low@[vi as int] >= self.t0@);
                        }
                    }
                    if l < self.low[ui] {
                        self.low.set(ui, l);
                    }
                }
                proof {
                    assert(self.tree_core(adj@));
                    assert(before.last() == (Frame { node: self.path@[q], cursor: Cursor::AfterChild(i) }));
                    assert forall|w: int| 0 <= w < adj@.len() implies (self.dfn@[w] == UNSET && low0[w] == UNSET)
                        || #[trigger] self.done@.contains(w) || self.path@.contains(w as VId) by {
                        if self.visited@.contains(w) && !self.done@.contains(w) {
                            assert(self.on_path@[w]);
                        }
                    }
                    assert forall|k: int| 0 <= k < self.path@.len() implies low0[#[trigger] self.path@[k] as int]
                        <= self.dfn@[self.path@[k] as int] by {
                        assert(self.visited@.contains(self.path@[k] as int));
                    }
                    assert forall|x: int| #[trigger] self.done@.contains(x) implies 0 <= x < adj@.len()
                        && !self.path@.contains(x as VId) by {
                        assert(!self.on_path@[x]);
                    }
                    lemma_sound_resume(adj@, self.path@, before, qs, self.dfn@, low0, self.done@, self.comp@, q, i,
                        self.low@);
                    lemma_sound_order(adj@, self.path@, before, qs, self.dfn@, low0, self.done@, self.comp@,
                        self.path@.len() as int);
                    assert forall|w: int| 0 <= w < adj@.len() implies self.dfn@[w] == UNSET
                        || #[trigger] self.done@.contains(w) || self.path@.contains(w as VId) by {
                        if self.visited@.contains(w) && !self.done@.contains(w) {
                            assert(self.on_path@[w]);
                        }
                    }
                    if i + 1 < deg {
                        lemma_complete_resume_more(adj@, self.path@, before, qs, self.dfn@, low0, self.done@, self.comp@,
                            q, i, self.low@);
                    } else {
                        lemma_complete_resume_last(adj@, self.path@, before, qs, self.dfn@, low0, self.done@, self.comp@,
                            q, i, self.low@);
                    }
                }
                let next = i + 1;
                if next < deg {
                    let f = Frame { node: u, cursor: Cursor::AfterChild(next) };
                    proof {
                        lemma_pending_push(adj@, self.frames@, f);
                        assert forall|a: int| 0 <= a < self.frames@.len() && (#[trigger] self.frames@[a]).cursor is AfterChild
                            implies self.fpos@[a] < q by {
                            assert(before[a] == self.frames@[a]);
                            assert(before[before.len() - 1].cursor is AfterChild);
                        }
                        lemma_sound_push_frame(adj@, self.path@, self.frames@, self.fpos@, self.dfn@, self.low@,
                            self.done@, self.comp@, q, next);
                        self.fpos@ = self.fpos@.push(q);
                    }
                    self.frames.push(f);
                    proof {
                        assert forall|a: int| 0 <= a < self.frames@.len() && (#[trigger] self.frames@[a]).cursor is AfterChild implies
                            0 <= self.fpos@[a] < self.path@.len() && self.path@[self.fpos@[a]] == self.frames@[a].node by {
                            if a < self.frames@.len() - 1 {
                                assert(before[a] == self.frames@[a]);
                                assert(qs[a] == self.fpos@[a]);
                            }
                        }
                        assert forall|a: int, b: int| 0 <= a < b < self.frames@.len() && (#[trigger] self.frames@[a]).cursor is AfterChild
                            && (#[trigger] self.frames@[b]).cursor is AfterChild implies self.fpos@[a] < self.fpos@[b] by {
                            assert(before[a] == self.frames@[a]);
                            assert(qs[a] == self.fpos@[a]);
                            if b < self.frames@.len() - 1 {
                                assert(before[b] == self.frames@[b]);
                            } else {
                                assert(before[a].cursor is AfterChild && before[before.len() - 1].cursor is AfterChild);
                            }
                        }
                        assert forall|k: int| 0 <= k < self.frames@.len() implies (#[trigger] self.frames@[k]).cursor is AfterChild by {
                            if k < self.frames@.len() - 1 {
                                assert(before[k] == self.frames@[k]);
                            }
                        }
                        if before.len() > 1 {
                            assert(self.frames@[0] == before[0]);
                        } else {
                            assert(before[0].node == u);
                            assert(qs[0] == 0);
                        }
                    }
                    self.explore_child(adj, u, next);
                } else {
                    proof {
                        assert forall|a: int| 0 <= a < self.frames@.len() && (#[trigger] self.frames@[a]).cursor is AfterChild
                            implies self.fpos@[a] < q by {
                            assert(before[a] == self.frames@[a]);
                            assert(before[before.len() - 1].cursor is AfterChild);
                        }
                        if self.frames@.len() > 0 {
                            assert(before[0] == self.frames@[0]);
                            assert(before[0].cursor is AfterChild);
                            assert(qs[0] == 0);
                            assert(qs[0] < q);
                        } else {
                            assert(before.len() == 1);
                            assert(q == qs[0]);
                            assert(u as int == self.root@);
                        }
                    }
                    self.close_if_root(Ghost(adj@), u, Ghost(q));
                }
            },
        }
    }
}

/// Strongly connected components of the graph that `adj` lists: entry `v`
/// of the result is the component id of vertex `v`, ids dense from 0 in the
/// order in which components are completed.
pub fn scc_of_table(adj: &Vec<Vec<VId>>) -> (r: Vec<VId>)
    requires
        table_wf(adj@),
    ensures
        r@.len() == adj@.len(),
        exists|k: nat| k <= adj@.len() && is_dense_labelling(r@, k),
        is_scc_labelling(table_graph(adj@), r@),
{
    let n = adj.len();
    let mut st = Tarjan {
        dfn: vec![UNSET; n],
        low: vec![UNSET; n],
        on_path: vec![false; n],
        path: Vec::new(),
        comp: vec![0; n],
        timestamp: 0,
        next_comp: 0,
        frames: Vec::new(),
        visited: Ghost(Set::empty()),
        done: Ghost(Set::empty()),
        root: Ghost(0),
        t0: Ghost(0),
        fpos: Ghost(Seq::empty()),
    };
    proof {
        reveal(sound);
        reveal(complete);
        assert(st.sound_inv(adj@));
        assert(st.complete_inv(adj@, true));
    }
    let mut start: usize = 0;
    while start < n
        invariant
            n == adj@.len(),
            st.inv(adj@),
            st.sound_inv(adj@),
            st.complete_inv(adj@, true),
            st.frames@.len() == 0,
            st.path@.len() == 0,
            start <= n,
            forall|v: int| 0 <= v < start ==> #[trigger] st.visited@.contains(v),
        decreases n - start,
    {
        if st.dfn[start] == UNSET {
            proof {
                assert(st.frames@ =~= Seq::<Frame>::empty());
                assert(st.path@ =~= Seq::<VId>::empty());
            }
            let ghost q0 = st.fpos@;
            st.frames.push(Frame { node: start as VId, cursor: Cursor::FirstVisit });
            proof {
                st.root@ = start as int;
                st.t0@ = st.timestamp as int;
                lemma_sound_empty_path(adj@, Seq::empty(), q0, st.frames@, seq![0], st.dfn@, st.low@,
                    st.done@, st.comp@, 0, 0);
                lemma_complete_empty_path(adj@, Seq::empty(), q0, st.frames@, seq![0], st.dfn@, st.low@,
                    st.done@, st.comp@);
                st.fpos@ = seq![0];
                st.lemma_timestamp_bound(adj@);
                assert(st.tree_inv(adj@));
            }
            while st.frames.len() > 0
                invariant
                    n == adj@.len(),
                    st.inv(adj@),
                    st.tree_inv(adj@),
                    st.sound_inv(adj@),
                    st.complete_inv(adj@, true),
                    st.root@ == start as int,
                    st.timestamp <= n,
                    start < n,
                    forall|v: int| 0 <= v < start ==> #[trigger] st.visited@.contains(v),
                decreases n - st.timestamp, pending(adj@, st.frames@),
            {
                st.step(adj);
                proof { st.lemma_timestamp_bound(adj@); }
            }
        }
        start += 1;
    }
    proof {
        assert forall|v: int| 0 <= v < n implies (#[trigger] st.comp@[v] as nat) < st.next_comp by {
            assert(st.visited@.contains(v));
            assert(!st.path@.contains(v as VId));
        }
        assert forall|c: nat| c < st.next_comp implies #[trigger] id_used(st.comp@, c) by {
            assert(id_given(st.done@, st.comp@, c));
            let v = choose|v: int| #[trigger] st.done@.contains(v) && st.comp@[v] as nat == c;
            assert(0 <= v < st.comp@.len());
        }
        st.lemma_timestamp_bound(adj@);
        assert(is_dense_labelling(st.comp@, st.next_comp as nat));
        reveal(sound);
        reveal(reach);
        assert forall|x: int, y: int| 0 <= x < st.comp@.len() && 0 <= y < st.comp@.len() && #[trigger] st.comp@[x] == #[trigger] st.comp@[y]
            implies reachable(table_graph(adj@), x, y) by {
            assert(st.visited@.contains(x) && st.visited@.contains(y));
            assert(!st.path@.contains(x as VId) && !st.path@.contains(y as VId));
            assert(st.done@.contains(x) && st.done@.contains(y));
        }
        reveal(complete);
        assert forall|x: int, y: int| 0 <= x < st.comp@.len() && 0 <= y < st.comp@.len() implies
            (#[trigger] st.comp@[x] == #[trigger] st.comp@[y] <==> strongly_connected(table_graph(adj@), x, y)) by {
            assert(st.visited@.contains(x) && st.visited@.contains(y));
            assert(!st.path@.contains(x as VId) && !st.path@.contains(y as VId));
            assert(st.done@.contains(x) && st.done@.contains(y));
            if strongly_connected(table_graph(adj@), x, y) {
                assert(reach(adj@, x, y) && reach(adj@, y, x));
            }
            if st.comp@[x] == st.comp@[y] {
                assert(reachable(table_graph(adj@), x, y));
                assert(reachable(table_graph(adj@), y, x));
            }
        }
    }
    st.comp
}


impl LsmCommunity {
    /// Strongly connected components: the adjacency of every vertex is read
    /// from one state of the index into a table, and Tarjan's algorithm runs
    /// on the table. Entry `v` of the result is `v`'s component id.
    pub fn scc(&self) -> (r: Vec<VId>)
        requires
            self.wf(),
        ensures
            r@.len() == self@.len(),
            exists|k: nat| k <= self@.len() && is_dense_labelling(r@, k),
            is_scc_labelling(self.graph(), r@),
    {
        let table = self.snapshot();
        assert(table@.len() == table_graph(table@).len());
        scc_of_table(&table)
    }
}

} // verus!
