//! The invariants behind the explicit-stack Tarjan search and the lemmas
//! that carry them across each step: why every completed component is
//! strongly connected, and why it holds every vertex that it should.
use vstd::prelude::*;
use crate::types::VId;
use crate::graph::{table_wf, table_graph};
use crate::bfs::{reachable, has_path, is_path, lemma_reach_refl, lemma_reach_edge, lemma_reach_trans};
use crate::scc::{Cursor, Frame, UNSET};

verus! {

/// Resumption frame `a` is the nearest one at or below path position `k`.
pub(crate) open spec fn governs(f: Seq<Frame>, q: Seq<int>, a: int, k: int) -> bool {
    &&& 0 <= a < f.len()
    &&& f[a].cursor is AfterChild
    &&& q[a] <= k
    &&& (a + 1 == f.len() || f[a + 1].cursor is FirstVisit || q[a + 1] > k)
}

/// The low-link of frame `a`'s vertex once the child it resumes after has
/// been folded in.
pub(crate) open spec fn lowq(adj: Seq<Vec<VId>>, f: Seq<Frame>, dfn: Seq<u32>, low: Seq<u32>, a: int) -> int {
    let u = f[a].node as int;
    match f[a].cursor {
        Cursor::AfterChild(i) => {
            let c = adj[u]@[i as int] as int;
            if dfn[c] > dfn[u] && low[c] < low[u] {
                low[c] as int
            } else {
                low[u] as int
            }
        },
        Cursor::FirstVisit => low[u] as int,
    }
}

/// `b` is reachable from `a` along directed edges of the table.
#[verifier::opaque]
pub(crate) open spec fn reach(adj: Seq<Vec<VId>>, a: int, b: int) -> bool {
    reachable(table_graph(adj), a, b)
}

/// What makes each completed component strongly connected: the path is
/// ordered by discovery, each vertex on it reaches every later one, each
/// frame's vertex reaches what lies above it and is reached by what it
/// governs (below position `m`), low-links point at reachable vertices lower
/// on the path, and completed components are closed under reachability.
#[verifier::opaque]
pub(crate) open spec fn sound(
    adj: Seq<Vec<VId>>, p: Seq<VId>, f: Seq<Frame>, q: Seq<int>, dfn: Seq<u32>, low: Seq<u32>,
    done: Set<int>, comp: Seq<VId>, m: int,
) -> bool {
    &&& forall|i: int, j: int| 0 <= i < j < p.len() ==> dfn[#[trigger] p[i] as int] < dfn[#[trigger] p[j] as int]
    &&& forall|i: int, j: int| 0 <= i < j < p.len() ==> reach(adj, #[trigger] p[i] as int, #[trigger] p[j] as int)
    &&& forall|a: int, k: int| 0 <= a < f.len() && (#[trigger] f[a]).cursor is AfterChild && q[a] <= k && 0 <= k < p.len() ==>
        reach(adj, f[a].node as int, #[trigger] p[k] as int)
    &&& forall|a: int, k: int| 0 <= k < p.len() && k < m && #[trigger] governs(f, q, a, k) ==>
        reach(adj, p[k] as int, f[a].node as int) && lowq(adj, f, dfn, low, a) <= low[p[k] as int]
    &&& forall|k: int| 0 <= k < p.len() && #[trigger] low[p[k] as int] < dfn[p[k] as int] ==>
        exists|i: int| 0 <= i < k && reach(adj, p[k] as int, p[i] as int) && dfn[p[i] as int] <= low[p[k] as int]
    &&& forall|x: int, k: int| #[trigger] done.contains(x) && 0 <= k < p.len() && dfn[#[trigger] p[k] as int] < dfn[x]
        ==> dfn[p[k] as int] < low[x]
    &&& forall|x: int, y: int| #[trigger] done.contains(x) && #[trigger] done.contains(y) && comp[x] == comp[y]
        ==> reach(adj, x, y)
    &&& forall|a: int| 0 <= a < f.len() - 1 ==> #[trigger] linked(adj, f, a)
}

/// Frame `a + 1` visits the child that frame `a` resumes after.
pub(crate) open spec fn linked(adj: Seq<Vec<VId>>, f: Seq<Frame>, a: int) -> bool {
    f[a].cursor matches Cursor::AfterChild(i) && f[a + 1].node == adj[f[a].node as int]@[i as int]
}

/// The soundness facts hold of a search that has an empty path.
pub(crate) proof fn lemma_sound_empty_path(
    adj: Seq<Vec<VId>>, f0: Seq<Frame>, q0: Seq<int>, f: Seq<Frame>, q: Seq<int>, dfn: Seq<u32>, low: Seq<u32>,
    done: Set<int>, comp: Seq<VId>, m0: int, m: int,
)
    requires
        sound(adj, Seq::empty(), f0, q0, dfn, low, done, comp, m0),
        f.len() <= 1,
    ensures
        sound(adj, Seq::empty(), f, q, dfn, low, done, comp, m),
{
    reveal(sound);
}

/// The frames' positions on the path: each resumption frame's vertex sits
/// at its recorded position, and positions rise with the frames.
pub(crate) open spec fn frames_placed(adj: Seq<Vec<VId>>, p: Seq<VId>, f: Seq<Frame>, q: Seq<int>) -> bool {
    &&& q.len() == f.len()
    &&& forall|a: int| 0 <= a < f.len() ==> (#[trigger] f[a]).node < adj.len() && match f[a].cursor {
        Cursor::AfterChild(c) => c < adj[f[a].node as int]@.len(),
        Cursor::FirstVisit => true,
    }
    &&& forall|a: int| 0 <= a < f.len() && (#[trigger] f[a]).cursor is AfterChild ==>
        0 <= q[a] < p.len() && p[q[a]] == f[a].node
    &&& forall|a: int, b: int| 0 <= a < b < f.len() && (#[trigger] f[a]).cursor is AfterChild
        && (#[trigger] f[b]).cursor is AfterChild ==> q[a] < q[b]
    &&& forall|a: int| 0 <= a < f.len() - 1 ==> (#[trigger] f[a]).cursor is AfterChild
}

pub(crate) proof fn lemma_lowq_mono(adj: Seq<Vec<VId>>, f: Seq<Frame>, dfn: Seq<u32>, low: Seq<u32>, low2: Seq<u32>, a: int)
    requires
        table_wf(adj),
        low.len() == adj.len(),
        low2.len() == low.len(),
        forall|v: int| 0 <= v < low.len() ==> low2[v] <= low[v],
        0 <= a < f.len(),
        (f[a].node as int) < adj.len(),
        f[a].cursor matches Cursor::AfterChild(i) ==> i < adj[f[a].node as int]@.len(),
    ensures
        lowq(adj, f, dfn, low2, a) <= lowq(adj, f, dfn, low, a),
        lowq(adj, f, dfn, low2, a) <= low2[f[a].node as int],
{
    if let Cursor::AfterChild(i) = f[a].cursor {
        let c = adj[f[a].node as int]@[i as int];
        assert((c as int) < adj.len());
    }
}

/// Pushing a first-visit frame for the child that the top frame resumes
/// after keeps the soundness facts.
pub(crate) proof fn lemma_sound_push_first_visit(
    adj: Seq<Vec<VId>>, p: Seq<VId>, f: Seq<Frame>, q: Seq<int>, dfn: Seq<u32>, low: Seq<u32>,
    done: Set<int>, comp: Seq<VId>, m: int, v: VId,
)
    requires
        sound(adj, p, f, q, dfn, low, done, comp, m),
        f.len() > 0,
        f.len() == q.len(),
        f.last().cursor matches Cursor::AfterChild(i) && v == adj[f.last().node as int]@[i as int],
    ensures
        sound(adj, p, f.push(Frame { node: v, cursor: Cursor::FirstVisit }), q.push(0), dfn, low, done, comp, m),
{
    reveal(sound);
    let f2 = f.push(Frame { node: v, cursor: Cursor::FirstVisit });
    let q2 = q.push(0);
    assert forall|a: int, k: int| #[trigger] governs(f2, q2, a, k) implies governs(f, q, a, k)
        && lowq(adj, f2, dfn, low, a) == lowq(adj, f, dfn, low, a) && f2[a] == f[a] by {
        assert(f2[a] == f[a]);
        assert(q2[a] == q[a]);
        if a + 1 < f.len() {
            assert(f2[a + 1] == f[a + 1]);
            assert(q2[a + 1] == q[a + 1]);
        }
    }
    assert forall|a: int| 0 <= a < f2.len() - 1 implies #[trigger] linked(adj, f2, a) by {
        if a < f.len() - 1 {
            assert(linked(adj, f, a));
            assert(f2[a] == f[a] && f2[a + 1] == f[a + 1]);
        } else {
            assert(f2[a] == f.last());
        }
    }
    assert forall|a: int, k: int| 0 <= a < f2.len() && (#[trigger] f2[a]).cursor is AfterChild && q2[a] <= k && 0 <= k < p.len() implies
        reach(adj, f2[a].node as int, #[trigger] p[k] as int) by {
        assert(f2[a] == f[a]);
        assert(q2[a] == q[a]);
    }
}

/// Folding the discovery time of an on-path child into the top frame's
/// low-link keeps the soundness facts.
pub(crate) proof fn lemma_sound_fold_path(
    adj: Seq<Vec<VId>>, p: Seq<VId>, f: Seq<Frame>, q: Seq<int>, dfn: Seq<u32>, low: Seq<u32>,
    done: Set<int>, comp: Seq<VId>, qu: int, j: int, i: usize,
)
    requires
        table_wf(adj),
        dfn.len() == adj.len(),
        low.len() == adj.len(),
        forall|k: int| 0 <= k < p.len() ==> (#[trigger] p[k] as int) < adj.len(),
        sound(adj, p, f, q, dfn, low, done, comp, p.len() as int),
        frames_placed(adj, p, f, q),
        forall|x: int| #[trigger] done.contains(x) ==> 0 <= x < adj.len(),
        f.len() > 0,
        f.last() == (Frame { node: p[qu], cursor: Cursor::AfterChild(i) }),
        q.last() == qu,
        0 <= qu < p.len(),
        0 <= j < p.len(),
        (i as int) < adj[p[qu] as int]@.len(),
        p[j] == adj[p[qu] as int]@[i as int],
        dfn[p[j] as int] < low[p[qu] as int],
        low[p[qu] as int] <= dfn[p[qu] as int],
        !done.contains(p[qu] as int),
    ensures
        sound(adj, p, f, q, dfn, low.update(p[qu] as int, dfn[p[j] as int]), done, comp, p.len() as int),
{
    reveal(sound);
    let u = p[qu] as int;
    let low2 = low.update(u, dfn[p[j] as int]);
    assert(j < qu) by {
        if j > qu {
            assert(dfn[p[qu] as int] < dfn[p[j] as int]);
        }
    }
    assert(reach(adj, u, p[j] as int)) by {
        reveal(reach);
        assert(adj[u]@.contains(adj[u]@[i as int]));
        assert(table_graph(adj)[u].contains(p[j]));
        lemma_reach_edge(table_graph(adj), u, p[j]);
    }
    assert forall|a: int, k: int| 0 <= k < p.len() && k < p.len() && #[trigger] governs(f, q, a, k) implies
        reach(adj, p[k] as int, f[a].node as int) && lowq(adj, f, dfn, low2, a) <= low2[p[k] as int] by {
        assert(f[a].cursor is AfterChild);
        lemma_lowq_mono(adj, f, dfn, low, low2, a);
        if p[k] as int == u {
            if k != qu {
                if k < qu {
                    assert(dfn[p[k] as int] < dfn[p[qu] as int]);
                } else {
                    assert(dfn[p[qu] as int] < dfn[p[k] as int]);
                }
            }
            if a != f.len() - 1 {
                assert(f[f.len() - 1].cursor is AfterChild);
                assert(q[a + 1] <= q[f.len() - 1]) by {
                    if a + 1 < f.len() - 1 {
                        assert(f[a + 1].cursor is AfterChild);
                    }
                }
            }
        }
    }
    assert forall|k: int| 0 <= k < p.len() && #[trigger] low2[p[k] as int] < dfn[p[k] as int] implies
        exists|i2: int| 0 <= i2 < k && reach(adj, p[k] as int, p[i2] as int) && dfn[p[i2] as int] <= low2[p[k] as int] by {
        if p[k] as int == u {
            if k != qu {
                if k < qu {
                    assert(dfn[p[k] as int] < dfn[p[qu] as int]);
                } else {
                    assert(dfn[p[qu] as int] < dfn[p[k] as int]);
                }
            }
            assert(reach(adj, p[k] as int, p[j] as int));
        } else {
            assert(low2[p[k] as int] == low[p[k] as int]);
            assert(low[p[k] as int] < dfn[p[k] as int]);
        }
    }
    assert forall|x: int, k: int| #[trigger] done.contains(x) && 0 <= k < p.len() && dfn[#[trigger] p[k] as int] < dfn[x]
        implies dfn[p[k] as int] < low2[x] by {
        assert(x != u);
    }
}

/// Discovering vertex `u` at time `t` and pushing it on the path keeps the
/// soundness facts below the old top of the path; `u` has just left the
/// top of the frame stack as a first-visit frame.
pub(crate) proof fn lemma_sound_push_vertex(
    adj: Seq<Vec<VId>>, p: Seq<VId>, f: Seq<Frame>, q: Seq<int>, dfn: Seq<u32>, low: Seq<u32>,
    done: Set<int>, comp: Seq<VId>, u: VId, t: u32, z: int,
)
    requires
        table_wf(adj),
        dfn.len() == adj.len(),
        low.len() == adj.len(),
        forall|k: int| 0 <= k < p.len() ==> (#[trigger] p[k] as int) < adj.len() && dfn[p[k] as int] < t,
        forall|x: int| #[trigger] done.contains(x) ==> 0 <= x < adj.len() && dfn[x] < t,
        sound(adj, p, f.push(Frame { node: u, cursor: Cursor::FirstVisit }), q.push(z), dfn, low, done, comp, p.len() as int),
        frames_placed(adj, p, f, q),
        (u as int) < adj.len(),
        !p.contains(u),
        !done.contains(u as int),
        low[u as int] == UNSET,
        t < UNSET,
        f.len() == 0 ==> p.len() == 0,
    ensures
        sound(adj, p.push(u), f, q, dfn.update(u as int, t), low.update(u as int, t), done, comp, p.len() as int),
        f.len() > 0 ==> (f.last().cursor matches Cursor::AfterChild(i) && u == adj[f.last().node as int]@[i as int]),
{
    reveal(sound);
    let f1 = f.push(Frame { node: u, cursor: Cursor::FirstVisit });
    let q1 = q.push(z);
    let p2 = p.push(u);
    let dfn2 = dfn.update(u as int, t);
    let low2 = low.update(u as int, t);
    let ui = u as int;
    assert forall|k: int| 0 <= k < p.len() implies p[k] as int != ui by {
        assert(p.contains(p[k]));
    }
    if f.len() > 0 {
        assert(linked(adj, f1, f.len() - 1));
        assert(f1[f.len() - 1] == f.last());
    }
    assert forall|a: int, k: int| #[trigger] governs(f, q, a, k) implies governs(f1, q1, a, k) && f1[a] == f[a] by {
        assert(f1[a] == f[a]);
        assert(q1[a] == q[a]);
        if a + 1 < f.len() {
            assert(f1[a + 1] == f[a + 1]);
            assert(q1[a + 1] == q[a + 1]);
        }
    }
    // Every vertex on the old path reaches `u` through the top frame's vertex.
    if f.len() > 0 {
        let top = f.len() - 1;
        let w = f[top].node as int;
        let qt = q[top];
        assert(f[top].cursor is AfterChild);
        assert(reach(adj, w, ui)) by {
            reveal(reach);
            if let Cursor::AfterChild(i) = f[top].cursor {
                assert(adj[w]@.contains(adj[w]@[i as int]));
                lemma_reach_edge(table_graph(adj), w, u);
            }
        }
        assert forall|i: int| 0 <= i < p.len() implies reach(adj, #[trigger] p[i] as int, ui) by {
            reveal(reach);
            if i < qt {
                assert(reach(adj, p[i] as int, p[qt] as int));
            } else if i == qt {
                lemma_reach_refl(table_graph(adj), w);
            } else {
                assert(governs(f, q, top, i));
                assert(governs(f1, q1, top, i));
                assert(reach(adj, p[i] as int, w));
            }
            lemma_reach_trans(table_graph(adj), p[i] as int, w, ui);
        }
        assert forall|a: int| 0 <= a < f.len() && (#[trigger] f[a]).cursor is AfterChild implies reach(adj, f[a].node as int, ui) by {
            reveal(reach);
            if a < top {
                assert(q[a] < q[top]);
                assert(f1[a] == f[a]);
                assert(reach(adj, f[a].node as int, p[qt] as int));
            } else {
                lemma_reach_refl(table_graph(adj), w);
            }
            lemma_reach_trans(table_graph(adj), f[a].node as int, w, ui);
        }
    }
    assert forall|i: int, j: int| 0 <= i < j < p2.len() implies dfn2[#[trigger] p2[i] as int] < dfn2[#[trigger] p2[j] as int] by {
        if j < p.len() {
            assert(p2[i] == p[i] && p2[j] == p[j]);
        } else {
            assert(p2[i] == p[i]);
        }
    }
    assert forall|i: int, j: int| 0 <= i < j < p2.len() implies reach(adj, #[trigger] p2[i] as int, #[trigger] p2[j] as int) by {
        if j < p.len() {
            assert(p2[i] == p[i] && p2[j] == p[j]);
        } else {
            assert(p2[i] == p[i]);
        }
    }
    assert forall|a: int, k: int| 0 <= a < f.len() && (#[trigger] f[a]).cursor is AfterChild && q[a] <= k && 0 <= k < p2.len() implies
        reach(adj, f[a].node as int, #[trigger] p2[k] as int) by {
        assert(f1[a] == f[a] && q1[a] == q[a]);
        if k < p.len() {
            assert(p2[k] == p[k]);
        }
    }
    assert forall|a: int, k: int| 0 <= k < p2.len() && k < p.len() && #[trigger] governs(f, q, a, k) implies
        reach(adj, p2[k] as int, f[a].node as int) && lowq(adj, f, dfn2, low2, a) <= low2[p2[k] as int] by {
        assert(p2[k] == p[k]);
        assert(governs(f1, q1, a, k));
        assert(lowq(adj, f1, dfn, low, a) <= low[p[k] as int]);
        assert(f[a].cursor is AfterChild);
        let w = f[a].node as int;
        assert(w != ui) by {
            assert(p[q[a]] == f[a].node);
        }
        if let Cursor::AfterChild(i) = f[a].cursor {
            let cc = adj[w]@[i as int] as int;
            assert(cc < adj.len());
            if cc != ui {
                assert(lowq(adj, f, dfn2, low2, a) == lowq(adj, f1, dfn, low, a));
            }
        }
    }
    assert forall|k: int| 0 <= k < p2.len() && #[trigger] low2[p2[k] as int] < dfn2[p2[k] as int] implies
        exists|i: int| 0 <= i < k && reach(adj, p2[k] as int, p2[i] as int) && dfn2[p2[i] as int] <= low2[p2[k] as int] by {
        assert(k < p.len());
        assert(p2[k] == p[k]);
        assert(low[p[k] as int] < dfn[p[k] as int]);
        let i = choose|i: int| 0 <= i < k && reach(adj, p[k] as int, p[i] as int) && dfn[p[i] as int] <= low[p[k] as int];
        assert(p2[i] == p[i]);
    }
    assert forall|x: int, k: int| #[trigger] done.contains(x) && 0 <= k < p2.len() && dfn2[#[trigger] p2[k] as int] < dfn2[x]
        implies dfn2[p2[k] as int] < low2[x] by {
        if k < p.len() {
            assert(p2[k] == p[k]);
        }
    }
    assert forall|a: int| 0 <= a < f.len() - 1 implies #[trigger] linked(adj, f, a) by {
        assert(linked(adj, f1, a));
        assert(f1[a] == f[a] && f1[a + 1] == f[a + 1]);
    }
}

/// Pushing a resumption frame for `u`, at position `qu` of the path, keeps
/// the soundness facts when everything from `qu` up is reached from `u`,
/// reaches `u`, and has a low-link no smaller than `u`'s.
pub(crate) proof fn lemma_sound_push_frame(
    adj: Seq<Vec<VId>>, p: Seq<VId>, f: Seq<Frame>, q: Seq<int>, dfn: Seq<u32>, low: Seq<u32>,
    done: Set<int>, comp: Seq<VId>, qu: int, c: usize,
)
    requires
        table_wf(adj),
        dfn.len() == adj.len(),
        low.len() == adj.len(),
        forall|k: int| 0 <= k < p.len() ==> (#[trigger] p[k] as int) < adj.len(),
        sound(adj, p, f, q, dfn, low, done, comp, qu),
        frames_placed(adj, p, f, q),
        0 <= qu < p.len(),
        (c as int) < adj[p[qu] as int]@.len(),
        forall|a: int| 0 <= a < f.len() && (#[trigger] f[a]).cursor is AfterChild ==> q[a] < qu,
        f.len() > 0 ==> (f.last().cursor matches Cursor::AfterChild(i) && p[qu] == adj[f.last().node as int]@[i as int]),
        forall|k: int| qu <= k < p.len() ==> reach(adj, #[trigger] p[k] as int, p[qu] as int)
            && reach(adj, p[qu] as int, p[k] as int) && low[p[qu] as int] <= low[p[k] as int],
    ensures
        sound(adj, p, f.push(Frame { node: p[qu], cursor: Cursor::AfterChild(c) }), q.push(qu), dfn, low, done, comp,
            p.len() as int),
{
    reveal(sound);
    let fr = Frame { node: p[qu], cursor: Cursor::AfterChild(c) };
    let f2 = f.push(fr);
    let q2 = q.push(qu);
    let top = f.len() as int;
    assert forall|a: int, k: int| 0 <= k < p.len() && #[trigger] governs(f2, q2, a, k) implies
        reach(adj, p[k] as int, f2[a].node as int) && lowq(adj, f2, dfn, low, a) <= low[p[k] as int] by {
        if a < top {
            assert(f2[a] == f[a] && q2[a] == q[a]);
            if a + 1 < top {
                assert(f2[a + 1] == f[a + 1] && q2[a + 1] == q[a + 1]);
                assert(f[a + 1].cursor is AfterChild);
                assert(q[a + 1] < qu);
            }
            assert(k < qu);
            assert(governs(f, q, a, k));
            assert(lowq(adj, f2, dfn, low, a) == lowq(adj, f, dfn, low, a));
        } else {
            assert(f2[a] == fr);
            let cc = adj[p[qu] as int]@[c as int];
            assert((cc as int) < adj.len());
        }
    }
    assert forall|a: int, k: int| 0 <= a < f2.len() && (#[trigger] f2[a]).cursor is AfterChild && q2[a] <= k && 0 <= k < p.len() implies
        reach(adj, f2[a].node as int, #[trigger] p[k] as int) by {
        if a < top {
            assert(f2[a] == f[a] && q2[a] == q[a]);
        }
    }
    assert forall|a: int| 0 <= a < f2.len() - 1 implies #[trigger] linked(adj, f2, a) by {
        if a < top - 1 {
            assert(linked(adj, f, a));
            assert(f2[a] == f[a] && f2[a + 1] == f[a + 1]);
        } else {
            assert(f2[a] == f.last());
        }
    }
}

/// Resuming the top frame `(u, i)` and folding child `i`'s low-link into
/// `u`'s, as the tree-edge test asks, then dropping the frame, keeps the
/// soundness facts below `u`'s position `qu`; everything from `qu` up is
/// reached from `u`, reaches `u`, and has a low-link no smaller than `u`'s.
pub(crate) proof fn lemma_sound_resume(
    adj: Seq<Vec<VId>>, p: Seq<VId>, f: Seq<Frame>, q: Seq<int>, dfn: Seq<u32>, low: Seq<u32>,
    done: Set<int>, comp: Seq<VId>, qu: int, i: usize, low2: Seq<u32>,
)
    requires
        table_wf(adj),
        dfn.len() == adj.len(),
        low.len() == adj.len(),
        forall|k: int| 0 <= k < p.len() ==> (#[trigger] p[k] as int) < adj.len(),
        forall|x: int| #[trigger] done.contains(x) ==> 0 <= x < adj.len() && !p.contains(x as VId),
        forall|v: int| 0 <= v < adj.len() ==> (dfn[v] == UNSET && low[v] == UNSET) || #[trigger] done.contains(v)
            || p.contains(v as VId),
        forall|k: int| 0 <= k < p.len() ==> low[#[trigger] p[k] as int] <= dfn[p[k] as int],
        sound(adj, p, f, q, dfn, low, done, comp, p.len() as int),
        frames_placed(adj, p, f, q),
        f.len() > 0,
        f.last() == (Frame { node: p[qu], cursor: Cursor::AfterChild(i) }),
        q.last() == qu,
        0 <= qu < p.len(),
        low2 == (if dfn[adj[p[qu] as int]@[i as int] as int] > dfn[p[qu] as int]
            && low[adj[p[qu] as int]@[i as int] as int] < low[p[qu] as int] {
            low.update(p[qu] as int, low[adj[p[qu] as int]@[i as int] as int])
        } else {
            low
        }),
    ensures
        sound(adj, p, f.drop_last(), q.drop_last(), dfn, low2, done, comp, qu),
        forall|k: int| qu <= k < p.len() ==> reach(adj, #[trigger] p[k] as int, p[qu] as int)
            && reach(adj, p[qu] as int, p[k] as int) && low2[p[qu] as int] <= low2[p[k] as int],
        forall|k: int| 0 <= k < p.len() ==> low2[#[trigger] p[k] as int] <= dfn[p[k] as int],
        forall|v: int| 0 <= v < adj.len() && v != p[qu] as int ==> low2[v] == low[v],
        low2[p[qu] as int] <= low[p[qu] as int],
        f.len() > 1 ==> (f.drop_last().last().cursor matches Cursor::AfterChild(c)
            && p[qu] == adj[f.drop_last().last().node as int]@[c as int]),
{
    reveal(sound);
    if f.len() > 1 {
        assert(linked(adj, f, f.len() - 2));
        assert(f.drop_last().last() == f[f.len() - 2]);
    }
    let u = p[qu] as int;
    let top = f.len() - 1;
    let cc = adj[u]@[i as int] as int;
    assert(f[top].cursor is AfterChild);
    assert(cc < adj.len());
    assert(lowq(adj, f, dfn, low, top) == low2[u]);
    let f2 = f.drop_last();
    let q2 = q.drop_last();
    assert forall|k: int| 0 <= k < p.len() && p[k] as int == u implies k == qu by {
        if k < qu {
            assert(dfn[p[k] as int] < dfn[p[qu] as int]);
        } else if k > qu {
            assert(dfn[p[qu] as int] < dfn[p[k] as int]);
        }
    }
    if dfn[cc] > dfn[u] && low[cc] < low[u] {
        // The child is still on the path, above `u`.
        assert(!done.contains(cc)) by {
            if done.contains(cc) {
                assert(dfn[p[qu] as int] < low[cc]);
            }
        }
        assert(p.contains(cc as VId));
        let j = choose|j: int| 0 <= j < p.len() && p[j] == cc as VId;
        assert(j > qu) by {
            if j < qu {
                assert(dfn[p[j] as int] < dfn[p[qu] as int]);
            }
        }
        assert(low[p[j] as int] < dfn[p[j] as int]);
        let i0 = choose|i0: int| 0 <= i0 < j && reach(adj, p[j] as int, p[i0] as int) && dfn[p[i0] as int] <= low[p[j] as int];
        assert(i0 < qu) by {
            if i0 >= qu {
                if i0 > qu {
                    assert(dfn[p[qu] as int] < dfn[p[i0] as int]);
                }
            }
        }
        assert(reach(adj, u, p[i0] as int)) by {
            reveal(reach);
            assert(adj[u]@.contains(adj[u]@[i as int]));
            lemma_reach_edge(table_graph(adj), u, cc as VId);
            lemma_reach_trans(table_graph(adj), u, cc, p[i0] as int);
        }
    }
    assert forall|a: int, k: int| 0 <= k < p.len() && k < qu && #[trigger] governs(f2, q2, a, k) implies
        reach(adj, p[k] as int, f2[a].node as int) && lowq(adj, f2, dfn, low2, a) <= low2[p[k] as int] by {
        assert(f2[a] == f[a] && q2[a] == q[a]);
        if a + 1 < f2.len() {
            assert(f2[a + 1] == f[a + 1] && q2[a + 1] == q[a + 1]);
        } else {
            assert(q[top] == qu);
        }
        assert(governs(f, q, a, k));
        assert(lowq(adj, f2, dfn, low2, a) == lowq(adj, f, dfn, low2, a));
        lemma_lowq_mono(adj, f, dfn, low, low2, a);
        assert(p[k] as int != u);
    }
    assert forall|k: int| qu <= k < p.len() implies reach(adj, #[trigger] p[k] as int, p[qu] as int)
        && reach(adj, p[qu] as int, p[k] as int) && low2[p[qu] as int] <= low2[p[k] as int] by {
        assert(governs(f, q, top, k));
        if p[k] as int != u {
            assert(low2[p[k] as int] == low[p[k] as int]);
        }
    }
    assert forall|a: int, k: int| 0 <= a < f2.len() && (#[trigger] f2[a]).cursor is AfterChild && q2[a] <= k && 0 <= k < p.len() implies
        reach(adj, f2[a].node as int, #[trigger] p[k] as int) by {
        assert(f2[a] == f[a] && q2[a] == q[a]);
    }
    assert forall|k: int| 0 <= k < p.len() && #[trigger] low2[p[k] as int] < dfn[p[k] as int] implies
        exists|i2: int| 0 <= i2 < k && reach(adj, p[k] as int, p[i2] as int) && dfn[p[i2] as int] <= low2[p[k] as int] by {
        if p[k] as int != u {
            assert(low2[p[k] as int] == low[p[k] as int]);
        } else if low2[u] == low[u] {
        } else {
            assert(k == qu);
        }
    }
    assert forall|x: int, k: int| #[trigger] done.contains(x) && 0 <= k < p.len() && dfn[#[trigger] p[k] as int] < dfn[x]
        implies dfn[p[k] as int] < low2[x] by {
        assert(x != u) by {
            assert(p.contains(p[qu]));
        }
    }
    assert forall|a: int| 0 <= a < f2.len() - 1 implies #[trigger] linked(adj, f2, a) by {
        assert(linked(adj, f, a));
        assert(f2[a] == f[a] && f2[a + 1] == f[a + 1]);
    }
}

/// When `u`, at position `qu`, finishes without being a root, the frame
/// below takes over everything from `qu` up: `u` reaches back below itself,
/// hence to that frame's vertex.
pub(crate) proof fn lemma_sound_not_root(
    adj: Seq<Vec<VId>>, p: Seq<VId>, f: Seq<Frame>, q: Seq<int>, dfn: Seq<u32>, low: Seq<u32>,
    done: Set<int>, comp: Seq<VId>, qu: int,
)
    requires
        table_wf(adj),
        dfn.len() == adj.len(),
        low.len() == adj.len(),
        forall|k: int| 0 <= k < p.len() ==> (#[trigger] p[k] as int) < adj.len(),
        sound(adj, p, f, q, dfn, low, done, comp, qu),
        frames_placed(adj, p, f, q),
        0 <= qu < p.len(),
        low[p[qu] as int] < dfn[p[qu] as int],
        f.len() > 0,
        f.last().cursor matches Cursor::AfterChild(i) && p[qu] == adj[f.last().node as int]@[i as int],
        forall|a: int| 0 <= a < f.len() && (#[trigger] f[a]).cursor is AfterChild ==> q[a] < qu,
        forall|k: int| qu <= k < p.len() ==> reach(adj, #[trigger] p[k] as int, p[qu] as int)
            && reach(adj, p[qu] as int, p[k] as int) && low[p[qu] as int] <= low[p[k] as int],
    ensures
        sound(adj, p, f, q, dfn, low, done, comp, p.len() as int),
{
    reveal(sound);
    let u = p[qu] as int;
    let top = f.len() - 1;
    let w = f[top].node as int;
    let qt = q[top];
    assert(f[top].cursor is AfterChild);
    assert(qt < qu);
    let i0 = choose|i0: int| 0 <= i0 < qu && reach(adj, p[qu] as int, p[i0] as int) && dfn[p[i0] as int] <= low[p[qu] as int];
    assert(reach(adj, p[i0] as int, w)) by {
        reveal(reach);
        if i0 < qt {
            assert(reach(adj, p[i0] as int, p[qt] as int));
        } else if i0 == qt {
            lemma_reach_refl(table_graph(adj), w);
        } else {
            assert(governs(f, q, top, i0));
        }
    }
    assert(reach(adj, u, w)) by {
        reveal(reach);
        lemma_reach_trans(table_graph(adj), u, p[i0] as int, w);
    }
    assert(lowq(adj, f, dfn, low, top) <= low[u]) by {
        if let Cursor::AfterChild(i) = f[top].cursor {
            assert(dfn[p[qt] as int] < dfn[p[qu] as int]);
        }
    }
    assert forall|a: int, k: int| 0 <= k < p.len() && #[trigger] governs(f, q, a, k) implies
        reach(adj, p[k] as int, f[a].node as int) && lowq(adj, f, dfn, low, a) <= low[p[k] as int] by {
        if k >= qu {
            if a != top {
                assert(f[a + 1].cursor is AfterChild);
                assert(q[a + 1] < qu);
            }
            assert(reach(adj, p[k] as int, w)) by {
                reveal(reach);
                lemma_reach_trans(table_graph(adj), p[k] as int, u, w);
            }
        }
    }
}

/// When `u`, at position `qr`, is a root, popping the path down through `u`
/// and giving the popped vertices a fresh id `c0` keeps the soundness facts.
pub(crate) proof fn lemma_sound_pop_root(
    adj: Seq<Vec<VId>>, p: Seq<VId>, f: Seq<Frame>, q: Seq<int>, dfn: Seq<u32>, low: Seq<u32>,
    done: Set<int>, comp: Seq<VId>, qr: int, done2: Set<int>, comp2: Seq<VId>, c0: VId,
)
    requires
        sound(adj, p, f, q, dfn, low, done, comp, qr),
        0 <= qr < p.len(),
        low[p[qr] as int] == dfn[p[qr] as int],
        forall|a: int| 0 <= a < f.len() && (#[trigger] f[a]).cursor is AfterChild ==> q[a] < qr,
        forall|k: int| qr <= k < p.len() ==> reach(adj, #[trigger] p[k] as int, p[qr] as int)
            && reach(adj, p[qr] as int, p[k] as int) && low[p[qr] as int] <= low[p[k] as int],
        forall|x: int| #[trigger] done2.contains(x) ==> done.contains(x)
            || exists|k: int| qr <= k < p.len() && p[k] as int == x,
        forall|x: int| #[trigger] done.contains(x) ==> done2.contains(x) && comp2[x] == comp[x] && comp[x] != c0,
        forall|k: int| qr <= k < p.len() ==> done2.contains(#[trigger] p[k] as int) && comp2[p[k] as int] == c0,
        forall|x: int| #[trigger] done.contains(x) ==> !p.contains(x as VId),
    ensures
        sound(adj, p.subrange(0, qr), f, q, dfn, low, done2, comp2, qr),
{
    reveal(sound);
    let p2 = p.subrange(0, qr);
    let u = p[qr] as int;
    assert forall|x: int| #[trigger] done2.contains(x) && !done.contains(x) implies
        reach(adj, x, u) && reach(adj, u, x) && comp2[x] == c0 && low[x] >= dfn[u] by {
        let k = choose|k: int| qr <= k < p.len() && p[k] as int == x;
    }
    assert forall|x: int, y: int| #[trigger] done2.contains(x) && #[trigger] done2.contains(y) && comp2[x] == comp2[y]
        implies reach(adj, x, y) by {
        if done.contains(x) && done.contains(y) {
        } else if !done.contains(x) && !done.contains(y) {
            reveal(reach);
            lemma_reach_trans(table_graph(adj), x, u, y);
        }
    }
    assert forall|x: int, k: int| #[trigger] done2.contains(x) && 0 <= k < p2.len() && dfn[#[trigger] p2[k] as int] < dfn[x]
        implies dfn[p2[k] as int] < low[x] by {
        assert(p2[k] == p[k]);
        if !done.contains(x) {
            assert(dfn[p[k] as int] < dfn[p[qr] as int]);
        }
    }
    assert forall|i: int, j: int| 0 <= i < j < p2.len() implies dfn[#[trigger] p2[i] as int] < dfn[#[trigger] p2[j] as int]
        && reach(adj, p2[i] as int, p2[j] as int) by {
        assert(p2[i] == p[i] && p2[j] == p[j]);
    }
    assert forall|a: int, k: int| 0 <= a < f.len() && (#[trigger] f[a]).cursor is AfterChild && q[a] <= k && 0 <= k < p2.len() implies
        reach(adj, f[a].node as int, #[trigger] p2[k] as int) by {
        assert(p2[k] == p[k]);
    }
    assert forall|a: int, k: int| 0 <= k < p2.len() && k < qr && #[trigger] governs(f, q, a, k) implies
        reach(adj, p2[k] as int, f[a].node as int) && lowq(adj, f, dfn, low, a) <= low[p2[k] as int] by {
        assert(p2[k] == p[k]);
    }
    assert forall|k: int| 0 <= k < p2.len() && #[trigger] low[p2[k] as int] < dfn[p2[k] as int] implies
        exists|i: int| 0 <= i < k && reach(adj, p2[k] as int, p2[i] as int) && dfn[p2[i] as int] <= low[p2[k] as int] by {
        assert(p2[k] == p[k]);
        assert(low[p[k] as int] < dfn[p[k] as int]);
        let i = choose|i: int| 0 <= i < k && reach(adj, p[k] as int, p[i] as int) && dfn[p[i] as int] <= low[p[k] as int];
        assert(p2[i] == p[i]);
    }
}

pub(crate) proof fn lemma_frames_placed_drop(adj: Seq<Vec<VId>>, p: Seq<VId>, f: Seq<Frame>, q: Seq<int>)
    requires
        frames_placed(adj, p, f, q),
        f.len() > 0,
    ensures
        frames_placed(adj, p, f.drop_last(), q.drop_last()),
{
    let f2 = f.drop_last();
    let q2 = q.drop_last();
    assert forall|a: int| 0 <= a < f2.len() implies f2[a] == f[a] && q2[a] == q[a] by {}
    assert forall|a: int, b: int| 0 <= a < b < f2.len() && (#[trigger] f2[a]).cursor is AfterChild
        && (#[trigger] f2[b]).cursor is AfterChild implies q2[a] < q2[b] by {
        assert(f2[a] == f[a] && f2[b] == f[b]);
    }
    assert forall|a: int| 0 <= a < f2.len() - 1 implies (#[trigger] f2[a]).cursor is AfterChild by {
        assert(f2[a] == f[a]);
    }
}

pub(crate) proof fn lemma_frames_placed_push_path(adj: Seq<Vec<VId>>, p: Seq<VId>, f: Seq<Frame>, q: Seq<int>, u: VId)
    requires
        frames_placed(adj, p, f, q),
    ensures
        frames_placed(adj, p.push(u), f, q),
{
    assert forall|a: int| 0 <= a < f.len() && (#[trigger] f[a]).cursor is AfterChild implies
        0 <= q[a] < p.push(u).len() && p.push(u)[q[a]] == f[a].node by {
        assert(p.push(u)[q[a]] == p[q[a]]);
    }
}

/// Edge `e` of the vertex at path position `k` has been looked at for good:
/// no resumption frame of that vertex still has it ahead.
#[verifier::opaque]
pub(crate) open spec fn settled(f: Seq<Frame>, q: Seq<int>, k: int, e: int) -> bool {
    forall|a: int| 0 <= a < f.len() && q[a] == k && (#[trigger] f[a]).cursor is AfterChild
        ==> e < f[a].cursor->AfterChild_0
}

/// Pushing a frame that is no resumption frame at position `k` leaves which
/// edges there are settled unchanged.
pub(crate) proof fn lemma_settled_push(f: Seq<Frame>, q: Seq<int>, fr: Frame, z: int, k: int, e: int)
    requires
        fr.cursor is FirstVisit || z != k,
        f.len() == q.len(),
    ensures
        settled(f.push(fr), q.push(z), k, e) == settled(f, q, k, e),
{
    reveal(settled);
    let f2 = f.push(fr);
    let q2 = q.push(z);
    if settled(f2, q2, k, e) {
        assert forall|a: int| 0 <= a < f.len() && q[a] == k && (#[trigger] f[a]).cursor is AfterChild
            implies e < f[a].cursor->AfterChild_0 by {
            assert(f2[a] == f[a] && q2[a] == q[a]);
        }
    }
    if settled(f, q, k, e) {
        assert forall|a: int| 0 <= a < f2.len() && q2[a] == k && (#[trigger] f2[a]).cursor is AfterChild
            implies e < f2[a].cursor->AfterChild_0 by {
            if a < f.len() {
                assert(f2[a] == f[a] && q2[a] == q[a]);
            }
        }
    }
}

/// With one resumption frame `(x, c)` at position `k`, pushed on top of
/// frames none of which sit at `k`, exactly the edges below `c` are settled.
pub(crate) proof fn lemma_settled_top(f: Seq<Frame>, q: Seq<int>, x: VId, c: usize, k: int, e: int)
    requires
        f.len() == q.len(),
        forall|a: int| 0 <= a < f.len() && (#[trigger] f[a]).cursor is AfterChild ==> q[a] != k,
    ensures
        settled(f.push(Frame { node: x, cursor: Cursor::AfterChild(c) }), q.push(k), k, e) == (e < c),
        settled(f, q, k, e),
{
    reveal(settled);
    let f2 = f.push(Frame { node: x, cursor: Cursor::AfterChild(c) });
    let q2 = q.push(k);
    assert(f2[f.len() as int].cursor is AfterChild && q2[f.len() as int] == k);
    if e < c {
        assert forall|a: int| 0 <= a < f2.len() && q2[a] == k && (#[trigger] f2[a]).cursor is AfterChild
            implies e < f2[a].cursor->AfterChild_0 by {
            if a < f.len() {
                assert(f2[a] == f[a] && q2[a] == q[a]);
            }
        }
    }
}

/// What makes each completed component contain all it should: completed
/// vertices only have edges into completed vertices, completed vertices
/// that reach each other share an id, and a settled edge of a vertex on the
/// path leads to a completed vertex or to one on the path whose discovery
/// time bounds the low-link. With `h`, the top frame's child has been looked
/// at too.
#[verifier::opaque]
pub(crate) open spec fn complete(
    adj: Seq<Vec<VId>>, p: Seq<VId>, f: Seq<Frame>, q: Seq<int>, dfn: Seq<u32>, low: Seq<u32>,
    done: Set<int>, comp: Seq<VId>, h: bool,
) -> bool {
    &&& forall|x: int, e: int| #[trigger] done.contains(x) && 0 <= e < adj[x]@.len()
        ==> done.contains(#[trigger] adj[x]@[e] as int)
    &&& forall|x: int, y: int| #[trigger] done.contains(x) && #[trigger] done.contains(y)
        && reach(adj, x, y) && reach(adj, y, x) ==> comp[x] == comp[y]
    &&& forall|k: int, e: int| 0 <= k < p.len() && 0 <= e < adj[p[k] as int]@.len() && #[trigger] settled(f, q, k, e)
        ==> done.contains(adj[p[k] as int]@[e] as int) || (p.contains(adj[p[k] as int]@[e])
            && low[p[k] as int] <= dfn[adj[p[k] as int]@[e] as int])
    &&& forall|a: int| 0 <= a < f.len() && (h || a < f.len() - 1) && (#[trigger] f[a]).cursor is AfterChild ==>
        dfn[adj[f[a].node as int]@[f[a].cursor->AfterChild_0 as int] as int] != UNSET
        || (a + 1 < f.len() && f[a + 1].cursor is FirstVisit)
    &&& h && f.len() > 0 && f.last().cursor is AfterChild ==> ({
        let x = f.last().node as int;
        let z = adj[x]@[f.last().cursor->AfterChild_0 as int];
        dfn[z as int] != UNSET && p.contains(z) && dfn[z as int] < dfn[x] ==> low[x] <= dfn[z as int]
    })
}

/// A set with no edge leaving it holds everything its members reach.
pub(crate) proof fn lemma_closed_reach(adj: Seq<Vec<VId>>, done: Set<int>, x: int, y: int, k: nat)
    requires
        table_wf(adj),
        forall|v: int, e: int| #[trigger] done.contains(v) && 0 <= e < adj[v]@.len()
            ==> done.contains(#[trigger] adj[v]@[e] as int),
        done.contains(x),
        has_path(table_graph(adj), x, y, k),
    ensures
        done.contains(y),
    decreases k,
{
    let g = table_graph(adj);
    let p = choose|p: Seq<int>| #[trigger] is_path(g, p) && p.len() == k + 1 && p[0] == x && p[p.len() - 1] == y;
    if k > 0 {
        let pp = p.drop_last();
        assert(is_path(g, pp));
        let w = pp[pp.len() - 1];
        assert(has_path(g, x, w, (k - 1) as nat));
        lemma_closed_reach(adj, done, x, w, (k - 1) as nat);
        assert(g[p[k - 1]].contains(p[k - 1 + 1] as VId));
        assert(adj[w]@.to_set().contains(y as VId));
        let e = choose|e: int| 0 <= e < adj[w]@.len() && adj[w]@[e] == y as VId;
        assert(0 <= y < g.len());
    }
}

pub(crate) proof fn lemma_complete_empty_path(
    adj: Seq<Vec<VId>>, f0: Seq<Frame>, q0: Seq<int>, f: Seq<Frame>, q: Seq<int>, dfn: Seq<u32>, low: Seq<u32>,
    done: Set<int>, comp: Seq<VId>,
)
    requires
        complete(adj, Seq::empty(), f0, q0, dfn, low, done, comp, true),
        f.len() == 1,
        f[0].cursor is FirstVisit,
    ensures
        complete(adj, Seq::empty(), f, q, dfn, low, done, comp, true),
{
    reveal(complete);
}

pub(crate) proof fn lemma_complete_push_first_visit(
    adj: Seq<Vec<VId>>, p: Seq<VId>, f: Seq<Frame>, q: Seq<int>, dfn: Seq<u32>, low: Seq<u32>,
    done: Set<int>, comp: Seq<VId>, v: VId,
)
    requires
        complete(adj, p, f, q, dfn, low, done, comp, false),
        f.len() > 0,
        f.len() == q.len(),
    ensures
        complete(adj, p, f.push(Frame { node: v, cursor: Cursor::FirstVisit }), q.push(0), dfn, low, done, comp, true),
{
    reveal(complete);
    let f2 = f.push(Frame { node: v, cursor: Cursor::FirstVisit });
    let q2 = q.push(0);
    assert forall|k: int, e: int| #[trigger] settled(f2, q2, k, e) implies settled(f, q, k, e) by {
        lemma_settled_push(f, q, Frame { node: v, cursor: Cursor::FirstVisit }, 0, k, e);
    }
    assert forall|a: int| 0 <= a < f2.len() && (#[trigger] f2[a]).cursor is AfterChild implies
        dfn[adj[f2[a].node as int]@[f2[a].cursor->AfterChild_0 as int] as int] != UNSET
        || (a + 1 < f2.len() && f2[a + 1].cursor is FirstVisit) by {
        assert(f2[a] == f[a]);
        if a < f.len() - 1 {
            assert(f2[a + 1] == f[a + 1]);
        }
    }
}

/// After the top frame `(x, i)` has looked at its child `z`, visited
/// before: `z` is completed, or on the path with `low[x] <= dfn[z]` once
/// folded.
pub(crate) proof fn lemma_complete_looked(
    adj: Seq<Vec<VId>>, p: Seq<VId>, f: Seq<Frame>, q: Seq<int>, dfn: Seq<u32>, low: Seq<u32>,
    done: Set<int>, comp: Seq<VId>, low2: Seq<u32>,
)
    requires
        complete(adj, p, f, q, dfn, low, done, comp, false),
        f.len() > 0,
        f.last().cursor is AfterChild,
        low2.len() == low.len(),
        forall|v: int| 0 <= v < low.len() ==> low2[v] <= low[v],
        forall|k: int| 0 <= k < p.len() ==> (#[trigger] p[k] as int) < low.len(),
        ({
            let x = f.last().node as int;
            let z = adj[x]@[f.last().cursor->AfterChild_0 as int];
            &&& dfn[z as int] != UNSET
            &&& (p.contains(z) ==> low2[x] <= dfn[z as int])
        }),
    ensures
        complete(adj, p, f, q, dfn, low2, done, comp, true),
{
    reveal(complete);
}

/// Discovering `u`, which has no edges, from the top frame: `u` is finished
/// at once.
#[verifier::rlimit(100)]
pub(crate) proof fn lemma_complete_push_leaf(
    adj: Seq<Vec<VId>>, p: Seq<VId>, f: Seq<Frame>, q: Seq<int>, dfn: Seq<u32>, low: Seq<u32>,
    done: Set<int>, comp: Seq<VId>, u: VId, t: u32, z: int,
)
    requires
        table_wf(adj),
        dfn.len() == adj.len(),
        low.len() == adj.len(),
        complete(adj, p, f.push(Frame { node: u, cursor: Cursor::FirstVisit }), q.push(z), dfn, low, done, comp, true),
        (u as int) < adj.len(),
        !done.contains(u as int),
        !p.contains(u),
        dfn[u as int] == UNSET,
        t < UNSET,
        forall|k: int| 0 <= k < p.len() ==> (#[trigger] p[k] as int) < adj.len() && dfn[p[k] as int] < t,
        frames_placed(adj, p, f, q),
        f.len() > 0 ==> (f.last().cursor matches Cursor::AfterChild(i) && u == adj[f.last().node as int]@[i as int]
            && (f.last().node as int) < adj.len()),
        adj[u as int]@.len() == 0,
    ensures
        complete(adj, p.push(u), f, q, dfn.update(u as int, t), low.update(u as int, t), done, comp, true),
{
    reveal(complete);
    let f1 = f.push(Frame { node: u, cursor: Cursor::FirstVisit });
    let q1 = q.push(z);
    let p2 = p.push(u);
    let dfn2 = dfn.update(u as int, t);
    let low2 = low.update(u as int, t);
    assert forall|k: int| 0 <= k < p.len() implies p[k] != u by {
        assert(p.contains(p[k]));
    }
    assert forall|k: int, e: int| 0 <= k < p2.len() && 0 <= e < adj[p2[k] as int]@.len() && #[trigger] settled(f, q, k, e)
        implies done.contains(adj[p2[k] as int]@[e] as int) || (p2.contains(adj[p2[k] as int]@[e])
            && low2[p2[k] as int] <= dfn2[adj[p2[k] as int]@[e] as int]) by {
        assert(k < p.len());
        assert(p2[k] == p[k]);
        lemma_settled_push(f, q, Frame { node: u, cursor: Cursor::FirstVisit }, z, k, e);
        let w = adj[p[k] as int]@[e];
        if !done.contains(w as int) {
            assert(p.contains(w));
            assert(w != u);
            let j = choose|j: int| 0 <= j < p.len() && p[j] == w;
            assert(p2[j] == w);
        }
    }
    assert forall|a: int| 0 <= a < f.len() && (#[trigger] f[a]).cursor is AfterChild implies
        dfn2[adj[f[a].node as int]@[f[a].cursor->AfterChild_0 as int] as int] != UNSET
        || (a + 1 < f.len() && f[a + 1].cursor is FirstVisit) by {
        assert(f1[a] == f[a]);
        let zz = adj[f[a].node as int]@[f[a].cursor->AfterChild_0 as int];
        assert((zz as int) < adj.len());
        if a < f.len() - 1 {
            assert(f1[a + 1] == f[a + 1]);
        } else {
            assert(f[a] == f.last());
        }
    }
    if f.len() > 0 && f.last().cursor is AfterChild {
        let x = f.last().node as int;
        assert(x != u as int) by {
            let top = f.len() - 1;
            assert(f[top] == f.last());
            assert(p[q[top]] == f[top].node);
        }
        let zz = adj[x]@[f.last().cursor->AfterChild_0 as int];
        assert(zz == u);
    }
}

/// Discovering `u` from the top frame and giving it its resumption frame at
/// the top of the path; its first child is still to be looked at.
#[verifier::rlimit(100)]
pub(crate) proof fn lemma_complete_push_vertex(
    adj: Seq<Vec<VId>>, p: Seq<VId>, f: Seq<Frame>, q: Seq<int>, dfn: Seq<u32>, low: Seq<u32>,
    done: Set<int>, comp: Seq<VId>, u: VId, t: u32, z: int,
)
    requires
        table_wf(adj),
        dfn.len() == adj.len(),
        low.len() == adj.len(),
        complete(adj, p, f.push(Frame { node: u, cursor: Cursor::FirstVisit }), q.push(z), dfn, low, done, comp, true),
        (u as int) < adj.len(),
        !done.contains(u as int),
        !p.contains(u),
        dfn[u as int] == UNSET,
        t < UNSET,
        forall|k: int| 0 <= k < p.len() ==> (#[trigger] p[k] as int) < adj.len() && dfn[p[k] as int] < t,
        frames_placed(adj, p, f, q),
        f.len() > 0 ==> (f.last().cursor matches Cursor::AfterChild(i) && u == adj[f.last().node as int]@[i as int]
            && (f.last().node as int) < adj.len()),
    ensures
        complete(adj, p.push(u), f.push(Frame { node: u, cursor: Cursor::AfterChild(0) }), q.push(p.len() as int),
            dfn.update(u as int, t), low.update(u as int, t), done, comp, false),
{
    reveal(complete);
    let f1 = f.push(Frame { node: u, cursor: Cursor::FirstVisit });
    let q1 = q.push(z);
    let p2 = p.push(u);
    let dfn2 = dfn.update(u as int, t);
    let low2 = low.update(u as int, t);
    assert forall|k: int| 0 <= k < p.len() implies p[k] != u by {
        assert(p.contains(p[k]));
    }
    let fr = Frame { node: u, cursor: Cursor::AfterChild(0) };
    let f3 = f.push(fr);
    let q3 = q.push(p.len() as int);
    assert forall|k: int, e: int| 0 <= k < p2.len() && 0 <= e < adj[p2[k] as int]@.len() && #[trigger] settled(f3, q3, k, e)
        implies done.contains(adj[p2[k] as int]@[e] as int) || (p2.contains(adj[p2[k] as int]@[e])
            && low2[p2[k] as int] <= dfn2[adj[p2[k] as int]@[e] as int]) by {
        if k < p.len() {
            assert(p2[k] == p[k]);
            lemma_settled_push(f, q, Frame { node: u, cursor: Cursor::FirstVisit }, z, k, e);
            lemma_settled_push(f, q, fr, p.len() as int, k, e);
            let w = adj[p[k] as int]@[e];
            if !done.contains(w as int) {
                assert(p.contains(w));
                assert(w != u);
                let j = choose|j: int| 0 <= j < p.len() && p[j] == w;
                assert(p2[j] == w);
            }
        } else {
            lemma_settled_top(f, q, u, 0, k, e);
        }
    }
    assert forall|a: int| 0 <= a < f3.len() - 1 && (#[trigger] f3[a]).cursor is AfterChild implies
        dfn2[adj[f3[a].node as int]@[f3[a].cursor->AfterChild_0 as int] as int] != UNSET
        || (a + 1 < f3.len() && f3[a + 1].cursor is FirstVisit) by {
        assert(f3[a] == f[a]);
        assert(f1[a] == f[a]);
        let zz = adj[f[a].node as int]@[f[a].cursor->AfterChild_0 as int];
        assert((zz as int) < adj.len());
        if a < f.len() - 1 {
            assert(f1[a + 1] == f[a + 1] && f3[a + 1] == f[a + 1]);
        } else {
            assert(f[a] == f.last());
        }
    }
}

pub(crate) proof fn lemma_sound_order(
    adj: Seq<Vec<VId>>, p: Seq<VId>, f: Seq<Frame>, q: Seq<int>, dfn: Seq<u32>, low: Seq<u32>,
    done: Set<int>, comp: Seq<VId>, m: int,
)
    requires
        sound(adj, p, f, q, dfn, low, done, comp, m),
    ensures
        forall|i: int, j: int| 0 <= i < j < p.len() ==> dfn[#[trigger] p[i] as int] < dfn[#[trigger] p[j] as int],
{
    reveal(sound);
}

/// Resuming the top frame `(x, i)` settles edge `i`: its target has been
/// visited, and is completed or bounds `x`'s low-link once folded; what was
/// settled before still holds with the folded low-links.
pub(crate) proof fn lemma_complete_resume_edges(
    adj: Seq<Vec<VId>>, p: Seq<VId>, f: Seq<Frame>, q: Seq<int>, dfn: Seq<u32>, low: Seq<u32>,
    done: Set<int>, comp: Seq<VId>, qu: int, i: usize, low2: Seq<u32>,
)
    requires
        table_wf(adj),
        dfn.len() == adj.len(),
        low.len() == adj.len(),
        low2.len() == adj.len(),
        complete(adj, p, f, q, dfn, low, done, comp, true),
        frames_placed(adj, p, f, q),
        forall|i1: int, j1: int| 0 <= i1 < j1 < p.len() ==> dfn[#[trigger] p[i1] as int] < dfn[#[trigger] p[j1] as int],
        forall|k: int| 0 <= k < p.len() ==> (#[trigger] p[k] as int) < adj.len() && low[p[k] as int] <= dfn[p[k] as int],
        forall|v: int| 0 <= v < adj.len() ==> dfn[v] == UNSET || #[trigger] done.contains(v) || p.contains(v as VId),
        f.len() > 0,
        f.last() == (Frame { node: p[qu], cursor: Cursor::AfterChild(i) }),
        q.last() == qu,
        0 <= qu < p.len(),
        low2 == (if dfn[adj[p[qu] as int]@[i as int] as int] > dfn[p[qu] as int]
            && low[adj[p[qu] as int]@[i as int] as int] < low[p[qu] as int] {
            low.update(p[qu] as int, low[adj[p[qu] as int]@[i as int] as int])
        } else {
            low
        }),
    ensures
        forall|v: int| 0 <= v < adj.len() ==> low2[v] <= low[v],
        done.contains(adj[p[qu] as int]@[i as int] as int) || (p.contains(adj[p[qu] as int]@[i as int])
            && low2[p[qu] as int] <= dfn[adj[p[qu] as int]@[i as int] as int]),
        forall|k: int, e: int| 0 <= k < p.len() && 0 <= e < adj[p[k] as int]@.len() && #[trigger] settled(f, q, k, e)
            ==> done.contains(adj[p[k] as int]@[e] as int) || (p.contains(adj[p[k] as int]@[e])
                && low2[p[k] as int] <= dfn[adj[p[k] as int]@[e] as int]),
        forall|x: int, e: int| #[trigger] done.contains(x) && 0 <= e < adj[x]@.len()
            ==> done.contains(#[trigger] adj[x]@[e] as int),
        forall|x: int, y: int| #[trigger] done.contains(x) && #[trigger] done.contains(y)
            && reach(adj, x, y) && reach(adj, y, x) ==> comp[x] == comp[y],
        forall|a: int| 0 <= a < f.len() && (#[trigger] f[a]).cursor is AfterChild ==>
            dfn[adj[f[a].node as int]@[f[a].cursor->AfterChild_0 as int] as int] != UNSET
            || (a + 1 < f.len() && f[a + 1].cursor is FirstVisit),
{
    reveal(complete);
    let x = p[qu] as int;
    let top = f.len() - 1;
    assert(f[top] == f.last());
    let zc = adj[x]@[i as int];
    assert((zc as int) < adj.len());
    assert forall|v: int| 0 <= v < adj.len() implies low2[v] <= low[v] by {}
    assert(dfn[zc as int] != UNSET);
    if !done.contains(zc as int) {
        assert(p.contains(zc));
        let j = choose|j: int| 0 <= j < p.len() && p[j] == zc;
        assert(low[p[j] as int] <= dfn[p[j] as int]);
    }
}

/// Resuming the top frame `(x, i)` when edges remain: the frame comes back
/// as `(x, i + 1)`, whose child is still to be looked at.
#[verifier::rlimit(100)]
pub(crate) proof fn lemma_complete_resume_more(
    adj: Seq<Vec<VId>>, p: Seq<VId>, f: Seq<Frame>, q: Seq<int>, dfn: Seq<u32>, low: Seq<u32>,
    done: Set<int>, comp: Seq<VId>, qu: int, i: usize, low2: Seq<u32>,
)
    requires
        table_wf(adj),
        dfn.len() == adj.len(),
        low.len() == adj.len(),
        low2.len() == adj.len(),
        complete(adj, p, f, q, dfn, low, done, comp, true),
        frames_placed(adj, p, f, q),
        forall|i1: int, j1: int| 0 <= i1 < j1 < p.len() ==> dfn[#[trigger] p[i1] as int] < dfn[#[trigger] p[j1] as int],
        forall|k: int| 0 <= k < p.len() ==> (#[trigger] p[k] as int) < adj.len() && low[p[k] as int] <= dfn[p[k] as int],
        forall|v: int| 0 <= v < adj.len() ==> dfn[v] == UNSET || #[trigger] done.contains(v) || p.contains(v as VId),
        f.len() > 0,
        f.last() == (Frame { node: p[qu], cursor: Cursor::AfterChild(i) }),
        q.last() == qu,
        0 <= qu < p.len(),
        low2 == (if dfn[adj[p[qu] as int]@[i as int] as int] > dfn[p[qu] as int]
            && low[adj[p[qu] as int]@[i as int] as int] < low[p[qu] as int] {
            low.update(p[qu] as int, low[adj[p[qu] as int]@[i as int] as int])
        } else {
            low
        }),
        i + 1 < adj[p[qu] as int]@.len(),
    ensures
        complete(adj, p, f.drop_last().push(Frame { node: p[qu], cursor: Cursor::AfterChild((i + 1) as usize) }),
            q.drop_last().push(qu), dfn, low2, done, comp, false),
{
    lemma_complete_resume_edges(adj, p, f, q, dfn, low, done, comp, qu, i, low2);
    reveal(complete);
    let top = f.len() - 1;
    let f1 = f.drop_last();
    let q1 = q.drop_last();
    assert(f =~= f1.push(Frame { node: p[qu], cursor: Cursor::AfterChild(i) }));
    assert(q =~= q1.push(qu));
    assert(f[top] == f.last());
    assert forall|a: int| 0 <= a < f1.len() && (#[trigger] f1[a]).cursor is AfterChild implies q1[a] != qu by {
        assert(f1[a] == f[a] && q1[a] == q[a]);
        assert(q[a] < q[top]);
    }
    let next = (i + 1) as usize;
    let f2 = f1.push(Frame { node: p[qu], cursor: Cursor::AfterChild(next) });
    let q2 = q1.push(qu);
    assert forall|k: int, e: int| 0 <= k < p.len() && 0 <= e < adj[p[k] as int]@.len() && #[trigger] settled(f2, q2, k, e)
        implies done.contains(adj[p[k] as int]@[e] as int) || (p.contains(adj[p[k] as int]@[e])
            && low2[p[k] as int] <= dfn[adj[p[k] as int]@[e] as int]) by {
        if k == qu {
            lemma_settled_top(f1, q1, p[qu], next, qu, e);
            lemma_settled_top(f1, q1, p[qu], i, qu, e);
        } else {
            lemma_settled_push(f1, q1, Frame { node: p[qu], cursor: Cursor::AfterChild(i) }, qu, k, e);
            lemma_settled_push(f1, q1, Frame { node: p[qu], cursor: Cursor::AfterChild(next) }, qu, k, e);
        }
    }
    assert forall|a: int| 0 <= a < f2.len() - 1 && (#[trigger] f2[a]).cursor is AfterChild implies
        dfn[adj[f2[a].node as int]@[f2[a].cursor->AfterChild_0 as int] as int] != UNSET
        || (a + 1 < f2.len() && f2[a + 1].cursor is FirstVisit) by {
        assert(f2[a] == f[a]);
        if a + 1 < f1.len() {
            assert(f2[a + 1] == f[a + 1]);
        } else {
            assert(f[a + 1] == f.last());
        }
    }
}

/// Resuming the top frame `(x, i)` after its last edge: `x` is finished and
/// the frame below, whose child is `x`, is on top again.
#[verifier::rlimit(100)]
pub(crate) proof fn lemma_complete_resume_last(
    adj: Seq<Vec<VId>>, p: Seq<VId>, f: Seq<Frame>, q: Seq<int>, dfn: Seq<u32>, low: Seq<u32>,
    done: Set<int>, comp: Seq<VId>, qu: int, i: usize, low2: Seq<u32>,
)
    requires
        table_wf(adj),
        dfn.len() == adj.len(),
        low.len() == adj.len(),
        low2.len() == adj.len(),
        complete(adj, p, f, q, dfn, low, done, comp, true),
        frames_placed(adj, p, f, q),
        forall|i1: int, j1: int| 0 <= i1 < j1 < p.len() ==> dfn[#[trigger] p[i1] as int] < dfn[#[trigger] p[j1] as int],
        forall|k: int| 0 <= k < p.len() ==> (#[trigger] p[k] as int) < adj.len() && low[p[k] as int] <= dfn[p[k] as int],
        forall|v: int| 0 <= v < adj.len() ==> dfn[v] == UNSET || #[trigger] done.contains(v) || p.contains(v as VId),
        f.len() > 0,
        f.last() == (Frame { node: p[qu], cursor: Cursor::AfterChild(i) }),
        q.last() == qu,
        0 <= qu < p.len(),
        low2 == (if dfn[adj[p[qu] as int]@[i as int] as int] > dfn[p[qu] as int]
            && low[adj[p[qu] as int]@[i as int] as int] < low[p[qu] as int] {
            low.update(p[qu] as int, low[adj[p[qu] as int]@[i as int] as int])
        } else {
            low
        }),
        i + 1 >= adj[p[qu] as int]@.len(),
        f.len() > 1 ==> (f.drop_last().last().cursor matches Cursor::AfterChild(c)
            && p[qu] == adj[f.drop_last().last().node as int]@[c as int]),
    ensures
        complete(adj, p, f.drop_last(), q.drop_last(), dfn, low2, done, comp, true),
{
    lemma_complete_resume_edges(adj, p, f, q, dfn, low, done, comp, qu, i, low2);
    reveal(complete);
    let top = f.len() - 1;
    let f1 = f.drop_last();
    let q1 = q.drop_last();
    assert(f =~= f1.push(Frame { node: p[qu], cursor: Cursor::AfterChild(i) }));
    assert(q =~= q1.push(qu));
    assert(f[top] == f.last());
    assert forall|a: int| 0 <= a < f1.len() && (#[trigger] f1[a]).cursor is AfterChild implies q1[a] != qu by {
        assert(f1[a] == f[a] && q1[a] == q[a]);
        assert(q[a] < q[top]);
    }
    assert forall|k: int, e: int| 0 <= k < p.len() && 0 <= e < adj[p[k] as int]@.len() && #[trigger] settled(f1, q1, k, e)
        implies done.contains(adj[p[k] as int]@[e] as int) || (p.contains(adj[p[k] as int]@[e])
            && low2[p[k] as int] <= dfn[adj[p[k] as int]@[e] as int]) by {
        if k == qu {
            lemma_settled_top(f1, q1, p[qu], i, qu, e);
        } else {
            lemma_settled_push(f1, q1, Frame { node: p[qu], cursor: Cursor::AfterChild(i) }, qu, k, e);
        }
    }
    assert forall|a: int| 0 <= a < f1.len() && (#[trigger] f1[a]).cursor is AfterChild implies
        dfn[adj[f1[a].node as int]@[f1[a].cursor->AfterChild_0 as int] as int] != UNSET
        || (a + 1 < f1.len() && f1[a + 1].cursor is FirstVisit) by {
        assert(f1[a] == f[a]);
        if a + 1 < f1.len() {
            assert(f1[a + 1] == f[a + 1]);
        } else {
            assert(f[a + 1] == f.last());
        }
    }
    if f1.len() > 0 {
        let pt = f1.len() - 1;
        assert(f1[pt] == f1.last());
        assert(f1[pt] == f[pt]);
        assert(q[pt] < q[top]);
        assert(dfn[p[q[pt]] as int] < dfn[p[qu] as int]);
    }
}

/// When `u`, at position `qr`, is a root, the popped vertices only have
/// edges into completed vertices or each other, and none of them is reached
/// from a vertex completed before; so completing them keeps every
/// completeness fact.
#[verifier::rlimit(100)]
pub(crate) proof fn lemma_complete_pop_root(
    adj: Seq<Vec<VId>>, p: Seq<VId>, f: Seq<Frame>, q: Seq<int>, dfn: Seq<u32>, low: Seq<u32>,
    done: Set<int>, comp: Seq<VId>, qr: int, done2: Set<int>, comp2: Seq<VId>, c0: VId,
)
    requires
        table_wf(adj),
        dfn.len() == adj.len(),
        low.len() == adj.len(),
        complete(adj, p, f, q, dfn, low, done, comp, true),
        forall|i1: int, j1: int| 0 <= i1 < j1 < p.len() ==> dfn[#[trigger] p[i1] as int] < dfn[#[trigger] p[j1] as int],
        forall|k: int| 0 <= k < p.len() ==> (#[trigger] p[k] as int) < adj.len(),
        f.len() == q.len(),
        0 <= qr < p.len(),
        low[p[qr] as int] == dfn[p[qr] as int],
        forall|a: int| 0 <= a < f.len() && (#[trigger] f[a]).cursor is AfterChild ==> q[a] < qr,
        forall|k: int| qr <= k < p.len() ==> low[p[qr] as int] <= low[#[trigger] p[k] as int],
        forall|x: int| #[trigger] done2.contains(x) ==> done.contains(x)
            || exists|k: int| qr <= k < p.len() && p[k] as int == x,
        forall|x: int| #[trigger] done.contains(x) ==> done2.contains(x) && comp2[x] == comp[x] && comp[x] != c0,
        forall|k: int| qr <= k < p.len() ==> done2.contains(#[trigger] p[k] as int) && comp2[p[k] as int] == c0,
        forall|x: int| #[trigger] done.contains(x) ==> !p.contains(x as VId),
    ensures
        complete(adj, p.subrange(0, qr), f, q, dfn, low, done2, comp2, true),
{
    reveal(complete);
    let p2 = p.subrange(0, qr);
    let u = p[qr] as int;
    // Edges out of the popped vertices stay within the completed vertices.
    assert forall|x: int, e: int| #[trigger] done2.contains(x) && 0 <= e < adj[x]@.len()
        implies done2.contains(#[trigger] adj[x]@[e] as int) by {
        if !done.contains(x) {
            let k = choose|k: int| qr <= k < p.len() && p[k] as int == x;
            lemma_settled_top(f, q, p[k], 0, k, e);
            assert(settled(f, q, k, e));
            let z = adj[x]@[e];
            if !done.contains(z as int) {
                assert(p.contains(z));
                let j = choose|j: int| 0 <= j < p.len() && p[j] == z;
                if j < qr {
                    assert(dfn[p[j] as int] < dfn[p[qr] as int]);
                    assert(low[p[qr] as int] <= low[p[k] as int]);
                } else {
                    assert(done2.contains(p[j] as int));
                }
            }
        }
    }
    assert forall|x: int, y: int| #[trigger] done2.contains(x) && #[trigger] done2.contains(y)
        && reach(adj, x, y) && reach(adj, y, x) implies comp2[x] == comp2[y] by {
        if done.contains(x) && !done.contains(y) {
            reveal(reach);
            let k = choose|k: nat| #[trigger] has_path(table_graph(adj), x, y, k);
            lemma_closed_reach(adj, done, x, y, k);
        } else if !done.contains(x) && done.contains(y) {
            reveal(reach);
            let k = choose|k: nat| #[trigger] has_path(table_graph(adj), y, x, k);
            lemma_closed_reach(adj, done, y, x, k);
        } else if !done.contains(x) && !done.contains(y) {
            let kx = choose|k: int| qr <= k < p.len() && p[k] as int == x;
            let ky = choose|k: int| qr <= k < p.len() && p[k] as int == y;
        }
    }
    assert forall|k: int, e: int| 0 <= k < p2.len() && 0 <= e < adj[p2[k] as int]@.len() && #[trigger] settled(f, q, k, e)
        implies done2.contains(adj[p2[k] as int]@[e] as int) || (p2.contains(adj[p2[k] as int]@[e])
            && low[p2[k] as int] <= dfn[adj[p2[k] as int]@[e] as int]) by {
        assert(p2[k] == p[k]);
        let z = adj[p[k] as int]@[e];
        if !done.contains(z as int) {
            let j = choose|j: int| 0 <= j < p.len() && p[j] == z;
            if j < qr {
                assert(p2[j] == z);
            } else {
                assert(done2.contains(p[j] as int));
            }
        }
    }
    if f.len() > 0 && f.last().cursor is AfterChild {
        let x = f.last().node as int;
        let z = adj[x]@[f.last().cursor->AfterChild_0 as int];
        if p2.contains(z) {
            let j = choose|j: int| 0 <= j < p2.len() && p2[j] == z;
            assert(p[j] == z);
        }
    }
}

} // verus!
