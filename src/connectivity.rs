//! Undirected connectivity: walks over a symmetric-closed adjacency relation,
//! and the facts that union-find relies on.
use vstd::prelude::*;
use crate::types::VId;
use crate::graph::GraphModel;

verus! {

/// `p` is a walk: a nonempty sequence whose consecutive entries are related.
pub open spec fn is_walk(rel: spec_fn(int, int) -> bool, p: Seq<int>) -> bool {
    &&& p.len() >= 1
    &&& forall|i: int| 0 <= i < p.len() - 1 ==> #[trigger] rel(p[i], p[i + 1])
}

/// Some walk leads from `u` to `w`.
pub open spec fn joined(rel: spec_fn(int, int) -> bool, u: int, w: int) -> bool {
    exists|p: Seq<int>| #[trigger] is_walk(rel, p) && p[0] == u && p[p.len() - 1] == w
}

/// Edge `e` joins `u` and `w`, in either direction.
pub open spec fn touches(e: (VId, VId), u: int, w: int) -> bool {
    (e.0 as int == u && e.1 as int == w) || (e.0 as int == w && e.1 as int == u)
}

/// The undirected adjacency of an edge list.
pub open spec fn edge_rel(es: Seq<(VId, VId)>) -> spec_fn(int, int) -> bool {
    |u: int, w: int| exists|k: int| 0 <= k < es.len() && #[trigger] touches(es[k], u, w)
}

/// The adjacency of a graph with edge direction ignored.
pub open spec fn undirected_rel(g: GraphModel) -> spec_fn(int, int) -> bool {
    |u: int, w: int|
        0 <= u < g.len() && 0 <= w < g.len() && (g[u].contains(w as VId) || g[w].contains(u as VId))
}

/// `u` and `w` are connected in `g` when edge direction is ignored.
pub open spec fn weakly_connected(g: GraphModel, u: int, w: int) -> bool {
    joined(undirected_rel(g), u, w)
}

pub proof fn lemma_joined_refl(rel: spec_fn(int, int) -> bool, u: int)
    ensures
        joined(rel, u, u),
{
    let p = seq![u];
    assert(is_walk(rel, p));
}

pub proof fn lemma_joined_step(rel: spec_fn(int, int) -> bool, u: int, w: int)
    requires
        rel(u, w),
    ensures
        joined(rel, u, w),
{
    let p = seq![u, w];
    assert forall|i: int| 0 <= i < p.len() - 1 implies #[trigger] rel(p[i], p[i + 1]) by {
        assert(i == 0);
    }
    assert(is_walk(rel, p));
}

pub proof fn lemma_joined_symm(rel: spec_fn(int, int) -> bool, u: int, w: int)
    requires
        joined(rel, u, w),
        forall|a: int, b: int| #[trigger] rel(a, b) ==> rel(b, a),
    ensures
        joined(rel, w, u),
{
    let p = choose|p: Seq<int>| #[trigger] is_walk(rel, p) && p[0] == u && p[p.len() - 1] == w;
    let q = Seq::new(p.len(), |i: int| p[p.len() - 1 - i]);
    assert forall|i: int| 0 <= i < q.len() - 1 implies #[trigger] rel(q[i], q[i + 1]) by {
        let j = p.len() - 2 - i;
        assert(rel(p[j], p[j + 1]));
    }
    assert(is_walk(rel, q));
}

pub proof fn lemma_joined_trans(rel: spec_fn(int, int) -> bool, u: int, v: int, w: int)
    requires
        joined(rel, u, v),
        joined(rel, v, w),
    ensures
        joined(rel, u, w),
{
    let p1 = choose|p: Seq<int>| #[trigger] is_walk(rel, p) && p[0] == u && p[p.len() - 1] == v;
    let p2 = choose|p: Seq<int>| #[trigger] is_walk(rel, p) && p[0] == v && p[p.len() - 1] == w;
    let q = p1 + p2.subrange(1, p2.len() as int);
    assert forall|i: int| 0 <= i < q.len() - 1 implies #[trigger] rel(q[i], q[i + 1]) by {
        if i < p1.len() - 1 {
            assert(rel(p1[i], p1[i + 1]));
        } else if i == p1.len() - 1 {
            assert(rel(p2[0], p2[0int + 1]));
            assert(q[i] == p2[0] && q[i + 1] == p2[1]);
        } else {
            let j = i - p1.len() + 1;
            assert(rel(p2[j], p2[j + 1]));
        }
    }
    assert(is_walk(rel, q));
}

/// A walk under a relation is a walk under any relation that contains it.
pub proof fn lemma_joined_mono(r1: spec_fn(int, int) -> bool, r2: spec_fn(int, int) -> bool, u: int, w: int)
    requires
        joined(r1, u, w),
        forall|a: int, b: int| #[trigger] r1(a, b) ==> r2(a, b),
    ensures
        joined(r2, u, w),
{
    let p = choose|p: Seq<int>| #[trigger] is_walk(r1, p) && p[0] == u && p[p.len() - 1] == w;
    assert forall|i: int| 0 <= i < p.len() - 1 implies #[trigger] r2(p[i], p[i + 1]) by {
        assert(r1(p[i], p[i + 1]));
    }
    assert(is_walk(r2, p));
}

pub proof fn lemma_edge_rel_symm(es: Seq<(VId, VId)>)
    ensures
        forall|a: int, b: int| #[trigger] edge_rel(es)(a, b) ==> edge_rel(es)(b, a),
{
    assert forall|a: int, b: int| #[trigger] edge_rel(es)(a, b) implies edge_rel(es)(b, a) by {
        let k = choose|k: int| 0 <= k < es.len() && #[trigger] touches(es[k], a, b);
        assert(touches(es[k], b, a));
    }
}

/// Without edges, each vertex is joined to itself only.
pub proof fn lemma_joined_no_edges(u: int, w: int)
    ensures
        joined(edge_rel(Seq::<(VId, VId)>::empty()), u, w) <==> u == w,
{
    let rel = edge_rel(Seq::<(VId, VId)>::empty());
    if joined(rel, u, w) {
        let p = choose|p: Seq<int>| #[trigger] is_walk(rel, p) && p[0] == u && p[p.len() - 1] == w;
        if p.len() > 1 {
            assert(rel(p[0], p[0int + 1]));
        }
    }
    if u == w {
        lemma_joined_refl(rel, u);
    }
}

proof fn lemma_push_prefix(es: Seq<(VId, VId)>, e: (VId, VId), rel: spec_fn(int, int) -> bool, x: int, p: Seq<int>, j: int)
    requires
        rel == edge_rel(es.push(e)),
        is_walk(rel, p),
        p[0] == x,
        0 <= j < p.len(),
    ensures
        ({
            let old_rel = edge_rel(es);
            let a = e.0 as int;
            let b = e.1 as int;
            joined(old_rel, x, p[j]) || (joined(old_rel, x, a) && joined(old_rel, b, p[j]))
                || (joined(old_rel, x, b) && joined(old_rel, a, p[j]))
        }),
    decreases j,
{
    let old_rel = edge_rel(es);
    let a = e.0 as int;
    let b = e.1 as int;
    lemma_edge_rel_symm(es);
    if j == 0 {
        lemma_joined_refl(old_rel, x);
    } else {
        lemma_push_prefix(es, e, rel, x, p, j - 1);
        let s = p[j - 1];
        let t = p[j];
        assert(rel(p[j - 1], p[j - 1 + 1]));
        let k = choose|k: int| 0 <= k < es.push(e).len() && #[trigger] touches(es.push(e)[k], s, t);
        if k < es.len() {
            assert(touches(es[k], s, t));
            assert(old_rel(s, t));
            lemma_joined_step(old_rel, s, t);
            if joined(old_rel, x, s) {
                lemma_joined_trans(old_rel, x, s, t);
            } else if joined(old_rel, x, a) && joined(old_rel, b, s) {
                lemma_joined_trans(old_rel, b, s, t);
            } else {
                lemma_joined_trans(old_rel, a, s, t);
            }
        } else {
            assert(es.push(e)[k] == e);
            lemma_joined_refl(old_rel, a);
            lemma_joined_refl(old_rel, b);
            if s == a && t == b {
                if joined(old_rel, x, s) {
                } else if joined(old_rel, x, a) && joined(old_rel, b, s) {
                    lemma_joined_symm(old_rel, b, s);
                    lemma_joined_trans(old_rel, x, a, b);
                    assert(joined(old_rel, x, t));
                }
            } else {
                assert(s == b && t == a);
                if joined(old_rel, x, s) {
                } else if joined(old_rel, x, a) && joined(old_rel, b, s) {
                    lemma_joined_symm(old_rel, b, s);
                    assert(joined(old_rel, x, t));
                } else {
                    lemma_joined_symm(old_rel, a, s);
                    lemma_joined_trans(old_rel, x, b, a);
                }
            }
        }
    }
}

/// Adding edge `(a, b)` joins `x` and `y` exactly when they were joined
/// already, or one was joined to `a` and the other to `b`.
pub proof fn lemma_joined_push(es: Seq<(VId, VId)>, e: (VId, VId), x: int, y: int)
    ensures
        ({
            let old_rel = edge_rel(es);
            let a = e.0 as int;
            let b = e.1 as int;
            joined(edge_rel(es.push(e)), x, y) <==> (joined(old_rel, x, y)
                || (joined(old_rel, x, a) && joined(old_rel, b, y))
                || (joined(old_rel, x, b) && joined(old_rel, a, y)))
        }),
{
    let rel = edge_rel(es.push(e));
    let old_rel = edge_rel(es);
    let a = e.0 as int;
    let b = e.1 as int;
    if joined(rel, x, y) {
        let p = choose|p: Seq<int>| #[trigger] is_walk(rel, p) && p[0] == x && p[p.len() - 1] == y;
        lemma_push_prefix(es, e, rel, x, p, p.len() - 1);
    }
    assert forall|u: int, w: int| #[trigger] old_rel(u, w) implies rel(u, w) by {
        let k = choose|k: int| 0 <= k < es.len() && #[trigger] touches(es[k], u, w);
        assert(es.push(e)[k] == es[k]);
    }
    assert(rel(a, b)) by {
        assert(touches(es.push(e)[es.len() as int], a, b));
    }
    assert(rel(b, a)) by {
        assert(touches(es.push(e)[es.len() as int], b, a));
    }
    if joined(old_rel, x, y) {
        lemma_joined_mono(old_rel, rel, x, y);
    } else if joined(old_rel, x, a) && joined(old_rel, b, y) {
        lemma_joined_mono(old_rel, rel, x, a);
        lemma_joined_mono(old_rel, rel, b, y);
        lemma_joined_step(rel, a, b);
        lemma_joined_trans(rel, x, a, b);
        lemma_joined_trans(rel, x, b, y);
    } else if joined(old_rel, x, b) && joined(old_rel, a, y) {
        lemma_joined_mono(old_rel, rel, x, b);
        lemma_joined_mono(old_rel, rel, a, y);
        lemma_joined_step(rel, b, a);
        lemma_joined_trans(rel, x, b, a);
        lemma_joined_trans(rel, x, a, y);
    }
}

} // verus!
