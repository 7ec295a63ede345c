//! Weakly connected components: the resolved out-edges of every vertex are
//! gathered in parallel, then merged by a union-find with path compression
//! and union by rank.
use vstd::prelude::*;
use rayon::iter::{IntoParallelIterator, ParallelIterator};
use crate::types::VId;
use crate::graph::LsmCommunity;
use crate::connectivity::{
    joined, edge_rel, undirected_rel, weakly_connected, touches, lemma_joined_push,
    lemma_joined_no_edges, lemma_joined_symm, lemma_joined_mono, lemma_edge_rel_symm,
};

verus! {

/// The parent array is a forest whose ranks grow strictly toward the roots.
pub open spec fn uf_wf(p: Seq<VId>, r: Seq<usize>) -> bool {
    &&& p.len() == r.len()
    &&& forall|i: int| 0 <= i < p.len() ==> (#[trigger] p[i] as int) < p.len()
    &&& forall|i: int| 0 <= i < p.len() && p[i] as int != i ==> r[i] < #[trigger] r[p[i] as int]
}

/// The root of `x`'s tree.
pub open spec fn root(p: Seq<VId>, r: Seq<usize>, x: int) -> int
    decreases usize::MAX - r[x],
    when uf_wf(p, r) && 0 <= x < p.len()
{
    if p[x] as int == x {
        x
    } else {
        root(p, r, p[x] as int)
    }
}

proof fn lemma_root_is_root(p: Seq<VId>, r: Seq<usize>, x: int)
    requires
        uf_wf(p, r),
        0 <= x < p.len(),
    ensures
        0 <= root(p, r, x) < p.len(),
        p[root(p, r, x)] as int == root(p, r, x),
        root(p, r, root(p, r, x)) == root(p, r, x),
    decreases usize::MAX - r[x],
{
    if p[x] as int != x {
        lemma_root_is_root(p, r, p[x] as int);
    }
}

/// Pointing `x` at its grandparent changes no vertex's root.
proof fn lemma_compress(p: Seq<VId>, r: Seq<usize>, x: int, z: int)
    requires
        uf_wf(p, r),
        0 <= x < p.len(),
        0 <= z < p.len(),
        uf_wf(p.update(x, p[p[x] as int]), r),
    ensures
        root(p.update(x, p[p[x] as int]), r, z) == root(p, r, z),
    decreases usize::MAX - r[z],
{
    let q = p.update(x, p[p[x] as int]);
    if q[z] as int != z {
        lemma_compress(p, r, x, q[z] as int);
        if z == x && p[x] as int != x {
            let px = p[x] as int;
            if p[px] as int != px {
                assert(root(p, r, px) == root(p, r, p[px] as int));
            }
        }
    } else if z == x && p[x] as int != x {
        let px = p[x] as int;
        assert(p[px] as int == x);
        assert(false);
    }
}

/// Hanging root `a` under root `b` sends every vertex of `a`'s tree to `b`.
proof fn lemma_link(p: Seq<VId>, r: Seq<usize>, r2: Seq<usize>, a: int, b: int, z: int)
    requires
        uf_wf(p, r),
        0 <= a < p.len(),
        0 <= b < p.len(),
        a != b,
        p[a] as int == a,
        p[b] as int == b,
        uf_wf(p.update(a, b as VId), r2),
        0 <= z < p.len(),
    ensures
        root(p.update(a, b as VId), r2, z) == (if root(p, r, z) == a { b } else { root(p, r, z) }),
    decreases usize::MAX - r2[z],
{
    let q = p.update(a, b as VId);
    if z == a {
        assert(q[b] as int == b);
        assert(root(q, r2, b) == b);
        assert(root(q, r2, a) == root(q, r2, b));
    } else if p[z] as int != z {
        assert(q[z] == p[z]);
        assert(r2[z] < r2[q[z] as int]);
        lemma_link(p, r, r2, a, b, p[z] as int);
        assert(root(q, r2, z) == root(q, r2, q[z] as int));
        assert(root(p, r, z) == root(p, r, p[z] as int));
    } else {
        assert(q[z] == p[z]);
        assert(root(q, r2, z) == z);
    }
}

/// Follows parent links from `x` to its root, pointing each vertex passed at
/// its grandparent on the way.
fn find(parent: &mut Vec<VId>, rank: &Vec<usize>, x: VId) -> (rt: VId)
    requires
        uf_wf(old(parent)@, rank@),
        (x as int) < old(parent)@.len(),
    ensures
        uf_wf(final(parent)@, rank@),
        final(parent)@.len() == old(parent)@.len(),
        rt as int == root(old(parent)@, rank@, x as int),
        forall|z: int| 0 <= z < old(parent)@.len() ==>
            root(final(parent)@, rank@, z) == #[trigger] root(old(parent)@, rank@, z),
{
    let mut cur = x;
    while parent[cur as usize] != cur
        invariant
            uf_wf(parent@, rank@),
            uf_wf(old(parent)@, rank@),
            (x as int) < old(parent)@.len(),
            parent@.len() == old(parent)@.len(),
            (cur as int) < parent@.len(),
            root(parent@, rank@, cur as int) == root(old(parent)@, rank@, x as int),
            forall|z: int| 0 <= z < old(parent)@.len() ==>
                root(parent@, rank@, z) == #[trigger] root(old(parent)@, rank@, z),
        decreases usize::MAX - rank@[cur as int],
    {
        let next = parent[cur as usize];
        let grand = parent[next as usize];
        let ghost before = parent@;
        parent.set(cur as usize, grand);
        proof {
            assert(parent@ == before.update(cur as int, before[before[cur as int] as int]));
            assert forall|z: int| 0 <= z < before.len() implies
                root(parent@, rank@, z) == #[trigger] root(before, rank@, z) by {
                lemma_compress(before, rank@, cur as int, z);
            }
            assert(root(before, rank@, cur as int) == root(before, rank@, next as int));
        }
        cur = next;
    }
    assert(root(parent@, rank@, cur as int) == cur as int);
    cur
}

/// Merges the trees of `x` and `y`: the root of lower rank goes under the
/// other; on a tie `y`'s root goes under `x`'s, whose rank grows by one.
fn union(parent: &mut Vec<VId>, rank: &mut Vec<usize>, x: VId, y: VId)
    requires
        uf_wf(old(parent)@, old(rank)@),
        (x as int) < old(parent)@.len(),
        (y as int) < old(parent)@.len(),
        forall|i: int| 0 <= i < old(rank)@.len() ==> #[trigger] old(rank)@[i] < usize::MAX,
    ensures
        uf_wf(final(parent)@, final(rank)@),
        final(parent)@.len() == old(parent)@.len(),
        final(rank)@.len() == old(rank)@.len(),
        forall|i: int| 0 <= i < final(rank)@.len() ==>
            #[trigger] final(rank)@[i] <= old(rank)@[i] + 1,
        root(final(parent)@, final(rank)@, x as int) == root(old(parent)@, old(rank)@, x as int)
            || root(final(parent)@, final(rank)@, x as int) == root(old(parent)@, old(rank)@, y as int),
        forall|z: int| 0 <= z < old(parent)@.len() ==> {
            let rx = root(old(parent)@, old(rank)@, x as int);
            let ry = root(old(parent)@, old(rank)@, y as int);
            let rz = root(old(parent)@, old(rank)@, z);
            let nz = #[trigger] root(final(parent)@, final(rank)@, z);
            &&& (rz == rx || rz == ry) ==> (nz == root(final(parent)@, final(rank)@, x as int)
                && nz == root(final(parent)@, final(rank)@, y as int))
            &&& (rz != rx && rz != ry) ==> nz == rz
        },
{
    let root_x = find(parent, rank, x);
    let root_y = find(parent, rank, y);
    let ghost p0 = parent@;
    let ghost r0 = rank@;
    proof {
        lemma_root_is_root(p0, r0, x as int);
        lemma_root_is_root(p0, r0, y as int);
    }
    if root_x != root_y {
        let rkx = rank[root_x as usize];
        let rky = rank[root_y as usize];
        if rkx < rky {
            parent.set(root_x as usize, root_y);
            proof {
                assert forall|z: int| 0 <= z < p0.len() implies
                    root(parent@, rank@, z) == (if root(p0, r0, z) == root_x as int { root_y as int } else { root(p0, r0, z) }) by {
                    lemma_link(p0, r0, rank@, root_x as int, root_y as int, z);
                }
            }
        } else if rkx > rky {
            parent.set(root_y as usize, root_x);
            proof {
                assert forall|z: int| 0 <= z < p0.len() implies
                    root(parent@, rank@, z) == (if root(p0, r0, z) == root_y as int { root_x as int } else { root(p0, r0, z) }) by {
                    lemma_link(p0, r0, rank@, root_y as int, root_x as int, z);
                }
            }
        } else {
            parent.set(root_y as usize, root_x);
            rank.set(root_x as usize, rkx + 1);
            proof {
                assert(parent@ == p0.update(root_y as int, root_x));
                assert forall|z: int| 0 <= z < p0.len() implies
                    root(parent@, rank@, z) == (if root(p0, r0, z) == root_y as int { root_x as int } else { root(p0, r0, z) }) by {
                    lemma_link(p0, r0, rank@, root_y as int, root_x as int, z);
                }
            }
        }
    }
}

/// Every endpoint of every edge is a vertex below `n`.
pub open spec fn edges_in_range(es: Seq<(VId, VId)>, n: nat) -> bool {
    forall|k: int| 0 <= k < es.len() ==> (#[trigger] es[k]).0 < n && es[k].1 < n
}

/// `r` labels each of the `n` vertices with a representative: two vertices
/// share a label exactly when the edges join them, with direction ignored,
/// and each label is a vertex that carries its own label.
pub open spec fn is_component_labelling(n: nat, es: Seq<(VId, VId)>, r: Seq<VId>) -> bool {
    &&& r.len() == n
    &&& forall|x: int| 0 <= x < n ==> (#[trigger] r[x] as int) < n && r[r[x] as int] == r[x]
    &&& forall|x: int, y: int| 0 <= x < n && 0 <= y < n ==>
        (#[trigger] r[x] == #[trigger] r[y] <==> joined(edge_rel(es), x, y))
}

proof fn lemma_union_step(
    p0: Seq<VId>, r0: Seq<usize>, p1: Seq<VId>, r1: Seq<usize>, es: Seq<(VId, VId)>, e: (VId, VId),
)
    requires
        uf_wf(p0, r0),
        uf_wf(p1, r1),
        p1.len() == p0.len(),
        (e.0 as int) < p0.len(),
        (e.1 as int) < p0.len(),
        forall|x: int, y: int| 0 <= x < p0.len() && 0 <= y < p0.len() ==>
            (root(p0, r0, x) == root(p0, r0, y) <==> joined(edge_rel(es), x, y)),
        ({
            let ra = root(p0, r0, e.0 as int);
            let rb = root(p0, r0, e.1 as int);
            let na = root(p1, r1, e.0 as int);
            &&& na == ra || na == rb
            &&& forall|z: int| 0 <= z < p0.len() ==> {
                let rz = root(p0, r0, z);
                let nz = #[trigger] root(p1, r1, z);
                &&& (rz == ra || rz == rb) ==> (nz == na && nz == root(p1, r1, e.1 as int))
                &&& (rz != ra && rz != rb) ==> nz == rz
            }
        }),
    ensures
        forall|x: int, y: int| 0 <= x < p0.len() && 0 <= y < p0.len() ==>
            (root(p1, r1, x) == root(p1, r1, y) <==> joined(edge_rel(es.push(e)), x, y)),
{
    let a = e.0 as int;
    let b = e.1 as int;
    let rel = edge_rel(es);
    lemma_edge_rel_symm(es);
    assert forall|x: int, y: int| 0 <= x < p0.len() && 0 <= y < p0.len() implies
        (root(p1, r1, x) == root(p1, r1, y) <==> joined(edge_rel(es.push(e)), x, y)) by {
        lemma_joined_push(es, e, x, y);
        assert(root(p1, r1, x) == root(p1, r1, x));
        assert(root(p1, r1, y) == root(p1, r1, y));
        if joined(rel, b, y) {
            lemma_joined_symm(rel, b, y);
        }
        if joined(rel, a, y) {
            lemma_joined_symm(rel, a, y);
        }
        if root(p0, r0, y) == root(p0, r0, b) {
            assert(joined(rel, y, b));
            lemma_joined_symm(rel, y, b);
        }
        if root(p0, r0, y) == root(p0, r0, a) {
            assert(joined(rel, y, a));
            lemma_joined_symm(rel, y, a);
        }
    }
}

/// Groups `n` vertices by the undirected connectivity of `edges`, with
/// union-find; each vertex is labelled with its set's root, not renumbered.
pub fn wcc_of_edges(n: usize, edges: &Vec<(VId, VId)>) -> (r: Vec<VId>)
    requires
        n < u32::MAX,
        edges_in_range(edges@, n as nat),
    ensures
        is_component_labelling(n as nat, edges@, r@),
{
    let mut parent: Vec<VId> = Vec::with_capacity(n);
    let mut i: usize = 0;
    while i < n
        invariant
            i <= n,
            n < u32::MAX,
            parent@.len() == i,
            forall|j: int| 0 <= j < i ==> parent@[j] as int == j,
        decreases n - i,
    {
        parent.push(i as VId);
        i += 1;
    }
    let mut rank: Vec<usize> = vec![0; n];
    proof {
        assert forall|x: int| 0 <= x < n implies root(parent@, rank@, x) == x by {
            assert(parent@[x] as int == x);
        }
        assert forall|x: int, y: int| 0 <= x < n && 0 <= y < n implies
            (root(parent@, rank@, x) == root(parent@, rank@, y)
                <==> joined(edge_rel(edges@.subrange(0, 0)), x, y)) by {
            assert(edges@.subrange(0, 0) =~= Seq::<(VId, VId)>::empty());
            lemma_joined_no_edges(x, y);
        }
    }
    let mut k: usize = 0;
    while k < edges.len()
        invariant
            k <= edges.len(),
            edges_in_range(edges@, n as nat),
            uf_wf(parent@, rank@),
            parent@.len() == n,
            forall|j: int| 0 <= j < n ==> #[trigger] rank@[j] <= k,
            forall|x: int, y: int| 0 <= x < n && 0 <= y < n ==>
                (root(parent@, rank@, x) == root(parent@, rank@, y)
                    <==> joined(edge_rel(edges@.subrange(0, k as int)), x, y)),
        decreases edges.len() - k,
    {
        let (u, v) = edges[k];
        let ghost p0 = parent@;
        let ghost r0 = rank@;
        union(&mut parent, &mut rank, u, v);
        proof {
            assert(edges@.subrange(0, k + 1) =~= edges@.subrange(0, k as int).push(edges@[k as int]));
            lemma_union_step(p0, r0, parent@, rank@, edges@.subrange(0, k as int), edges@[k as int]);
        }
        k += 1;
    }
    assert(edges@.subrange(0, edges@.len() as int) =~= edges@);
    let ghost pf = parent@;
    let mut result: Vec<VId> = vec![0; n];
    let mut x: usize = 0;
    while x < n
        invariant
            x <= n,
            n < u32::MAX,
            parent@.len() == n,
            pf.len() == n,
            uf_wf(parent@, rank@),
            uf_wf(pf, rank@),
            result@.len() == n,
            forall|z: int| 0 <= z < n ==> root(parent@, rank@, z) == #[trigger] root(pf, rank@, z),
            forall|j: int| 0 <= j < x ==> #[trigger] result@[j] as int == root(pf, rank@, j),
        decreases n - x,
    {
        let rt = find(&mut parent, &rank, x as VId);
        result.set(x, rt);
        x += 1;
    }
    proof {
        assert forall|z: int| 0 <= z < n implies (#[trigger] result@[z] as int) < n
            && result@[result@[z] as int] == result@[z] by {
            lemma_root_is_root(pf, rank@, z);
        }
    }
    result
}

impl LsmCommunity {
    /// The resolved out-edges `(vid, w)` of one vertex; none when its
    /// adjacency cannot be read.
    pub fn out_edges(&self, vid: VId) -> (r: Vec<(VId, VId)>)
        requires
            self.wf(),
            (vid as int) < self@.len(),
        ensures
            forall|k: int| 0 <= k < r@.len() ==> (#[trigger] r@[k]).0 == vid
                && self.graph()[vid as int].contains(r@[k].1),
            forall|w: VId| #[trigger] self.graph()[vid as int].contains(w) ==> r@.contains((vid, w)),
    {
        let mut r: Vec<(VId, VId)> = Vec::new();
        match self.read_out_neighbors(vid) {
            Some(ns) => {
                let mut i: usize = 0;
                while i < ns.len()
                    invariant
                        i <= ns.len(),
                        ns@.to_set() == self.graph()[vid as int],
                        r@.len() == i,
                        forall|k: int| 0 <= k < i ==> (#[trigger] r@[k]) == (vid, ns@[k]),
                    decreases ns.len() - i,
                {
                    r.push((vid, ns[i]));
                    i += 1;
                }
                assert forall|k: int| 0 <= k < r@.len() implies (#[trigger] r@[k]).0 == vid
                    && self.graph()[vid as int].contains(r@[k].1) by {
                    assert(ns@.contains(ns@[k]));
                }
                assert forall|w: VId| #[trigger] self.graph()[vid as int].contains(w) implies r@.contains((vid, w)) by {
                    assert(ns@.to_set().contains(w));
                    let k = choose|k: int| 0 <= k < ns@.len() && ns@[k] == w;
                    assert(r@[k] == (vid, w));
                }
            },
            None => {
                assert(self.graph()[vid as int] =~= Set::<VId>::empty());
            },
        }
        r
    }

    /// Every resolved edge `(v, w)` of the index, read from this one state of
    /// the index by parallel tasks that only read.
    pub fn edge_snapshot(&self) -> (r: Vec<(VId, VId)>)
        requires
            self.wf(),
        ensures
            forall|k: int| 0 <= k < r@.len() ==> ((#[trigger] r@[k]).0 as int) < self@.len()
                && self.graph()[r@[k].0 as int].contains(r@[k].1),
            forall|u: int, w: VId| 0 <= u < self@.len() && #[trigger] self.graph()[u].contains(w)
                ==> r@.contains((u as VId, w)),
    {
        collect_out_edges(self)
    }

    /// Weakly connected components: entry `v` of the result is the root of
    /// `v`'s union-find set. The edges are read from one state of the index.
    pub fn wcc(&self) -> (r: Vec<VId>)
        requires
            self.wf(),
        ensures
            r@.len() == self@.len(),
            forall|x: int| 0 <= x < self@.len() ==> (#[trigger] r@[x] as int) < self@.len()
                && r@[r@[x] as int] == r@[x],
            forall|x: int, y: int| 0 <= x < self@.len() && 0 <= y < self@.len() ==>
                (#[trigger] r@[x] == #[trigger] r@[y] <==> weakly_connected(self.graph(), x, y)),
    {
        let n = self.vertex_count();
        let edges = self.edge_snapshot();
        proof {
            self.lemma_graph_closed();
            assert forall|k: int| 0 <= k < edges@.len() implies (#[trigger] edges@[k]).0 < n
                && edges@[k].1 < n by {
                assert(self.graph()[edges@[k].0 as int].contains(edges@[k].1));
            }
        }
        let r = wcc_of_edges(n, &edges);
        proof {
            let g = self.graph();
            self.lemma_graph_closed();
            let er = edge_rel(edges@);
            let ur = undirected_rel(g);
            assert forall|a: int, b: int| #[trigger] er(a, b) implies ur(a, b) by {
                let k = choose|k: int| 0 <= k < edges@.len() && #[trigger] touches(edges@[k], a, b);
                assert(g[edges@[k].0 as int].contains(edges@[k].1));
            }
            assert forall|a: int, b: int| #[trigger] ur(a, b) implies er(a, b) by {
                if g[a].contains(b as VId) {
                    let k = choose|k: int| 0 <= k < edges@.len() && edges@[k] == (a as VId, b as VId);
                    assert(touches(edges@[k], a, b));
                } else {
                    assert(g[b].contains(a as VId));
                    let k = choose|k: int| 0 <= k < edges@.len() && edges@[k] == (b as VId, a as VId);
                    assert(touches(edges@[k], a, b));
                }
            }
            assert forall|x: int, y: int| 0 <= x < n && 0 <= y < n implies
                (joined(er, x, y) <==> weakly_connected(g, x, y)) by {
                if joined(er, x, y) {
                    lemma_joined_mono(er, ur, x, y);
                }
                if joined(ur, x, y) {
                    lemma_joined_mono(ur, er, x, y);
                }
            }
        }
        r
    }
}

/// The grouping does not depend on the order in which edges are merged:
/// labellings of two lists that hold the same edges, in any order and with
/// any repetition, put the same vertices together; only the representatives
/// may differ.
pub proof fn lemma_grouping_ignores_edge_order(
    n: nat, e1: Seq<(VId, VId)>, e2: Seq<(VId, VId)>, r1: Seq<VId>, r2: Seq<VId>,
)
    requires
        e1.to_set() == e2.to_set(),
        is_component_labelling(n, e1, r1),
        is_component_labelling(n, e2, r2),
    ensures
        forall|x: int, y: int| 0 <= x < n && 0 <= y < n ==> (r1[x] == r1[y] <==> r2[x] == r2[y]),
{
    let a1 = edge_rel(e1);
    let a2 = edge_rel(e2);
    assert forall|a: int, b: int| #[trigger] a1(a, b) implies a2(a, b) by {
        let k = choose|k: int| 0 <= k < e1.len() && #[trigger] touches(e1[k], a, b);
        assert(e1.to_set().contains(e1[k]));
        let j = choose|j: int| 0 <= j < e2.len() && e2[j] == e1[k];
        assert(touches(e2[j], a, b));
    }
    assert forall|a: int, b: int| #[trigger] a2(a, b) implies a1(a, b) by {
        let k = choose|k: int| 0 <= k < e2.len() && #[trigger] touches(e2[k], a, b);
        assert(e2.to_set().contains(e2[k]));
        let j = choose|j: int| 0 <= j < e1.len() && e1[j] == e2[k];
        assert(touches(e1[j], a, b));
    }
    assert forall|x: int, y: int| 0 <= x < n && 0 <= y < n implies (r1[x] == r1[y] <==> r2[x] == r2[y]) by {
        if joined(a1, x, y) {
            lemma_joined_mono(a1, a2, x, y);
        }
        if joined(a2, x, y) {
            lemma_joined_mono(a2, a1, x, y);
        }
    }
}

/// Relies on rayon's `into_par_iter`, `flat_map` and `collect`: the vertex
/// range is split among worker threads, each of which only reads, and the
/// collected vector holds exactly the edges that the `out_edges` calls return.
#[verifier::external_body]
fn collect_out_edges(g: &LsmCommunity) -> (r: Vec<(VId, VId)>)
    requires
        g.wf(),
    ensures
        forall|k: int| 0 <= k < r@.len() ==> ((#[trigger] r@[k]).0 as int) < g@.len()
            && g.graph()[r@[k].0 as int].contains(r@[k].1),
        forall|u: int, w: VId| 0 <= u < g@.len() && #[trigger] g.graph()[u].contains(w)
            ==> r@.contains((u as VId, w)),
{
    (0..g.vertex_count() as VId).into_par_iter().flat_map(|v| g.out_edges(v)).collect()
}

} // verus!
