//! Breadth-first search over the live index, with a bitmap of visited
//! vertices.
use vstd::prelude::*;
use std::collections::VecDeque;
use crate::types::{VId, GraphError};
use crate::graph::{LsmCommunity, GraphModel, graph_closed};

verus! {

/// `p` is a directed path of `g`: consecutive vertices are joined by edges.
pub open spec fn is_path(g: GraphModel, p: Seq<int>) -> bool {
    &&& p.len() >= 1
    &&& forall|i: int| 0 <= i < p.len() ==> 0 <= #[trigger] p[i] < g.len()
    &&& forall|i: int| 0 <= i < p.len() - 1 ==> #[trigger] g[p[i]].contains(p[i + 1] as VId)
}

/// Some directed path of exactly `k` edges leads from `s` to `v`.
pub open spec fn has_path(g: GraphModel, s: int, v: int, k: nat) -> bool {
    exists|p: Seq<int>| #[trigger] is_path(g, p) && p.len() == k + 1 && p[0] == s && p[p.len() - 1] == v
}

/// `d` is the length of a shortest directed path from `s` to `v`.
pub open spec fn is_distance(g: GraphModel, s: int, v: int, d: nat) -> bool {
    &&& has_path(g, s, v, d)
    &&& forall|k: nat| k < d ==> !#[trigger] has_path(g, s, v, k)
}

/// Some directed path leads from `s` to `v`.
pub open spec fn reachable(g: GraphModel, s: int, v: int) -> bool {
    exists|k: nat| #[trigger] has_path(g, s, v, k)
}

/// Vertex `v`'s bit is set in the bitmap.
pub open spec fn bm_has(bm: Seq<u64>, v: int) -> bool {
    bm[v / 64] & (1u64 << ((v % 64) as u64)) != 0
}

/// Some entry of `r` holds vertex `w` at a distance of at most `bound`.
pub open spec fn has_entry(r: Seq<(VId, u32)>, w: VId, bound: int) -> bool {
    exists|j: int| 0 <= j < r.len() && (#[trigger] r[j]).0 == w && r[j].1 <= bound
}

/// Every out-neighbor of entry `i`'s vertex has an entry at most one hop
/// farther.
pub open spec fn closed_at(g: GraphModel, r: Seq<(VId, u32)>, i: int) -> bool {
    forall|w: VId| #[trigger] g[r[i].0 as int].contains(w) ==> has_entry(r, w, r[i].1 + 1)
}

proof fn lemma_bit_or(x: u64, b: u64, c: u64)
    requires
        b < 64,
        c < 64,
    ensures
        ((x | (1u64 << b)) & (1u64 << c) != 0) == (b == c || (x & (1u64 << c) != 0)),
{
    assert(((x | (1u64 << b)) & (1u64 << c) != 0) == (b == c || (x & (1u64 << c) != 0))) by (bit_vector)
        requires
            b < 64,
            c < 64,
    ;
}

proof fn lemma_bit_zero(c: u64)
    requires
        c < 64,
    ensures
        (0u64 & (1u64 << c)) == 0,
{
    assert((0u64 & (1u64 << c)) == 0) by (bit_vector);
}

/// Sets `vid`'s bit.
fn mark_visited(visited: &mut Vec<u64>, vid: VId)
    requires
        (vid as int) / 64 < old(visited)@.len(),
    ensures
        final(visited)@.len() == old(visited)@.len(),
        forall|v: int| 0 <= v < 64 * final(visited)@.len() ==>
            (bm_has(final(visited)@, v) <==> (v == vid as int || bm_has(old(visited)@, v))),
{
    let idx = (vid / 64) as usize;
    let bit = (vid % 64) as u64;
    let w = visited[idx];
    visited.set(idx, w | (1u64 << bit));
    proof {
        assert forall|v: int| 0 <= v < 64 * visited@.len() implies
            (bm_has(visited@, v) <==> (v == vid as int || bm_has(old(visited)@, v))) by {
            let c = (v % 64) as u64;
            if v / 64 == idx as int {
                lemma_bit_or(w, bit, c);
                if c == bit {
                    assert(v == 64 * (v / 64) + v % 64);
                    assert(vid as int == 64 * (vid as int / 64) + vid as int % 64);
                }
            } else {
                assert(v != vid as int);
            }
        }
    }
}

/// Whether `vid`'s bit is set.
fn is_visited(visited: &Vec<u64>, vid: VId) -> (r: bool)
    requires
        (vid as int) / 64 < visited@.len(),
    ensures
        r == bm_has(visited@, vid as int),
{
    let idx = (vid / 64) as usize;
    let bit = (vid % 64) as u64;
    visited[idx] & (1u64 << bit) != 0
}

proof fn lemma_has_entry_push(r: Seq<(VId, u32)>, x: (VId, u32), w: VId, bound: int)
    requires
        has_entry(r, w, bound),
    ensures
        has_entry(r.push(x), w, bound),
{
    let j = choose|j: int| 0 <= j < r.len() && (#[trigger] r[j]).0 == w && r[j].1 <= bound;
    assert(r.push(x)[j] == r[j]);
}

proof fn lemma_path_push(g: GraphModel, s: int, u: int, w: VId, k: nat)
    requires
        has_path(g, s, u, k),
        0 <= u < g.len(),
        (w as int) < g.len(),
        g[u].contains(w),
    ensures
        has_path(g, s, w as int, k + 1),
{
    let p = choose|p: Seq<int>| #[trigger] is_path(g, p) && p.len() == k + 1 && p[0] == s && p[p.len() - 1] == u;
    let q = p.push(w as int);
    assert forall|i: int| 0 <= i < q.len() - 1 implies #[trigger] g[q[i]].contains(q[i + 1] as VId) by {
        if i < p.len() - 1 {
            assert(g[p[i]].contains(p[i + 1] as VId));
        }
    }
    assert(is_path(g, q));
}

pub proof fn lemma_reach_refl(g: GraphModel, v: int)
    requires
        0 <= v < g.len(),
    ensures
        reachable(g, v, v),
{
    let p = seq![v];
    assert(is_path(g, p));
    assert(has_path(g, v, v, 0));
}

pub proof fn lemma_reach_edge(g: GraphModel, u: int, w: VId)
    requires
        0 <= u < g.len(),
        (w as int) < g.len(),
        g[u].contains(w),
    ensures
        reachable(g, u, w as int),
{
    let p = seq![u];
    assert(is_path(g, p));
    assert(has_path(g, u, u, 0));
    lemma_path_push(g, u, u, w, 0);
    assert(has_path(g, u, w as int, 1));
}

pub proof fn lemma_reach_trans(g: GraphModel, a: int, b: int, c: int)
    requires
        reachable(g, a, b),
        reachable(g, b, c),
    ensures
        reachable(g, a, c),
{
    let k1 = choose|k: nat| #[trigger] has_path(g, a, b, k);
    let k2 = choose|k: nat| #[trigger] has_path(g, b, c, k);
    lemma_path_concat(g, a, b, c, k1, k2);
}

/// A path of `k1` edges from `a` to `b` followed by one of `k2` edges from
/// `b` to `c` is a path of `k1 + k2` edges from `a` to `c`.
pub proof fn lemma_path_concat(g: GraphModel, a: int, b: int, c: int, k1: nat, k2: nat)
    requires
        has_path(g, a, b, k1),
        has_path(g, b, c, k2),
    ensures
        has_path(g, a, c, k1 + k2),
{
    let p1 = choose|p: Seq<int>| #[trigger] is_path(g, p) && p.len() == k1 + 1 && p[0] == a && p[p.len() - 1] == b;
    let p2 = choose|p: Seq<int>| #[trigger] is_path(g, p) && p.len() == k2 + 1 && p[0] == b && p[p.len() - 1] == c;
    let r = p1 + p2.subrange(1, p2.len() as int);
    assert forall|i: int| 0 <= i < r.len() implies 0 <= #[trigger] r[i] < g.len() by {
        if i < p1.len() {
            assert(r[i] == p1[i]);
        } else {
            assert(r[i] == p2[i - p1.len() + 1]);
        }
    }
    assert forall|i: int| 0 <= i < r.len() - 1 implies #[trigger] g[r[i]].contains(r[i + 1] as VId) by {
        if i < p1.len() - 1 {
            assert(g[p1[i]].contains(p1[i + 1] as VId));
        } else if i == p1.len() - 1 {
            assert(g[p2[0]].contains(p2[0int + 1] as VId));
            assert(r[i] == p2[0] && r[i + 1] == p2[1]);
        } else {
            let j = i - p1.len() + 1;
            assert(g[p2[j]].contains(p2[j + 1] as VId));
            assert(r[i] == p2[j] && r[i + 1] == p2[j + 1]);
        }
    }
    assert(is_path(g, r));
    assert(has_path(g, a, c, (k1 + k2) as nat));
}

/// When every entry is closed, every vertex that a path of `k` edges reaches
/// from the first entry's vertex has an entry at distance at most `k`.
proof fn lemma_closed_complete(g: GraphModel, r: Seq<(VId, u32)>, v: int, k: nat)
    requires
        r.len() >= 1,
        r[0].1 == 0,
        g.len() < u32::MAX,
        forall|i: int| 0 <= i < r.len() ==> #[trigger] closed_at(g, r, i),
        has_path(g, r[0].0 as int, v, k),
    ensures
        0 <= v <= u32::MAX,
        has_entry(r, v as VId, k as int),
    decreases k,
{
    let s = r[0].0 as int;
    let p = choose|p: Seq<int>| #[trigger] is_path(g, p) && p.len() == k + 1 && p[0] == s && p[p.len() - 1] == v;
    assert(0 <= p[k as int] < g.len());
    if k == 0 {
        assert(r[0].0 as int == v);
        assert(has_entry(r, v as VId, 0));
    } else {
        let q = p.drop_last();
        let u = q[q.len() - 1];
        assert(is_path(g, q));
        assert(has_path(g, s, u, (k - 1) as nat));
        lemma_closed_complete(g, r, u, (k - 1) as nat);
        let j1 = choose|j: int| 0 <= j < r.len() && (#[trigger] r[j]).0 == u as VId && r[j].1 <= k - 1;
        assert(g[p[k - 1]].contains(p[k - 1 + 1] as VId));
        assert(closed_at(g, r, j1));
        assert(0 <= v < g.len());
        assert(r[j1].0 as int == u);
        assert(g[r[j1].0 as int].contains(v as VId));
        let j = choose|j: int| 0 <= j < r.len() && (#[trigger] r[j]).0 == v as VId && r[j].1 <= r[j1].1 + 1;
        assert(has_entry(r, v as VId, k as int));
    }
}

/// What the search returns: the start first at distance 0, each vertex once,
/// each at the length of a shortest directed path from the start, in
/// discovery order (distances never decrease), and every vertex that the
/// start reaches.
pub open spec fn is_bfs_result(g: GraphModel, start: int, r: Seq<(VId, u32)>) -> bool {
    &&& r.len() >= 1
    &&& r[0] == (start as VId, 0u32)
    &&& forall|i: int, j: int| 0 <= i < r.len() && 0 <= j < r.len() && i != j ==> (#[trigger] r[i]).0 != (#[trigger] r[j]).0
    &&& forall|i: int| 0 <= i < r.len() ==> (#[trigger] r[i]).0 < g.len() && is_distance(g, start, r[i].0 as int, r[i].1 as nat)
    &&& forall|i: int, j: int| 0 <= i <= j < r.len() ==> (#[trigger] r[i]).1 <= (#[trigger] r[j]).1
    &&& forall|v: int| 0 <= v < g.len() && #[trigger] reachable(g, start, v) ==> exists|i: int| 0 <= i < r.len() && (#[trigger] r[i]).0 as int == v
}

impl LsmCommunity {
    /// Breadth-first search from `start_vertex`: each dequeued vertex's
    /// neighbors are resolved when it is processed, and an unreadable vertex
    /// counts as having none. Rejected when `start_vertex` is not a vertex.
    pub fn bfs(&self, start_vertex: VId) -> (r: Result<Vec<(VId, u32)>, GraphError>)
        requires
            self.wf(),
        ensures
            (start_vertex as int) < self@.len() <==> r.is_ok(),
            r matches Err(e) ==> e == GraphError::InvalidVertex(start_vertex),
            r matches Ok(res) ==> is_bfs_result(self.graph(), start_vertex as int, res@),
    {
        let n = self.vertex_count();
        if (start_vertex as usize) >= n {
            return Err(GraphError::InvalidVertex(start_vertex));
        }
        let ghost g = self.graph();
        proof { self.lemma_graph_closed(); }
        let bitmap_size = if n % 64 == 0 { n / 64 } else { n / 64 + 1 };
        let mut visited: Vec<u64> = vec![0u64; bitmap_size];
        proof {
            assert forall|v: int| 0 <= v < 64 * visited@.len() implies !bm_has(visited@, v) by {
                lemma_bit_zero((v % 64) as u64);
            }
        }
        let mut queue: VecDeque<(VId, u32)> = VecDeque::with_capacity(1024);
        let mut result: Vec<(VId, u32)> = Vec::with_capacity(1024);
        queue.push_back((start_vertex, 0u32));
        mark_visited(&mut visited, start_vertex);
        result.push((start_vertex, 0u32));
        let ghost mut head: int = 0;
        let ghost mut seen: Set<int> = Set::empty().insert(start_vertex as int);
        proof {
            let p = seq![start_vertex as int];
            assert(is_path(g, p));
            assert(has_path(g, start_vertex as int, start_vertex as int, 0));
            assert(result@[0].0 as int == start_vertex as int);
            assert(seen.len() == 1);
        }
        while queue.len() > 0
            invariant
                n == self@.len(),
                g == self.graph(),
                self.wf(),
                graph_closed(g),
                (start_vertex as int) < n,
                visited@.len() == bitmap_size,
                64 * bitmap_size >= n,
                forall|v: int| 0 <= v < n ==> (bm_has(visited@, v) <==> #[trigger] seen.contains(v)),
                seen.finite(),
                seen.len() == result@.len(),
                forall|v: int| #[trigger] seen.contains(v) ==> 0 <= v < n && exists|j: int| 0 <= j < result@.len() && (#[trigger] result@[j]).0 as int == v,
                forall|j: int| 0 <= j < result@.len() ==> #[trigger] seen.contains(result@[j].0 as int),
                forall|i: int, j: int| 0 <= i < result@.len() && 0 <= j < result@.len() && i != j ==> (#[trigger] result@[i]).0 != (#[trigger] result@[j]).0,
                0 <= head <= result@.len(),
                queue@ == result@.subrange(head, result@.len() as int),
                forall|i: int, j: int| 0 <= i <= j < result@.len() ==> (#[trigger] result@[i]).1 <= (#[trigger] result@[j]).1,
                head > 0 ==> forall|j: int| 0 <= j < result@.len() ==> (#[trigger] result@[j]).1 <= result@[head - 1].1 + 1,
                head == 0 ==> result@.len() == 1,
                result@.len() >= 1,
                result@[0] == (start_vertex, 0u32),
                forall|j: int| 0 <= j < result@.len() ==> (#[trigger] result@[j]).1 < result@.len()
                    && has_path(g, start_vertex as int, result@[j].0 as int, result@[j].1 as nat),
                forall|i: int| 0 <= i < head ==> #[trigger] closed_at(g, result@, i),
            decreases n - head,
        {
            proof {
                vstd::set_lib::lemma_int_range(0, n as int);
                vstd::set_lib::lemma_len_subset(seen, vstd::set_lib::set_int_range(0, n as int));
            }
            let ghost before = queue@;
            let (u, du) = queue.pop_front().unwrap();
            assert((u, du) == result@[head]);
            proof { head = head + 1; }
            let ghost r_mid = result@;
            assert(forall|j: int| 0 <= j < result@.len() ==> (#[trigger] result@[j]).1 <= du + 1) by {
                if head - 1 > 0 {
                    assert(result@[head - 2].1 <= result@[head - 1].1);
                }
            }
            match self.read_out_neighbors(u) {
                Some(ns) => {
                    let next = du + 1;
                    let mut i: usize = 0;
                    while i < ns.len()
                        invariant
                            n == self@.len(),
                            g == self.graph(),
                            graph_closed(g),
                            (u as int) < n,
                            ns@.to_set() == g[u as int],
                            i <= ns.len(),
                            next == du + 1,
                            visited@.len() == bitmap_size,
                            64 * bitmap_size >= n,
                            forall|v: int| 0 <= v < n ==> (bm_has(visited@, v) <==> #[trigger] seen.contains(v)),
                            seen.finite(),
                            seen.len() == result@.len(),
                            forall|v: int| #[trigger] seen.contains(v) ==> 0 <= v < n && exists|j: int| 0 <= j < result@.len() && (#[trigger] result@[j]).0 as int == v,
                            forall|j: int| 0 <= j < result@.len() ==> #[trigger] seen.contains(result@[j].0 as int),
                            forall|i: int, j: int| 0 <= i < result@.len() && 0 <= j < result@.len() && i != j ==> (#[trigger] result@[i]).0 != (#[trigger] result@[j]).0,
                            1 <= head <= r_mid.len(),
                            result@.len() >= r_mid.len(),
                            result@.subrange(0, r_mid.len() as int) == r_mid,
                            result@[head - 1] == (u, du),
                            queue@ == result@.subrange(head, result@.len() as int),
                            forall|i: int, j: int| 0 <= i <= j < result@.len() ==> (#[trigger] result@[i]).1 <= (#[trigger] result@[j]).1,
                            forall|j: int| 0 <= j < result@.len() ==> (#[trigger] result@[j]).1 <= du + 1,
                            result@[0] == (start_vertex, 0u32),
                            has_path(g, start_vertex as int, u as int, du as nat),
                            forall|j: int| 0 <= j < result@.len() ==> (#[trigger] result@[j]).1 < result@.len()
                                && has_path(g, start_vertex as int, result@[j].0 as int, result@[j].1 as nat),
                            forall|i: int| 0 <= i < head - 1 ==> #[trigger] closed_at(g, result@, i),
                            forall|k: int| 0 <= k < i ==> has_entry(result@, #[trigger] ns@[k], du + 1),
                        decreases ns.len() - i,
                    {
                        let w = ns[i];
                        assert(ns@.to_set().contains(w));
                        assert((w as int) < n);
                        if !is_visited(&visited, w) {
                            let ghost r0 = result@;
                            mark_visited(&mut visited, w);
                            queue.push_back((w, next));
                            result.push((w, next));
                            proof {
                                assert(!seen.contains(w as int));
                                seen = seen.insert(w as int);
                                assert forall|j: int| 0 <= j < result@.len() implies #[trigger] seen.contains(result@[j].0 as int) by {
                                    if j < r0.len() {
                                        assert(result@[j] == r0[j]);
                                    }
                                }
                                assert forall|v: int| #[trigger] seen.contains(v) implies 0 <= v < n && exists|j: int| 0 <= j < result@.len() && (#[trigger] result@[j]).0 as int == v by {
                                    if v == w as int {
                                        assert(result@[r0.len() as int].0 as int == v);
                                    } else {
                                        let j = choose|j: int| 0 <= j < r0.len() && (#[trigger] r0[j]).0 as int == v;
                                        assert(result@[j] == r0[j]);
                                    }
                                }
                                assert forall|a: int, b: int| 0 <= a < result@.len() && 0 <= b < result@.len() && a != b implies (#[trigger] result@[a]).0 != (#[trigger] result@[b]).0 by {
                                    if a < r0.len() && b < r0.len() {
                                        assert(result@[a] == r0[a] && result@[b] == r0[b]);
                                    } else if a < r0.len() {
                                        assert(seen.contains(r0[a].0 as int));
                                    } else if b < r0.len() {
                                        assert(seen.contains(r0[b].0 as int));
                                    }
                                }
                                assert(queue@ =~= result@.subrange(head, result@.len() as int));
                                assert(result@.subrange(0, r_mid.len() as int) =~= r_mid) by {
                                    assert(r0.subrange(0, r_mid.len() as int) == r_mid);
                                }
                                assert forall|a: int| 0 <= a < head - 1 implies #[trigger] closed_at(g, result@, a) by {
                                    assert(closed_at(g, r0, a));
                                    assert(result@[a] == r0[a]);
                                    assert forall|x: VId| #[trigger] g[result@[a].0 as int].contains(x) implies has_entry(result@, x, result@[a].1 + 1) by {
                                        lemma_has_entry_push(r0, (w, next), x, r0[a].1 + 1);
                                    }
                                }
                                assert forall|k: int| 0 <= k <= i implies has_entry(result@, #[trigger] ns@[k], du + 1) by {
                                    if k < i {
                                        lemma_has_entry_push(r0, (w, next), ns@[k], du + 1);
                                    } else {
                                        assert(result@[r0.len() as int] == (w, next));
                                    }
                                }
                                lemma_path_push(g, start_vertex as int, u as int, w, du as nat);
                                assert forall|j: int| 0 <= j < result@.len() implies (#[trigger] result@[j]).1 < result@.len()
                                    && has_path(g, start_vertex as int, result@[j].0 as int, result@[j].1 as nat) by {
                                    if j < r0.len() {
                                        assert(result@[j] == r0[j]);
                                    }
                                }
                                assert(head - 1 < r_mid.len());
                                assert(result@[head - 1] == r0[head - 1]);
                            }
                        } else {
                            proof {
                                assert(seen.contains(w as int));
                                let j = choose|j: int| 0 <= j < result@.len() && (#[trigger] result@[j]).0 as int == w as int;
                                assert(result@[j].1 <= du + 1);
                                assert(has_entry(result@, w, du + 1));
                                assert forall|k: int| 0 <= k <= i implies has_entry(result@, #[trigger] ns@[k], du + 1) by {
                                }
                            }
                        }
                        i += 1;
                    }
                    proof {
                        assert(result@[head - 1] == (u, du));
                        assert forall|x: VId| #[trigger] g[result@[head - 1].0 as int].contains(x) implies has_entry(result@, x, result@[head - 1].1 + 1) by {
                            assert(ns@.to_set().contains(x));
                            let k = choose|k: int| 0 <= k < ns@.len() && ns@[k] == x;
                            assert(has_entry(result@, ns@[k], du + 1));
                        }
                        assert(closed_at(g, result@, head - 1));
                    }
                },
                None => {
                    proof {
                        assert(g[u as int] =~= Set::<VId>::empty());
                        assert(closed_at(g, result@, head - 1));
                    }
                },
            }
            proof {
                if head < result@.len() {
                    assert(result@[head - 1].1 <= result@[head].1);
                }
            }
        }
        proof {
            assert(head == result@.len());
            let r = result@;
            assert forall|v: int| 0 <= v < g.len() && #[trigger] reachable(g, start_vertex as int, v)
                implies exists|i: int| 0 <= i < r.len() && (#[trigger] r[i]).0 as int == v by {
                let k = choose|k: nat| #[trigger] has_path(g, start_vertex as int, v, k);
                lemma_closed_complete(g, r, v, k);
                let j = choose|j: int| 0 <= j < r.len() && (#[trigger] r[j]).0 == v as VId && r[j].1 <= k;
            }
            assert forall|i: int| 0 <= i < r.len() implies (#[trigger] r[i]).0 < g.len()
                && is_distance(g, start_vertex as int, r[i].0 as int, r[i].1 as nat) by {
                assert(seen.contains(r[i].0 as int));
                assert forall|k: nat| k < r[i].1 implies !#[trigger] has_path(g, start_vertex as int, r[i].0 as int, k) by {
                    if has_path(g, start_vertex as int, r[i].0 as int, k) {
                        lemma_closed_complete(g, r, r[i].0 as int, k);
                        let j = choose|j: int| 0 <= j < r.len() && (#[trigger] r[j]).0 == r[i].0 && r[j].1 <= k;
                        assert(j == i);
                    }
                }
            }
        }
        Ok(result)
    }
}

} // verus!
