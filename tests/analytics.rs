use lsm_graph::graph::LsmCommunity;
use lsm_graph::types::{DeltaOp, GraphError, VId};
use lsm_graph::resolve::resolve_neighbors;
use lsm_graph::scc::scc_of_table;
use lsm_graph::wcc::wcc_of_edges;

fn graph_with(n: usize, edges: &[(VId, VId)]) -> LsmCommunity {
    let mut g = LsmCommunity::new();
    for _ in 0..n {
        g.add_vertex().unwrap();
    }
    let mut lists: Vec<Vec<VId>> = vec![Vec::new(); n];
    for e in edges {
        lists[e.0 as usize].push(e.1);
    }
    for (v, ns) in lists.into_iter().enumerate() {
        assert!(g.set_base(v as VId, ns));
    }
    g
}

fn sorted(mut v: Vec<VId>) -> Vec<VId> {
    v.sort();
    v
}

#[test]
fn delta_overlay_resolves_remove_then_add() {
    let base = vec![1, 2, 3];
    let delta = vec![DeltaOp::RemoveNeighbor(2), DeltaOp::AddNeighbor(4)];
    let r = resolve_neighbors(Some(&base), Some(&delta));
    assert_eq!(sorted(r), vec![1, 3, 4]);
}

#[test]
fn delta_overlay_add_is_idempotent_and_remove_of_absent_is_noop() {
    let base = vec![5];
    let delta = vec![DeltaOp::AddNeighbor(5), DeltaOp::RemoveNeighbor(9), DeltaOp::AddNeighbor(7)];
    let r = resolve_neighbors(Some(&base), Some(&delta));
    assert_eq!(sorted(r), vec![5, 7]);
}

#[test]
fn delta_overlay_without_base() {
    let delta = vec![DeltaOp::AddNeighbor(3), DeltaOp::AddNeighbor(1), DeltaOp::RemoveNeighbor(3)];
    assert_eq!(resolve_neighbors(None, Some(&delta)), vec![1]);
    assert!(resolve_neighbors(None, None).is_empty());
}

#[test]
fn delta_overlay_through_the_index() {
    let mut g = graph_with(5, &[(0, 1), (0, 2), (0, 3)]);
    assert!(g.append_delta(0, DeltaOp::RemoveNeighbor(2)));
    assert!(g.append_delta(0, DeltaOp::AddNeighbor(4)));
    assert_eq!(sorted(g.read_out_neighbors(0).unwrap()), vec![1, 3, 4]);
    let t = g.snapshot();
    assert_eq!(sorted(t[0].clone()), vec![1, 3, 4]);
}

#[test]
fn concrete_scenario_scc() {
    let g = graph_with(4, &[(0, 1), (1, 0), (1, 2), (2, 3), (3, 2)]);
    let c = g.scc();
    assert_eq!(c.len(), 4);
    assert_eq!(c[0], c[1]);
    assert_eq!(c[2], c[3]);
    assert_ne!(c[0], c[2]);
    assert_eq!(sorted(c.clone()).into_iter().max(), Some(1));
}

#[test]
fn concrete_scenario_wcc() {
    let g = graph_with(4, &[(0, 1), (1, 0), (1, 2), (2, 3), (3, 2)]);
    let c = g.wcc();
    assert_eq!(c.len(), 4);
    assert!(c.iter().all(|&x| x == c[0]));
}

#[test]
fn concrete_scenario_bfs() {
    let g = graph_with(4, &[(0, 1), (1, 0), (1, 2), (2, 3), (3, 2)]);
    assert_eq!(g.bfs(0), Ok(vec![(0, 0), (1, 1), (2, 2), (3, 3)]));
}

#[test]
fn empty_graph_rejects_bfs_and_gives_empty_components() {
    let g = LsmCommunity::new();
    assert_eq!(g.vertex_count(), 0);
    assert_eq!(g.bfs(0), Err(GraphError::InvalidVertex(0)));
    assert_eq!(g.bfs(7), Err(GraphError::InvalidVertex(7)));
    assert!(g.scc().is_empty());
    assert!(g.wcc().is_empty());
}

#[test]
fn bfs_rejects_out_of_range_start() {
    let g = graph_with(3, &[(0, 1)]);
    assert_eq!(g.bfs(3), Err(GraphError::InvalidVertex(3)));
}

#[test]
fn bfs_distances_are_shortest() {
    // 0 -> 1 -> 2 -> 3 and a shortcut 0 -> 3; 4 is unreachable.
    let g = graph_with(5, &[(0, 1), (1, 2), (2, 3), (0, 3), (4, 0)]);
    let r = g.bfs(0).unwrap();
    assert_eq!(r[0], (0, 0));
    let mut by_vertex: Vec<(VId, u32)> = r.clone();
    by_vertex.sort();
    assert_eq!(by_vertex, vec![(0, 0), (1, 1), (2, 2), (3, 1)]);
}

#[test]
fn bfs_start_without_neighbors() {
    let g = graph_with(3, &[(1, 2)]);
    assert_eq!(g.bfs(0), Ok(vec![(0, 0)]));
}

#[test]
fn bfs_skips_unreadable_vertex() {
    let mut g = graph_with(4, &[(0, 1), (1, 2), (2, 3)]);
    assert!(g.mark_unreadable(1));
    assert_eq!(g.bfs(0), Ok(vec![(0, 0), (1, 1)]));
    assert!(g.read_out_neighbors(1).is_none());
}

#[test]
fn bfs_on_large_chain_is_stack_safe() {
    let n: usize = 200_000;
    let edges: Vec<(VId, VId)> = (0..n as VId - 1).map(|v| (v, v + 1)).collect();
    let g = graph_with(n, &edges);
    let r = g.bfs(0).unwrap();
    assert_eq!(r.len(), n);
    assert_eq!(r[n - 1], ((n - 1) as VId, (n - 1) as u32));
}

#[test]
fn scc_on_dag_gives_singletons() {
    let g = graph_with(5, &[(0, 1), (0, 2), (1, 3), (2, 3), (3, 4)]);
    let mut c = g.scc();
    c.sort();
    assert_eq!(c, vec![0, 1, 2, 3, 4]);
}

#[test]
fn scc_partition_is_mutual_reachability() {
    // Two cycles 0-1-2 and 3-4 joined by a one-way edge 2 -> 3, and 5 alone
    // with a self loop.
    let g = graph_with(6, &[(0, 1), (1, 2), (2, 0), (2, 3), (3, 4), (4, 3), (5, 5)]);
    let c = g.scc();
    assert_eq!(c[0], c[1]);
    assert_eq!(c[1], c[2]);
    assert_eq!(c[3], c[4]);
    assert_ne!(c[0], c[3]);
    assert_ne!(c[5], c[0]);
    assert_ne!(c[5], c[3]);
    let mut ids = c.clone();
    ids.sort();
    ids.dedup();
    assert_eq!(ids, vec![0, 1, 2]);
}

#[test]
fn scc_with_cross_and_back_edges() {
    // A cross edge from the second search tree into the first finished one.
    let g = graph_with(5, &[(0, 1), (1, 0), (2, 3), (3, 2), (3, 0), (4, 2), (2, 4)]);
    let c = g.scc();
    assert_eq!(c[0], c[1]);
    assert_eq!(c[2], c[3]);
    assert_eq!(c[3], c[4]);
    assert_ne!(c[0], c[2]);
}

#[test]
fn scc_on_large_cycle_is_stack_safe() {
    let n: usize = 200_000;
    let mut table: Vec<Vec<VId>> = (0..n as VId).map(|v| vec![v + 1]).collect();
    table[n - 1] = vec![0];
    let c = scc_of_table(&table);
    assert!(c.iter().all(|&x| x == 0));
}

#[test]
fn wcc_ignores_direction_and_separates_components() {
    let g = graph_with(6, &[(1, 0), (2, 1), (3, 4)]);
    let c = g.wcc();
    assert_eq!(c[0], c[1]);
    assert_eq!(c[1], c[2]);
    assert_eq!(c[3], c[4]);
    assert_ne!(c[0], c[3]);
    assert_ne!(c[5], c[0]);
    assert_ne!(c[5], c[3]);
    for v in 0..6 {
        assert_eq!(c[c[v] as usize], c[v]);
    }
}

#[test]
fn wcc_grouping_does_not_depend_on_edge_order() {
    let e1: Vec<(VId, VId)> = vec![(0, 1), (2, 3), (1, 2), (5, 6)];
    let e2: Vec<(VId, VId)> = vec![(5, 6), (1, 2), (2, 3), (0, 1), (0, 1)];
    let r1 = wcc_of_edges(8, &e1);
    let r2 = wcc_of_edges(8, &e2);
    for x in 0..8 {
        for y in 0..8 {
            assert_eq!(r1[x] == r1[y], r2[x] == r2[y]);
        }
    }
}

#[test]
fn wcc_union_by_rank_tie_keeps_first_root() {
    // On a tie the second root goes under the first.
    let r = wcc_of_edges(2, &vec![(0, 1)]);
    assert_eq!(r, vec![0, 0]);
    let r = wcc_of_edges(3, &vec![(2, 1)]);
    assert_eq!(r, vec![0, 2, 2]);
}

#[test]
fn snapshot_is_one_state_of_the_index() {
    let mut g = graph_with(3, &[(0, 1)]);
    let before = g.snapshot();
    assert!(g.append_delta(1, DeltaOp::AddNeighbor(2)));
    let after = g.snapshot();
    assert_eq!(before, vec![vec![1], vec![], vec![]]);
    assert_eq!(after, vec![vec![1], vec![2], vec![]]);
    assert_eq!(scc_of_table(&before).len(), 3);
}

#[test]
fn index_rejects_bad_writes() {
    let mut g = graph_with(2, &[]);
    assert!(!g.set_base(2, vec![]));
    assert!(!g.set_base(0, vec![5]));
    assert!(!g.append_delta(0, DeltaOp::AddNeighbor(2)));
    assert!(!g.append_delta(3, DeltaOp::AddNeighbor(0)));
    assert!(!g.mark_unreadable(2));
    assert!(g.mark_unreadable(1));
    assert!(!g.append_delta(1, DeltaOp::AddNeighbor(0)));
    assert_eq!(g.add_vertex(), Some(2));
    assert_eq!(g.vertex_count(), 3);
}
