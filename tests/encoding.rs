use lsm_graph::binding::{bfs_to_flat, components_to_flat, renumber_components, scc_to_flat, wcc_to_flat};
use lsm_graph::graph::LsmCommunity;
use lsm_graph::handle::{pack_edge_handle, unpack_edge_handle};
use lsm_graph::types::VId;

#[test]
fn edge_handle_packs_halves() {
    assert_eq!(pack_edge_handle(1, 2), (1u64 << 32) | 2);
    assert_eq!(pack_edge_handle(0, 0), 0);
    assert_eq!(pack_edge_handle(u32::MAX, u32::MAX), u64::MAX);
    assert_eq!(unpack_edge_handle((7u64 << 32) | 9), (7, 9));
}

#[test]
fn edge_handle_round_trips() {
    for &(s, d) in &[(0u32, 1u32), (123_456, 7), (u32::MAX, 0), (0, u32::MAX)] {
        assert_eq!(unpack_edge_handle(pack_edge_handle(s, d)), (s, d));
    }
    for &h in &[0u64, 1, u64::MAX, 0x0123_4567_89AB_CDEF] {
        let (s, d) = unpack_edge_handle(h);
        assert_eq!(pack_edge_handle(s, d), h);
    }
}

#[test]
fn bfs_flattens_to_interleaved_pairs() {
    assert_eq!(bfs_to_flat(&vec![(0, 0), (1, 1), (2, 2), (3, 3)]), vec![0, 0, 1, 1, 2, 2, 3, 3]);
    assert!(bfs_to_flat(&vec![]).is_empty());
}

#[test]
fn renumbering_follows_first_appearance() {
    let (ids, k) = renumber_components(&vec![3, 3, 5, 3, 5, 0]);
    assert_eq!(ids, vec![0, 0, 1, 0, 1, 2]);
    assert_eq!(k, 3);
    let (ids, k) = renumber_components(&vec![]);
    assert!(ids.is_empty());
    assert_eq!(k, 0);
}

#[test]
fn components_flatten_with_count_first() {
    assert_eq!(components_to_flat(&vec![1, 0], 2), vec![2, 0, 1, 1, 0]);
    assert_eq!(components_to_flat(&vec![], 0), vec![0]);
}

#[test]
fn scc_flattens_with_dense_count() {
    assert_eq!(scc_to_flat(&vec![1, 1, 0, 0]), vec![2, 0, 1, 1, 1, 2, 0, 3, 0]);
    assert_eq!(scc_to_flat(&vec![]), vec![0]);
}

#[test]
fn wcc_flattens_with_renumbered_roots() {
    assert_eq!(wcc_to_flat(&vec![3, 3, 5, 3, 5]), vec![2, 0, 0, 1, 0, 2, 1, 3, 0, 4, 1]);
}

#[test]
fn wcc_of_index_flattens_to_one_component() {
    let mut g = LsmCommunity::new();
    for _ in 0..4 {
        g.add_vertex().unwrap();
    }
    let edges: [(VId, VId); 5] = [(0, 1), (1, 0), (1, 2), (2, 3), (3, 2)];
    for v in 0..4 {
        let ns: Vec<VId> = edges.iter().filter(|e| e.0 == v).map(|e| e.1).collect();
        assert!(g.set_base(v, ns));
    }
    let flat = wcc_to_flat(&g.wcc());
    assert_eq!(flat, vec![1, 0, 0, 1, 0, 2, 0, 3, 0]);
    let mut es = g.edge_snapshot();
    es.sort();
    assert_eq!(es, edges.to_vec());
}
