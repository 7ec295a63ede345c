use lsm_graph::graph::LsmCommunity;
use lsm_graph::types::{DeltaOp, VId};

struct Lcg(u64);

impl Lcg {
    fn next(&mut self, bound: u64) -> u64 {
        self.0 = self.0.wrapping_mul(6364136223846793005).wrapping_add(1442695040888963407);
        (self.0 >> 33) % bound
    }
}

fn random_graph(seed: u64, n: usize, m: usize) -> (LsmCommunity, Vec<Vec<bool>>) {
    let mut rng = Lcg(seed);
    let mut adj = vec![vec![false; n]; n];
    let mut g = LsmCommunity::new();
    for _ in 0..n {
        g.add_vertex().unwrap();
    }
    let mut lists: Vec<Vec<VId>> = vec![Vec::new(); n];
    for _ in 0..m {
        let s = rng.next(n as u64) as usize;
        let d = rng.next(n as u64) as usize;
        if !adj[s][d] {
            adj[s][d] = true;
            lists[s].push(d as VId);
        }
    }
    for (v, ns) in lists.into_iter().enumerate() {
        assert!(g.set_base(v as VId, ns));
    }
    // A few delta operations on top of the base lists.
    for _ in 0..m / 4 {
        let s = rng.next(n as u64) as usize;
        let d = rng.next(n as u64) as usize;
        if rng.next(2) == 0 {
            assert!(g.append_delta(s as VId, DeltaOp::AddNeighbor(d as VId)));
            adj[s][d] = true;
        } else {
            assert!(g.append_delta(s as VId, DeltaOp::RemoveNeighbor(d as VId)));
            adj[s][d] = false;
        }
    }
    (g, adj)
}

fn closure(adj: &[Vec<bool>]) -> Vec<Vec<bool>> {
    let n = adj.len();
    let mut r: Vec<Vec<bool>> = (0..n).map(|i| (0..n).map(|j| i == j || adj[i][j]).collect()).collect();
    for k in 0..n {
        for i in 0..n {
            if r[i][k] {
                for j in 0..n {
                    if r[k][j] {
                        r[i][j] = true;
                    }
                }
            }
        }
    }
    r
}

fn distances(adj: &[Vec<bool>], s: usize) -> Vec<Option<u32>> {
    let n = adj.len();
    let mut dist = vec![None; n];
    dist[s] = Some(0);
    let mut frontier = vec![s];
    let mut d = 0;
    while !frontier.is_empty() {
        d += 1;
        let mut next = Vec::new();
        for &u in &frontier {
            for w in 0..n {
                if adj[u][w] && dist[w].is_none() {
                    dist[w] = Some(d);
                    next.push(w);
                }
            }
        }
        frontier = next;
    }
    dist
}

#[test]
fn bfs_matches_independent_shortest_paths() {
    for seed in 1..6u64 {
        let (g, adj) = random_graph(seed, 30, 60);
        for s in 0..30usize {
            let r = g.bfs(s as VId).unwrap();
            let expect = distances(&adj, s);
            assert_eq!(r[0], (s as VId, 0));
            let mut seen = vec![false; 30];
            for &(v, d) in &r {
                assert!(!seen[v as usize]);
                seen[v as usize] = true;
                assert_eq!(expect[v as usize], Some(d));
            }
            for v in 0..30 {
                assert_eq!(seen[v], expect[v].is_some());
            }
        }
    }
}

#[test]
fn scc_matches_mutual_reachability() {
    for seed in 1..6u64 {
        let (g, adj) = random_graph(seed, 40, 70);
        let reach = closure(&adj);
        let c = g.scc();
        for x in 0..40 {
            for y in 0..40 {
                assert_eq!(c[x] == c[y], reach[x][y] && reach[y][x]);
            }
        }
        let k = *c.iter().max().unwrap() as usize + 1;
        for id in 0..k {
            assert!(c.iter().any(|&v| v as usize == id));
        }
    }
}

#[test]
fn wcc_matches_undirected_reachability() {
    for seed in 1..6u64 {
        let (g, adj) = random_graph(seed, 40, 30);
        let n = adj.len();
        let sym: Vec<Vec<bool>> = (0..n).map(|i| (0..n).map(|j| adj[i][j] || adj[j][i]).collect()).collect();
        let reach = closure(&sym);
        let c = g.wcc();
        for x in 0..n {
            assert_eq!(c[c[x] as usize], c[x]);
            for y in 0..n {
                assert_eq!(c[x] == c[y], reach[x][y]);
            }
        }
    }
}
