//! The vertex index: per-vertex base adjacency and delta log, and the
//! snapshot of resolved adjacency that whole-graph analytics run on.
use vstd::prelude::*;
use crate::types::{VId, DeltaOp, resolved_set, apply_op, apply_ops};
use crate::resolve::resolve_neighbors;

verus! {

/// What the index holds for one vertex: its base adjacency and its delta log,
/// each possibly absent.
pub struct VertexAdjacency {
    pub base: Option<Vec<VId>>,
    pub delta: Option<Vec<DeltaOp>>,
}

/// The model of one index entry: `None` when the vertex's adjacency cannot
/// be read.
pub type RecordModel = Option<(Option<Seq<VId>>, Option<Seq<DeltaOp>>)>;

/// An adjacency model: the out-neighbor set of each vertex.
pub type GraphModel = Seq<Set<VId>>;

pub open spec fn opt_vec_view<T>(o: Option<Vec<T>>) -> Option<Seq<T>> {
    match o {
        Some(v) => Some(v@),
        None => None,
    }
}

/// The resolved out-neighbors of an entry; an unreadable entry has none.
pub open spec fn record_out_set(rec: RecordModel) -> Set<VId> {
    match rec {
        Some((b, d)) => resolved_set(b, d),
        None => Set::empty(),
    }
}

/// Every id that an entry names lies below `n`.
pub open spec fn record_in_range(rec: RecordModel, n: nat) -> bool {
    match rec {
        Some((b, d)) => {
            &&& (b matches Some(bs) ==> forall|i: int| 0 <= i < bs.len() ==> (bs[i] as nat) < n)
            &&& (d matches Some(ds) ==> forall|i: int| 0 <= i < ds.len() ==> (ds[i].target() as nat) < n)
        },
        None => true,
    }
}

/// Every neighbor of every vertex is a vertex of the graph.
pub open spec fn graph_closed(g: GraphModel) -> bool {
    forall|u: int, w: VId| 0 <= u < g.len() && #[trigger] g[u].contains(w) ==> (w as nat) < g.len()
}

/// The adjacency model of a table of neighbor lists.
pub open spec fn table_graph(t: Seq<Vec<VId>>) -> GraphModel {
    Seq::new(t.len(), |i: int| t[i]@.to_set())
}

/// A well-formed table: each list is free of duplicates and names vertices
/// of the table only.
pub open spec fn table_wf(t: Seq<Vec<VId>>) -> bool {
    &&& t.len() < u32::MAX
    &&& forall|i: int| 0 <= i < t.len() ==> (#[trigger] t[i])@.no_duplicates()
    &&& forall|i: int, j: int| 0 <= i < t.len() && 0 <= j < t[i]@.len() ==> (#[trigger] t[i]@[j] as nat) < t.len()
}

proof fn lemma_apply_ops_in_range(s: Set<VId>, ops: Seq<DeltaOp>, n: nat)
    requires
        forall|w: VId| s.contains(w) ==> (w as nat) < n,
        forall|i: int| 0 <= i < ops.len() ==> (ops[i].target() as nat) < n,
    ensures
        forall|w: VId| apply_ops(s, ops).contains(w) ==> (w as nat) < n,
    decreases ops.len(),
{
    if ops.len() > 0 {
        let init = ops.drop_last();
        assert forall|i: int| 0 <= i < init.len() implies (init[i].target() as nat) < n by {
            assert(init[i] == ops[i]);
        }
        lemma_apply_ops_in_range(s, init, n);
        assert(ops.last() == ops[ops.len() - 1]);
        let prev = apply_ops(s, init);
        assert(apply_ops(s, ops) == apply_op(prev, ops.last()));
    }
}

proof fn lemma_record_out_set_in_range(rec: RecordModel, n: nat)
    requires
        record_in_range(rec, n),
    ensures
        forall|w: VId| record_out_set(rec).contains(w) ==> (w as nat) < n,
{
    if let Some((b, d)) = rec {
        let start = match b {
            Some(bs) => bs.to_set(),
            None => Set::<VId>::empty(),
        };
        assert forall|w: VId| start.contains(w) implies (w as nat) < n by {
            if let Some(bs) = b {
                assert(bs.contains(w));
            }
        }
        if let Some(ds) = d {
            lemma_apply_ops_in_range(start, ds, n);
        }
    }
}

/// The engine's vertex index.
pub struct LsmCommunity {
    records: Vec<Option<VertexAdjacency>>,
}

impl View for LsmCommunity {
    type V = Seq<RecordModel>;

    closed spec fn view(&self) -> Seq<RecordModel> {
        Seq::new(
            self.records@.len(),
            |i: int|
                match self.records@[i] {
                    Some(a) => Some((opt_vec_view(a.base), opt_vec_view(a.delta))),
                    None => None,
                },
        )
    }
}

impl LsmCommunity {
    /// The index is well formed: vertex ids fit below `u32::MAX` and every
    /// neighbor named in a base list or a delta log is a vertex.
    pub open spec fn wf(&self) -> bool {
        &&& self@.len() < u32::MAX
        &&& forall|v: int| 0 <= v < self@.len() ==> record_in_range(#[trigger] self@[v], self@.len())
    }

    /// The resolved adjacency of the whole index.
    pub open spec fn graph(&self) -> GraphModel {
        Seq::new(self@.len(), |v: int| record_out_set(self@[v]))
    }

    pub proof fn lemma_graph_closed(&self)
        requires
            self.wf(),
        ensures
            graph_closed(self.graph()),
    {
        assert forall|u: int, w: VId| 0 <= u < self.graph().len() && #[trigger] self.graph()[u].contains(w)
            implies (w as nat) < self.graph().len() by {
            lemma_record_out_set_in_range(self@[u], self@.len());
        }
    }

    /// An empty index.
    pub fn new() -> (r: Self)
        ensures
            r@ == Seq::<RecordModel>::empty(),
            r.wf(),
    {
        let r = LsmCommunity { records: Vec::new() };
        assert(r@ =~= Seq::<RecordModel>::empty());
        r
    }

    /// The number of vertices.
    pub fn vertex_count(&self) -> (r: usize)
        ensures
            r == self@.len(),
    {
        self.records.len()
    }

    /// Adds a vertex with neither base adjacency nor delta log and returns its
    /// id; `None` when the id space is full.
    pub fn add_vertex(&mut self) -> (r: Option<VId>)
        requires
            old(self).wf(),
        ensures
            final(self).wf(),
            old(self)@.len() + 1 < u32::MAX ==> r == Some(old(self)@.len() as VId)
                && final(self)@ == old(self)@.push(Some((None, None))),
            old(self)@.len() + 1 >= u32::MAX ==> r.is_none() && final(self)@ == old(self)@,
    {
        let n = self.records.len();
        if n + 1 >= 0xFFFF_FFFFusize {
            return None;
        }
        self.records.push(Some(VertexAdjacency { base: None, delta: None }));
        assert(self@ =~= old(self)@.push(Some((None, None))));
        Some(n as VId)
    }

    /// Replaces a vertex's base adjacency, as compaction does. Fails, changing
    /// nothing, when the vertex or a neighbor is not a vertex of the index.
    pub fn set_base(&mut self, vid: VId, neighbors: Vec<VId>) -> (r: bool)
        requires
            old(self).wf(),
        ensures
            final(self).wf(),
            r == ((vid as nat) < old(self)@.len()
                && forall|i: int| 0 <= i < neighbors@.len() ==> (neighbors@[i] as nat) < old(self)@.len()),
            r ==> final(self)@ == old(self)@.update(vid as int, Some((Some(neighbors@), match old(self)@[vid as int] {
                Some((_, d)) => d,
                None => None,
            }))),
            !r ==> final(self)@ == old(self)@,
    {
        let n = self.records.len();
        if (vid as usize) >= n {
            return false;
        }
        let mut i: usize = 0;
        while i < neighbors.len()
            invariant
                i <= neighbors.len(),
                self@ == old(self)@,
                self.wf(),
                n == self@.len(),
                forall|k: int| 0 <= k < i ==> (neighbors@[k] as nat) < n,
            decreases neighbors.len() - i,
        {
            if (neighbors[i] as usize) >= n {
                return false;
            }
            i += 1;
        }
        let ghost d = match old(self)@[vid as int] {
            Some((_, d)) => d,
            None => None,
        };
        let mut old_rec: Option<VertexAdjacency> = None;
        self.records.set_and_swap(vid as usize, &mut old_rec);
        let delta = match old_rec {
            Some(a) => a.delta,
            None => None,
        };
        assert(opt_vec_view(delta) == d);
        self.records.set(vid as usize, Some(VertexAdjacency { base: Some(neighbors), delta }));
        assert(self@ =~= old(self)@.update(vid as int, Some((Some(neighbors@), d))));
        proof {
            assert forall|v: int| 0 <= v < self@.len() implies record_in_range(#[trigger] self@[v], self@.len()) by {
                if v != vid as int {
                    assert(self@[v] == old(self)@[v]);
                }
            }
        }
        true
    }

    /// Appends one operation to a vertex's delta log. Fails, changing
    /// nothing, when the vertex or the operation's neighbor is not a vertex,
    /// or the vertex's adjacency cannot be read.
    pub fn append_delta(&mut self, vid: VId, op: DeltaOp) -> (r: bool)
        requires
            old(self).wf(),
        ensures
            final(self).wf(),
            r == ((vid as nat) < old(self)@.len() && (op.target() as nat) < old(self)@.len()
                && old(self)@[vid as int].is_some()),
            r ==> final(self)@ == old(self)@.update(vid as int, Some((old(self)@[vid as int].unwrap().0,
                Some(match old(self)@[vid as int].unwrap().1 {
                    Some(ds) => ds.push(op),
                    None => seq![op],
                })))),
            !r ==> final(self)@ == old(self)@,
    {
        let n = self.records.len();
        let target = match op {
            DeltaOp::AddNeighbor(t) => t,
            DeltaOp::RemoveNeighbor(t) => t,
        };
        if (vid as usize) >= n || (target as usize) >= n || self.records[vid as usize].is_none() {
            return false;
        }
        let ghost rec = old(self)@[vid as int].unwrap();
        let mut old_rec: Option<VertexAdjacency> = None;
        self.records.set_and_swap(vid as usize, &mut old_rec);
        let a = old_rec.unwrap();
        let mut log = match a.delta {
            Some(ds) => ds,
            None => Vec::new(),
        };
        log.push(op);
        let ghost new_log = match rec.1 {
            Some(ds) => ds.push(op),
            None => seq![op],
        };
        assert(log@ =~= new_log);
        self.records.set(vid as usize, Some(VertexAdjacency { base: a.base, delta: Some(log) }));
        assert(self@ =~= old(self)@.update(vid as int, Some((rec.0, Some(new_log)))));
        proof {
            assert forall|v: int| 0 <= v < self@.len() implies record_in_range(#[trigger] self@[v], self@.len()) by {
                if v != vid as int {
                    assert(self@[v] == old(self)@[v]);
                } else {
                    assert forall|i: int| 0 <= i < new_log.len() implies (new_log[i].target() as nat) < n by {
                        if i < new_log.len() - 1 {
                            assert(new_log[i] == rec.1.unwrap()[i]);
                        }
                    }
                }
            }
        }
        true
    }

    /// Makes a vertex's adjacency unreadable, as when its record is lost.
    /// Returns `false`, changing nothing, when `vid` is not a vertex.
    pub fn mark_unreadable(&mut self, vid: VId) -> (r: bool)
        requires
            old(self).wf(),
        ensures
            final(self).wf(),
            r == ((vid as nat) < old(self)@.len()),
            r ==> final(self)@ == old(self)@.update(vid as int, None),
            !r ==> final(self)@ == old(self)@,
    {
        if (vid as usize) >= self.records.len() {
            return false;
        }
        self.records.set(vid as usize, None);
        assert(self@ =~= old(self)@.update(vid as int, None));
        proof {
            assert forall|v: int| 0 <= v < self@.len() implies record_in_range(#[trigger] self@[v], self@.len()) by {
                if v != vid as int {
                    assert(self@[v] == old(self)@[v]);
                }
            }
        }
        true
    }

    /// The resolved out-neighbors of one vertex, each once; `None` when
    /// `vid` is not a vertex or its adjacency cannot be read.
    pub fn read_out_neighbors(&self, vid: VId) -> (r: Option<Vec<VId>>)
        ensures
            r.is_some() == ((vid as nat) < self@.len() && self@[vid as int].is_some()),
            r matches Some(ns) ==> ns@.to_set() == self.graph()[vid as int] && ns@.no_duplicates(),
    {
        if (vid as usize) >= self.records.len() {
            return None;
        }
        match &self.records[vid as usize] {
            Some(a) => {
                let ns = resolve_neighbors(a.base.as_ref(), a.delta.as_ref());
                Some(ns)
            },
            None => None,
        }
    }

    /// The resolved neighbors of every vertex, all read from this one state
    /// of the index. An unreadable vertex gets an empty list.
    pub fn snapshot(&self) -> (t: Vec<Vec<VId>>)
        requires
            self.wf(),
        ensures
            table_graph(t@) == self.graph(),
            table_wf(t@),
    {
        let n = self.records.len();
        let mut t: Vec<Vec<VId>> = Vec::with_capacity(n);
        let mut v: usize = 0;
        proof { self.lemma_graph_closed(); }
        while v < n
            invariant
                n == self@.len(),
                self.wf(),
                graph_closed(self.graph()),
                v <= n,
                t@.len() == v,
                forall|i: int| 0 <= i < v ==> (#[trigger] t@[i])@.to_set() == self.graph()[i],
                forall|i: int| 0 <= i < v ==> (#[trigger] t@[i])@.no_duplicates(),
            decreases n - v,
        {
            let ns = match self.read_out_neighbors(v as VId) {
                Some(ns) => ns,
                None => {
                    let e: Vec<VId> = Vec::new();
                    assert(e@.to_set() =~= Set::<VId>::empty());
                    e
                },
            };
            t.push(ns);
            v += 1;
        }
        assert(table_graph(t@) =~= self.graph());
        assert forall|i: int, j: int| 0 <= i < t@.len() && 0 <= j < t@[i]@.len()
            implies (#[trigger] t@[i]@[j] as nat) < t@.len() by {
            assert(t@[i]@.to_set().contains(t@[i]@[j]));
        }
        t
    }
}

} // verus!
