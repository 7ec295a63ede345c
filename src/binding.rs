//! Flat integer encodings of analytic results, for transport across a
//! foreign-language boundary, and the dense renumbering of component labels.
use vstd::prelude::*;
use dashmap::DashMap;
use crate::types::VId;

verus! {

/// dashmap's `DashMap`, a sharded concurrent hash map.
#[verifier::external_type_specification]
#[verifier::external_body]
#[verifier::reject_recursive_types(K)]
#[verifier::reject_recursive_types(V)]
#[verifier::reject_recursive_types(S)]
pub struct ExDashMap<K, V, S>(DashMap<K, V, S>);

/// A concurrent map from component labels to dense ids.
pub type LabelIds = DashMap<VId, VId>;

/// The entries that a map from labels to dense ids holds.
pub uninterp spec fn dash_entries(m: LabelIds) -> Map<VId, VId>;

/// Relies on `DashMap::new`: a new map holds no entry.
#[verifier::external_body]
fn dash_new() -> (r: LabelIds)
    ensures
        dash_entries(r).dom() == Set::<VId>::empty(),
{
    DashMap::new()
}

/// Relies on `DashMap::entry` with `Entry::or_insert`: returns the value
/// stored under `key`; when there was none, `value` is stored and returned.
#[verifier::external_body]
fn dash_get_or_insert(m: &mut LabelIds, key: VId, value: VId) -> (r: VId)
    ensures
        dash_entries(*old(m)).contains_key(key) ==> r == dash_entries(*old(m))[key]
            && dash_entries(*final(m)) == dash_entries(*old(m)),
        !dash_entries(*old(m)).contains_key(key) ==> r == value
            && dash_entries(*final(m)) == dash_entries(*old(m)).insert(key, value),
{
    *m.entry(key).or_insert(value)
}

/// Dense ids for labels in order of first appearance: the first label seen
/// gets 0, the next new one 1, and so on. Returns the ids given so far and
/// how many there are.
pub open spec fn first_seen(labels: Seq<VId>) -> (Map<VId, VId>, nat)
    decreases labels.len(),
{
    if labels.len() == 0 {
        (Map::empty(), 0)
    } else {
        let (m, k) = first_seen(labels.drop_last());
        if m.contains_key(labels.last()) {
            (m, k)
        } else {
            (m.insert(labels.last(), k as VId), k + 1)
        }
    }
}

/// Renumbers component labels densely, in order of first appearance; also
/// returns the number of distinct labels. Equal labels get equal ids and
/// different labels different ids.
pub fn renumber_components(labels: &Vec<VId>) -> (r: (Vec<VId>, VId))
    requires
        labels@.len() < u32::MAX,
    ensures
        r.1 as nat == first_seen(labels@).1,
        r.0@.len() == labels@.len(),
        forall|i: int| 0 <= i < labels@.len() ==> #[trigger] r.0@[i] == first_seen(labels@).0[labels@[i]],
        forall|i: int| 0 <= i < labels@.len() ==> #[trigger] r.0@[i] < r.1,
        forall|i: int, j: int| 0 <= i < labels@.len() && 0 <= j < labels@.len() ==>
            (#[trigger] r.0@[i] == #[trigger] r.0@[j] <==> labels@[i] == labels@[j]),
{
    let mut m = dash_new();
    assert(dash_entries(m) =~= first_seen(labels@.subrange(0, 0)).0);
    let mut out: Vec<VId> = Vec::with_capacity(labels.len());
    let mut next: VId = 0;
    let mut i: usize = 0;
    while i < labels.len()
        invariant
            labels@.len() < u32::MAX,
            i <= labels@.len(),
            out@.len() == i,
            next as nat == first_seen(labels@.subrange(0, i as int)).1,
            next as nat <= i,
            dash_entries(m) == first_seen(labels@.subrange(0, i as int)).0,
            forall|key: VId| #[trigger] dash_entries(m).contains_key(key) ==> dash_entries(m)[key] < next,
            forall|a: VId, b: VId| #[trigger] dash_entries(m).contains_key(a) && #[trigger] dash_entries(m).contains_key(b)
                && a != b ==> dash_entries(m)[a] != dash_entries(m)[b],
            forall|k: int| 0 <= k < i ==> #[trigger] dash_entries(m).contains_key(labels@[k])
                && out@[k] == dash_entries(m)[labels@[k]],
        decreases labels.len() - i,
    {
        let l = labels[i];
        let ghost before = dash_entries(m);
        let id = dash_get_or_insert(&mut m, l, next);
        proof {
            let p = labels@.subrange(0, i + 1);
            assert(p.drop_last() =~= labels@.subrange(0, i as int));
            assert(p.last() == l);
        }
        if id == next {
            next = next + 1;
        }
        out.push(id);
        proof {
            assert forall|k: int| 0 <= k < i + 1 implies #[trigger] dash_entries(m).contains_key(labels@[k])
                && out@[k] == dash_entries(m)[labels@[k]] by {
                if k < i {
                    assert(before.contains_key(labels@[k]));
                }
            }
        }
        i += 1;
    }
    assert(labels@.subrange(0, labels@.len() as int) =~= labels@);
    assert forall|a: int| 0 <= a < labels@.len() implies #[trigger] out@[a] == first_seen(labels@).0[labels@[a]] by {
        assert(dash_entries(m).contains_key(labels@[a]));
    }
    assert forall|a: int| 0 <= a < labels@.len() implies #[trigger] out@[a] < next by {
        assert(dash_entries(m).contains_key(labels@[a]));
    }
    assert forall|a: int, b: int| 0 <= a < labels@.len() && 0 <= b < labels@.len() implies
        (#[trigger] out@[a] == #[trigger] out@[b] <==> labels@[a] == labels@[b]) by {
        assert(dash_entries(m).contains_key(labels@[a]));
        assert(dash_entries(m).contains_key(labels@[b]));
    }
    (out, next)
}

/// Entries `2 * i` and `2 * i + 1` of `out` hold `v` and `d`.
pub open spec fn pair_at(out: Seq<i64>, i: int, v: int, d: int) -> bool {
    out[2 * i] as int == v && out[2 * i + 1] as int == d
}

/// A breadth-first search result as `[v0, d0, v1, d1, ...]`.
pub fn bfs_to_flat(r: &Vec<(VId, u32)>) -> (out: Vec<i64>)
    requires
        r@.len() * 2 <= usize::MAX,
    ensures
        out@.len() == 2 * r@.len(),
        forall|i: int| 0 <= i < r@.len() ==> pair_at(out@, i, (#[trigger] r@[i]).0 as int, r@[i].1 as int),
{
    let mut out: Vec<i64> = Vec::with_capacity(r.len() * 2);
    let mut i: usize = 0;
    while i < r.len()
        invariant
            i <= r@.len(),
            r@.len() * 2 <= usize::MAX,
            out@.len() == 2 * i,
            forall|k: int| 0 <= k < i ==> pair_at(out@, k, (#[trigger] r@[k]).0 as int, r@[k].1 as int),
        decreases r.len() - i,
    {
        let (v, d) = r[i];
        let ghost prev = out@;
        out.push(v as i64);
        out.push(d as i64);
        proof {
            assert forall|k: int| 0 <= k < i + 1 implies pair_at(out@, k, (#[trigger] r@[k]).0 as int, r@[k].1 as int) by {
                if k < i {
                    assert(pair_at(prev, k, r@[k].0 as int, r@[k].1 as int));
                    assert(out@[2 * k] == prev[2 * k]);
                    assert(out@[2 * k + 1] == prev[2 * k + 1]);
                }
            }
        }
        i += 1;
    }
    out
}

/// Component ids as `[k, 0, c0, 1, c1, ...]`, where `k` is the number of
/// components: after the count, each vertex's id follows the vertex.
pub fn components_to_flat(ids: &Vec<VId>, k: VId) -> (out: Vec<i64>)
    requires
        ids@.len() * 2 + 1 <= usize::MAX,
    ensures
        out@.len() == 2 * ids@.len() + 1,
        out@[0] == k as i64,
        forall|i: int| 0 <= i < ids@.len() ==> pair_at(out@.drop_first(), i, i, (#[trigger] ids@[i]) as int),
{
    let mut out: Vec<i64> = Vec::with_capacity(ids.len() * 2 + 1);
    out.push(k as i64);
    let mut i: usize = 0;
    while i < ids.len()
        invariant
            i <= ids@.len(),
            ids@.len() * 2 + 1 <= usize::MAX,
            out@.len() == 2 * i + 1,
            out@[0] == k as i64,
            forall|j: int| 0 <= j < i ==> pair_at(out@.drop_first(), j, j, (#[trigger] ids@[j]) as int),
        decreases ids.len() - i,
    {
        let ghost prev = out@;
        out.push(i as i64);
        out.push(ids[i] as i64);
        proof {
            assert forall|j: int| 0 <= j < i + 1 implies pair_at(out@.drop_first(), j, j, (#[trigger] ids@[j]) as int) by {
                if j < i {
                    assert(pair_at(prev.drop_first(), j, j, ids@[j] as int));
                    assert(out@[2 * j + 1] == prev[2 * j + 1]);
                    assert(out@[2 * j + 2] == prev[2 * j + 2]);
                }
            }
        }
        i += 1;
    }
    out
}

/// The number of dense component ids `0..k` in use: one more than the
/// largest id, or 0 when there is none.
pub open spec fn dense_count(ids: Seq<VId>) -> nat
    decreases ids.len(),
{
    if ids.len() == 0 {
        0
    } else {
        let rest = dense_count(ids.drop_last());
        if ids.last() as nat + 1 > rest { ids.last() as nat + 1 } else { rest }
    }
}

/// Strongly connected component ids, already dense, as
/// `[k, 0, c0, 1, c1, ...]`.
pub fn scc_to_flat(ids: &Vec<VId>) -> (out: Vec<i64>)
    requires
        ids@.len() * 2 + 1 <= usize::MAX,
        forall|i: int| 0 <= i < ids@.len() ==> #[trigger] ids@[i] < u32::MAX,
    ensures
        out@.len() == 2 * ids@.len() + 1,
        out@[0] == dense_count(ids@) as i64,
        forall|i: int| 0 <= i < ids@.len() ==> pair_at(out@.drop_first(), i, i, (#[trigger] ids@[i]) as int),
{
    let mut k: VId = 0;
    let mut i: usize = 0;
    while i < ids.len()
        invariant
            i <= ids@.len(),
            forall|j: int| 0 <= j < ids@.len() ==> #[trigger] ids@[j] < u32::MAX,
            k as nat == dense_count(ids@.subrange(0, i as int)),
        decreases ids.len() - i,
    {
        proof {
            assert(ids@.subrange(0, i + 1).drop_last() =~= ids@.subrange(0, i as int));
        }
        if ids[i] + 1 > k {
            k = ids[i] + 1;
        }
        i += 1;
    }
    assert(ids@.subrange(0, ids@.len() as int) =~= ids@);
    components_to_flat(ids, k)
}

/// Weakly connected component roots, renumbered densely in order of first
/// appearance, as `[k, 0, c0, 1, c1, ...]`.
pub fn wcc_to_flat(roots: &Vec<VId>) -> (out: Vec<i64>)
    requires
        roots@.len() < u32::MAX,
        roots@.len() * 2 + 1 <= usize::MAX,
    ensures
        out@.len() == 2 * roots@.len() + 1,
        out@[0] == first_seen(roots@).1 as i64,
        forall|i: int| 0 <= i < roots@.len() ==> pair_at(out@.drop_first(), i, i,
            first_seen(roots@).0[#[trigger] roots@[i]] as int),
{
    let (ids, k) = renumber_components(roots);
    let out = components_to_flat(&ids, k);
    assert forall|i: int| 0 <= i < roots@.len() implies pair_at(out@.drop_first(), i, i,
        first_seen(roots@).0[#[trigger] roots@[i]] as int) by {
        assert(ids@[i] == first_seen(roots@).0[roots@[i]]);
        assert(pair_at(out@.drop_first(), i, i, ids@[i] as int));
    }
    out
}

} // verus!
