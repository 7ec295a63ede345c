//! Resolution of a vertex's effective neighbors from base adjacency and its
//! delta log.
use vstd::prelude::*;
use crate::types::{VId, DeltaOp, apply_ops, resolved_set};
use crate::fxset::{fx_new, fx_insert, fx_remove, fx_into_vec};

verus! {

/// Combines base neighbors with a delta log: adds insert, removes delete if
/// present, in log order. Each resolved neighbor appears once.
pub fn resolve_neighbors(base: Option<&Vec<VId>>, delta: Option<&Vec<DeltaOp>>) -> (r: Vec<VId>)
    ensures
        r@.to_set() == resolved_set(
            match base { Some(b) => Some(b@), None => None },
            match delta { Some(d) => Some(d@), None => None },
        ),
        r@.no_duplicates(),
{
    let mut set = fx_new();
    let ghost start: Set<VId> = Set::empty();
    if let Some(b) = base {
        let mut i: usize = 0;
        while i < b.len()
            invariant
                i <= b.len(),
                set@ == b@.subrange(0, i as int).to_set(),
            decreases b.len() - i,
        {
            fx_insert(&mut set, b[i]);
            proof {
                assert(b@.subrange(0, i + 1) == b@.subrange(0, i as int).push(b@[i as int]));
                b@.subrange(0, i as int).lemma_push_to_set_commute(b@[i as int]);
            }
            i += 1;
        }
        proof {
            assert(b@.subrange(0, b@.len() as int) == b@);
            start = b@.to_set();
        }
    }
    if let Some(d) = delta {
        let mut j: usize = 0;
        while j < d.len()
            invariant
                j <= d.len(),
                set@ == apply_ops(start, d@.subrange(0, j as int)),
            decreases d.len() - j,
        {
            let op = d[j];
            match op {
                DeltaOp::AddNeighbor(n) => fx_insert(&mut set, n),
                DeltaOp::RemoveNeighbor(n) => fx_remove(&mut set, n),
            }
            proof {
                assert(d@.subrange(0, j + 1).drop_last() == d@.subrange(0, j as int));
            }
            j += 1;
        }
        proof {
            assert(d@.subrange(0, d@.len() as int) == d@);
        }
    }
    fx_into_vec(set)
}

} // verus!
