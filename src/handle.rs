//! Edge handles: a directed edge `(src, dst)` packed into one 64-bit integer,
//! `src` in the high half and `dst` in the low half.
use vstd::prelude::*;
use crate::types::VId;

verus! {

/// The handle of edge `(src, dst)`.
pub open spec fn handle_of(src: VId, dst: VId) -> nat {
    src as nat * 0x1_0000_0000 + dst as nat
}

/// The edge that handle `h` stands for.
pub open spec fn edge_of(h: u64) -> (VId, VId) {
    ((h as nat / 0x1_0000_0000) as VId, (h as nat % 0x1_0000_0000) as VId)
}

/// Packs `(src, dst)` into one handle.
pub fn pack_edge_handle(src: VId, dst: VId) -> (h: u64)
    ensures
        h as nat == handle_of(src, dst),
{
    let h = ((src as u64) << 32u64) | (dst as u64);
    assert(h == (src as u64) * 0x1_0000_0000u64 + (dst as u64)) by (bit_vector)
        requires
            h == ((src as u64) << 32u64) | (dst as u64),
    ;
    h
}

/// Splits a handle back into `(src, dst)`.
pub fn unpack_edge_handle(h: u64) -> (e: (VId, VId))
    ensures
        e == edge_of(h),
{
    let src = (h >> 32u64) as VId;
    let dst = (h & 0xFFFF_FFFFu64) as VId;
    assert(h >> 32u64 == h / 0x1_0000_0000u64) by (bit_vector);
    assert(h & 0xFFFF_FFFFu64 == h % 0x1_0000_0000u64) by (bit_vector);
    (src, dst)
}

/// The encoding is a bijection between pairs of 32-bit vertex ids and 64-bit
/// handles: unpacking a packed edge gives the edge back, and packing an
/// unpacked handle gives the handle back.
pub proof fn lemma_edge_handle_bijection(src: VId, dst: VId, h: u64)
    ensures
        handle_of(src, dst) <= u64::MAX,
        edge_of(handle_of(src, dst) as u64) == (src, dst),
        handle_of(edge_of(h).0, edge_of(h).1) == h as nat,
{
    let k = handle_of(src, dst);
    assert(k <= u64::MAX) by (nonlinear_arith)
        requires
            k == src as nat * 0x1_0000_0000 + dst as nat,
            src <= u32::MAX,
            dst <= u32::MAX,
    ;
    assert(k / 0x1_0000_0000 == src as nat && k % 0x1_0000_0000 == dst as nat) by (nonlinear_arith)
        requires
            k == src as nat * 0x1_0000_0000 + dst as nat,
            dst < 0x1_0000_0000,
    ;
    let hn = h as nat;
    assert(hn / 0x1_0000_0000 <= u32::MAX) by (nonlinear_arith)
        requires
            hn <= u64::MAX,
    ;
    assert(hn == (hn / 0x1_0000_0000) * 0x1_0000_0000 + hn % 0x1_0000_0000) by (nonlinear_arith);
}

} // verus!
