use vstd::prelude::*;

verus! {

/// Sentinel work value: an unranked class, or a degraded target that is unusable.
pub const WORK_SENTINEL: u32 = 0xffff_ffff;

/// Totally ordered key for a class of announcements: the block height they
/// target and the encoded difficulty target they met.
#[derive(Clone, Copy, PartialEq, Eq, Structural)]
pub struct HeightWork {
    pub block_height: i32,
    pub work: u32,
}

/// One announcement as the proof tree consumes it: the 64-bit prefix of its
/// hash (the sort and dedup key), the backing-store slot it lives in, and the
/// full hash itself.
#[derive(Clone, Copy)]
pub struct AnnData {
    pub hash_pfx: u64,
    pub mloc: u32,
    pub hash: [u8; 32],
}

/// Recoverable errors of the proof-tree lifecycle.
#[derive(Clone, Copy, PartialEq, Eq, Structural, Debug)]
pub enum TreeError {
    /// `compute` was called while a previous result is still held.
    AlreadyComputed,
    /// `compute` was called with nothing usable to commit to.
    NoAnns,
    /// `compute` was called with more announcements than the tree's capacity.
    TooMany,
    /// A commitment or proof was requested before a successful `compute`.
    NotComputed,
    /// A proof was requested for an announcement number `>= size`.
    OutOfRange,
}

/// Errors of the announcement store.
#[derive(Clone, Copy, PartialEq, Eq, Structural, Debug)]
pub enum StoreError {
    /// Every class refused to yield a buffer: the batch cannot be placed.
    StealExhausted,
}

/// The 64-bit little-endian prefix of a 32-byte hash.
pub open spec fn pfx_of(h: Seq<u8>) -> u64 {
    (h[0] as u64) | ((h[1] as u64) << 8) | ((h[2] as u64) << 16) | ((h[3] as u64) << 24)
        | ((h[4] as u64) << 32) | ((h[5] as u64) << 40) | ((h[6] as u64) << 48)
        | ((h[7] as u64) << 56)
}

/// Read the 64-bit little-endian prefix of a hash.
pub fn pfx_u64(h: &[u8; 32]) -> (r: u64)
    ensures
        r == pfx_of(h@),
{
    (h[0] as u64) | ((h[1] as u64) << 8) | ((h[2] as u64) << 16) | ((h[3] as u64) << 24)
        | ((h[4] as u64) << 32) | ((h[5] as u64) << 40) | ((h[6] as u64) << 48)
        | ((h[7] as u64) << 56)
}

/// A 64-bit value as 8 little-endian bytes.
pub open spec fn le64(x: u64) -> Seq<u8> {
    seq![
        x as u8,
        (x >> 8) as u8,
        (x >> 16) as u8,
        (x >> 24) as u8,
        (x >> 32) as u8,
        (x >> 40) as u8,
        (x >> 48) as u8,
        (x >> 56) as u8,
    ]
}

/// A 32-bit value as 4 little-endian bytes.
pub open spec fn le32(x: u32) -> Seq<u8> {
    seq![x as u8, (x >> 8) as u8, (x >> 16) as u8, (x >> 24) as u8]
}

/// Append the 8 little-endian bytes of `x`.
pub fn push_le64(out: &mut Vec<u8>, x: u64)
    ensures
        final(out)@ == old(out)@ + le64(x),
{
    out.push(x as u8);
    out.push((x >> 8) as u8);
    out.push((x >> 16) as u8);
    out.push((x >> 24) as u8);
    out.push((x >> 32) as u8);
    out.push((x >> 40) as u8);
    out.push((x >> 48) as u8);
    out.push((x >> 56) as u8);
    assert(out@ =~= old(out)@ + le64(x));
}

/// Append the 4 little-endian bytes of `x`.
pub fn push_le32(out: &mut Vec<u8>, x: u32)
    ensures
        final(out)@ == old(out)@ + le32(x),
{
    out.push(x as u8);
    out.push((x >> 8) as u8);
    out.push((x >> 16) as u8);
    out.push((x >> 24) as u8);
    assert(out@ =~= old(out)@ + le32(x));
}

/// Append all 32 bytes of a hash.
pub fn push_hash(out: &mut Vec<u8>, h: &[u8; 32])
    ensures
        final(out)@ == old(out)@ + h@,
{
    let mut i: usize = 0;
    while i < 32
        invariant
            i <= 32,
            out@ == old(out)@ + h@.take(i as int),
        decreases 32 - i,
    {
        out.push(h[i]);
        i = i + 1;
        assert(out@ =~= old(out)@ + h@.take(i as int));
    }
    assert(h@.take(32) =~= h@);
}

} // verus!
