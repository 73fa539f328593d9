use vstd::prelude::*;
use crate::types::WORK_SENTINEL;

verus! {

/// Number of blocks an announcement must age before it becomes usable.
pub const ANN_WAIT_PERIOD: u32 = 3;

/// Largest valid encoded (compact) difficulty target.
pub const MAX_COMPACT: u32 = 0x207f_ffff;

/// Age-degraded effective work of an announcement target.
///
/// A compact target encodes `mantissa * 256^(exponent - 3)` with the exponent
/// in the top byte and a 23-bit mantissa.  Ageing by one block past the wait
/// period doubles the target (halves the value of the work), so the target is
/// shifted left by `age - ANN_WAIT_PERIOD` bits and re-encoded.  The sentinel
/// is returned when the announcement is too young, too old, when the shifted
/// target no longer fits in 256 bits, or when the re-encoded target exceeds
/// `MAX_COMPACT`.  A target with the sign bit set is unusable and degrades to
/// the sentinel as well.
pub open spec fn spec_degrade(work: u32, age: u32) -> u32 {
    if age < ANN_WAIT_PERIOD {
        WORK_SENTINEL
    } else if age > 256 + ANN_WAIT_PERIOD {
        WORK_SENTINEL
    } else if age == ANN_WAIT_PERIOD {
        work
    } else if work & 0x0080_0000u32 != 0 {
        WORK_SENTINEL
    } else {
        let s = (age - ANN_WAIT_PERIOD) as u64;
        let exp = (work >> 24) as u64;
        let word = (work & 0x007f_ffffu32) as u64;
        let m0: u64 = if exp <= 3 { word >> ((8 * (3 - exp)) as u64) } else { word };
        let e0: u64 = if exp <= 3 { 0 } else { (exp - 3) as u64 };
        let m1: u64 = m0 << (s % 8);
        let e1: u64 = (e0 + s / 8) as u64;
        if m1 == 0 {
            0u32
        } else if e1 >= 32 || (e1 >= 29 && m1 >= (1u64 << ((255 - 8 * e1) as u64))) {
            WORK_SENTINEL
        } else {
            let bl: u64 = if m1 < 0x100 { 1 } else if m1 < 0x1_0000 { 2 } else if m1
                < 0x100_0000 { 3 } else { 4 };
            let c0: u64 = if bl == 1 { m1 << 16 } else if bl == 2 { m1 << 8 } else if bl == 3 {
                m1
            } else {
                m1 >> 8
            };
            let c: u64 = if c0 & 0x0080_0000 != 0 { c0 >> 8 } else { c0 };
            let size: u64 = if c0 & 0x0080_0000 != 0 { (bl + e1 + 1) as u64 } else { (bl
                + e1) as u64 };
            let out = (c | (size << 24)) as u32;
            if out <= MAX_COMPACT { out } else { WORK_SENTINEL }
        }
    }
}

/// Degrade an announcement target by its age in blocks.
pub fn degrade(work: u32, age: u32) -> (r: u32)
    ensures
        r == spec_degrade(work, age),
{
    if age < ANN_WAIT_PERIOD {
        return WORK_SENTINEL;
    }
    if age > 256 + ANN_WAIT_PERIOD {
        return WORK_SENTINEL;
    }
    if age == ANN_WAIT_PERIOD {
        return work;
    }
    if work & 0x0080_0000u32 != 0 {
        return WORK_SENTINEL;
    }
    let s: u64 = (age - ANN_WAIT_PERIOD) as u64;
    let exp: u64 = (work >> 24) as u64;
    let word: u64 = (work & 0x007f_ffffu32) as u64;
    let m0: u64 = if exp <= 3 { word >> (8 * (3 - exp)) } else { word };
    let e0: u64 = if exp <= 3 { 0 } else { exp - 3 };
    let m1: u64 = m0 << (s % 8);
    let e1: u64 = e0 + s / 8;
    if m1 == 0 {
        return 0u32;
    }
    if e1 >= 32 || (e1 >= 29 && m1 >= (1u64 << (255 - 8 * e1))) {
        return WORK_SENTINEL;
    }
    let bl: u64 = if m1 < 0x100 { 1 } else if m1 < 0x1_0000 { 2 } else if m1 < 0x100_0000 { 3 } else { 4 };
    let c0: u64 = if bl == 1 { m1 << 16 } else if bl == 2 { m1 << 8 } else if bl == 3 { m1 } else { m1 >> 8 };
    let c: u64 = if c0 & 0x0080_0000 != 0 { c0 >> 8 } else { c0 };
    let size: u64 = if c0 & 0x0080_0000 != 0 { bl + e1 + 1 } else { bl + e1 };
    let out: u32 = (c | (size << 24)) as u32;
    if out <= MAX_COMPACT {
        out
    } else {
        WORK_SENTINEL
    }
}

/// The sentinel target never degrades into anything usable: a class keyed
/// with the sentinel (the free pool) is excluded from ranking at every age.
pub proof fn lemma_degrade_of_sentinel(age: u32)
    ensures
        spec_degrade(WORK_SENTINEL, age) == WORK_SENTINEL,
{
    assert(WORK_SENTINEL & 0x0080_0000u32 != 0u32) by (bit_vector);
}

} // verus!
