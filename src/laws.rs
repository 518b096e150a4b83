//! Properties that relate several operations of the driver.

use crate::endpoint::{epsize_bytes, epsize_spec, EndpointRecord, NUM_ENDPOINTS};
use crate::trace::{
    cfg0_value, cfg1_value, in_event, lemma_pending_set, pending_has, pending_settled,
    program_block, scan_flags, slot_bit, stall_update,
};
use crate::regs::{Access, Reg, ALLOC, EPEN, STALLRQ, STALLRQC, TXINI};
use vstd::prelude::*;

verus! {

/// `a` writes UECFG1X with ALLOC set.
pub open spec fn sets_alloc(a: Access) -> bool {
    a matches Access::Write(Reg::Uecfg1x, v) && v & ALLOC != 0
}

/// `a` writes UECFG1X with ALLOC clear.
pub open spec fn clears_alloc(a: Access) -> bool {
    a matches Access::Write(Reg::Uecfg1x, v) && v & ALLOC == 0
}

/// In the programming of a slot, a write that clears ALLOC comes first; the type, direction
/// and size are written after it, with ALLOC still clear; ALLOC is set only in the write that
/// follows them, and neither configuration register is written after that.
pub proof fn lemma_alloc_cleared_before_layout(i: u8, rec: EndpointRecord, sel: u8, sta: u8)
    ensures
        ({
            let blk = program_block(i, rec, sel, sta);
            &&& clears_alloc(blk[3])
            &&& blk[4] == Access::Write(Reg::Uecfg0x, cfg0_value(rec))
            &&& blk[5] == Access::Write(Reg::Uecfg1x, cfg1_value(rec))
            &&& clears_alloc(blk[5])
            &&& sets_alloc(blk[6])
            &&& forall|k: int| 0 <= k < 6 ==> !sets_alloc(#[trigger] blk[k])
            &&& forall|k: int|
                7 <= k < 9 ==> !(#[trigger] blk[k] matches Access::Write(Reg::Uecfg0x, _))
                    && !(blk[k] matches Access::Write(Reg::Uecfg1x, _))
        }),
{
    let c = epsize_spec(rec.max_packet_size);
    let v = cfg1_value(rec);
    assert(c <= 6);
    assert(v & ALLOC == 0 && (v | ALLOC) & ALLOC != 0 && 0u8 & ALLOC == 0) by (bit_vector)
        requires
            c <= 6,
            v == (c * 16) as u8,
    ;
    let blk = program_block(i, rec, sel, sta);
    assert forall|k: int| 0 <= k < 6 implies !sets_alloc(#[trigger] blk[k]) by {
        if k == 3 {
            assert(clears_alloc(blk[3]));
        } else if k == 5 {
            assert(clears_alloc(blk[5]));
        }
    }
}

/// A write that succeeds on slot `i` marks it pending. A poll whose scan reaches slot `i` and
/// finds TXINI set reports the slot in `ep_in_complete` (its `in_event`) and drops it from the
/// pending mask; a later poll, with no write in between, cannot report it again.
pub proof fn lemma_in_complete_reported_once(
    p: u8,
    i: int,
    t: Seq<Option<EndpointRecord>>,
    log: Seq<Access>,
    q: int,
    f: int,
    p1: u8,
    t2: Seq<Option<EndpointRecord>>,
    log2: Seq<Access>,
    q2: int,
    f2: int,
)
    requires
        0 <= i < NUM_ENDPOINTS,
        i < f,
        t[i] is Some,
        scan_flags(t, log, q, i) & TXINI != 0,
        pending_settled(t, log, q, f, p | slot_bit(i as u8), p1),
    ensures
        in_event(t, log, q, f, p | slot_bit(i as u8), i),
        !pending_has(p1, i),
        !in_event(t2, log2, q2, f2, p1, i),
{
    lemma_pending_set(p, i as u8, i as u8);
    assert(pending_has(p | slot_bit(i as u8), i));
    assert(pending_has(p1, i) == (pending_has(p | slot_bit(i as u8), i) && !in_event(
        t,
        log,
        q,
        f,
        p | slot_bit(i as u8),
        i,
    )));
}

/// A stall request writes UECONX with STALLRQ set and STALLRQC clear, and a stall clear the
/// reverse, whatever UECONX held before, and both keep EPEN. So a UECONX that holds the last
/// request makes `is_stalled`, which reads its STALLRQ bit, answer what `set_stalled` asked.
pub proof fn lemma_stall_request_reads_back(v: u8)
    ensures
        stall_update(v, true) & STALLRQ != 0,
        stall_update(v, true) & STALLRQC == 0,
        stall_update(v, false) & STALLRQ == 0,
        stall_update(v, false) & STALLRQC != 0,
        stall_update(v, true) & EPEN == v & EPEN,
        stall_update(v, false) & EPEN == v & EPEN,
{
    let a = stall_update(v, true);
    let b = stall_update(v, false);
    assert(a & 0x20 != 0 && a & 0x10 == 0 && b & 0x20 == 0 && b & 0x10 != 0 && a & 1 == v & 1 && b
        & 1 == v & 1) by (bit_vector)
        requires
            a == (v & !(0x20u8 | 0x10u8)) | 0x20u8,
            b == (v & !(0x20u8 | 0x10u8)) | 0x10u8,
    ;
}

/// The UECFG1X value programmed for an endpoint carries, in EPSIZE, the code of the smallest of
/// 8, 16, ..., 512 bytes that holds its packet size: `max(8, next_pow2(mps))`, never above 512.
pub proof fn lemma_epsize_is_least_bank(rec: EndpointRecord)
    requires
        rec.max_packet_size <= 512,
    ensures
        cfg1_value(rec) == epsize_spec(rec.max_packet_size) * 16,
        rec.max_packet_size <= epsize_bytes(epsize_spec(rec.max_packet_size) as int) <= 512,
        epsize_spec(rec.max_packet_size) == 0 || epsize_bytes(epsize_spec(rec.max_packet_size) - 1)
            < rec.max_packet_size,
{
    reveal_with_fuel(epsize_bytes, 7);
}

} // verus!
