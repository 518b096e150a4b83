//! The driver's register-access log: what each operation records, and lemmas about it.

use crate::endpoint::{
    epsize_spec, BusError, Direction, EndpointKind, EndpointRecord, EpAddr, NUM_ENDPOINTS,
};
use crate::bus::PollEvent;
use crate::regs::{
    flag_write_safe, flag_writes_safe_from, is_read, read_has, read_value, selects, Access, Reg,
    ALLOC, CFGOK, EPEN, FRZCLK, OTGPADE, PDIV_MHZ48, PINDIV, PLLE, PLLFRQ_RESET, PLLTM_DISCONNECTED,
    PLOCK, RWAL, RXOUTE, RXOUTI, RXSTPE, RXSTPI, SOFI, STALLRQ, STALLRQC, TXINI, USBE, UVREGE,
    VBUSTE,
};
use vstd::prelude::*;

verus! {

/// UECONX after a stall request (`stalled`) or a stall clear, from its value `v` before.
pub open spec fn stall_update(v: u8, stalled: bool) -> u8 {
    (v & !(STALLRQ | STALLRQC)) | (if stalled {
        STALLRQ
    } else {
        STALLRQC
    })
}

/// EPTYPE field of UECFG0X for a transfer type.
pub open spec fn eptype_field(k: EndpointKind) -> u8 {
    match k {
        EndpointKind::Control => 0x00,
        EndpointKind::Isochronous => 0x40,
        EndpointKind::Bulk => 0x80,
        EndpointKind::Interrupt => 0xC0,
    }
}

/// UECFG0X of an endpoint: EPTYPE from its type, EPDIR set for IN.
pub open spec fn cfg0_value(rec: EndpointRecord) -> u8 {
    eptype_field(rec.kind) | (if rec.dir == Direction::In {
        1u8
    } else {
        0u8
    })
}

/// UECFG1X of an endpoint before ALLOC: one bank, EPSIZE from its packet size.
pub open spec fn cfg1_value(rec: EndpointRecord) -> u8 {
    (epsize_spec(rec.max_packet_size) * 16) as u8
}

/// The accesses that program slot `i` with record `rec`, where `sel` is the value read back
/// from UENUM and `sta` the value read from UESTA0X.
pub open spec fn program_block(i: u8, rec: EndpointRecord, sel: u8, sta: u8) -> Seq<Access> {
    seq![
        Access::Write(Reg::Uenum, i),
        Access::Read(Reg::Uenum, sel),
        Access::Write(Reg::Ueconx, EPEN),
        Access::Write(Reg::Uecfg1x, 0),
        Access::Write(Reg::Uecfg0x, cfg0_value(rec)),
        Access::Write(Reg::Uecfg1x, cfg1_value(rec)),
        Access::Write(Reg::Uecfg1x, cfg1_value(rec) | ALLOC),
        Access::Read(Reg::Uesta0x, sta),
        Access::Write(Reg::Ueienx, RXOUTE | RXSTPE),
    ]
}

/// Number of allocated slots below slot `j`.
pub open spec fn allocated_below(t: Seq<Option<EndpointRecord>>, j: int) -> int
    decreases j,
{
    if j <= 0 {
        0
    } else {
        allocated_below(t, j - 1) + (if t[j - 1] is Some {
            1int
        } else {
            0int
        })
    }
}

/// Where the programming of slot `i` starts in a log whose programming starts at `base`.
pub open spec fn block_start(t: Seq<Option<EndpointRecord>>, base: int, i: int) -> int {
    base + 9 * allocated_below(t, i)
}

/// The log holds a complete, accepted programming of slot `i` at its place.
pub open spec fn block_ok(t: Seq<Option<EndpointRecord>>, log: Seq<Access>, base: int, i: int) -> bool {
    let p = block_start(t, base, i);
    &&& p + 9 <= log.len()
    &&& log.subrange(p, p + 9) == program_block(
        i as u8,
        t[i]->Some_0,
        read_value(log[p + 1]),
        read_value(log[p + 7]),
    )
    &&& selects(log[p + 1], i as u8)
    &&& read_has(log[p + 7], Reg::Uesta0x, CFGOK)
}

/// Every allocated slot below `j` was programmed, in ascending order, from `base` on.
pub open spec fn programmed_upto(
    t: Seq<Option<EndpointRecord>>,
    log: Seq<Access>,
    base: int,
    j: int,
) -> bool {
    forall|i: int| 0 <= i < j && t[i] is Some ==> #[trigger] block_ok(t, log, base, i)
}

/// The programming of slot `f` is the last thing in the log, and stopped with error `e`:
/// `InvalidState` when the selector did not take the slot, `EndpointMemoryOverflow` when
/// CFGOK read as clear.
pub open spec fn failed_at(
    t: Seq<Option<EndpointRecord>>,
    log: Seq<Access>,
    base: int,
    f: int,
    e: BusError,
) -> bool {
    let p = block_start(t, base, f);
    let blk = program_block(f as u8, t[f]->Some_0, read_value(log[p + 1]), read_value(log[p + 7]));
    ||| e == BusError::InvalidState && log.len() == p + 2 && log.subrange(p, p + 2) == blk.take(2)
        && !selects(log[p + 1], f as u8)
    ||| e == BusError::EndpointMemoryOverflow && log.len() == p + 8 && log.subrange(p, p + 8)
        == blk.take(8) && selects(log[p + 1], f as u8) && !read_has(log[p + 7], Reg::Uesta0x, CFGOK)
}

/// The log from `base` on records the programming of every allocated slot in ascending order,
/// with outcome `r`; on error it stops in the slot that failed.
pub open spec fn programming_recorded(
    t: Seq<Option<EndpointRecord>>,
    log: Seq<Access>,
    base: int,
    r: Result<(), BusError>,
) -> bool {
    match r {
        Ok(_) => programmed_upto(t, log, base, NUM_ENDPOINTS as int),
        Err(e) => exists|f: int|
            0 <= f < NUM_ENDPOINTS && t[f] is Some && programmed_upto(t, log, base, f)
                && #[trigger] failed_at(t, log, base, f, e),
    }
}

/// The bus attach sequence up to endpoint programming, for PINDIV value `pd`.
pub open spec fn enable_prefix(pd: u8) -> Seq<Access> {
    seq![
        Access::Write(Reg::Uhwcon, UVREGE),
        Access::Write(Reg::Usbcon, USBE | FRZCLK),
        Access::Write(Reg::Pllcsr, pd),
        Access::Write(Reg::Pllfrq, PLLFRQ_RESET),
        Access::Write(Reg::Pllfrq, PDIV_MHZ48 | PLLTM_DISCONNECTED),
        Access::Write(Reg::Pllcsr, pd | PLLE),
        Access::WaitSet(Reg::Pllcsr, PLOCK),
        Access::Write(Reg::Usbcon, USBE | FRZCLK | OTGPADE),
        Access::Delay(1),
        Access::Write(Reg::Usbcon, USBE | OTGPADE | VBUSTE),
    ]
}

/// PINDIV value for a clock.
pub open spec fn pindiv_value(divide: bool) -> u8 {
    if divide {
        PINDIV
    } else {
        0
    }
}

/// `allocated_below` never decreases.
pub proof fn lemma_allocated_below_nonneg(t: Seq<Option<EndpointRecord>>, j: int)
    ensures
        allocated_below(t, j) >= 0,
        j >= 1 ==> allocated_below(t, j) >= allocated_below(t, j - 1),
    decreases j,
{
    if j > 0 {
        lemma_allocated_below_nonneg(t, j - 1);
    }
}

/// A log that starts with `a` agrees with `a` at every position of `a`.
pub proof fn lemma_prefix_index(a: Seq<Access>, b: Seq<Access>)
    requires
        a.len() <= b.len(),
        b.subrange(0, a.len() as int) == a,
    ensures
        forall|k: int| 0 <= k < a.len() ==> #[trigger] b[k] == a[k],
{
    assert forall|k: int| 0 <= k < a.len() implies #[trigger] b[k] == a[k] by {
        assert(b.subrange(0, a.len() as int)[k] == b[k]);
    }
}

/// Starting with `b`, which starts with `a`, a log starts with `a`.
pub proof fn lemma_prefix_trans(a: Seq<Access>, b: Seq<Access>, c: Seq<Access>)
    requires
        a.len() <= b.len() <= c.len(),
        b.subrange(0, a.len() as int) == a,
        c.subrange(0, b.len() as int) == b,
    ensures
        c.subrange(0, a.len() as int) == a,
{
    lemma_prefix_index(a, b);
    lemma_prefix_index(b, c);
    assert(c.subrange(0, a.len() as int) =~= a);
}

/// Appending to a log keeps the programming already recorded in it.
pub proof fn lemma_programmed_frame(
    t: Seq<Option<EndpointRecord>>,
    a: Seq<Access>,
    b: Seq<Access>,
    base: int,
    j: int,
)
    requires
        0 <= base,
        a.len() <= b.len(),
        b.subrange(0, a.len() as int) == a,
        programmed_upto(t, a, base, j),
    ensures
        programmed_upto(t, b, base, j),
{
    lemma_prefix_index(a, b);
    assert forall|i: int| 0 <= i < j && t[i] is Some implies #[trigger] block_ok(t, b, base, i) by {
        assert(block_ok(t, a, base, i));
        lemma_allocated_below_nonneg(t, i);
        let p = block_start(t, base, i);
        assert(b[p + 1] == a[p + 1]);
        assert(b[p + 7] == a[p + 7]);
        assert(b.subrange(p, p + 9) =~= a.subrange(p, p + 9));
    }
}

/// Every access appended after a safe log is safe keeps the whole log safe.
pub proof fn lemma_safe_extend(a: Seq<Access>, b: Seq<Access>, start: int)
    requires
        0 <= start,
        a.len() <= b.len(),
        b.subrange(0, a.len() as int) == a,
        flag_writes_safe_from(a, start),
        flag_writes_safe_from(b, a.len() as int),
    ensures
        flag_writes_safe_from(b, start),
{
    lemma_prefix_index(a, b);
    assert forall|k: int| start <= k < b.len() implies flag_write_safe(#[trigger] b[k]) by {
        if k < a.len() {
            assert(b[k] == a[k]);
        }
    }
}

/// Slot `addr.index` serves transfers in direction `want` for address `addr`: the address has
/// that direction and names an allocated slot, which has that direction too unless it is slot
/// zero, the bidirectional control endpoint.
pub open spec fn usable(t: Seq<Option<EndpointRecord>>, addr: EpAddr, want: Direction) -> bool {
    &&& addr.dir == want
    &&& addr.index < NUM_ENDPOINTS
    &&& t[addr.index as int] is Some
    &&& (addr.index == 0 || t[addr.index as int]->Some_0.dir == want)
}

/// The bit of slot `i` in an endpoint mask.
pub open spec fn slot_bit(i: u8) -> u8 {
    1u8 << i
}

/// Byte `d[k]` was pushed to UEDATX at position `start + k`.
pub open spec fn pushed_at(log: Seq<Access>, start: int, d: Seq<u8>, k: int) -> bool {
    log[start + k] == Access::Write(Reg::Uedatx, d[k])
}

/// Byte `d[k]` was pushed to UEDATX at `start + 2k + 1`, after a UEINTX read at `start + 2k`
/// that showed RWAL set.
pub open spec fn paced_push_at(log: Seq<Access>, start: int, d: Seq<u8>, k: int) -> bool {
    &&& read_has(log[start + 2 * k], Reg::Ueintx, RWAL)
    &&& log[start + 2 * k + 1] == Access::Write(Reg::Uedatx, d[k])
}

/// The first `m` bytes of `d` were pushed from `start` on, each after an RWAL check.
pub open spec fn paced_pushes(log: Seq<Access>, start: int, d: Seq<u8>, m: int) -> bool {
    forall|k: int| 0 <= k < m ==> #[trigger] paced_push_at(log, start, d, k)
}

/// Byte `d[k]` was read from UEDATX at position `start + k`.
pub open spec fn fetched_at(log: Seq<Access>, start: int, d: Seq<u8>, k: int) -> bool {
    log[start + k] == Access::Read(Reg::Uedatx, d[k])
}

/// Byte `d[k]` was read from UEDATX at `start + 2k + 1`, after a UEINTX read at `start + 2k`
/// that showed RWAL set.
pub open spec fn paced_fetch_at(log: Seq<Access>, start: int, d: Seq<u8>, k: int) -> bool {
    &&& read_has(log[start + 2 * k], Reg::Ueintx, RWAL)
    &&& log[start + 2 * k + 1] == Access::Read(Reg::Uedatx, d[k])
}

/// The 11-bit byte count of a control endpoint's bank, from UEBCHX and UEBCLX.
pub open spec fn byte_count(high: u8, low: u8) -> int {
    (high & 7) as int * 256 + low as int
}

/// The log `l1` is `l0` followed by the selection of slot `i`.
pub open spec fn selected_from(l0: Seq<Access>, l1: Seq<Access>, i: u8) -> bool {
    let n = l0.len() as int;
    &&& l1.len() >= n + 2
    &&& l1.subrange(0, n) == l0
    &&& l1[n] == Access::Write(Reg::Uenum, i)
    &&& is_read(l1[n + 1], Reg::Uenum)
}

/// The first `m` bytes of `d` were read from `start` on, each after an RWAL check.
pub open spec fn paced_fetches(log: Seq<Access>, start: int, d: Seq<u8>, m: int) -> bool {
    forall|k: int| 0 <= k < m ==> #[trigger] paced_fetch_at(log, start, d, k)
}

/// Bit `j` of the endpoint mask `m`.
pub open spec fn mask_has(m: u16, j: int) -> bool {
    m & (1u16 << (j as u16)) != 0
}

/// Bit `j` of the pending mask `p`.
pub open spec fn pending_has(p: u8, j: int) -> bool {
    p & (1u8 << (j as u8)) != 0
}

/// Where the scan of slot `j` starts in a poll whose scan starts at `q`.
pub open spec fn scan_pos(t: Seq<Option<EndpointRecord>>, q: int, j: int) -> int {
    q + 3 * allocated_below(t, j)
}

/// The log holds, at its place, the selection of slot `j` and the read of its UEINTX.
pub open spec fn scan_ok(t: Seq<Option<EndpointRecord>>, log: Seq<Access>, q: int, j: int) -> bool {
    let p = scan_pos(t, q, j);
    &&& p + 3 <= log.len()
    &&& log[p] == Access::Write(Reg::Uenum, j as u8)
    &&& selects(log[p + 1], j as u8)
    &&& is_read(log[p + 2], Reg::Ueintx)
}

/// The UEINTX value read for slot `j`.
pub open spec fn scan_flags(t: Seq<Option<EndpointRecord>>, log: Seq<Access>, q: int, j: int) -> u8 {
    read_value(log[scan_pos(t, q, j) + 2])
}

/// The scan went through every allocated slot below `f`, and stopped there: at the end of
/// the slots, or at an allocated slot whose selection failed, which ends the log.
pub open spec fn scan_stopped(t: Seq<Option<EndpointRecord>>, log: Seq<Access>, q: int, f: int) -> bool {
    let p = scan_pos(t, q, f);
    &&& 0 <= f <= NUM_ENDPOINTS
    &&& forall|j: int| 0 <= j < f && t[j] is Some ==> #[trigger] scan_ok(t, log, q, j)
    &&& if f == NUM_ENDPOINTS {
        log.len() == p
    } else {
        &&& t[f] is Some
        &&& log.len() == p + 2
        &&& log[p] == Access::Write(Reg::Uenum, f as u8)
        &&& is_read(log[p + 1], Reg::Uenum)
        &&& !selects(log[p + 1], f as u8)
    }
}

/// Slot `j` was scanned and showed RXOUTI.
pub open spec fn out_event(t: Seq<Option<EndpointRecord>>, log: Seq<Access>, q: int, f: int, j: int) -> bool {
    0 <= j < f && t[j] is Some && scan_flags(t, log, q, j) & RXOUTI != 0
}

/// Slot `j` was scanned and showed RXSTPI.
pub open spec fn setup_event(t: Seq<Option<EndpointRecord>>, log: Seq<Access>, q: int, f: int, j: int) -> bool {
    0 <= j < f && t[j] is Some && scan_flags(t, log, q, j) & RXSTPI != 0
}

/// Slot `j` was scanned, was pending in `p`, and showed TXINI.
pub open spec fn in_event(
    t: Seq<Option<EndpointRecord>>,
    log: Seq<Access>,
    q: int,
    f: int,
    p: u8,
    j: int,
) -> bool {
    0 <= j < f && t[j] is Some && pending_has(p, j) && scan_flags(t, log, q, j) & TXINI != 0
}

/// The pending mask went from `p0` to `p1` by dropping exactly the slots reported as sent.
pub open spec fn pending_settled(
    t: Seq<Option<EndpointRecord>>,
    log: Seq<Access>,
    q: int,
    f: int,
    p0: u8,
    p1: u8,
) -> bool {
    forall|j: int|
        #![trigger pending_has(p1, j)]
        0 <= j < 8 ==> pending_has(p1, j) == (pending_has(p0, j) && !in_event(
            t,
            log,
            q,
            f,
            p0,
            j,
        ))
}

/// The three masks report exactly the events of the scan.
pub open spec fn masks_match(
    t: Seq<Option<EndpointRecord>>,
    log: Seq<Access>,
    q: int,
    f: int,
    p: u8,
    out: u16,
    inc: u16,
    setup: u16,
) -> bool {
    forall|j: int|
        #![trigger mask_has(out, j)]
        #![trigger mask_has(inc, j)]
        #![trigger mask_has(setup, j)]
        0 <= j < 16 ==> {
            &&& mask_has(out, j) == out_event(t, log, q, f, j)
            &&& mask_has(inc, j) == in_event(t, log, q, f, p, j)
            &&& mask_has(setup, j) == setup_event(t, log, q, f, j)
        }
}

/// A scan from `q` that stopped at `f`, with the pending mask going from `p0` to `p1` and
/// result `r`.
pub open spec fn scan_outcome(
    t: Seq<Option<EndpointRecord>>,
    log: Seq<Access>,
    q: int,
    f: int,
    p0: u8,
    p1: u8,
    r: PollEvent,
) -> bool {
    &&& scan_stopped(t, log, q, f)
    &&& pending_settled(t, log, q, f, p0, p1)
    &&& scan_reported(t, log, q, f, p0, r)
}

/// Where the endpoint scan of a poll that starts at `n` begins: after the reads of USBINT and
/// UDINT, and the acknowledgement of SOFI when it read as set.
pub open spec fn scan_start(log: Seq<Access>, n: int) -> int {
    if read_value(log[n + 1]) & SOFI != 0 {
        n + 3
    } else {
        n + 2
    }
}

/// Slot `j` showed no event in the scan.
pub open spec fn no_event(
    t: Seq<Option<EndpointRecord>>,
    log: Seq<Access>,
    q: int,
    f: int,
    p: u8,
    j: int,
) -> bool {
    !out_event(t, log, q, f, j) && !in_event(t, log, q, f, p, j) && !setup_event(t, log, q, f, j)
}

/// What a scan that stopped at `f` reports: `Data` with the masks of its events when there is
/// one, `Idle` otherwise.
pub open spec fn scan_reported(
    t: Seq<Option<EndpointRecord>>,
    log: Seq<Access>,
    q: int,
    f: int,
    p: u8,
    r: PollEvent,
) -> bool {
    match r {
        PollEvent::Data { ep_out, ep_in_complete, ep_setup } => {
            &&& masks_match(t, log, q, f, p, ep_out, ep_in_complete, ep_setup)
            &&& (ep_out != 0 || ep_in_complete != 0 || ep_setup != 0)
        },
        PollEvent::Idle => forall|j: int|
            0 <= j < NUM_ENDPOINTS ==> #[trigger] no_event(t, log, q, f, p, j),
        _ => false,
    }
}

/// Setting bit `j` of a mask keeps every other bit.
pub proof fn lemma_mask_set(m: u16, j: u16, k: u16)
    requires
        j < 16,
        k < 16,
    ensures
        ((m | (1u16 << j)) & (1u16 << k) != 0) == ((m & (1u16 << k) != 0) || j == k),
{
    assert(((m | (1u16 << j)) & (1u16 << k) != 0) == ((m & (1u16 << k) != 0) || j == k))
        by (bit_vector)
        requires
            j < 16,
            k < 16,
    ;
}

/// The empty mask has no bit set.
pub proof fn lemma_mask_empty(k: u16)
    requires
        k < 16,
    ensures
        0u16 & (1u16 << k) == 0,
{
    assert(0u16 & (1u16 << k) == 0) by (bit_vector);
}

/// Clearing bit `j` of a pending mask keeps every other bit.
pub proof fn lemma_pending_clear(p: u8, j: u8, k: u8)
    requires
        j < 8,
        k < 8,
    ensures
        ((p & !(1u8 << j)) & (1u8 << k) != 0) == ((p & (1u8 << k) != 0) && j != k),
{
    assert(((p & !(1u8 << j)) & (1u8 << k) != 0) == ((p & (1u8 << k) != 0) && j != k))
        by (bit_vector)
        requires
            j < 8,
            k < 8,
    ;
}

/// Setting bit `j` of a pending mask keeps every other bit.
pub proof fn lemma_pending_set(p: u8, j: u8, k: u8)
    requires
        j < 8,
        k < 8,
    ensures
        ((p | (1u8 << j)) & (1u8 << k) != 0) == ((p & (1u8 << k) != 0) || j == k),
{
    assert(((p | (1u8 << j)) & (1u8 << k) != 0) == ((p & (1u8 << k) != 0) || j == k))
        by (bit_vector)
        requires
            j < 8,
            k < 8,
    ;
}

/// Appending to a log keeps the slots already scanned in it, with the flags read for them.
pub proof fn lemma_scan_frame(t: Seq<Option<EndpointRecord>>, a: Seq<Access>, b: Seq<Access>, q: int, f: int)
    requires
        0 <= q,
        a.len() <= b.len(),
        b.subrange(0, a.len() as int) == a,
        forall|j: int| 0 <= j < f && t[j] is Some ==> #[trigger] scan_ok(t, a, q, j),
    ensures
        forall|j: int|
            0 <= j < f && t[j] is Some ==> #[trigger] scan_ok(t, b, q, j) && scan_flags(t, b, q, j)
                == scan_flags(t, a, q, j),
{
    lemma_prefix_index(a, b);
    assert forall|j: int| 0 <= j < f && t[j] is Some implies #[trigger] scan_ok(t, b, q, j)
        && scan_flags(t, b, q, j) == scan_flags(t, a, q, j) by {
        assert(scan_ok(t, a, q, j));
        lemma_allocated_below_nonneg(t, j);
        let p = scan_pos(t, q, j);
        assert(b[p] == a[p] && b[p + 1] == a[p + 1] && b[p + 2] == a[p + 2]);
    }
}

} // verus!
