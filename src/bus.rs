//! The USB device driver: endpoint table, endpoint programming, data path and event polling.

use crate::endpoint::{
    capacity, epsize_code, fits, is_first_fit, no_fit, slot_capacity, BusError, Direction,
    EndpointKind, EndpointRecord, EndpointTable, EpAddr, NUM_ENDPOINTS,
};
use crate::port::{SystemClock, UsbPort};
use crate::regs::{
    flag_writes_safe_from, is_read, read_has, read_value, selects, udint_clear, udint_clear_spec,
    ueintx_clear, ueintx_clear_spec, usbint_clear, usbint_clear_spec, Access, Reg, ADDEN, ALLOC,
    CFGOK, DETACH, EORSTE, EORSTI, EPEN, FIFOCON, FRZCLK, OTGPADE, PDIV_MHZ48, PINDIV, PLLE,
    PLLFRQ_RESET, PLLTM_DISCONNECTED, PLOCK, RWAL, RXOUTE, RXOUTI, RXSTPE, RXSTPI, SOFE, SOFI,
    STALLRQ, STALLRQC, SUSPE, SUSPI, TXINI, UADD, USBE, UVREGE, VBUS, VBUSTE, VBUSTI, WAKEUPE,
    WAKEUPI,
};
use crate::trace::{
    block_ok, block_start, byte_count, enable_prefix, failed_at, fetched_at, in_event,
    lemma_allocated_below_nonneg, lemma_mask_empty, lemma_mask_set, lemma_pending_clear,
    lemma_prefix_index, lemma_prefix_trans, lemma_programmed_frame, lemma_safe_extend,
    lemma_scan_frame, mask_has, masks_match, no_event, out_event, paced_fetch_at, paced_fetches,
    paced_push_at, paced_pushes, pending_has, pending_settled, pindiv_value, program_block,
    programmed_upto, programming_recorded, pushed_at, scan_flags, scan_ok, scan_outcome, scan_pos,
    scan_reported, scan_start, scan_stopped, selected_from, setup_event, slot_bit, stall_update,
    usable,
};
use core::marker::PhantomData;
use vstd::prelude::*;

verus! {

/// Coarse event reported by [`UsbdBus::poll`].
#[derive(Clone, Copy, PartialEq, Eq, Debug, Structural)]
pub enum PollEvent {
    /// Nothing to report.
    Idle,
    Reset,
    Suspend,
    Resume,
    /// Bit `i` of each mask stands for slot `i`.
    Data { ep_out: u16, ep_in_complete: u16, ep_setup: u16 },
}

/// The driver. It owns the register port `P`; `C` is the system clock it runs under.
pub struct UsbdBus<P: UsbPort, C: SystemClock> {
    port: P,
    log: Ghost<Seq<Access>>,
    endpoints: EndpointTable,
    pending_ins: u8,
    udien: u8,
    usbcon: u8,
    clock: PhantomData<C>,
}

impl<P: UsbPort, C: SystemClock> UsbdBus<P, C> {
    /// Every register access the driver has made, oldest first.
    pub closed spec fn log(&self) -> Seq<Access> {
        self.log@
    }

    /// The software endpoint table, one optional record per slot.
    pub closed spec fn table(&self) -> Seq<Option<EndpointRecord>> {
        self.endpoints@
    }

    /// Slots written to by `write` whose transmission `poll` has not reported yet.
    pub closed spec fn pending(&self) -> u8 {
        self.pending_ins
    }

    /// The value last written to UDIEN.
    pub closed spec fn udien(&self) -> u8 {
        self.udien
    }

    /// The value last written to USBCON.
    pub closed spec fn usbcon(&self) -> u8 {
        self.usbcon
    }

    /// The driver's own invariant: seven slots, each record within its slot's capacity.
    pub open spec fn wf(&self) -> bool {
        &&& self.table().len() == NUM_ENDPOINTS
        &&& forall|i: int|
            0 <= i < NUM_ENDPOINTS ==> (#[trigger] self.table()[i] matches Some(rec)
                ==> rec.max_packet_size <= slot_capacity(i))
    }

    /// Takes the register port. No register is touched until `enable`.
    pub fn new(port: P) -> (bus: Self)
        ensures
            bus.wf(),
            bus.log() == Seq::<Access>::empty(),
            forall|i: int| 0 <= i < NUM_ENDPOINTS ==> #[trigger] bus.table()[i] is None,
            bus.pending() == 0,
            bus.udien() == 0,
            bus.usbcon() == 0,
    {
        UsbdBus {
            port,
            log: Ghost(Seq::empty()),
            endpoints: EndpointTable::new(),
            pending_ins: 0,
            udien: 0,
            usbcon: 0,
            clock: PhantomData,
        }
    }

    /// The register port.
    pub fn port(&self) -> &P {
        &self.port
    }

    /// The register port, for changes made beside the driver (a simulated host, say).
    pub fn port_mut(&mut self) -> (p: &mut P)
        ensures
            final(self).log() == old(self).log(),
            final(self).table() == old(self).table(),
            final(self).pending() == old(self).pending(),
            final(self).udien() == old(self).udien(),
            final(self).usbcon() == old(self).usbcon(),
            final(self).wf() == old(self).wf(),
    {
        &mut self.port
    }

    /// Reads register `r` and records the read.
    fn reg_read(&mut self, r: Reg) -> (v: u8)
        ensures
            final(self).log() == old(self).log().push(Access::Read(r, v)),
            final(self).table() == old(self).table(),
            final(self).pending() == old(self).pending(),
            final(self).udien() == old(self).udien(),
            final(self).usbcon() == old(self).usbcon(),
            final(self).wf() == old(self).wf(),
    {
        let v = self.port.read(r);
        self.log = Ghost(self.log@.push(Access::Read(r, v)));
        v
    }

    /// Writes `v` to register `r` and records the write.
    fn reg_write(&mut self, r: Reg, v: u8)
        ensures
            final(self).log() == old(self).log().push(Access::Write(r, v)),
            final(self).table() == old(self).table(),
            final(self).pending() == old(self).pending(),
            final(self).udien() == old(self).udien(),
            final(self).usbcon() == old(self).usbcon(),
            final(self).wf() == old(self).wf(),
    {
        self.port.write(r, v);
        self.log = Ghost(self.log@.push(Access::Write(r, v)));
    }

    /// Waits until register `r` has every bit of `mask` set, and records the wait.
    fn reg_wait_set(&mut self, r: Reg, mask: u8)
        ensures
            final(self).log() == old(self).log().push(Access::WaitSet(r, mask)),
            final(self).table() == old(self).table(),
            final(self).pending() == old(self).pending(),
            final(self).udien() == old(self).udien(),
            final(self).usbcon() == old(self).usbcon(),
            final(self).wf() == old(self).wf(),
    {
        self.port.wait_set(r, mask);
        self.log = Ghost(self.log@.push(Access::WaitSet(r, mask)));
    }

    /// Waits `ms` milliseconds and records the delay.
    fn reg_delay(&mut self, ms: u8)
        ensures
            final(self).log() == old(self).log().push(Access::Delay(ms)),
            final(self).table() == old(self).table(),
            final(self).pending() == old(self).pending(),
            final(self).udien() == old(self).udien(),
            final(self).usbcon() == old(self).usbcon(),
            final(self).wf() == old(self).wf(),
    {
        self.port.delay_ms(ms);
        self.log = Ghost(self.log@.push(Access::Delay(ms)));
    }

    /// The record of slot `i`, if it is allocated.
    pub fn endpoint(&self, i: usize) -> (r: Option<EndpointRecord>)
        requires
            self.wf(),
            i < NUM_ENDPOINTS,
        ensures
            r == self.table()[i as int],
    {
        self.endpoints.get(i)
    }

    /// Allocates an endpoint in the software table; no register is touched.
    ///
    /// Without an address the lowest free slot above zero that holds `mps` bytes is taken
    /// (`EndpointMemoryOverflow` if there is none). With an address, an index of seven or more
    /// is `InvalidEndpoint`; slot zero IN succeeds and changes nothing, since slot zero is one
    /// bidirectional control endpoint; a free slot large enough is taken; otherwise the
    /// search without an address is made.
    pub fn alloc_ep(
        &mut self,
        dir: Direction,
        addr: Option<EpAddr>,
        kind: EndpointKind,
        mps: u16,
        interval: u8,
    ) -> (r: Result<EpAddr, BusError>)
        requires
            old(self).wf(),
            addr matches Some(a) ==> a.dir == dir,
        ensures
            final(self).wf(),
            final(self).log() == old(self).log(),
            final(self).pending() == old(self).pending(),
            final(self).udien() == old(self).udien(),
            final(self).usbcon() == old(self).usbcon(),
            ({
                let t = old(self).table();
                let rec = EndpointRecord { kind, dir, max_packet_size: mps, interval };
                match addr {
                    Some(a) if a.index >= NUM_ENDPOINTS => r == Err::<EpAddr, BusError>(
                        BusError::InvalidEndpoint,
                    ) && final(self).table() == t,
                    Some(a) if a.index == 0 && dir == Direction::In => r == Ok::<
                        EpAddr,
                        BusError,
                    >(a) && final(self).table() == t,
                    Some(a) if fits(t, a.index as int, mps) => r == Ok::<EpAddr, BusError>(a)
                        && final(self).table() == t.update(a.index as int, Some(rec)),
                    _ => match r {
                        Ok(b) => b.dir == dir && is_first_fit(t, mps, b.index as int)
                            && final(self).table() == t.update(b.index as int, Some(rec)),
                        Err(e) => e == BusError::EndpointMemoryOverflow && no_fit(t, mps)
                            && final(self).table() == t,
                    },
                }
            }),
    {
        self.endpoints.allocate(dir, addr, kind, mps, interval)
    }

    /// Sets the device address: UADD with ADDEN clear, then, in a second write, ADDEN.
    pub fn set_device_address(&mut self, addr: u8)
        requires
            old(self).wf(),
        ensures
            final(self).wf(),
            final(self).table() == old(self).table(),
            final(self).pending() == old(self).pending(),
            final(self).udien() == old(self).udien(),
            final(self).usbcon() == old(self).usbcon(),
            final(self).log() == old(self).log().push(Access::Write(Reg::Udaddr, addr & UADD)).push(
                Access::Write(Reg::Udaddr, (addr & UADD) | ADDEN),
            ),
            flag_writes_safe_from(final(self).log(), old(self).log().len() as int),
    {
        let a = addr & UADD;
        self.reg_write(Reg::Udaddr, a);
        self.reg_write(Reg::Udaddr, a | ADDEN);
    }

    /// Suspends: clears SUSPI and WAKEUPI, enables WAKEUPE and disables SUSPE, freezes the clock.
    pub fn suspend(&mut self)
        requires
            old(self).wf(),
        ensures
            final(self).wf(),
            final(self).table() == old(self).table(),
            final(self).pending() == old(self).pending(),
            final(self).udien() == (old(self).udien() | WAKEUPE) & !SUSPE,
            final(self).usbcon() == old(self).usbcon() | FRZCLK,
            final(self).log() == old(self).log().push(
                Access::Write(Reg::Udint, udint_clear_spec(SUSPI | WAKEUPI)),
            ).push(Access::Write(Reg::Udien, final(self).udien())).push(
                Access::Write(Reg::Usbcon, final(self).usbcon()),
            ),
            flag_writes_safe_from(final(self).log(), old(self).log().len() as int),
    {
        let clear = udint_clear(SUSPI | WAKEUPI);
        self.reg_write(Reg::Udint, clear);
        self.udien = (self.udien | WAKEUPE) & !SUSPE;
        self.reg_write(Reg::Udien, self.udien);
        self.usbcon = self.usbcon | FRZCLK;
        self.reg_write(Reg::Usbcon, self.usbcon);
    }

    /// Resumes: unfreezes the clock, clears WAKEUPI and SUSPI, disables WAKEUPE and enables SUSPE.
    pub fn resume(&mut self)
        requires
            old(self).wf(),
        ensures
            final(self).wf(),
            final(self).table() == old(self).table(),
            final(self).pending() == old(self).pending(),
            final(self).udien() == (old(self).udien() & !WAKEUPE) | SUSPE,
            final(self).usbcon() == old(self).usbcon() & !FRZCLK,
            final(self).log() == old(self).log().push(
                Access::Write(Reg::Usbcon, final(self).usbcon()),
            ).push(Access::Write(Reg::Udint, udint_clear_spec(WAKEUPI | SUSPI))).push(
                Access::Write(Reg::Udien, final(self).udien()),
            ),
            flag_writes_safe_from(final(self).log(), old(self).log().len() as int),
    {
        self.usbcon = self.usbcon & !FRZCLK;
        self.reg_write(Reg::Usbcon, self.usbcon);
        let clear = udint_clear(WAKEUPI | SUSPI);
        self.reg_write(Reg::Udint, clear);
        self.udien = (self.udien & !WAKEUPE) | SUSPE;
        self.reg_write(Reg::Udien, self.udien);
    }

    /// Selects slot `i` in UENUM and reads the selector back.
    fn select(&mut self, i: u8) -> (ok: bool)
        requires
            old(self).wf(),
            i < NUM_ENDPOINTS,
        ensures
            final(self).wf(),
            final(self).table() == old(self).table(),
            final(self).pending() == old(self).pending(),
            final(self).udien() == old(self).udien(),
            final(self).usbcon() == old(self).usbcon(),
            final(self).log().len() == old(self).log().len() + 2,
            final(self).log() == old(self).log().push(Access::Write(Reg::Uenum, i)).push(
                final(self).log().last(),
            ),
            is_read(final(self).log().last(), Reg::Uenum),
            ok == selects(final(self).log().last(), i),
    {
        self.reg_write(Reg::Uenum, i);
        let v = self.reg_read(Reg::Uenum);
        v & 7 == i
    }

    /// Requests (`stalled`) or clears a stall on the slot of `addr`, writing STALLRQ and
    /// STALLRQC with opposite values in one update of UECONX. Nothing is done for an index of
    /// seven or more, or when the selector does not take the slot.
    pub fn set_stalled(&mut self, addr: EpAddr, stalled: bool)
        requires
            old(self).wf(),
        ensures
            final(self).wf(),
            final(self).table() == old(self).table(),
            final(self).pending() == old(self).pending(),
            final(self).udien() == old(self).udien(),
            final(self).usbcon() == old(self).usbcon(),
            flag_writes_safe_from(final(self).log(), old(self).log().len() as int),
            ({
                let l0 = old(self).log();
                let l1 = final(self).log();
                let n = l0.len() as int;
                if addr.index >= NUM_ENDPOINTS {
                    l1 == l0
                } else if selects(l1[n + 1], addr.index) {
                    &&& l1.len() == n + 4
                    &&& is_read(l1[n + 2], Reg::Ueconx)
                    &&& l1 == l0.push(Access::Write(Reg::Uenum, addr.index)).push(l1[n + 1]).push(
                        l1[n + 2],
                    ).push(Access::Write(Reg::Ueconx, stall_update(read_value(l1[n + 2]), stalled)))
                } else {
                    &&& l1.len() == n + 2
                    &&& is_read(l1[n + 1], Reg::Uenum)
                    &&& l1 == l0.push(Access::Write(Reg::Uenum, addr.index)).push(l1[n + 1])
                }
            }),
    {
        if addr.index as usize >= NUM_ENDPOINTS {
            return ;
        }
        if self.select(addr.index) {
            let v = self.reg_read(Reg::Ueconx);
            let bit = if stalled {
                STALLRQ
            } else {
                STALLRQC
            };
            self.reg_write(Reg::Ueconx, (v & !(STALLRQ | STALLRQC)) | bit);
        }
    }

    /// Whether the slot of `addr` is stalled: the STALLRQ bit of its UECONX. False for an
    /// index of seven or more, or when the selector does not take the slot.
    pub fn is_stalled(&mut self, addr: EpAddr) -> (r: bool)
        requires
            old(self).wf(),
        ensures
            final(self).wf(),
            final(self).table() == old(self).table(),
            final(self).pending() == old(self).pending(),
            final(self).udien() == old(self).udien(),
            final(self).usbcon() == old(self).usbcon(),
            flag_writes_safe_from(final(self).log(), old(self).log().len() as int),
            ({
                let l0 = old(self).log();
                let l1 = final(self).log();
                let n = l0.len() as int;
                if addr.index >= NUM_ENDPOINTS {
                    l1 == l0 && !r
                } else if selects(l1[n + 1], addr.index) {
                    &&& l1.len() == n + 3
                    &&& is_read(l1[n + 2], Reg::Ueconx)
                    &&& l1 == l0.push(Access::Write(Reg::Uenum, addr.index)).push(l1[n + 1]).push(
                        l1[n + 2],
                    )
                    &&& r == (read_value(l1[n + 2]) & STALLRQ != 0)
                } else {
                    &&& l1.len() == n + 2
                    &&& is_read(l1[n + 1], Reg::Uenum)
                    &&& l1 == l0.push(Access::Write(Reg::Uenum, addr.index)).push(l1[n + 1])
                    &&& !r
                }
            }),
    {
        if addr.index as usize >= NUM_ENDPOINTS {
            return false;
        }
        if self.select(addr.index) {
            let v = self.reg_read(Reg::Ueconx);
            v & STALLRQ != 0
        } else {
            false
        }
    }

    /// Programs slot `i` from its record: select it, enable it, release its memory, write
    /// type, direction and size, allocate its memory, check CFGOK, enable its RX interrupts.
    fn program_endpoint(&mut self, i: u8) -> (r: Result<(), BusError>)
        requires
            old(self).wf(),
            i < NUM_ENDPOINTS,
            old(self).table()[i as int] is Some,
        ensures
            final(self).wf(),
            final(self).table() == old(self).table(),
            final(self).pending() == old(self).pending(),
            final(self).udien() == old(self).udien(),
            final(self).usbcon() == old(self).usbcon(),
            flag_writes_safe_from(final(self).log(), old(self).log().len() as int),
            ({
                let l0 = old(self).log();
                let l1 = final(self).log();
                let n = l0.len() as int;
                let blk = program_block(
                    i,
                    old(self).table()[i as int]->Some_0,
                    read_value(l1[n + 1]),
                    read_value(l1[n + 7]),
                );
                if !selects(l1[n + 1], i) {
                    r == Err::<(), BusError>(BusError::InvalidState) && l1 == l0 + blk.take(2)
                } else if !read_has(l1[n + 7], Reg::Uesta0x, CFGOK) {
                    r == Err::<(), BusError>(BusError::EndpointMemoryOverflow) && l1 == l0
                        + blk.take(8)
                } else {
                    r is Ok && l1 == l0 + blk
                }
            }),
    {
        let ghost l0 = self.log();
        let ghost n = l0.len() as int;
        let rec = match self.endpoints.get(i as usize) {
            Some(rec) => rec,
            None => { return Err(BusError::InvalidEndpoint); },
        };
        if !self.select(i) {
            let ghost l1 = self.log();
            assert(l1 =~= l0 + program_block(i, rec, read_value(l1[n + 1]), read_value(l1[n + 7])).take(2));
            return Err(BusError::InvalidState);
        }
        let ghost sel = read_value(self.log()[n + 1]);
        self.reg_write(Reg::Ueconx, EPEN);
        self.reg_write(Reg::Uecfg1x, 0);
        let eptype: u8 = match rec.kind {
            EndpointKind::Control => 0x00,
            EndpointKind::Isochronous => 0x40,
            EndpointKind::Bulk => 0x80,
            EndpointKind::Interrupt => 0xC0,
        };
        let epdir: u8 = if rec.dir == Direction::In {
            1
        } else {
            0
        };
        self.reg_write(Reg::Uecfg0x, eptype | epdir);
        let size = epsize_code(rec.max_packet_size) * 16;
        self.reg_write(Reg::Uecfg1x, size);
        self.reg_write(Reg::Uecfg1x, size | ALLOC);
        let sta = self.reg_read(Reg::Uesta0x);
        let ghost blk = program_block(i, rec, sel, sta);
        if sta & CFGOK != CFGOK {
            assert(self.log() =~= l0 + blk.take(8));
            return Err(BusError::EndpointMemoryOverflow);
        }
        self.reg_write(Reg::Ueienx, RXOUTE | RXSTPE);
        assert(self.log() =~= l0 + blk);
        Ok(())
    }

    /// Programs every allocated slot, in ascending order, stopping at the first failure.
    fn program_endpoints(&mut self) -> (r: Result<(), BusError>)
        requires
            old(self).wf(),
        ensures
            final(self).wf(),
            final(self).table() == old(self).table(),
            final(self).pending() == old(self).pending(),
            final(self).udien() == old(self).udien(),
            final(self).usbcon() == old(self).usbcon(),
            final(self).log().len() >= old(self).log().len(),
            final(self).log().subrange(0, old(self).log().len() as int) == old(self).log(),
            flag_writes_safe_from(final(self).log(), old(self).log().len() as int),
            programming_recorded(old(self).table(), final(self).log(), old(self).log().len() as int, r),
            r is Ok ==> final(self).log().len() == block_start(
                old(self).table(),
                old(self).log().len() as int,
                NUM_ENDPOINTS as int,
            ),
    {
        let ghost l0 = self.log();
        let ghost n = l0.len() as int;
        let ghost t = self.table();
        let ghost pending0 = self.pending();
        let ghost udien0 = self.udien();
        let ghost usbcon0 = self.usbcon();
        let mut j: usize = 0;
        while j < NUM_ENDPOINTS
            invariant
                0 <= j <= NUM_ENDPOINTS,
                l0 == old(self).log(),
                n == l0.len(),
                t == old(self).table(),
                pending0 == old(self).pending(),
                udien0 == old(self).udien(),
                usbcon0 == old(self).usbcon(),
                self.wf(),
                self.table() == t,
                self.pending() == pending0,
                self.udien() == udien0,
                self.usbcon() == usbcon0,
                self.log().len() == block_start(t, n, j as int),
                self.log().subrange(0, n) == l0,
                programmed_upto(t, self.log(), n, j as int),
                flag_writes_safe_from(self.log(), n),
            decreases NUM_ENDPOINTS - j,
        {
            let ghost lc = self.log();
            proof {
                lemma_allocated_below_nonneg(t, j as int + 1);
            }
            if self.endpoints.get(j).is_some() {
                let res = self.program_endpoint(j as u8);
                let ghost l1 = self.log();
                proof {
                    assert(l1.subrange(0, lc.len() as int) =~= lc);
                    lemma_programmed_frame(t, lc, l1, n, j as int);
                    lemma_safe_extend(lc, l1, n);
                    lemma_allocated_below_nonneg(t, j as int);
                    lemma_prefix_trans(l0, lc, l1);
                }
                match res {
                    Ok(()) => {
                        proof {
                            let p = block_start(t, n, j as int);
                            assert(l1.subrange(p, p + 9) =~= program_block(
                                j as u8,
                                t[j as int]->Some_0,
                                read_value(l1[p + 1]),
                                read_value(l1[p + 7]),
                            ));
                            assert(block_ok(t, l1, n, j as int));
                            assert forall|i: int|
                                0 <= i < j + 1 && t[i] is Some implies #[trigger] block_ok(
                                t,
                                l1,
                                n,
                                i,
                            ) by {
                                if i < j {
                                    assert(block_ok(t, l1, n, i));
                                }
                            }
                        }
                    },
                    Err(e) => {
                        proof {
                            let p = block_start(t, n, j as int);
                            let blk = program_block(
                                j as u8,
                                t[j as int]->Some_0,
                                read_value(l1[p + 1]),
                                read_value(l1[p + 7]),
                            );
                            if e == BusError::InvalidState {
                                assert(l1.subrange(p, p + 2) =~= blk.take(2));
                            } else {
                                assert(l1.subrange(p, p + 8) =~= blk.take(8));
                            }
                            assert(failed_at(t, l1, n, j as int, e));
                        }
                        return Err(e);
                    },
                }
            }
            j = j + 1;
        }
        proof {
            lemma_allocated_below_nonneg(t, NUM_ENDPOINTS as int);
        }
        Ok(())
    }

    /// Attaches to the bus: pad regulator, USB block with the clock frozen, PLL bring-up
    /// (PINDIV for the clock, PLLFRQ reset then 48 MHz with the timers disconnected, PLLE, wait
    /// for PLOCK), OTG pad, a millisecond's delay, clock unfrozen with VBUS interrupts, every
    /// allocated slot programmed in ascending order, DETACH cleared, EORSTE and SOFE enabled.
    /// A slot whose programming fails stops the sequence with that error.
    pub fn enable(&mut self) -> (r: Result<(), BusError>)
        requires
            old(self).wf(),
        ensures
            final(self).wf(),
            final(self).table() == old(self).table(),
            final(self).pending() == old(self).pending(),
            final(self).usbcon() == USBE | OTGPADE | VBUSTE,
            flag_writes_safe_from(final(self).log(), old(self).log().len() as int),
            ({
                let l0 = old(self).log();
                let l1 = final(self).log();
                let base = l0.len() + 10int;
                let t = old(self).table();
                &&& l1.len() >= base
                &&& l1.subrange(0, base) == l0 + enable_prefix(pindiv_value(C::pindiv_spec()))
                &&& programming_recorded(t, l1, base, r)
                &&& r is Ok ==> {
                    &&& l1.len() == block_start(t, base, NUM_ENDPOINTS as int) + 2
                    &&& l1[l1.len() - 2] == Access::Write(Reg::Udcon, 0)
                    &&& l1[l1.len() - 1] == Access::Write(Reg::Udien, EORSTE | SOFE)
                    &&& final(self).udien() == EORSTE | SOFE
                }
                &&& r is Err ==> final(self).udien() == old(self).udien()
            }),
    {
        let ghost l0 = self.log();
        let pd: u8 = if C::pindiv() {
            PINDIV
        } else {
            0
        };
        self.reg_write(Reg::Uhwcon, UVREGE);
        self.usbcon = USBE | FRZCLK;
        self.reg_write(Reg::Usbcon, self.usbcon);
        self.reg_write(Reg::Pllcsr, pd);
        self.reg_write(Reg::Pllfrq, PLLFRQ_RESET);
        self.reg_write(Reg::Pllfrq, PDIV_MHZ48 | PLLTM_DISCONNECTED);
        self.reg_write(Reg::Pllcsr, pd | PLLE);
        self.reg_wait_set(Reg::Pllcsr, PLOCK);
        self.usbcon = USBE | FRZCLK | OTGPADE;
        self.reg_write(Reg::Usbcon, self.usbcon);
        self.reg_delay(1);
        self.usbcon = USBE | OTGPADE | VBUSTE;
        self.reg_write(Reg::Usbcon, self.usbcon);
        let ghost lp = self.log();
        assert(lp =~= l0 + enable_prefix(pindiv_value(C::pindiv_spec())));
        let res = self.program_endpoints();
        let ghost lq = self.log();
        proof {
            assert(lq.subrange(0, lp.len() as int) == lp);
            assert(lq.subrange(0, l0.len() + 10int) =~= lp.subrange(0, l0.len() + 10int));
            assert(flag_writes_safe_from(lp, l0.len() as int));
            lemma_safe_extend(lp, lq, l0.len() as int);
        }
        if res.is_err() {
            return res;
        }
        self.reg_write(Reg::Udcon, 0);
        self.udien = EORSTE | SOFE;
        self.reg_write(Reg::Udien, self.udien);
        proof {
            let l1 = self.log();
            assert(l1.subrange(0, lq.len() as int) =~= lq);
            lemma_programmed_frame(self.table(), lq, l1, l0.len() + 10int, NUM_ENDPOINTS as int);
            assert(l1.subrange(0, l0.len() + 10int) =~= lq.subrange(0, l0.len() + 10int));
        }
        Ok(())
    }

    /// Handles a bus reset: clears EORSTI, programs every allocated slot again in ascending
    /// order (the table is kept), clears WAKEUPI and SUSPI, enables SUSPE and disables WAKEUPE.
    /// A slot whose programming fails stops the sequence with that error.
    pub fn reset(&mut self) -> (r: Result<(), BusError>)
        requires
            old(self).wf(),
        ensures
            final(self).wf(),
            final(self).table() == old(self).table(),
            final(self).pending() == old(self).pending(),
            final(self).usbcon() == old(self).usbcon(),
            flag_writes_safe_from(final(self).log(), old(self).log().len() as int),
            ({
                let l0 = old(self).log();
                let l1 = final(self).log();
                let base = l0.len() + 1int;
                let t = old(self).table();
                &&& l1.len() >= base
                &&& l1.subrange(0, base) == l0.push(
                    Access::Write(Reg::Udint, udint_clear_spec(EORSTI)),
                )
                &&& programming_recorded(t, l1, base, r)
                &&& r is Ok ==> {
                    &&& l1.len() == block_start(t, base, NUM_ENDPOINTS as int) + 2
                    &&& l1[l1.len() - 2] == Access::Write(
                        Reg::Udint,
                        udint_clear_spec(WAKEUPI | SUSPI),
                    )
                    &&& l1[l1.len() - 1] == Access::Write(Reg::Udien, final(self).udien())
                    &&& final(self).udien() == (old(self).udien() | SUSPE) & !WAKEUPE
                }
                &&& r is Err ==> final(self).udien() == old(self).udien()
            }),
    {
        let ghost l0 = self.log();
        let clear = udint_clear(EORSTI);
        self.reg_write(Reg::Udint, clear);
        let ghost lp = self.log();
        let res = self.program_endpoints();
        let ghost lq = self.log();
        proof {
            assert(lq.subrange(0, lp.len() as int) == lp);
            lemma_safe_extend(lp, lq, l0.len() as int);
        }
        if res.is_err() {
            return res;
        }
        let clear2 = udint_clear(WAKEUPI | SUSPI);
        self.reg_write(Reg::Udint, clear2);
        self.udien = (self.udien | SUSPE) & !WAKEUPE;
        self.reg_write(Reg::Udien, self.udien);
        proof {
            let l1 = self.log();
            assert(l1.subrange(0, lq.len() as int) =~= lq);
            lemma_programmed_frame(self.table(), lq, l1, l0.len() + 1int, NUM_ENDPOINTS as int);
            assert(l1.subrange(0, l0.len() + 1int) =~= lq.subrange(0, l0.len() + 1int));
        }
        Ok(())
    }

    /// Forces a bus reset: detaches from the bus, waits a millisecond and attaches again.
    pub fn force_reset(&mut self) -> (r: Result<(), BusError>)
        requires
            old(self).wf(),
        ensures
            final(self).wf(),
            r is Ok,
            final(self).table() == old(self).table(),
            final(self).pending() == old(self).pending(),
            final(self).udien() == old(self).udien(),
            final(self).usbcon() == old(self).usbcon(),
            final(self).log() == old(self).log().push(Access::Write(Reg::Udcon, DETACH)).push(
                Access::Delay(1),
            ).push(Access::Write(Reg::Udcon, 0)),
            flag_writes_safe_from(final(self).log(), old(self).log().len() as int),
    {
        self.reg_write(Reg::Udcon, DETACH);
        self.reg_delay(1);
        self.reg_write(Reg::Udcon, 0);
        Ok(())
    }
    /// Sends `buf` on the IN slot of `addr` and marks the slot pending until `poll` reports
    /// its transmission.
    ///
    /// On a control endpoint: `WouldBlock` while TXINI is clear, `BufferOverflow` for more
    /// than the packet size (nothing pushed), else every byte is pushed and TXINI cleared. On
    /// other endpoints: `WouldBlock` while TXINI is clear, else TXINI and RXOUTI are cleared,
    /// each byte is pushed after checking RWAL (`BufferOverflow` when it reads clear first),
    /// and FIFOCON and RXOUTI are cleared to send the bank.
    pub fn write(&mut self, addr: EpAddr, buf: &[u8]) -> (r: Result<usize, BusError>)
        requires
            old(self).wf(),
        ensures
            final(self).wf(),
            final(self).table() == old(self).table(),
            final(self).udien() == old(self).udien(),
            final(self).usbcon() == old(self).usbcon(),
            flag_writes_safe_from(final(self).log(), old(self).log().len() as int),
            final(self).pending() == (if r is Ok {
                old(self).pending() | slot_bit(addr.index)
            } else {
                old(self).pending()
            }),
            ({
                let t = old(self).table();
                let l0 = old(self).log();
                let l1 = final(self).log();
                let n = l0.len() as int;
                let i = addr.index;
                if !usable(t, addr, Direction::In) {
                    r == Err::<usize, BusError>(BusError::InvalidEndpoint) && l1 == l0
                } else {
                    let rec = t[i as int]->Some_0;
                    &&& selected_from(l0, l1, i)
                    &&& if !selects(l1[n + 1], i) {
                        r == Err::<usize, BusError>(BusError::InvalidState) && l1.len() == n + 2
                    } else {
                        &&& l1.len() >= n + 3
                        &&& is_read(l1[n + 2], Reg::Ueintx)
                        &&& if !read_has(l1[n + 2], Reg::Ueintx, TXINI) {
                            r == Err::<usize, BusError>(BusError::WouldBlock) && l1.len() == n + 3
                        } else if rec.kind == EndpointKind::Control {
                            if buf@.len() > rec.max_packet_size {
                                r == Err::<usize, BusError>(BusError::BufferOverflow) && l1.len()
                                    == n + 3
                            } else {
                                &&& r == Ok::<usize, BusError>(buf@.len() as usize)
                                &&& l1.len() == n + 4 + buf@.len()
                                &&& forall|k: int|
                                    0 <= k < buf@.len() ==> #[trigger] pushed_at(
                                        l1,
                                        n + 3,
                                        buf@,
                                        k,
                                    )
                                &&& l1.last() == Access::Write(
                                    Reg::Ueintx,
                                    ueintx_clear_spec(TXINI),
                                )
                            }
                        } else {
                            &&& l1.len() >= n + 4
                            &&& l1[n + 3] == Access::Write(
                                Reg::Ueintx,
                                ueintx_clear_spec(TXINI | RXOUTI),
                            )
                            &&& match r {
                                Ok(c) => {
                                    &&& c == buf@.len()
                                    &&& paced_pushes(l1, n + 4, buf@, buf@.len() as int)
                                    &&& l1.len() == n + 5 + 2 * buf@.len()
                                    &&& l1.last() == Access::Write(
                                        Reg::Ueintx,
                                        ueintx_clear_spec(FIFOCON | RXOUTI),
                                    )
                                },
                                Err(e) => {
                                    &&& e == BusError::BufferOverflow
                                    &&& exists|m: int|
                                        0 <= m < buf@.len() && #[trigger] paced_pushes(
                                            l1,
                                            n + 4,
                                            buf@,
                                            m,
                                        ) && l1.len() == n + 5 + 2 * m
                                    &&& is_read(l1.last(), Reg::Ueintx)
                                    &&& !read_has(l1.last(), Reg::Ueintx, RWAL)
                                },
                            }
                        }
                    }
                }
            }),
    {
        let ghost l0 = self.log();
        let ghost n = l0.len() as int;
        let i = addr.index;
        if addr.dir != Direction::In || i as usize >= NUM_ENDPOINTS {
            return Err(BusError::InvalidEndpoint);
        }
        let rec = match self.endpoints.get(i as usize) {
            Some(rec) => rec,
            None => { return Err(BusError::InvalidEndpoint); },
        };
        if i != 0 && rec.dir != Direction::In {
            return Err(BusError::InvalidEndpoint);
        }
        if !self.select(i) {
            assert(self.log().subrange(0, n) =~= l0);
            return Err(BusError::InvalidState);
        }
        let x = self.reg_read(Reg::Ueintx);
        let ghost ls = self.log();
        assert(ls.subrange(0, n) =~= l0);
        if x & TXINI != TXINI {
            return Err(BusError::WouldBlock);
        }
        if rec.kind == EndpointKind::Control {
            if buf.len() > rec.max_packet_size as usize {
                return Err(BusError::BufferOverflow);
            }
            let mut k: usize = 0;
            while k < buf.len()
                invariant
                    0 <= k <= buf@.len(),
                    n == old(self).log().len(),
                    ls.len() == n + 3,
                    self.log().len() == n + 3 + k,
                    self.log().subrange(0, n + 3) == ls,
                    forall|j: int| 0 <= j < k ==> #[trigger] pushed_at(self.log(), n + 3, buf@, j),
                    flag_writes_safe_from(self.log(), n),
                    self.wf(),
                    self.table() == old(self).table(),
                    self.pending() == old(self).pending(),
                    self.udien() == old(self).udien(),
                    self.usbcon() == old(self).usbcon(),
                decreases buf@.len() - k,
            {
                let ghost lc = self.log();
                self.reg_write(Reg::Uedatx, buf[k]);
                proof {
                    let l = self.log();
                    assert forall|j: int| 0 <= j < k + 1 implies #[trigger] pushed_at(
                        l,
                        n + 3,
                        buf@,
                        j,
                    ) by {
                        if j < k {
                            assert(pushed_at(lc, n + 3, buf@, j));
                        }
                    }
                    assert(l.subrange(0, n + 3) =~= lc.subrange(0, n + 3));
                }
                k = k + 1;
            }
            let ghost lc = self.log();
            let clear = ueintx_clear(TXINI);
            self.reg_write(Reg::Ueintx, clear);
            proof {
                let l = self.log();
                assert forall|j: int| 0 <= j < buf@.len() implies #[trigger] pushed_at(
                    l,
                    n + 3,
                    buf@,
                    j,
                ) by {
                    assert(pushed_at(lc, n + 3, buf@, j));
                }
                assert(l.subrange(0, n + 3) =~= lc.subrange(0, n + 3));
                assert(l[n] == ls[n] && l[n + 1] == ls[n + 1] && l[n + 2] == ls[n + 2]);
                assert(l.subrange(0, n) =~= ls.subrange(0, n));
            }
        } else {
            let clear = ueintx_clear(TXINI | RXOUTI);
            self.reg_write(Reg::Ueintx, clear);
            let ghost lt = self.log();
            let mut k: usize = 0;
            while k < buf.len()
                invariant
                    0 <= k <= buf@.len(),
                    n == old(self).log().len(),
                    lt.len() == n + 4,
                    lt == ls.push(Access::Write(Reg::Ueintx, ueintx_clear_spec(TXINI | RXOUTI))),
                    i == addr.index,
                    usable(old(self).table(), addr, Direction::In),
                    old(self).table()[i as int]->Some_0.kind != EndpointKind::Control,
                    ls.len() == n + 3,
                    ls.subrange(0, n) == old(self).log(),
                    ls[n] == Access::Write(Reg::Uenum, i),
                    selects(ls[n + 1], i),
                    is_read(ls[n + 2], Reg::Ueintx),
                    read_has(ls[n + 2], Reg::Ueintx, TXINI),
                    self.log().len() == n + 4 + 2 * k,
                    self.log().subrange(0, n + 4) == lt,
                    paced_pushes(self.log(), n + 4, buf@, k as int),
                    flag_writes_safe_from(self.log(), n),
                    self.wf(),
                    self.table() == old(self).table(),
                    self.pending() == old(self).pending(),
                    self.udien() == old(self).udien(),
                    self.usbcon() == old(self).usbcon(),
                decreases buf@.len() - k,
            {
                let ghost lc = self.log();
                let y = self.reg_read(Reg::Ueintx);
                if y & RWAL != RWAL {
                    proof {
                        let l = self.log();
                        assert forall|j: int| 0 <= j < k implies #[trigger] paced_push_at(
                            l,
                            n + 4,
                            buf@,
                            j,
                        ) by {
                            assert(paced_push_at(lc, n + 4, buf@, j));
                        }
                        assert(paced_pushes(l, n + 4, buf@, k as int));
                        assert(l.subrange(0, n + 4) =~= lc.subrange(0, n + 4));
                        lemma_prefix_index(lt, l);
                        assert(l.subrange(0, n) =~= ls.subrange(0, n));
                    }
                    return Err(BusError::BufferOverflow);
                }
                self.reg_write(Reg::Uedatx, buf[k]);
                proof {
                    let l = self.log();
                    assert forall|j: int| 0 <= j < k + 1 implies #[trigger] paced_push_at(
                        l,
                        n + 4,
                        buf@,
                        j,
                    ) by {
                        if j < k {
                            assert(paced_push_at(lc, n + 4, buf@, j));
                        }
                    }
                    assert(l.subrange(0, n + 4) =~= lc.subrange(0, n + 4));
                }
                k = k + 1;
            }
            let ghost lc = self.log();
            let clear = ueintx_clear(FIFOCON | RXOUTI);
            self.reg_write(Reg::Ueintx, clear);
            proof {
                let l = self.log();
                assert forall|j: int| 0 <= j < buf@.len() implies #[trigger] paced_push_at(
                    l,
                    n + 4,
                    buf@,
                    j,
                ) by {
                    assert(paced_push_at(lc, n + 4, buf@, j));
                }
                assert(l.subrange(0, n + 4) =~= lc.subrange(0, n + 4));
                lemma_prefix_index(lt, l);
                assert(l.subrange(0, n) =~= ls.subrange(0, n));
            }
        }
        self.pending_ins = self.pending_ins | (1u8 << i);
        Ok(buf.len())
    }

    /// Receives a packet from the OUT slot of `addr` into `buf`.
    ///
    /// On a control endpoint: `WouldBlock` while RXOUTI and RXSTPI are both clear; the byte
    /// count is read from UEBCHX and UEBCLX, `BufferOverflow` if it exceeds `buf`, else that
    /// many bytes are read and RXOUTI and RXSTPI are cleared together. On other endpoints:
    /// `WouldBlock` while RXOUTI is clear, else RXOUTI is cleared, bytes are read while RWAL
    /// reads set and `buf` has room, `BufferOverflow` if RWAL still reads set when `buf` is
    /// full, else FIFOCON is cleared to release the bank. The result is the number of bytes read.
    pub fn read(&mut self, addr: EpAddr, buf: &mut [u8]) -> (r: Result<usize, BusError>)
        requires
            old(self).wf(),
        ensures
            final(self).wf(),
            final(self).table() == old(self).table(),
            final(self).pending() == old(self).pending(),
            final(self).udien() == old(self).udien(),
            final(self).usbcon() == old(self).usbcon(),
            flag_writes_safe_from(final(self).log(), old(self).log().len() as int),
            final(buf)@.len() == old(buf)@.len(),
            ({
                let t = old(self).table();
                let l0 = old(self).log();
                let l1 = final(self).log();
                let n = l0.len() as int;
                let i = addr.index;
                let b0 = old(buf)@;
                let b1 = final(buf)@;
                if !usable(t, addr, Direction::Out) {
                    r == Err::<usize, BusError>(BusError::InvalidEndpoint) && l1 == l0 && b1 == b0
                } else {
                    let rec = t[i as int]->Some_0;
                    &&& selected_from(l0, l1, i)
                    &&& if !selects(l1[n + 1], i) {
                        r == Err::<usize, BusError>(BusError::InvalidState) && l1.len() == n + 2
                            && b1 == b0
                    } else {
                        let x = read_value(l1[n + 2]);
                        &&& l1.len() >= n + 3
                        &&& is_read(l1[n + 2], Reg::Ueintx)
                        &&& if rec.kind == EndpointKind::Control {
                            if x & (RXOUTI | RXSTPI) == 0 {
                                r == Err::<usize, BusError>(BusError::WouldBlock) && l1.len() == n
                                    + 3 && b1 == b0
                            } else {
                                let c = byte_count(read_value(l1[n + 3]), read_value(l1[n + 4]));
                                &&& l1.len() >= n + 5
                                &&& is_read(l1[n + 3], Reg::Uebchx)
                                &&& is_read(l1[n + 4], Reg::Uebclx)
                                &&& if c > b0.len() {
                                    r == Err::<usize, BusError>(BusError::BufferOverflow)
                                        && l1.len() == n + 5 && b1 == b0
                                } else {
                                    &&& r == Ok::<usize, BusError>(c as usize)
                                    &&& l1.len() == n + 6 + c
                                    &&& forall|k: int|
                                        0 <= k < c ==> #[trigger] fetched_at(l1, n + 5, b1, k)
                                    &&& forall|k: int| c <= k < b0.len() ==> #[trigger] b1[k] == b0[k]
                                    &&& l1.last() == Access::Write(
                                        Reg::Ueintx,
                                        ueintx_clear_spec(RXOUTI | RXSTPI),
                                    )
                                }
                            }
                        } else {
                            if x & RXOUTI == 0 {
                                r == Err::<usize, BusError>(BusError::WouldBlock) && l1.len() == n
                                    + 3 && b1 == b0
                            } else {
                                &&& l1.len() >= n + 5
                                &&& l1[n + 3] == Access::Write(
                                    Reg::Ueintx,
                                    ueintx_clear_spec(RXOUTI),
                                )
                                &&& exists|m: int|
                                    {
                                        &&& 0 <= m <= b0.len()
                                        &&& #[trigger] paced_fetches(l1, n + 4, b1, m)
                                        &&& is_read(l1[n + 4 + 2 * m], Reg::Ueintx)
                                        &&& m < b0.len() ==> !read_has(
                                            l1[n + 4 + 2 * m],
                                            Reg::Ueintx,
                                            RWAL,
                                        )
                                        &&& forall|k: int|
                                            m <= k < b0.len() ==> #[trigger] b1[k] == b0[k]
                                        &&& if read_has(l1[n + 4 + 2 * m], Reg::Ueintx, RWAL) {
                                            r == Err::<usize, BusError>(BusError::BufferOverflow)
                                                && l1.len() == n + 5 + 2 * m
                                        } else {
                                            &&& r == Ok::<usize, BusError>(m as usize)
                                            &&& l1.len() == n + 6 + 2 * m
                                            &&& l1.last() == Access::Write(
                                                Reg::Ueintx,
                                                ueintx_clear_spec(FIFOCON),
                                            )
                                        }
                                    }
                            }
                        }
                    }
                }
            }),
    {
        let ghost l0 = self.log();
        let ghost n = l0.len() as int;
        let ghost b0 = buf@;
        let i = addr.index;
        if addr.dir != Direction::Out || i as usize >= NUM_ENDPOINTS {
            return Err(BusError::InvalidEndpoint);
        }
        let rec = match self.endpoints.get(i as usize) {
            Some(rec) => rec,
            None => { return Err(BusError::InvalidEndpoint); },
        };
        if i != 0 && rec.dir != Direction::Out {
            return Err(BusError::InvalidEndpoint);
        }
        if !self.select(i) {
            assert(self.log().subrange(0, n) =~= l0);
            return Err(BusError::InvalidState);
        }
        let x = self.reg_read(Reg::Ueintx);
        let ghost ls = self.log();
        assert(ls.subrange(0, n) =~= l0);
        if rec.kind == EndpointKind::Control {
            if x & (RXOUTI | RXSTPI) == 0 {
                return Err(BusError::WouldBlock);
            }
            let high = self.reg_read(Reg::Uebchx);
            let low = self.reg_read(Reg::Uebclx);
            let count: usize = ((high & 7) as usize) * 256 + (low as usize);
            let ghost lh = self.log();
            assert(lh.subrange(0, n) =~= l0);
            if count > buf.len() {
                return Err(BusError::BufferOverflow);
            }
            let mut k: usize = 0;
            while k < count
                invariant
                    0 <= k <= count <= buf@.len(),
                    buf@.len() == b0.len(),
                    n == old(self).log().len(),
                    lh.len() == n + 5,
                    self.log().len() == n + 5 + k,
                    self.log().subrange(0, n + 5) == lh,
                    forall|j: int| 0 <= j < k ==> #[trigger] fetched_at(self.log(), n + 5, buf@, j),
                    forall|j: int| k <= j < b0.len() ==> #[trigger] buf@[j] == b0[j],
                    flag_writes_safe_from(self.log(), n),
                    self.wf(),
                    self.table() == old(self).table(),
                    self.pending() == old(self).pending(),
                    self.udien() == old(self).udien(),
                    self.usbcon() == old(self).usbcon(),
                decreases count - k,
            {
                let ghost lc = self.log();
                let ghost bc = buf@;
                let v = self.reg_read(Reg::Uedatx);
                buf[k] = v;
                proof {
                    let l = self.log();
                    assert forall|j: int| 0 <= j < k + 1 implies #[trigger] fetched_at(
                        l,
                        n + 5,
                        buf@,
                        j,
                    ) by {
                        if j < k {
                            assert(fetched_at(lc, n + 5, bc, j));
                        }
                    }
                    assert(l.subrange(0, n + 5) =~= lc.subrange(0, n + 5));
                }
                k = k + 1;
            }
            let ghost lc = self.log();
            let clear = ueintx_clear(RXOUTI | RXSTPI);
            self.reg_write(Reg::Ueintx, clear);
            proof {
                let l = self.log();
                assert forall|j: int| 0 <= j < count implies #[trigger] fetched_at(
                    l,
                    n + 5,
                    buf@,
                    j,
                ) by {
                    assert(fetched_at(lc, n + 5, buf@, j));
                }
                assert(l.subrange(0, n + 5) =~= lc.subrange(0, n + 5));
                lemma_prefix_index(lh, l);
                assert(l.subrange(0, n) =~= lh.subrange(0, n));
            }
            Ok(count)
        } else {
            if x & RXOUTI == 0 {
                return Err(BusError::WouldBlock);
            }
            let clear = ueintx_clear(RXOUTI);
            self.reg_write(Reg::Ueintx, clear);
            let y = self.reg_read(Reg::Ueintx);
            let mut more = y & RWAL == RWAL;
            let ghost lt = self.log();
            let mut k: usize = 0;
            while more && k < buf.len()
                invariant
                    0 <= k <= buf@.len(),
                    buf@.len() == b0.len(),
                    n == old(self).log().len(),
                    lt.len() == n + 5,
                    lt.subrange(0, n + 3) == ls,
                    lt[n + 3] == Access::Write(Reg::Ueintx, ueintx_clear_spec(RXOUTI)),
                    ls.len() == n + 3,
                    self.log().len() == n + 5 + 2 * k,
                    self.log().subrange(0, n + 4) == lt.subrange(0, n + 4),
                    paced_fetches(self.log(), n + 4, buf@, k as int),
                    is_read(self.log()[n + 4 + 2 * k], Reg::Ueintx),
                    more == read_has(self.log()[n + 4 + 2 * k], Reg::Ueintx, RWAL),
                    forall|j: int| k <= j < b0.len() ==> #[trigger] buf@[j] == b0[j],
                    flag_writes_safe_from(self.log(), n),
                    self.wf(),
                    self.table() == old(self).table(),
                    self.pending() == old(self).pending(),
                    self.udien() == old(self).udien(),
                    self.usbcon() == old(self).usbcon(),
                decreases buf@.len() - k,
            {
                let ghost lc = self.log();
                let ghost bc = buf@;
                let v = self.reg_read(Reg::Uedatx);
                buf[k] = v;
                let y = self.reg_read(Reg::Ueintx);
                more = y & RWAL == RWAL;
                proof {
                    let l = self.log();
                    assert(paced_fetch_at(l, n + 4, buf@, k as int));
                    assert forall|j: int| 0 <= j < k + 1 implies #[trigger] paced_fetch_at(
                        l,
                        n + 4,
                        buf@,
                        j,
                    ) by {
                        if j < k {
                            assert(paced_fetch_at(lc, n + 4, bc, j));
                        }
                    }
                    assert(l.subrange(0, n + 4) =~= lc.subrange(0, n + 4));
                }
                k = k + 1;
            }
            proof {
                let l = self.log();
                assert(l.subrange(0, n + 3) =~= ls);
                lemma_prefix_index(ls, l);
                assert(l.subrange(0, n) =~= ls.subrange(0, n));
                assert(l.subrange(0, n + 4)[n + 3] == l[n + 3]);
                assert(lt.subrange(0, n + 4)[n + 3] == lt[n + 3]);
            }
            if more {
                assert(paced_fetches(self.log(), n + 4, buf@, k as int));
                return Err(BusError::BufferOverflow);
            }
            let ghost lc = self.log();
            let clear = ueintx_clear(FIFOCON);
            self.reg_write(Reg::Ueintx, clear);
            proof {
                let l = self.log();
                assert forall|j: int| 0 <= j < k implies #[trigger] paced_fetch_at(
                    l,
                    n + 4,
                    buf@,
                    j,
                ) by {
                    assert(paced_fetch_at(lc, n + 4, buf@, j));
                }
                assert(paced_fetches(l, n + 4, buf@, k as int));
                assert(l[n + 4 + 2 * k] == lc[n + 4 + 2 * k]);
                assert(l.subrange(0, n + 4) =~= lc.subrange(0, n + 4));
                assert(l.subrange(0, lc.len() as int) =~= lc);
                lemma_prefix_index(lc, l);
                assert(l.subrange(0, n) =~= lc.subrange(0, n));
            }
            Ok(k)
        }
    }

    /// Reports the next event. SOFI is acknowledged whenever it reads set. Then, in order:
    /// VBUSTI (cleared) gives `Resume` if VBUS is present and `Suspend` if not; SUSPI with
    /// SUSPE enabled gives `Suspend`; WAKEUPI with WAKEUPE enabled gives `Resume`; EORSTI gives
    /// `Reset`; a frozen clock gives `Idle`. Otherwise every allocated slot is selected in
    /// ascending order (the scan stops at a slot the selector does not take) and its UEINTX
    /// read: RXOUTI and RXSTPI go to `ep_out` and `ep_setup`, and TXINI on a pending slot goes
    /// to `ep_in_complete` and ends its pending state. `Data` is returned if any mask is
    /// nonempty, `Idle` otherwise.
    pub fn poll(&mut self) -> (r: PollEvent)
        requires
            old(self).wf(),
        ensures
            final(self).wf(),
            final(self).table() == old(self).table(),
            final(self).udien() == old(self).udien(),
            final(self).usbcon() == old(self).usbcon(),
            flag_writes_safe_from(final(self).log(), old(self).log().len() as int),
            ({
                let t = old(self).table();
                let l0 = old(self).log();
                let l1 = final(self).log();
                let n = l0.len() as int;
                let a = read_value(l1[n]);
                let b = read_value(l1[n + 1]);
                let q = scan_start(l1, n);
                let p0 = old(self).pending();
                let p1 = final(self).pending();
                &&& l1.len() >= q
                &&& l1.subrange(0, n) == l0
                &&& is_read(l1[n], Reg::Usbint)
                &&& is_read(l1[n + 1], Reg::Udint)
                &&& (b & SOFI != 0 ==> l1[n + 2] == Access::Write(
                    Reg::Udint,
                    udint_clear_spec(SOFI),
                ))
                &&& if a & VBUSTI != 0 {
                    &&& l1.len() == q + 2
                    &&& l1[q] == Access::Write(Reg::Usbint, usbint_clear_spec(VBUSTI))
                    &&& is_read(l1[q + 1], Reg::Usbsta)
                    &&& r == (if read_value(l1[q + 1]) & VBUS != 0 {
                        PollEvent::Resume
                    } else {
                        PollEvent::Suspend
                    })
                    &&& p1 == p0
                } else if b & SUSPI != 0 && old(self).udien() & SUSPE != 0 {
                    r == PollEvent::Suspend && l1.len() == q && p1 == p0
                } else if b & WAKEUPI != 0 && old(self).udien() & WAKEUPE != 0 {
                    r == PollEvent::Resume && l1.len() == q && p1 == p0
                } else if b & EORSTI != 0 {
                    r == PollEvent::Reset && l1.len() == q && p1 == p0
                } else if old(self).usbcon() & FRZCLK != 0 {
                    r == PollEvent::Idle && l1.len() == q && p1 == p0
                } else {
                    exists|f: int| #[trigger] scan_outcome(t, l1, q, f, p0, p1, r)
                }
            }),
    {
        let ghost l0 = self.log();
        let ghost n = l0.len() as int;
        let ghost t = self.table();
        let ghost p0 = self.pending();
        let a = self.reg_read(Reg::Usbint);
        let b = self.reg_read(Reg::Udint);
        if b & SOFI != 0 {
            let c = udint_clear(SOFI);
            self.reg_write(Reg::Udint, c);
        }
        let ghost lq = self.log();
        let ghost q = lq.len() as int;
        assert(lq.subrange(0, n) =~= l0);
        if a & VBUSTI != 0 {
            let c = usbint_clear(VBUSTI);
            self.reg_write(Reg::Usbint, c);
            let s = self.reg_read(Reg::Usbsta);
            proof {
                let l1 = self.log();
                assert(l1.subrange(0, n) =~= l0);
                assert(l1[n] == lq[n] && l1[n + 1] == lq[n + 1]);
            }
            return if s & VBUS != 0 {
                PollEvent::Resume
            } else {
                PollEvent::Suspend
            };
        }
        if b & SUSPI != 0 && self.udien & SUSPE != 0 {
            return PollEvent::Suspend;
        }
        if b & WAKEUPI != 0 && self.udien & WAKEUPE != 0 {
            return PollEvent::Resume;
        }
        if b & EORSTI != 0 {
            return PollEvent::Reset;
        }
        if self.usbcon & FRZCLK != 0 {
            return PollEvent::Idle;
        }
        proof {
            assert(!(b & SUSPI != 0 && old(self).udien() & SUSPE != 0));
            assert(!(b & WAKEUPI != 0 && old(self).udien() & WAKEUPE != 0));
            assert(old(self).usbcon() & FRZCLK == 0);
            assert(lq[n] == Access::Read(Reg::Usbint, a));
            assert(lq[n + 1] == Access::Read(Reg::Udint, b));
            assert(q == if b & SOFI != 0 {
                n + 3
            } else {
                n + 2
            });
        }
        let r = self.scan_endpoints();
        proof {
            let l = self.log();
            lemma_prefix_index(lq, l);
            lemma_prefix_trans(l0, lq, l);
            assert(q == scan_start(l, n));
            assert(exists|f: int|
                #[trigger] scan_outcome(t, l, scan_start(l, n), f, p0, self.pending(), r));
        }
        r
    }

    /// Selects every allocated slot in ascending order, stopping at one the selector does not
    /// take, reads its UEINTX and collects the events; see `poll`.
    fn scan_endpoints(&mut self) -> (r: PollEvent)
        requires
            old(self).wf(),
        ensures
            final(self).wf(),
            final(self).table() == old(self).table(),
            final(self).udien() == old(self).udien(),
            final(self).usbcon() == old(self).usbcon(),
            flag_writes_safe_from(final(self).log(), old(self).log().len() as int),
            final(self).log().len() >= old(self).log().len(),
            final(self).log().subrange(0, old(self).log().len() as int) == old(self).log(),
            exists|f: int|
                #[trigger] scan_outcome(
                    old(self).table(),
                    final(self).log(),
                    old(self).log().len() as int,
                    f,
                    old(self).pending(),
                    final(self).pending(),
                    r,
                ),
    {
        let ghost lq = self.log();
        let ghost q = lq.len() as int;
        let ghost n = q;
        let ghost t = self.table();
        let ghost p0 = self.pending();
        let mut out: u16 = 0;
        let mut inc: u16 = 0;
        let mut setup: u16 = 0;
        let mut stopped = false;
        let mut j: usize = 0;
        proof {
            assert forall|k: int| 0 <= k < 16 implies #[trigger] mask_has(0u16, k) == false by {
                lemma_mask_empty(k as u16);
            }
        }
        while j < NUM_ENDPOINTS && !stopped
            invariant
                0 <= j <= NUM_ENDPOINTS,
                n == old(self).log().len(),
                q == lq.len(),
                n <= q,
                t == old(self).table(),
                p0 == old(self).pending(),
                self.wf(),
                self.table() == t,
                self.udien() == old(self).udien(),
                self.usbcon() == old(self).usbcon(),
                self.log().len() >= q,
                self.log().subrange(0, q) == lq,
                flag_writes_safe_from(self.log(), n),
                stopped ==> j < NUM_ENDPOINTS && scan_stopped(t, self.log(), q, j as int),
                !stopped ==> self.log().len() == scan_pos(t, q, j as int),
                forall|k: int| 0 <= k < j && t[k] is Some ==> #[trigger] scan_ok(t, self.log(), q, k),
                masks_match(t, self.log(), q, j as int, p0, out, inc, setup),
                forall|k: int|
                    #![trigger pending_has(self.pending(), k)]
                    0 <= k < 8 ==> pending_has(self.pending(), k) == (pending_has(p0, k)
                        && !in_event(t, self.log(), q, j as int, p0, k)),
            decreases NUM_ENDPOINTS - j + (if stopped {
                0int
            } else {
                1int
            }),
        {
            let ghost lc = self.log();
            let ghost pc = self.pending();
            proof {
                lemma_allocated_below_nonneg(t, j as int + 1);
                lemma_allocated_below_nonneg(t, j as int);
            }
            if self.endpoints.get(j).is_some() {
                if !self.select(j as u8) {
                    stopped = true;
                    proof {
                        let l = self.log();
                        assert(l.subrange(0, lc.len() as int) =~= lc);
                        lemma_scan_frame(t, lc, l, q, j as int);
                        lemma_prefix_trans(lq, lc, l);
                        lemma_safe_extend(lc, l, n);
                        assert(scan_stopped(t, l, q, j as int));
                        assert forall|k: int|
                            #![trigger mask_has(out, k)]
                            #![trigger mask_has(inc, k)]
                            #![trigger mask_has(setup, k)]
                            0 <= k < 16 implies {
                            &&& mask_has(out, k) == out_event(t, l, q, j as int, k)
                            &&& mask_has(inc, k) == in_event(t, l, q, j as int, p0, k)
                            &&& mask_has(setup, k) == setup_event(t, l, q, j as int, k)
                        } by {
                            assert(mask_has(out, k) == out_event(t, lc, q, j as int, k));
                            assert(mask_has(inc, k) == in_event(t, lc, q, j as int, p0, k));
                            assert(mask_has(setup, k) == setup_event(t, lc, q, j as int, k));
                            if k < j && t[k] is Some {
                                assert(scan_ok(t, lc, q, k));
                                assert(scan_ok(t, l, q, k));
                            }
                        }
                        assert(masks_match(t, l, q, j as int, p0, out, inc, setup));
                        assert forall|k: int| #![trigger pending_has(self.pending(), k)] 0 <= k < 8 implies pending_has(
                            self.pending(),
                            k,
                        ) == (pending_has(p0, k) && !in_event(t, l, q, j as int, p0, k)) by {
                            assert(pending_has(pc, k) == (pending_has(p0, k) && !in_event(
                                t,
                                lc,
                                q,
                                j as int,
                                p0,
                                k,
                            )));
                            if k < j && t[k] is Some {
                                assert(scan_ok(t, lc, q, k));
                                assert(scan_ok(t, l, q, k));
                            }
                        }
                    }
                } else {
                    let x = self.reg_read(Reg::Ueintx);
                    let ghost out0 = out;
                    let ghost inc0 = inc;
                    let ghost setup0 = setup;
                    proof {
                        assert(pending_has(pc, j as int) == pending_has(p0, j as int));
                    }
                    let bit: u16 = 1u16 << (j as u16);
                    if x & RXOUTI != 0 {
                        out = out | bit;
                    }
                    if x & RXSTPI != 0 {
                        setup = setup | bit;
                    }
                    let pb: u8 = 1u8 << (j as u8);
                    if self.pending_ins & pb != 0 && x & TXINI != 0 {
                        inc = inc | bit;
                        self.pending_ins = self.pending_ins & !pb;
                    }
                    proof {
                        let l = self.log();
                        assert(l.subrange(0, lc.len() as int) =~= lc);
                        lemma_scan_frame(t, lc, l, q, j as int);
                        lemma_prefix_trans(lq, lc, l);
                        lemma_safe_extend(lc, l, n);
                        assert(scan_ok(t, l, q, j as int));
                        assert(scan_flags(t, l, q, j as int) == x);
                        assert forall|k: int| 0 <= k < j + 1 && t[k] is Some implies #[trigger] scan_ok(
                            t,
                            l,
                            q,
                            k,
                        ) by {
                            if k < j {
                                assert(scan_ok(t, lc, q, k));
                            }
                        }
                        assert forall|k: int|
                            #![trigger mask_has(out, k)]
                            #![trigger mask_has(inc, k)]
                            #![trigger mask_has(setup, k)]
                            0 <= k < 16 implies {
                            &&& mask_has(out, k) == out_event(t, l, q, j + 1, k)
                            &&& mask_has(inc, k) == in_event(t, l, q, j + 1, p0, k)
                            &&& mask_has(setup, k) == setup_event(t, l, q, j + 1, k)
                        } by {
                            lemma_mask_set(out0, j as u16, k as u16);
                            lemma_mask_set(inc0, j as u16, k as u16);
                            lemma_mask_set(setup0, j as u16, k as u16);
                            assert(mask_has(out0, k) == out_event(t, lc, q, j as int, k));
                            assert(mask_has(inc0, k) == in_event(t, lc, q, j as int, p0, k));
                            assert(mask_has(setup0, k) == setup_event(t, lc, q, j as int, k));
                            if k < j && t[k] is Some {
                                assert(scan_ok(t, lc, q, k));
                                assert(scan_ok(t, l, q, k));
                                assert(scan_flags(t, l, q, k) == scan_flags(t, lc, q, k));
                            }
                        }
                        assert(masks_match(t, l, q, j + 1, p0, out, inc, setup));
                        assert forall|k: int| #![trigger pending_has(self.pending(), k)] 0 <= k < 8 implies pending_has(
                            self.pending(),
                            k,
                        ) == (pending_has(p0, k) && !in_event(t, l, q, j + 1, p0, k)) by {
                            lemma_pending_clear(pc, j as u8, k as u8);
                            assert(pending_has(pc, k) == (pending_has(p0, k) && !in_event(
                                t,
                                lc,
                                q,
                                j as int,
                                p0,
                                k,
                            )));
                            if k < j && t[k] is Some {
                                assert(scan_ok(t, lc, q, k));
                                assert(scan_ok(t, l, q, k));
                                assert(scan_flags(t, l, q, k) == scan_flags(t, lc, q, k));
                            }
                        }
                    }
                    j = j + 1;
                }
            } else {
                proof {
                    assert forall|k: int|
                        #![trigger mask_has(out, k)]
                        #![trigger mask_has(inc, k)]
                        #![trigger mask_has(setup, k)]
                        0 <= k < 16 implies {
                        &&& mask_has(out, k) == out_event(t, lc, q, j + 1, k)
                        &&& mask_has(inc, k) == in_event(t, lc, q, j + 1, p0, k)
                        &&& mask_has(setup, k) == setup_event(t, lc, q, j + 1, k)
                    } by {
                        assert(mask_has(out, k) == out_event(t, lc, q, j as int, k));
                        assert(mask_has(inc, k) == in_event(t, lc, q, j as int, p0, k));
                        assert(mask_has(setup, k) == setup_event(t, lc, q, j as int, k));
                    }
                    assert(masks_match(t, lc, q, j + 1, p0, out, inc, setup));
                    assert forall|k: int| #![trigger pending_has(self.pending(), k)] 0 <= k < 8 implies pending_has(
                        self.pending(),
                        k,
                    ) == (pending_has(p0, k) && !in_event(t, lc, q, j + 1, p0, k)) by {
                        assert(pending_has(pc, k) == (pending_has(p0, k) && !in_event(
                            t,
                            lc,
                            q,
                            j as int,
                            p0,
                            k,
                        )));
                    }
                }
                j = j + 1;
            }
        }
        let ghost f: int = if stopped {
            j as int
        } else {
            NUM_ENDPOINTS as int
        };
        proof {
            let l = self.log();
            lemma_prefix_index(lq, l);
            assert(f == j as int);
            assert(scan_stopped(t, l, q, f));
            assert(pending_settled(t, l, q, f, p0, self.pending()));
        }
        if out == 0 && inc == 0 && setup == 0 {
            proof {
                let l = self.log();
                assert forall|k: int| 0 <= k < NUM_ENDPOINTS implies #[trigger] no_event(
                    t,
                    l,
                    q,
                    f,
                    p0,
                    k,
                ) by {
                    lemma_mask_empty(k as u16);
                    assert(mask_has(out, k) == out_event(t, l, q, f, k));
                }
                assert(scan_reported(t, l, q, f, p0, PollEvent::Idle));
                assert(scan_outcome(t, l, q, f, p0, self.pending(), PollEvent::Idle));
            }
            PollEvent::Idle
        } else {
            let r = PollEvent::Data { ep_out: out, ep_in_complete: inc, ep_setup: setup };
            proof {
                let l = self.log();
                assert(masks_match(t, l, q, f, p0, out, inc, setup));
                assert(scan_reported(t, l, q, f, p0, r));
                assert(scan_outcome(t, l, q, f, p0, self.pending(), r));
            }
            r
        }
    }

}

} // verus!
