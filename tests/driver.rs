use atmega_hal::bus::{PollEvent, UsbdBus};
use atmega_hal::endpoint::{epsize_code, BusError, Direction, EndpointKind, EndpointRecord, EpAddr};
use atmega_hal::port::{Mhz16, Mhz8, UsbPort};
use atmega_hal::regs::{
    udint_clear, ueintx_clear, usbint_clear, Access, Reg, EORSTI, FIFOCON, FRZCLK, RXOUTI,
    RWAL, RXSTPI, SOFI, STALLRQ, SUSPE, SUSPI, TXINI, VBUS, VBUSTI, WAKEUPE, WAKEUPI,
};
use Access::{Delay, Read, WaitSet, Write};
use atmega_hal::Atmega;

/// An in-memory model of the USB and PLL registers. Flag registers clear the bits written as
/// zero, UENUM selects the bank of per-endpoint registers, UECONX takes stall requests, PLOCK
/// follows PLLE, and UEDATX moves bytes between per-slot queues. Every access is recorded.
struct SimUsb {
    log: Vec<Access>,
    globals: [u8; 10],
    uenum: u8,
    ueconx: [u8; 7],
    uecfg0x: [u8; 7],
    uecfg1x: [u8; 7],
    ueienx: [u8; 7],
    ueintx: [u8; 7],
    bank_room: [u16; 7],
    inbound: Vec<(u8, u8)>,
    outbound: Vec<(u8, u8)>,
    selector_stuck: bool,
}

fn global_index(r: Reg) -> Option<usize> {
    match r {
        Reg::Pllcsr => Some(0),
        Reg::Pllfrq => Some(1),
        Reg::Usbcon => Some(2),
        Reg::Uhwcon => Some(3),
        Reg::Usbsta => Some(4),
        Reg::Usbint => Some(5),
        Reg::Udcon => Some(6),
        Reg::Udaddr => Some(7),
        Reg::Udien => Some(8),
        Reg::Udint => Some(9),
        _ => None,
    }
}

impl SimUsb {
    fn new() -> Self {
        SimUsb {
            log: Vec::new(),
            globals: [0; 10],
            uenum: 0,
            ueconx: [0; 7],
            uecfg0x: [0; 7],
            uecfg1x: [0; 7],
            ueienx: [0; 7],
            ueintx: [0; 7],
            bank_room: [64; 7],
            inbound: Vec::new(),
            outbound: Vec::new(),
            selector_stuck: false,
        }
    }

    fn accesses(&self) -> &Vec<Access> {
        &self.log
    }

    fn register(&self, r: Reg) -> u8 {
        global_index(r).map_or(0, |k| self.globals[k])
    }

    fn endpoint_register(&self, slot: usize, r: Reg) -> u8 {
        match r {
            Reg::Ueconx => self.ueconx[slot],
            Reg::Uecfg0x => self.uecfg0x[slot],
            Reg::Uecfg1x => self.uecfg1x[slot],
            Reg::Ueienx => self.ueienx[slot],
            Reg::Ueintx => self.ueintx[slot],
            _ => 0,
        }
    }

    /// The hardware sets `bits` in a register outside the per-endpoint bank.
    fn raise(&mut self, r: Reg, bits: u8) {
        if let Some(k) = global_index(r) {
            self.globals[k] |= bits;
        }
    }

    /// The hardware sets `bits` in UEINTX of slot `slot`.
    fn raise_endpoint(&mut self, slot: usize, bits: u8) {
        self.ueintx[slot] |= bits;
    }

    /// The host sends `data` to slot `slot`.
    fn receive(&mut self, slot: u8, data: &[u8]) {
        self.inbound.extend(data.iter().map(|b| (slot, *b)));
    }

    /// While `stuck`, UENUM ignores writes, as it does with the clock frozen.
    fn set_selector_stuck(&mut self, stuck: bool) {
        self.selector_stuck = stuck;
    }

    fn set_bank_room(&mut self, slot: usize, room: u16) {
        self.bank_room[slot] = room;
    }

    /// The bytes pushed so far to the IN bank of slot `slot`.
    fn sent(&self, slot: u8) -> Vec<u8> {
        self.outbound.iter().filter(|(s, _)| *s == slot).map(|(_, b)| *b).collect()
    }

    fn pending_bytes(&self, slot: u8) -> usize {
        self.inbound.iter().filter(|(s, _)| *s == slot).count()
    }

    fn take_byte(&mut self, slot: u8) -> u8 {
        match self.inbound.iter().position(|(s, _)| *s == slot) {
            Some(k) => self.inbound.remove(k).1,
            None => 0,
        }
    }

    fn value_of(&mut self, r: Reg) -> u8 {
        if let Some(k) = global_index(r) {
            return self.globals[k];
        }
        let cur = self.uenum;
        if r == Reg::Uenum {
            return cur;
        }
        let c = cur as usize;
        if c >= 7 {
            return 0;
        }
        match r {
            Reg::Ueconx => self.ueconx[c],
            Reg::Uecfg0x => self.uecfg0x[c],
            Reg::Uecfg1x => self.uecfg1x[c],
            Reg::Ueienx => self.ueienx[c],
            Reg::Uesta0x => {
                if self.uecfg1x[c] & 0x02 != 0 {
                    0x80
                } else {
                    0
                }
            }
            Reg::Ueintx => {
                let room = if self.uecfg0x[c] & 1 == 1 {
                    self.bank_room[c] > 0
                } else {
                    self.pending_bytes(cur) > 0
                };
                (self.ueintx[c] & !RWAL) | if room { RWAL } else { 0 }
            }
            Reg::Uebchx => ((self.pending_bytes(cur) / 256) % 8) as u8,
            Reg::Uebclx => (self.pending_bytes(cur) % 256) as u8,
            Reg::Uedatx => self.take_byte(cur),
            _ => 0,
        }
    }

    fn apply(&mut self, r: Reg, v: u8) {
        if let Some(k) = global_index(r) {
            self.globals[k] = match r {
                Reg::Udint | Reg::Usbint => self.globals[k] & v,
                Reg::Pllcsr if v & 0x02 != 0 => v | 0x01,
                Reg::Pllcsr => v & !0x01,
                _ => v,
            };
            return;
        }
        if r == Reg::Uenum {
            if !self.selector_stuck {
                self.uenum = v & 7;
            }
            return;
        }
        let cur = self.uenum;
        let c = cur as usize;
        if c >= 7 {
            return;
        }
        match r {
            Reg::Ueconx => {
                let stall = if v & STALLRQ != 0 {
                    STALLRQ
                } else if v & 0x10 != 0 {
                    0
                } else {
                    self.ueconx[c] & STALLRQ
                };
                self.ueconx[c] = stall | (v & 0x01);
            }
            Reg::Uecfg0x => self.uecfg0x[c] = v,
            Reg::Uecfg1x => self.uecfg1x[c] = v,
            Reg::Ueienx => self.ueienx[c] = v,
            Reg::Ueintx => self.ueintx[c] &= v,
            Reg::Uedatx => {
                if self.bank_room[c] > 0 {
                    self.outbound.push((cur, v));
                    self.bank_room[c] -= 1;
                }
            }
            _ => {}
        }
    }
}

impl UsbPort for SimUsb {
    fn read(&mut self, r: Reg) -> u8 {
        let v = self.value_of(r);
        self.log.push(Access::Read(r, v));
        v
    }

    fn write(&mut self, r: Reg, v: u8) {
        self.apply(r, v);
        self.log.push(Access::Write(r, v));
    }

    fn wait_set(&mut self, r: Reg, mask: u8) {
        self.log.push(Access::WaitSet(r, mask));
    }

    fn delay_ms(&mut self, ms: u8) {
        self.log.push(Access::Delay(ms));
    }
}

type Bus = UsbdBus<SimUsb, Mhz16>;

fn new_bus() -> Bus {
    UsbdBus::new(SimUsb::new())
}

fn addr(index: u8, dir: Direction) -> EpAddr {
    EpAddr { index, dir }
}

fn with_ep0(mps: u16) -> Bus {
    let mut bus = new_bus();
    let a = bus.alloc_ep(
        Direction::Out,
        Some(addr(0, Direction::Out)),
        EndpointKind::Control,
        mps,
        0,
    );
    assert_eq!(a, Ok(addr(0, Direction::Out)));
    bus
}

fn log_of(bus: &Bus) -> Vec<Access> {
    bus.port().accesses().clone()
}

fn writes_to(log: &[Access], reg: Reg) -> Vec<u8> {
    log.iter()
        .filter_map(|a| match a {
            Access::Write(r, v) if *r == reg => Some(*v),
            _ => None,
        })
        .collect()
}

fn flag_writes_are_safe(log: &[Access]) -> bool {
    log.iter().all(|a| match a {
        Access::Write(Reg::Udint, v) => v & 0x82 == 0,
        Access::Write(Reg::Ueintx, v) => v & 0x20 == 0,
        Access::Write(Reg::Usbint, v) => v & 0xFE == 0,
        _ => true,
    })
}

#[test]
fn cdc_acm_allocation() {
    let mut bus = new_bus();
    assert_eq!(
        bus.alloc_ep(Direction::In, None, EndpointKind::Interrupt, 8, 255),
        Ok(addr(1, Direction::In))
    );
    assert_eq!(
        bus.alloc_ep(Direction::In, None, EndpointKind::Bulk, 64, 0),
        Ok(addr(2, Direction::In))
    );
    assert_eq!(
        bus.alloc_ep(Direction::Out, None, EndpointKind::Bulk, 64, 0),
        Ok(addr(3, Direction::Out))
    );
    assert!(log_of(&bus).is_empty());
}

#[test]
fn ep0_double_allocation() {
    let mut bus = new_bus();
    assert_eq!(
        bus.alloc_ep(Direction::Out, Some(addr(0, Direction::Out)), EndpointKind::Control, 8, 0),
        Ok(addr(0, Direction::Out))
    );
    assert_eq!(
        bus.alloc_ep(Direction::In, Some(addr(0, Direction::In)), EndpointKind::Control, 8, 0),
        Ok(addr(0, Direction::In))
    );
    assert_eq!(
        bus.endpoint(0),
        Some(EndpointRecord {
            kind: EndpointKind::Control,
            dir: Direction::Out,
            max_packet_size: 8,
            interval: 0
        })
    );
    for i in 1..7 {
        assert_eq!(bus.endpoint(i), None);
    }
}

#[test]
fn ep0_in_request_changes_nothing() {
    let mut bus = with_ep0(64);
    let before: Vec<_> = (0..7).map(|i| bus.endpoint(i)).collect();
    assert_eq!(
        bus.alloc_ep(Direction::In, Some(addr(0, Direction::In)), EndpointKind::Control, 64, 0),
        Ok(addr(0, Direction::In))
    );
    let after: Vec<_> = (0..7).map(|i| bus.endpoint(i)).collect();
    assert_eq!(before, after);
    let mut empty = new_bus();
    assert_eq!(
        empty.alloc_ep(Direction::In, Some(addr(0, Direction::In)), EndpointKind::Control, 8, 0),
        Ok(addr(0, Direction::In))
    );
    assert_eq!(empty.endpoint(0), None);
}

#[test]
fn unaddressed_allocations_increase() {
    let mut bus = new_bus();
    let sizes = [64u16, 8, 8, 64, 32, 16];
    let mut last = 0u8;
    for s in sizes {
        let a = bus.alloc_ep(Direction::In, None, EndpointKind::Bulk, s, 0).unwrap();
        assert!(a.index > last);
        last = a.index;
    }
    assert_eq!(last, 6);
    assert_eq!(
        bus.alloc_ep(Direction::In, None, EndpointKind::Bulk, 8, 0),
        Err(BusError::EndpointMemoryOverflow)
    );
}

#[test]
fn unaddressed_allocation_skips_taken_slots() {
    let mut bus = new_bus();
    assert_eq!(
        bus.alloc_ep(Direction::Out, Some(addr(3, Direction::Out)), EndpointKind::Bulk, 64, 0),
        Ok(addr(3, Direction::Out))
    );
    let got: Vec<u8> = (0..3)
        .map(|_| bus.alloc_ep(Direction::In, None, EndpointKind::Bulk, 64, 0).unwrap().index)
        .collect();
    assert_eq!(got, vec![1, 2, 4]);
}

#[test]
fn large_packets_only_fit_slot_one() {
    let mut bus = new_bus();
    assert_eq!(
        bus.alloc_ep(Direction::In, None, EndpointKind::Bulk, 8, 0),
        Ok(addr(1, Direction::In))
    );
    assert_eq!(
        bus.alloc_ep(Direction::In, None, EndpointKind::Bulk, 128, 0),
        Err(BusError::EndpointMemoryOverflow)
    );
    let mut bus = new_bus();
    assert_eq!(
        bus.alloc_ep(Direction::In, None, EndpointKind::Bulk, 256, 0),
        Ok(addr(1, Direction::In))
    );
    assert_eq!(
        bus.alloc_ep(Direction::In, None, EndpointKind::Bulk, 300, 0),
        Err(BusError::EndpointMemoryOverflow)
    );
}

#[test]
fn addressed_allocation_falls_back_when_taken() {
    let mut bus = new_bus();
    bus.alloc_ep(Direction::In, Some(addr(2, Direction::In)), EndpointKind::Bulk, 64, 0)
        .unwrap();
    assert_eq!(
        bus.alloc_ep(Direction::In, Some(addr(2, Direction::In)), EndpointKind::Bulk, 64, 0),
        Ok(addr(1, Direction::In))
    );
    assert_eq!(
        bus.alloc_ep(Direction::Out, Some(addr(4, Direction::Out)), EndpointKind::Bulk, 128, 0),
        Err(BusError::EndpointMemoryOverflow)
    );
}

#[test]
fn allocation_out_of_range_is_invalid() {
    let mut bus = new_bus();
    assert_eq!(
        bus.alloc_ep(Direction::In, Some(addr(7, Direction::In)), EndpointKind::Bulk, 8, 0),
        Err(BusError::InvalidEndpoint)
    );
    assert_eq!(
        bus.alloc_ep(Direction::Out, Some(addr(15, Direction::Out)), EndpointKind::Bulk, 8, 0),
        Err(BusError::InvalidEndpoint)
    );
}

#[test]
fn epsize_codes() {
    assert_eq!(epsize_code(0), 0);
    assert_eq!(epsize_code(1), 0);
    assert_eq!(epsize_code(8), 0);
    assert_eq!(epsize_code(9), 1);
    assert_eq!(epsize_code(16), 1);
    assert_eq!(epsize_code(33), 3);
    assert_eq!(epsize_code(64), 3);
    assert_eq!(epsize_code(65), 4);
    assert_eq!(epsize_code(128), 4);
    assert_eq!(epsize_code(255), 5);
    assert_eq!(epsize_code(256), 5);
    assert_eq!(epsize_code(257), 6);
    assert_eq!(epsize_code(512), 6);
}

#[test]
fn programmed_epsize_bits() {
    let mut bus = with_ep0(8);
    bus.alloc_ep(Direction::In, None, EndpointKind::Bulk, 200, 0).unwrap();
    bus.alloc_ep(Direction::Out, None, EndpointKind::Interrupt, 20, 0).unwrap();
    assert_eq!(bus.enable(), Ok(()));
    let sim = bus.port();
    assert_eq!(sim.endpoint_register(0, Reg::Uecfg1x), 0x02);
    assert_eq!(sim.endpoint_register(1, Reg::Uecfg1x), 0x52);
    assert_eq!(sim.endpoint_register(2, Reg::Uecfg1x), 0x22);
    assert_eq!(sim.endpoint_register(0, Reg::Uecfg0x), 0x00);
    assert_eq!(sim.endpoint_register(1, Reg::Uecfg0x), 0x81);
    assert_eq!(sim.endpoint_register(2, Reg::Uecfg0x), 0xC0);
}

#[test]
fn enable_sequence() {
    let mut bus = with_ep0(64);
    assert_eq!(bus.enable(), Ok(()));
    let expected = vec![
        Write(Reg::Uhwcon, 0x01),
        Write(Reg::Usbcon, 0xA0),
        Write(Reg::Pllcsr, 0x10),
        Write(Reg::Pllfrq, 0x04),
        Write(Reg::Pllfrq, 0x04),
        Write(Reg::Pllcsr, 0x12),
        WaitSet(Reg::Pllcsr, 0x01),
        Write(Reg::Usbcon, 0xB0),
        Delay(1),
        Write(Reg::Usbcon, 0x91),
        Write(Reg::Uenum, 0),
        Read(Reg::Uenum, 0),
        Write(Reg::Ueconx, 0x01),
        Write(Reg::Uecfg1x, 0x00),
        Write(Reg::Uecfg0x, 0x00),
        Write(Reg::Uecfg1x, 0x30),
        Write(Reg::Uecfg1x, 0x32),
        Read(Reg::Uesta0x, 0x80),
        Write(Reg::Ueienx, 0x0C),
        Write(Reg::Udcon, 0x00),
        Write(Reg::Udien, 0x0C),
    ];
    assert_eq!(log_of(&bus), expected);
}

#[test]
fn enable_at_8mhz_leaves_pindiv_clear() {
    let mut bus: UsbdBus<SimUsb, Mhz8> = UsbdBus::new(SimUsb::new());
    assert_eq!(bus.enable(), Ok(()));
    let log = bus.port().accesses().clone();
    assert_eq!(writes_to(&log, Reg::Pllcsr), vec![0x00, 0x02]);
    assert_eq!(log.len(), 12);
}

#[test]
fn enable_programs_slots_in_order() {
    let mut bus = with_ep0(64);
    bus.alloc_ep(Direction::Out, Some(addr(4, Direction::Out)), EndpointKind::Bulk, 64, 0)
        .unwrap();
    bus.alloc_ep(Direction::In, None, EndpointKind::Bulk, 64, 0).unwrap();
    assert_eq!(bus.enable(), Ok(()));
    let log = log_of(&bus);
    assert_eq!(writes_to(&log, Reg::Uenum), vec![0, 1, 4]);
    let alloc_pos: Vec<usize> = log
        .iter()
        .enumerate()
        .filter(|(_, a)| matches!(a, Access::Write(Reg::Uecfg1x, v) if v & 0x02 != 0))
        .map(|(k, _)| k)
        .collect();
    assert_eq!(alloc_pos.len(), 3);
    assert!(alloc_pos[0] < alloc_pos[1] && alloc_pos[1] < alloc_pos[2]);
}

#[test]
fn alloc_cleared_before_layout() {
    let mut bus = with_ep0(64);
    bus.alloc_ep(Direction::In, None, EndpointKind::Interrupt, 16, 10).unwrap();
    assert_eq!(bus.enable(), Ok(()));
    let log = log_of(&bus);
    let starts: Vec<usize> = log
        .iter()
        .enumerate()
        .filter(|(_, a)| matches!(a, Access::Write(Reg::Uenum, _)))
        .map(|(k, _)| k)
        .collect();
    assert_eq!(starts.len(), 2);
    for s in starts {
        let block = &log[s..s + 9];
        let clear = block
            .iter()
            .position(|a| matches!(a, Access::Write(Reg::Uecfg1x, v) if v & 0x02 == 0))
            .unwrap();
        let cfg0 = block.iter().position(|a| matches!(a, Access::Write(Reg::Uecfg0x, _))).unwrap();
        let size = block
            .iter()
            .rposition(|a| matches!(a, Access::Write(Reg::Uecfg1x, v) if v & 0x02 == 0))
            .unwrap();
        let set = block
            .iter()
            .position(|a| matches!(a, Access::Write(Reg::Uecfg1x, v) if v & 0x02 != 0))
            .unwrap();
        assert!(clear < cfg0 && cfg0 < size && size < set);
    }
}

#[test]
fn reset_reprograms_and_keeps_table() {
    let mut bus = with_ep0(64);
    bus.alloc_ep(Direction::In, None, EndpointKind::Bulk, 64, 0).unwrap();
    assert_eq!(bus.enable(), Ok(()));
    let before: Vec<_> = (0..7).map(|i| bus.endpoint(i)).collect();
    let start = log_of(&bus).len();
    assert_eq!(bus.reset(), Ok(()));
    let log = log_of(&bus);
    let tail = &log[start..];
    assert_eq!(tail[0], Access::Write(Reg::Udint, 0x75));
    assert_eq!(tail.len(), 1 + 9 + 9 + 2);
    assert_eq!(tail[tail.len() - 2], Access::Write(Reg::Udint, 0x6C));
    assert_eq!(tail[tail.len() - 1], Access::Write(Reg::Udien, 0x0D));
    let after: Vec<_> = (0..7).map(|i| bus.endpoint(i)).collect();
    assert_eq!(before, after);
}

#[test]
fn set_device_address_writes_twice() {
    let mut bus = new_bus();
    bus.set_device_address(0x85);
    assert_eq!(
        log_of(&bus),
        vec![Access::Write(Reg::Udaddr, 0x05), Access::Write(Reg::Udaddr, 0x85)]
    );
}

#[test]
fn control_write_overflow_pushes_nothing() {
    let mut bus = with_ep0(8);
    assert_eq!(bus.enable(), Ok(()));
    bus.port_mut().raise_endpoint(0, TXINI);
    assert_eq!(bus.write(addr(0, Direction::In), &[0; 9]), Err(BusError::BufferOverflow));
    assert!(bus.port().sent(0).is_empty());
    assert!(writes_to(&log_of(&bus), Reg::Uedatx).is_empty());
}

#[test]
fn control_write_pushes_and_clears_txini() {
    let mut bus = with_ep0(8);
    assert_eq!(bus.enable(), Ok(()));
    bus.port_mut().raise_endpoint(0, TXINI);
    assert_eq!(bus.write(addr(0, Direction::In), &[1, 2, 3, 4, 5, 6, 7, 8]), Ok(8));
    assert_eq!(bus.port().sent(0), vec![1, 2, 3, 4, 5, 6, 7, 8]);
    assert_eq!(*log_of(&bus).last().unwrap(), Access::Write(Reg::Ueintx, 0xDE));
    assert_eq!(bus.port().endpoint_register(0, Reg::Ueintx) & TXINI, 0);
}

#[test]
fn write_would_block_without_txini() {
    let mut bus = with_ep0(8);
    assert_eq!(bus.enable(), Ok(()));
    assert_eq!(bus.write(addr(0, Direction::In), &[1]), Err(BusError::WouldBlock));
}

#[test]
fn write_to_unallocated_slot_is_invalid() {
    let mut bus = with_ep0(8);
    assert_eq!(bus.enable(), Ok(()));
    let n = log_of(&bus).len();
    assert_eq!(bus.write(addr(5, Direction::In), &[1]), Err(BusError::InvalidEndpoint));
    assert_eq!(bus.write(addr(9, Direction::In), &[1]), Err(BusError::InvalidEndpoint));
    assert_eq!(bus.write(addr(0, Direction::Out), &[1]), Err(BusError::InvalidEndpoint));
    assert_eq!(log_of(&bus).len(), n);
}

#[test]
fn write_when_selector_is_stuck() {
    let mut bus = with_ep0(8);
    bus.alloc_ep(Direction::In, None, EndpointKind::Bulk, 64, 0).unwrap();
    assert_eq!(bus.enable(), Ok(()));
    bus.port_mut().set_selector_stuck(true);
    assert_eq!(bus.write(addr(0, Direction::In), &[1]), Err(BusError::InvalidState));
}

#[test]
fn bulk_write_sends_bank() {
    let mut bus = with_ep0(8);
    bus.alloc_ep(Direction::In, None, EndpointKind::Bulk, 64, 0).unwrap();
    assert_eq!(bus.enable(), Ok(()));
    bus.port_mut().raise_endpoint(1, TXINI | FIFOCON);
    let start = log_of(&bus).len();
    assert_eq!(bus.write(addr(1, Direction::In), &[9, 8, 7]), Ok(3));
    assert_eq!(bus.port().sent(1), vec![9, 8, 7]);
    let log = log_of(&bus);
    assert_eq!(writes_to(&log[start..], Reg::Ueintx), vec![0xDA, 0x5B]);
    assert_eq!(log.len(), start + 3 + 1 + 2 * 3 + 1);
}

#[test]
fn bulk_write_overflows_when_bank_fills() {
    let mut bus = with_ep0(8);
    bus.alloc_ep(Direction::In, None, EndpointKind::Bulk, 64, 0).unwrap();
    assert_eq!(bus.enable(), Ok(()));
    bus.port_mut().raise_endpoint(1, TXINI);
    bus.port_mut().set_bank_room(1, 2);
    assert_eq!(bus.write(addr(1, Direction::In), &[1, 2, 3, 4]), Err(BusError::BufferOverflow));
    assert_eq!(bus.port().sent(1), vec![1, 2]);
    let log = log_of(&bus);
    assert!(matches!(log.last(), Some(Access::Read(Reg::Ueintx, v)) if v & 0x20 == 0));
}

#[test]
fn short_control_read() {
    let mut bus = with_ep0(64);
    assert_eq!(bus.enable(), Ok(()));
    let setup = [0x80, 0x06, 0x00, 0x01, 0x00, 0x00, 0x40, 0x00];
    bus.port_mut().receive(0, &setup);
    bus.port_mut().raise_endpoint(0, RXSTPI);
    let mut buf = [0u8; 8];
    assert_eq!(bus.read(addr(0, Direction::Out), &mut buf), Ok(8));
    assert_eq!(buf, setup);
    let log = log_of(&bus);
    assert_eq!(*log.last().unwrap(), Access::Write(Reg::Ueintx, 0xD3));
    assert_eq!(bus.port().endpoint_register(0, Reg::Ueintx) & (RXOUTI | RXSTPI), 0);
}

#[test]
fn control_read_overflow() {
    let mut bus = with_ep0(64);
    assert_eq!(bus.enable(), Ok(()));
    bus.port_mut().receive(0, &[1, 2, 3, 4, 5, 6]);
    bus.port_mut().raise_endpoint(0, RXOUTI);
    let mut buf = [0u8; 4];
    assert_eq!(bus.read(addr(0, Direction::Out), &mut buf), Err(BusError::BufferOverflow));
    assert_eq!(buf, [0; 4]);
}

#[test]
fn read_would_block_without_packet() {
    let mut bus = with_ep0(64);
    bus.alloc_ep(Direction::Out, None, EndpointKind::Bulk, 64, 0).unwrap();
    assert_eq!(bus.enable(), Ok(()));
    let mut buf = [0u8; 4];
    assert_eq!(bus.read(addr(0, Direction::Out), &mut buf), Err(BusError::WouldBlock));
    assert_eq!(bus.read(addr(1, Direction::Out), &mut buf), Err(BusError::WouldBlock));
    assert_eq!(bus.read(addr(1, Direction::In), &mut buf), Err(BusError::InvalidEndpoint));
}

#[test]
fn bulk_read_releases_bank_after_bytes() {
    let mut bus = with_ep0(64);
    bus.alloc_ep(Direction::Out, None, EndpointKind::Bulk, 64, 0).unwrap();
    assert_eq!(bus.enable(), Ok(()));
    bus.port_mut().receive(1, &[4, 5, 6]);
    bus.port_mut().raise_endpoint(1, RXOUTI | FIFOCON);
    let start = log_of(&bus).len();
    let mut buf = [0u8; 8];
    assert_eq!(bus.read(addr(1, Direction::Out), &mut buf), Ok(3));
    assert_eq!(&buf[..3], &[4, 5, 6]);
    let log = log_of(&bus);
    let tail = &log[start..];
    assert_eq!(writes_to(tail, Reg::Ueintx), vec![0xDB, 0x5F]);
    let last_data = tail.iter().rposition(|a| matches!(a, Access::Read(Reg::Uedatx, _))).unwrap();
    assert_eq!(tail.len() - 1, last_data + 2);
    assert_eq!(*tail.last().unwrap(), Access::Write(Reg::Ueintx, 0x5F));
    assert_eq!(bus.port().endpoint_register(1, Reg::Ueintx) & FIFOCON, 0);
}

#[test]
fn bulk_read_overflow() {
    let mut bus = with_ep0(64);
    bus.alloc_ep(Direction::Out, None, EndpointKind::Bulk, 64, 0).unwrap();
    assert_eq!(bus.enable(), Ok(()));
    bus.port_mut().receive(1, &[1, 2, 3, 4, 5, 6]);
    bus.port_mut().raise_endpoint(1, RXOUTI);
    let mut buf = [0u8; 4];
    assert_eq!(bus.read(addr(1, Direction::Out), &mut buf), Err(BusError::BufferOverflow));
    assert_eq!(buf, [1, 2, 3, 4]);
}

#[test]
fn stall_round_trip() {
    let mut bus = with_ep0(64);
    bus.alloc_ep(Direction::In, None, EndpointKind::Bulk, 64, 0).unwrap();
    assert_eq!(bus.enable(), Ok(()));
    let a = addr(1, Direction::In);
    assert!(!bus.is_stalled(a));
    bus.set_stalled(a, true);
    assert!(bus.is_stalled(a));
    assert_eq!(bus.port().endpoint_register(1, Reg::Ueconx) & STALLRQ, STALLRQ);
    bus.set_stalled(a, false);
    assert!(!bus.is_stalled(a));
    assert!(!bus.is_stalled(addr(9, Direction::In)));
    let n = log_of(&bus).len();
    bus.set_stalled(addr(9, Direction::In), true);
    assert_eq!(log_of(&bus).len(), n);
}

#[test]
fn suspend_resume_symmetry() {
    let mut bus = with_ep0(64);
    assert_eq!(bus.enable(), Ok(()));
    assert_eq!(bus.reset(), Ok(()));
    let sim = bus.port();
    assert_eq!(sim.register(Reg::Usbcon) & FRZCLK, 0);
    assert_eq!(sim.register(Reg::Udien) & SUSPE, SUSPE);
    assert_eq!(sim.register(Reg::Udien) & WAKEUPE, 0);
    bus.suspend();
    let sim = bus.port();
    assert_eq!(sim.register(Reg::Usbcon) & FRZCLK, FRZCLK);
    assert_eq!(sim.register(Reg::Udien) & SUSPE, 0);
    assert_eq!(sim.register(Reg::Udien) & WAKEUPE, WAKEUPE);
    bus.resume();
    let sim = bus.port();
    assert_eq!(sim.register(Reg::Usbcon) & FRZCLK, 0);
    assert_eq!(sim.register(Reg::Udien) & SUSPE, SUSPE);
    assert_eq!(sim.register(Reg::Udien) & WAKEUPE, 0);
}

#[test]
fn poll_prefers_reset_to_endpoint_events() {
    let mut bus = with_ep0(64);
    bus.alloc_ep(Direction::Out, Some(addr(3, Direction::Out)), EndpointKind::Bulk, 64, 0)
        .unwrap();
    assert_eq!(bus.enable(), Ok(()));
    bus.port_mut().raise(Reg::Udint, EORSTI);
    bus.port_mut().raise_endpoint(3, RXOUTI);
    let start = log_of(&bus).len();
    assert_eq!(bus.poll(), PollEvent::Reset);
    assert!(writes_to(&log_of(&bus)[start..], Reg::Uenum).is_empty());
}

#[test]
fn poll_reports_out_and_setup() {
    let mut bus = with_ep0(64);
    bus.alloc_ep(Direction::Out, Some(addr(3, Direction::Out)), EndpointKind::Bulk, 64, 0)
        .unwrap();
    assert_eq!(bus.enable(), Ok(()));
    assert_eq!(bus.poll(), PollEvent::Idle);
    bus.port_mut().raise_endpoint(0, RXSTPI);
    bus.port_mut().raise_endpoint(3, RXOUTI);
    assert_eq!(
        bus.poll(),
        PollEvent::Data { ep_out: 0b1000, ep_in_complete: 0, ep_setup: 0b1 }
    );
}

#[test]
fn in_complete_reported_once() {
    let mut bus = with_ep0(64);
    bus.alloc_ep(Direction::In, None, EndpointKind::Bulk, 64, 0).unwrap();
    assert_eq!(bus.enable(), Ok(()));
    bus.port_mut().raise_endpoint(1, TXINI);
    assert_eq!(bus.poll(), PollEvent::Idle);
    assert_eq!(bus.write(addr(1, Direction::In), &[1, 2]), Ok(2));
    bus.port_mut().raise_endpoint(1, TXINI);
    assert_eq!(
        bus.poll(),
        PollEvent::Data { ep_out: 0, ep_in_complete: 0b10, ep_setup: 0 }
    );
    assert_eq!(bus.poll(), PollEvent::Idle);
}

#[test]
fn poll_vbus_transitions() {
    let mut bus = with_ep0(64);
    assert_eq!(bus.enable(), Ok(()));
    bus.port_mut().raise(Reg::Usbint, VBUSTI);
    bus.port_mut().raise(Reg::Usbsta, VBUS);
    assert_eq!(bus.poll(), PollEvent::Resume);
    assert_eq!(bus.port().register(Reg::Usbint), 0);
    let mut plain = with_ep0(64);
    assert_eq!(plain.enable(), Ok(()));
    plain.port_mut().raise(Reg::Usbint, VBUSTI);
    assert_eq!(plain.poll(), PollEvent::Suspend);
}

#[test]
fn poll_suspend_needs_suspe() {
    let mut bus = with_ep0(64);
    assert_eq!(bus.enable(), Ok(()));
    bus.port_mut().raise(Reg::Udint, SUSPI);
    assert_eq!(bus.poll(), PollEvent::Idle);
    assert_eq!(bus.reset(), Ok(()));
    bus.port_mut().raise(Reg::Udint, SUSPI);
    assert_eq!(bus.poll(), PollEvent::Suspend);
}

#[test]
fn poll_wakeup_after_suspend() {
    let mut bus = with_ep0(64);
    assert_eq!(bus.enable(), Ok(()));
    assert_eq!(bus.reset(), Ok(()));
    bus.suspend();
    bus.port_mut().raise_endpoint(0, RXOUTI);
    assert_eq!(bus.poll(), PollEvent::Idle);
    bus.port_mut().raise(Reg::Udint, WAKEUPI);
    assert_eq!(bus.poll(), PollEvent::Resume);
}

#[test]
fn poll_acknowledges_sof() {
    let mut bus = with_ep0(64);
    assert_eq!(bus.enable(), Ok(()));
    bus.port_mut().raise(Reg::Udint, SOFI);
    assert_eq!(bus.poll(), PollEvent::Idle);
    assert_eq!(bus.port().register(Reg::Udint) & SOFI, 0);
    assert!(writes_to(&log_of(&bus), Reg::Udint).contains(&0x79));
}

#[test]
fn poll_scan_stops_at_stuck_selector() {
    let mut bus = with_ep0(64);
    bus.alloc_ep(Direction::Out, None, EndpointKind::Bulk, 64, 0).unwrap();
    assert_eq!(bus.enable(), Ok(()));
    bus.port_mut().raise_endpoint(0, RXOUTI);
    bus.port_mut().raise_endpoint(1, RXOUTI);
    bus.port_mut().set_selector_stuck(true);
    let start = log_of(&bus).len();
    assert_eq!(bus.poll(), PollEvent::Idle);
    assert_eq!(writes_to(&log_of(&bus)[start..], Reg::Uenum), vec![0]);
}

#[test]
fn force_reset_toggles_detach() {
    let mut bus = new_bus();
    assert_eq!(bus.force_reset(), Ok(()));
    assert_eq!(
        log_of(&bus),
        vec![Access::Write(Reg::Udcon, 1), Access::Delay(1), Access::Write(Reg::Udcon, 0)]
    );
}

#[test]
fn flag_clear_values() {
    assert_eq!(udint_clear(SOFI), 0x79);
    assert_eq!(udint_clear(SUSPI | WAKEUPI), 0x6C);
    assert_eq!(udint_clear(0xFF), 0x00);
    assert_eq!(udint_clear(0x00) & 0x82, 0);
    assert_eq!(ueintx_clear(TXINI), 0xDE);
    assert_eq!(ueintx_clear(RXOUTI | RXSTPI), 0xD3);
    assert_eq!(ueintx_clear(0x00) & 0x20, 0);
    assert_eq!(usbint_clear(VBUSTI), 0x00);
    assert_eq!(usbint_clear(0x00), 0x01);
}

#[test]
fn session_flag_writes_are_safe() {
    let mut bus = with_ep0(64);
    bus.alloc_ep(Direction::In, None, EndpointKind::Bulk, 64, 0).unwrap();
    bus.alloc_ep(Direction::Out, None, EndpointKind::Bulk, 64, 0).unwrap();
    assert_eq!(bus.enable(), Ok(()));
    bus.port_mut().raise(Reg::Udint, EORSTI | SOFI);
    assert_eq!(bus.poll(), PollEvent::Reset);
    assert_eq!(bus.reset(), Ok(()));
    bus.port_mut().raise_endpoint(1, TXINI);
    assert_eq!(bus.write(addr(1, Direction::In), &[1, 2, 3]), Ok(3));
    bus.port_mut().receive(2, &[7]);
    bus.port_mut().raise_endpoint(2, RXOUTI);
    let mut buf = [0u8; 4];
    assert_eq!(bus.read(addr(2, Direction::Out), &mut buf), Ok(1));
    bus.port_mut().raise(Reg::Usbint, VBUSTI);
    assert_eq!(bus.poll(), PollEvent::Suspend);
    bus.suspend();
    bus.resume();
    let log = log_of(&bus);
    assert!(flag_writes_are_safe(&log));
    assert!(!writes_to(&log, Reg::Udint).is_empty());
    assert!(!writes_to(&log, Reg::Ueintx).is_empty());
    assert!(!writes_to(&log, Reg::Usbint).is_empty());
}

#[test]
fn atmega_marker_exists() {
    let _m = Atmega;
}
