//! Register names, bit masks and the safe interrupt-flag clearing rule.

use vstd::prelude::*;

verus! {

/// The USB and PLL registers the driver touches.
#[derive(Clone, Copy, PartialEq, Eq, Debug, Structural)]
pub enum Reg {
    Pllcsr,
    Pllfrq,
    Usbcon,
    Uhwcon,
    Usbsta,
    Usbint,
    Udcon,
    Udaddr,
    Udien,
    Udint,
    Uenum,
    Ueconx,
    Uecfg0x,
    Uecfg1x,
    Uesta0x,
    Ueienx,
    Ueintx,
    Uebchx,
    Uebclx,
    Uedatx,
}

/// One register access, as recorded in a port's log.
#[derive(Clone, Copy, PartialEq, Eq, Debug, Structural)]
pub enum Access {
    /// A read of the register and the value it returned.
    Read(Reg, u8),
    /// A write of the value to the register.
    Write(Reg, u8),
    /// A busy-wait until the register has every bit of the mask set.
    WaitSet(Reg, u8),
    /// A delay of the given number of milliseconds.
    Delay(u8),
}

// PLLCSR
pub const PINDIV: u8 = 0x10;
pub const PLLE: u8 = 0x02;
pub const PLOCK: u8 = 0x01;
// PLLFRQ: power-on value, and PDIV = 48 MHz with PLLTM disconnected and PLLUSB clear.
pub const PLLFRQ_RESET: u8 = 0x04;
pub const PDIV_MHZ48: u8 = 0x04;
pub const PLLTM_DISCONNECTED: u8 = 0x00;
// USBCON
pub const USBE: u8 = 0x80;
pub const FRZCLK: u8 = 0x20;
pub const OTGPADE: u8 = 0x10;
pub const VBUSTE: u8 = 0x01;
// UHWCON
pub const UVREGE: u8 = 0x01;
// USBSTA
pub const VBUS: u8 = 0x01;
// USBINT
pub const VBUSTI: u8 = 0x01;
// UDCON
pub const DETACH: u8 = 0x01;
// UDADDR
pub const ADDEN: u8 = 0x80;
pub const UADD: u8 = 0x7F;
// UDIEN
pub const WAKEUPE: u8 = 0x10;
pub const EORSTE: u8 = 0x08;
pub const SOFE: u8 = 0x04;
pub const SUSPE: u8 = 0x01;
// UDINT
pub const WAKEUPI: u8 = 0x10;
pub const EORSTI: u8 = 0x08;
pub const SOFI: u8 = 0x04;
pub const SUSPI: u8 = 0x01;
// UECONX
pub const STALLRQ: u8 = 0x20;
pub const STALLRQC: u8 = 0x10;
pub const EPEN: u8 = 0x01;
// UECFG1X
pub const ALLOC: u8 = 0x02;
// UESTA0X
pub const CFGOK: u8 = 0x80;
// UEIENX
pub const RXSTPE: u8 = 0x08;
pub const RXOUTE: u8 = 0x04;
// UEINTX
pub const FIFOCON: u8 = 0x80;
pub const RWAL: u8 = 0x20;
pub const RXSTPI: u8 = 0x08;
pub const RXOUTI: u8 = 0x04;
pub const TXINI: u8 = 0x01;

/// Bits of UDINT that are written as one to leave them untouched (bits 1 and 7 are reserved).
pub const UDINT_PRESERVE: u8 = 0x7D;
/// Bits of UEINTX that are written as one to leave them untouched (bit 5, RWAL, is read-only).
pub const UEINTX_PRESERVE: u8 = 0xDF;
/// Bits of USBINT that are written as one to leave them untouched (bits 7:1 are reserved).
pub const USBINT_PRESERVE: u8 = 0x01;

/// The value written to UDINT to clear exactly the flags in `bits`.
pub open spec fn udint_clear_spec(bits: u8) -> u8 {
    UDINT_PRESERVE & !bits
}

/// The value written to UEINTX to clear exactly the flags in `bits`.
pub open spec fn ueintx_clear_spec(bits: u8) -> u8 {
    UEINTX_PRESERVE & !bits
}

/// The value written to USBINT to clear exactly the flags in `bits`.
pub open spec fn usbint_clear_spec(bits: u8) -> u8 {
    USBINT_PRESERVE & !bits
}

/// A write to an interrupt-flag register that sets no reserved or read-only bit.
pub open spec fn flag_write_safe(a: Access) -> bool {
    match a {
        Access::Write(Reg::Udint, v) => v & 0x82 == 0,
        Access::Write(Reg::Ueintx, v) => v & 0x20 == 0,
        Access::Write(Reg::Usbint, v) => v & 0xFE == 0,
        _ => true,
    }
}

/// Every access of `log` from position `start` on is a safe flag write or no flag write.
pub open spec fn flag_writes_safe_from(log: Seq<Access>, start: int) -> bool {
    forall|k: int| start <= k < log.len() ==> flag_write_safe(#[trigger] log[k])
}

/// The value that clears the UDINT flags in `bits` and preserves the others.
pub fn udint_clear(bits: u8) -> (r: u8)
    ensures
        r == udint_clear_spec(bits),
        r & bits == 0,
        flag_write_safe(Access::Write(Reg::Udint, r)),
{
    let r = UDINT_PRESERVE & !bits;
    assert(r & bits == 0 && r & 0x82 == 0) by (bit_vector)
        requires
            r == 0x7Du8 & !bits,
    ;
    r
}

/// The value that clears the UEINTX flags in `bits` and preserves the others.
pub fn ueintx_clear(bits: u8) -> (r: u8)
    ensures
        r == ueintx_clear_spec(bits),
        r & bits == 0,
        flag_write_safe(Access::Write(Reg::Ueintx, r)),
{
    let r = UEINTX_PRESERVE & !bits;
    assert(r & bits == 0 && r & 0x20 == 0) by (bit_vector)
        requires
            r == 0xDFu8 & !bits,
    ;
    r
}

/// The value that clears the USBINT flags in `bits` and preserves the others.
pub fn usbint_clear(bits: u8) -> (r: u8)
    ensures
        r == usbint_clear_spec(bits),
        r & bits == 0,
        flag_write_safe(Access::Write(Reg::Usbint, r)),
{
    let r = USBINT_PRESERVE & !bits;
    assert(r & bits == 0 && r & 0xFE == 0) by (bit_vector)
        requires
            r == 0x01u8 & !bits,
    ;
    r
}

} // verus!

verus! {

/// `a` is a read of register `r`.
pub open spec fn is_read(a: Access, r: Reg) -> bool {
    a matches Access::Read(r2, _) && r2 == r
}

/// The value returned by a read (zero for any other access).
pub open spec fn read_value(a: Access) -> u8 {
    match a {
        Access::Read(_, v) => v,
        _ => 0,
    }
}

/// `a` is a read of UENUM that shows slot `i` selected.
pub open spec fn selects(a: Access, i: u8) -> bool {
    is_read(a, Reg::Uenum) && read_value(a) & 7 == i
}

/// `a` is a read of a register that has every bit of `mask` set.
pub open spec fn read_has(a: Access, r: Reg, mask: u8) -> bool {
    is_read(a, r) && read_value(a) & mask == mask
}

} // verus!
