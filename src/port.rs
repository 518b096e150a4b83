//! The driver's access to the hardware: a register port and the system-clock marker.

use crate::regs::Reg;
use vstd::prelude::*;

verus! {

/// Access to the USB and PLL register blocks.
///
/// The driver records each call it makes, with the value each read returned, in its own log;
/// its contracts are stated over that log.
pub trait UsbPort {
    /// Reads a register.
    fn read(&mut self, r: Reg) -> u8;

    /// Writes a register.
    fn write(&mut self, r: Reg, v: u8);

    /// Waits until every bit of `mask` reads as set in register `r`.
    fn wait_set(&mut self, r: Reg, mask: u8);

    /// Waits for `ms` milliseconds.
    fn delay_ms(&mut self, ms: u8);
}

/// A supported system clock: it decides the PLL input divider (PINDIV).
pub trait SystemClock {
    /// Whether PINDIV is set for this clock.
    spec fn pindiv_spec() -> bool;

    /// Whether PINDIV is set for this clock.
    fn pindiv() -> (r: bool)
        ensures
            r == Self::pindiv_spec(),
    ;
}

/// An 8 MHz system clock: the PLL input is not divided.
pub struct Mhz8;

/// A 16 MHz system clock: the PLL input is divided by two.
pub struct Mhz16;

impl SystemClock for Mhz8 {
    open spec fn pindiv_spec() -> bool {
        false
    }

    fn pindiv() -> (r: bool) {
        false
    }
}

impl SystemClock for Mhz16 {
    open spec fn pindiv_spec() -> bool {
        true
    }

    fn pindiv() -> (r: bool) {
        true
    }
}

} // verus!
