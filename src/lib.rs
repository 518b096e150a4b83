//! Polled USB 2.0 full-speed device-controller driver for the ATmega32U4.
//!
//! [`bus::UsbdBus`] drives the USB and PLL register blocks through a [`port::UsbPort`] and
//! keeps a ghost log of every register access it makes. Its contracts state, over that log and
//! over the software endpoint table, which registers each operation reads and writes, in which
//! order, and how its result follows from the values read.

pub mod bus;
pub mod endpoint;
pub mod laws;
pub mod port;
pub mod regs;
pub mod trace;

use vstd::prelude::*;

verus! {

/// Marker for the ATmega family of microcontrollers.
pub struct Atmega;

} // verus!
