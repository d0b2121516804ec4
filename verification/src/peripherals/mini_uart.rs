//! Mini UART (UART1) register computations.
//!
//! The library computes the register operations; the caller performs them,
//! polling the line status register where the UART must be ready.

use vstd::prelude::*;
use vstd::string::StringSliceAdditionalSpecFns;
use crate::peripherals::base::RegisterWrite;
use crate::peripherals::gpio::{GPIOPin, GPIOPinFunction, GPPUD, GPPUDCLK0, GPIO_DELAY};

verus! {

pub const AUX_ENABLES: usize = 0x00215004;
pub const AUX_MU_IO_REG: usize = 0x00215040;
pub const AUX_MU_IER_REG: usize = 0x00215044;
pub const AUX_MU_IIR_REG: usize = 0x00215048;
pub const AUX_MU_LCR_REG: usize = 0x0021504C;
pub const AUX_MU_MCR_REG: usize = 0x00215050;
pub const AUX_MU_LSR_REG: usize = 0x00215054;
pub const AUX_MU_MSR_REG: usize = 0x00215058;
pub const AUX_MU_SCRATCH: usize = 0x0021505C;
pub const AUX_MU_CNTL_REG: usize = 0x00215060;
pub const AUX_MU_STAT_REG: usize = 0x00215064;
pub const AUX_MU_BAUD_REG: usize = 0x00215068;

/// Line status bit: the transmitter can accept a byte.
pub const LSR_TX_READY: u32 = 0x20;

/// Line status bit: a received byte is available.
pub const LSR_RX_READY: u32 = 0x1;

/// One operation of a device setup sequence.
#[derive(Copy, Clone, Debug, PartialEq, Eq, Structural)]
pub enum UartStep {
    /// Write a register.
    Write(RegisterWrite),
    /// Run a delay loop of the given number of iterations.
    Delay(u64),
    /// Assign a function to a GPIO pin (a read-modify-write of its function
    /// select register, see `gpio::set_pin_function`).
    PinFunction(GPIOPin, GPIOPinFunction),
}

/// A register write step.
pub open spec fn put(value: u32, reg: usize) -> UartStep {
    UartStep::Write(RegisterWrite { reg, value })
}

/// The UART1 setup sequence: disable the pull-up/down of GPIO14 and GPIO15,
/// enable and configure UART1 (8-bit data, no interrupts, baud register 270,
/// 115200 baud with the 250 MHz system clock), assign GPIO14 and GPIO15 their
/// Alternate Function 5 (UART1 TX and RX), then enable TX and RX.
pub open spec fn init_steps() -> Seq<UartStep> {
    seq![
        put(0, GPPUD),
        UartStep::Delay(GPIO_DELAY),
        put(3u32 << 14u32, GPPUDCLK0),
        UartStep::Delay(GPIO_DELAY),
        put(0, GPPUDCLK0),
        put(1, AUX_ENABLES),
        put(0, AUX_MU_CNTL_REG),
        put(0, AUX_MU_IER_REG),
        put(3, AUX_MU_LCR_REG),
        put(0, AUX_MU_MCR_REG),
        put(270, AUX_MU_BAUD_REG),
        UartStep::PinFunction(GPIOPin::GPIO14, GPIOPinFunction::AltFn5),
        UartStep::PinFunction(GPIOPin::GPIO15, GPIOPinFunction::AltFn5),
        put(3, AUX_MU_CNTL_REG),
    ]
}

fn write_step(value: u32, reg: usize) -> (r: UartStep)
    ensures
        r == put(value, reg),
{
    UartStep::Write(RegisterWrite { reg, value })
}

/// Enables UART1: returns the setup sequence to perform in order.
pub fn init() -> (r: Vec<UartStep>)
    ensures
        r@ == init_steps(),
{
    let mut v: Vec<UartStep> = Vec::new();
    v.push(write_step(0, GPPUD));
    v.push(UartStep::Delay(GPIO_DELAY));
    v.push(write_step(3u32 << 14u32, GPPUDCLK0));
    v.push(UartStep::Delay(GPIO_DELAY));
    v.push(write_step(0, GPPUDCLK0));
    v.push(write_step(1, AUX_ENABLES));
    v.push(write_step(0, AUX_MU_CNTL_REG));
    v.push(write_step(0, AUX_MU_IER_REG));
    v.push(write_step(3, AUX_MU_LCR_REG));
    v.push(write_step(0, AUX_MU_MCR_REG));
    v.push(write_step(270, AUX_MU_BAUD_REG));
    v.push(UartStep::PinFunction(GPIOPin::GPIO14, GPIOPinFunction::AltFn5));
    v.push(UartStep::PinFunction(GPIOPin::GPIO15, GPIOPinFunction::AltFn5));
    v.push(write_step(3, AUX_MU_CNTL_REG));
    assert(v@ =~= init_steps());
    v
}

/// Sends a byte to UART1 once the UART is ready: given the line status
/// register, the write of the byte to the I/O register when the transmitter
/// can accept it, `None` while the caller must keep polling.
pub fn send(c: u8, lsr: u32) -> (r: Option<RegisterWrite>)
    ensures
        r == (if lsr & LSR_TX_READY != 0 {
            Some(RegisterWrite { reg: AUX_MU_IO_REG, value: c as u32 })
        } else {
            None
        }),
{
    if lsr & LSR_TX_READY != 0 {
        Some(RegisterWrite { reg: AUX_MU_IO_REG, value: c as u32 })
    } else {
        None
    }
}

/// The writes sending the bytes of `s` in order, each made once the UART is
/// ready.
pub open spec fn byte_writes(s: Seq<u8>) -> Seq<RegisterWrite> {
    Seq::new(s.len(), |i: int| RegisterWrite { reg: AUX_MU_IO_REG, value: s[i] as u32 })
}

/// Sends an array of bytes: the I/O register writes, one per byte, in order.
pub fn send_bytes(s: &[u8]) -> (r: Vec<RegisterWrite>)
    ensures
        r@ == byte_writes(s@),
{
    let mut v: Vec<RegisterWrite> = Vec::new();
    let mut i: usize = 0;
    while i < s.len()
        invariant
            i <= s@.len(),
            v@ == byte_writes(s@.subrange(0, i as int)),
        decreases s@.len() - i,
    {
        v.push(RegisterWrite { reg: AUX_MU_IO_REG, value: s[i] as u32 });
        i += 1;
        assert(v@ =~= byte_writes(s@.subrange(0, i as int)));
    }
    assert(s@.subrange(0, s@.len() as int) =~= s@);
    v
}

/// Sends the UTF-8 bytes of a string.
pub fn send_string(s: &str) -> (r: Vec<RegisterWrite>)
    ensures
        r@ == byte_writes(s.spec_bytes()),
{
    send_bytes(s.as_bytes())
}

/// Receives a byte from UART1 once one has arrived: given the line status
/// register and the I/O register, the received byte, `None` while the caller
/// must keep polling.
pub fn recv(lsr: u32, io: u32) -> (r: Option<u8>)
    ensures
        r == (if lsr & LSR_RX_READY != 0 {
            Some((io & 0xff) as u8)
        } else {
            None
        }),
{
    if lsr & LSR_RX_READY != 0 {
        Some((io & 0xff) as u8)
    } else {
        None
    }
}

} // verus!
