//! UART1 console of the early kernel stub.
//!
//! The library computes the register operations; the caller performs them,
//! polling the line status register where the UART must be ready.

use vstd::prelude::*;
use vstd::string::StringSliceAdditionalSpecFns;
use crate::peripherals::base::RegisterWrite;
use crate::peripherals::gpio::{GPFSEL1, GPPUD, GPPUDCLK0};
use crate::peripherals::mini_uart::{
    byte_writes, put, send_bytes, UartStep, AUX_ENABLES, AUX_MU_BAUD_REG, AUX_MU_CNTL_REG,
    AUX_MU_IER_REG, AUX_MU_IO_REG, AUX_MU_LCR_REG, AUX_MU_MCR_REG, LSR_RX_READY, LSR_TX_READY,
};

verus! {

/// GPFSEL1 with GPIO14 and GPIO15 assigned Alternate Function 5 (code 2):
/// their 3-bit fields at bits 12 and 15 replaced.
pub open spec fn uart_selector(selector: u32) -> u32 {
    (((selector & !(7u32 << 12u32)) | (2u32 << 12u32)) & !(7u32 << 15u32)) | (2u32 << 15u32)
}

/// The UART1 setup sequence given the current value of GPFSEL1: assign GPIO14
/// and GPIO15 to UART1, disable their pull-up/down, then enable and configure
/// UART1 and enable TX and RX.
pub open spec fn uart_init_steps(selector: u32) -> Seq<UartStep> {
    seq![
        put(uart_selector(selector), GPFSEL1),
        put(0, GPPUD),
        UartStep::Delay(150),
        put(3u32 << 14u32, GPPUDCLK0),
        UartStep::Delay(150),
        put(0, GPPUDCLK0),
        put(1, AUX_ENABLES),
        put(0, AUX_MU_CNTL_REG),
        put(0, AUX_MU_IER_REG),
        put(3, AUX_MU_LCR_REG),
        put(0, AUX_MU_MCR_REG),
        put(270, AUX_MU_BAUD_REG),
        put(3, AUX_MU_CNTL_REG),
    ]
}

fn write_step(value: u32, reg: usize) -> (r: UartStep)
    ensures
        r == put(value, reg),
{
    UartStep::Write(RegisterWrite { reg, value })
}

/// Initializes UART1: given the current value of GPFSEL1, the setup sequence
/// to perform in order.
pub fn uart_init(selector: u32) -> (r: Vec<UartStep>)
    ensures
        r@ == uart_init_steps(selector),
{
    let mut sel = selector;
    sel &= !(7u32 << 12);
    sel |= 2u32 << 12;
    sel &= !(7u32 << 15);
    sel |= 2u32 << 15;
    let mut v: Vec<UartStep> = Vec::new();
    v.push(write_step(sel, GPFSEL1));
    v.push(write_step(0, GPPUD));
    v.push(UartStep::Delay(150));
    v.push(write_step(3u32 << 14u32, GPPUDCLK0));
    v.push(UartStep::Delay(150));
    v.push(write_step(0, GPPUDCLK0));
    v.push(write_step(1, AUX_ENABLES));
    v.push(write_step(0, AUX_MU_CNTL_REG));
    v.push(write_step(0, AUX_MU_IER_REG));
    v.push(write_step(3, AUX_MU_LCR_REG));
    v.push(write_step(0, AUX_MU_MCR_REG));
    v.push(write_step(270, AUX_MU_BAUD_REG));
    v.push(write_step(3, AUX_MU_CNTL_REG));
    assert(v@ =~= uart_init_steps(selector));
    v
}

/// Sends a byte to UART1 once the UART is ready: given the line status
/// register, the write of the byte when the transmitter can accept it, `None`
/// while the caller must keep polling.
pub fn uart_send(c: u8, lsr: u32) -> (r: Option<RegisterWrite>)
    ensures
        r == (if lsr & LSR_TX_READY != 0 {
            Some(RegisterWrite { reg: AUX_MU_IO_REG, value: c as u32 })
        } else {
            None
        }),
{
    if lsr & LSR_TX_READY != 0 {
        Some(RegisterWrite { reg: AUX_MU_IO_REG, value: c as u32 })
    } else {
        None
    }
}

/// Sends an array of bytes: the I/O register writes, one per byte, in order.
pub fn uart_send_bytes(s: &[u8]) -> (r: Vec<RegisterWrite>)
    ensures
        r@ == byte_writes(s@),
{
    send_bytes(s)
}

/// Sends the UTF-8 bytes of a string.
pub fn uart_send_string(s: &str) -> (r: Vec<RegisterWrite>)
    ensures
        r@ == byte_writes(s.spec_bytes()),
{
    uart_send_bytes(s.as_bytes())
}

/// Receives a byte from UART1 once one has arrived: given the line status
/// register and the I/O register, the received byte, `None` while the caller
/// must keep polling.
pub fn uart_recv(lsr: u32, io: u32) -> (r: Option<u8>)
    ensures
        r == (if lsr & LSR_RX_READY != 0 {
            Some((io & 0xff) as u8)
        } else {
            None
        }),
{
    if lsr & LSR_RX_READY != 0 {
        Some((io & 0xff) as u8)
    } else {
        None
    }
}

} // verus!
