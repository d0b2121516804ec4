//! VideoCore mailbox.
//!
//! A request is a message buffer whose 16-byte aligned address is packed with
//! the channel number into the mailbox write register. The caller waits while
//! the mailbox is full, writes the packed address, then reads replies until
//! its own comes back.

use vstd::prelude::*;
use crate::peripherals::base::RegisterWrite;

verus! {

pub const MBOX_REQUEST: u32 = 0;

pub const MBOX_CH_POWER: u32 = 0;
pub const MBOX_CH_FB: u32 = 1;
pub const MBOX_CH_VUART: u32 = 2;
pub const MBOX_CH_VCHIQ: u32 = 3;
pub const MBOX_CH_LEDS: u32 = 4;
pub const MBOX_CH_BTNS: u32 = 5;
pub const MBOX_CH_TOUCH: u32 = 6;
pub const MBOX_CH_COUNT: u32 = 7;
pub const MBOX_CH_PROP: u32 = 8;

pub const MBOX_TAG_REQUEST: u32 = 0;
pub const MBOX_TAG_TEST: u32 = 4;
pub const MBOX_TAG_SET: u32 = 8;

pub const MBOX_TAG_GET_BOARD_MODEL: u32 = 0x10001;
pub const MBOX_TAG_GET_BOARD_REV: u32 = 0x10002;
pub const MBOX_TAG_GET_ARM_MEM: u32 = 0x10005;

pub const MBOX_TAG_SETPOWER: u32 = 0x28001;
pub const MBOX_TAG_SETCLKRATE: u32 = 0x38002;

pub const MBOX_TAG_SETPHYWH: u32 = 0x48003;
pub const MBOX_TAG_SETVIRTWH: u32 = 0x48004;
pub const MBOX_TAG_SETVIRTOFF: u32 = 0x48009;
pub const MBOX_TAG_SETDEPTH: u32 = 0x48005;
pub const MBOX_TAG_SETPXLORDR: u32 = 0x48006;
pub const MBOX_TAG_GETFB: u32 = 0x40001;
pub const MBOX_TAG_GETPITCH: u32 = 0x40008;

pub const MBOX_TAG_LAST: u32 = 0;

pub const VIDEOCORE_MBOX: usize = 0x0000B880;
pub const MBOX_READ: usize = 0x0000B880;
pub const MBOX_POLL: usize = 0x0000B890;
pub const MBOX_SENDER: usize = 0x0000B894;
pub const MBOX_STATUS: usize = 0x0000B898;
pub const MBOX_CONFIG: usize = 0x0000B89C;
pub const MBOX_WRITE: usize = 0x0000B8A0;

pub const MBOX_RESPONSE: u32 = 0x80000000;
pub const MBOX_FULL: u32 = 0x80000000;
pub const MBOX_EMPTY: u32 = 0x40000000;

/// Number of 32-bit words in a mailbox message buffer.
pub const MAIL_SIZE: usize = 128;

/// Packs the channel number into the buffer address for MBOX_WRITE. The
/// buffer address is 16-byte aligned so that its 4 least-significant bits are
/// 0; the VideoCore mailbox expects the channel number in those 4 bits.
pub fn pack_address_and_channel(buffer_addr: u32, channel: u32) -> (r: u32)
    ensures
        r == (buffer_addr & 0xfffffff0u32) | (channel & 0xfu32),
{
    (buffer_addr & 0xfffffff0) | (channel & 0xf)
}

/// Whether the status register shows a full mailbox (no request can be
/// written yet).
pub fn is_full(status: u32) -> (r: bool)
    ensures
        r == (status & MBOX_FULL != 0),
{
    status & MBOX_FULL != 0
}

/// Whether the status register shows an empty mailbox (no reply to read yet).
pub fn is_empty(status: u32) -> (r: bool)
    ensures
        r == (status & MBOX_EMPTY != 0),
{
    status & MBOX_EMPTY != 0
}

/// Sends a request to the GPU mailbox: the write of the packed buffer address
/// and channel to the write register, made once the mailbox is not full. The
/// request succeeds when a read of the read register returns the same packed
/// value; other replies are discarded.
pub fn send(channel: u32, buffer_addr: u32) -> (r: RegisterWrite)
    ensures
        r == (RegisterWrite { reg: MBOX_WRITE, value: (buffer_addr & 0xfffffff0u32) | (channel & 0xfu32) }),
{
    RegisterWrite { reg: MBOX_WRITE, value: pack_address_and_channel(buffer_addr, channel) }
}

/// Whether a value read from the read register is the reply to the request
/// with the packed value `packed`.
pub fn is_reply(read: u32, packed: u32) -> (r: bool)
    ensures
        r == (read == packed),
{
    read == packed
}

} // verus!
