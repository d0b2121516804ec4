//! Framebuffer set up through the VideoCore mailbox property channel.

use vstd::prelude::*;
use crate::peripherals::mailbox::{
    MAIL_SIZE, MBOX_REQUEST, MBOX_TAG_GETFB, MBOX_TAG_GETPITCH, MBOX_TAG_LAST, MBOX_TAG_SET,
    MBOX_TAG_SETDEPTH, MBOX_TAG_SETPHYWH, MBOX_TAG_SETPXLORDR, MBOX_TAG_SETVIRTOFF, MBOX_TAG_SETVIRTWH,
};

verus! {

pub const DEFAULT_WIDTH: u32 = 1920;
pub const DEFAULT_HEIGHT: u32 = 1080;

/// The properties of a framebuffer. `fb_addr` is the ARM address of the pixel
/// memory, 0 when there is no framebuffer.
#[derive(Copy, Clone, Debug, PartialEq, Eq, Structural)]
pub struct Framebuffer {
    pub fb_addr: usize,
    pub width: u32,
    pub height: u32,
    pub pitch: u32,
    pub isrgb: u32,
}

/// The message requesting a 1920x1080, 32-bit RGB framebuffer and its pitch:
/// the total size in bytes and request code, then one tag per property (tag,
/// value buffer size, request code, values), then the end tag.
pub open spec fn fb_request() -> Seq<u32> {
    seq![
        144u32, MBOX_REQUEST,
        MBOX_TAG_SETPHYWH, 8, MBOX_TAG_SET, DEFAULT_WIDTH, DEFAULT_HEIGHT,
        MBOX_TAG_SETVIRTWH, 8, MBOX_TAG_SET, DEFAULT_WIDTH, DEFAULT_HEIGHT,
        MBOX_TAG_SETVIRTOFF, 8, MBOX_TAG_SET, 0, 0,
        MBOX_TAG_SETDEPTH, 4, MBOX_TAG_SET, 32,
        MBOX_TAG_SETPXLORDR, 4, MBOX_TAG_SET, 1,
        MBOX_TAG_GETFB, 8, MBOX_TAG_SET, 4096, 0,
        MBOX_TAG_GETPITCH, 4, MBOX_TAG_SET, 0,
        MBOX_TAG_LAST, 0,
    ]
}

/// Writes the mailbox message requesting the default framebuffer into the
/// first 36 words of the message buffer, leaving the rest unchanged.
pub fn configure_properties(buf: &mut Vec<u32>)
    requires
        old(buf)@.len() == MAIL_SIZE,
    ensures
        final(buf)@ == fb_request() + old(buf)@.subrange(36, MAIL_SIZE as int),
{
    let ghost b0 = buf@;
    let req: [u32; 36] = [
        36 * 4, MBOX_REQUEST,
        MBOX_TAG_SETPHYWH, 8, MBOX_TAG_SET, DEFAULT_WIDTH, DEFAULT_HEIGHT,
        MBOX_TAG_SETVIRTWH, 8, MBOX_TAG_SET, DEFAULT_WIDTH, DEFAULT_HEIGHT,
        MBOX_TAG_SETVIRTOFF, 8, MBOX_TAG_SET, 0, 0,
        MBOX_TAG_SETDEPTH, 4, MBOX_TAG_SET, 32,
        MBOX_TAG_SETPXLORDR, 4, MBOX_TAG_SET, 1,
        MBOX_TAG_GETFB, 8, MBOX_TAG_SET, 4096, 0,
        MBOX_TAG_GETPITCH, 4, MBOX_TAG_SET, 0,
        MBOX_TAG_LAST, 0,
    ];
    assert(req@ =~= fb_request());
    let mut i: usize = 0;
    while i < 36
        invariant
            i <= 36,
            req@ == fb_request(),
            b0.len() == MAIL_SIZE,
            buf@.len() == MAIL_SIZE,
            forall|j: int| 0 <= j < i ==> #[trigger] buf@[j] == req@[j],
            forall|j: int| i <= j < MAIL_SIZE ==> #[trigger] buf@[j] == b0[j],
        decreases 36 - i,
    {
        buf.set(i, req[i]);
        i += 1;
    }
    assert(buf@ =~= fb_request() + b0.subrange(36, MAIL_SIZE as int));
}

/// Configures the framebuffer from the VideoCore's response: `None` unless
/// the response grants a 32-bit depth and a pixel memory address, which is
/// converted to an ARM address.
pub fn configure_fb(buf: &[u32]) -> (r: Option<Framebuffer>)
    requires
        buf@.len() == MAIL_SIZE,
    ensures
        r == (if buf@[20] != 32 || buf@[28] == 0 {
            None
        } else {
            Some(
                Framebuffer {
                    fb_addr: (buf@[28] & 0x3FFF_FFFFu32) as usize,
                    width: buf@[10],
                    height: buf@[11],
                    pitch: buf@[33],
                    isrgb: buf@[24],
                },
            )
        }),
{
    if buf[20] != 32 || buf[28] == 0 {
        return None;
    }
    Some(
        Framebuffer {
            fb_addr: (buf[28] & 0x3FFF_FFFF) as usize,
            width: buf[10],
            height: buf[11],
            pitch: buf[33],
            isrgb: buf[24],
        },
    )
}

} // verus!
