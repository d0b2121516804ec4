//! GPIO register computations (BCM2835, BCM2836, BCM2837 and BCM2711).
//!
//! The functions compute the register writes; performing them is left to the
//! caller.

use vstd::prelude::*;
use crate::peripherals::base::RegisterWrite;

verus! {

pub const GPFSEL0: usize = 0x00200000;
pub const GPFSEL1: usize = 0x00200004;
pub const GPFSEL2: usize = 0x00200008;
pub const GPFSEL3: usize = 0x0020000C;
pub const GPFSEL4: usize = 0x00200010;
pub const GPFSEL5: usize = 0x00200014;
pub const GPSET0: usize = 0x0020001C;
pub const GPSET1: usize = 0x00200020;
pub const GPCLR0: usize = 0x00200028;
pub const GPCLR1: usize = 0x0020002C;
pub const GPLEV0: usize = 0x00200034;
pub const GPLEV1: usize = 0x00200038;
pub const GPEDS0: usize = 0x00200040;
pub const GPEDS1: usize = 0x00200044;
pub const GPREN0: usize = 0x0020004C;
pub const GPREN1: usize = 0x00200050;
pub const GPFEN0: usize = 0x00200058;
pub const GPFEN1: usize = 0x0020005C;
pub const GPHEN0: usize = 0x00200064;
pub const GPHEN1: usize = 0x00200068;
pub const GPLEN0: usize = 0x00200070;
pub const GPLEN1: usize = 0x00200074;
pub const GPAREN0: usize = 0x0020007C;
pub const GPAREN1: usize = 0x00200080;
pub const GPAFEN0: usize = 0x00200088;
pub const GPAFEN1: usize = 0x0020008C;
pub const GPPUD: usize = 0x00200094;
pub const GPPUDCLK0: usize = 0x00200098;
pub const GPPUDCLK1: usize = 0x0020009C;

// BCM2711
pub const GPIO_PUP_PDN_CNTRL_REG0: usize = 0x002000E4;
pub const GPIO_PUP_PDN_CNTRL_REG1: usize = 0x002000E8;
pub const GPIO_PUP_PDN_CNTRL_REG2: usize = 0x002000EC;
pub const GPIO_PUP_PDN_CNTRL_REG3: usize = 0x002000F0;

/// Delay, in loop iterations, for pull-up/down changes to settle.
pub const GPIO_DELAY: u64 = 150;

/// GPIO pin identifiers.
#[derive(Copy, Clone, Debug, PartialEq, Eq, Structural)]
pub enum GPIOPin {
    GPIO0,
    GPIO1,
    GPIO2,
    GPIO3,
    GPIO4,
    GPIO5,
    GPIO6,
    GPIO7,
    GPIO8,
    GPIO9,
    GPIO10,
    GPIO11,
    GPIO12,
    GPIO13,
    GPIO14,
    GPIO15,
    GPIO16,
    GPIO17,
    GPIO18,
    GPIO19,
    GPIO20,
    GPIO21,
    GPIO22,
    GPIO23,
    GPIO24,
    GPIO25,
    GPIO26,
    GPIO27,
    GPIO28,
    GPIO29,
    GPIO30,
    GPIO31,
    GPIO32,
    GPIO33,
    GPIO34,
    GPIO35,
    GPIO36,
    GPIO37,
    GPIO38,
    GPIO39,
    GPIO40,
    GPIO41,
    GPIO42,
    GPIO43,
    GPIO44,
    GPIO45,
    GPIO46,
    GPIO47,
    GPIO48,
    GPIO49,
    GPIO50,
    GPIO51,
    GPIO52,
    GPIO53,
    GPIO54,
    GPIO55,
    GPIO56,
    GPIO57,
}

/// GPIO pin functions. Refer to the BCM283x and BCM2711 datasheets for the
/// alternate function assignments.
#[derive(Copy, Clone, Debug, PartialEq, Eq, Structural)]
pub enum GPIOPinFunction {
    Input,
    Output,
    AltFn0,
    AltFn1,
    AltFn2,
    AltFn3,
    AltFn4,
    AltFn5,
}

/// The number of a pin.
pub open spec fn pin_num(pin: GPIOPin) -> int {
    match pin {
        GPIOPin::GPIO0 => 0,
        GPIOPin::GPIO1 => 1,
        GPIOPin::GPIO2 => 2,
        GPIOPin::GPIO3 => 3,
        GPIOPin::GPIO4 => 4,
        GPIOPin::GPIO5 => 5,
        GPIOPin::GPIO6 => 6,
        GPIOPin::GPIO7 => 7,
        GPIOPin::GPIO8 => 8,
        GPIOPin::GPIO9 => 9,
        GPIOPin::GPIO10 => 10,
        GPIOPin::GPIO11 => 11,
        GPIOPin::GPIO12 => 12,
        GPIOPin::GPIO13 => 13,
        GPIOPin::GPIO14 => 14,
        GPIOPin::GPIO15 => 15,
        GPIOPin::GPIO16 => 16,
        GPIOPin::GPIO17 => 17,
        GPIOPin::GPIO18 => 18,
        GPIOPin::GPIO19 => 19,
        GPIOPin::GPIO20 => 20,
        GPIOPin::GPIO21 => 21,
        GPIOPin::GPIO22 => 22,
        GPIOPin::GPIO23 => 23,
        GPIOPin::GPIO24 => 24,
        GPIOPin::GPIO25 => 25,
        GPIOPin::GPIO26 => 26,
        GPIOPin::GPIO27 => 27,
        GPIOPin::GPIO28 => 28,
        GPIOPin::GPIO29 => 29,
        GPIOPin::GPIO30 => 30,
        GPIOPin::GPIO31 => 31,
        GPIOPin::GPIO32 => 32,
        GPIOPin::GPIO33 => 33,
        GPIOPin::GPIO34 => 34,
        GPIOPin::GPIO35 => 35,
        GPIOPin::GPIO36 => 36,
        GPIOPin::GPIO37 => 37,
        GPIOPin::GPIO38 => 38,
        GPIOPin::GPIO39 => 39,
        GPIOPin::GPIO40 => 40,
        GPIOPin::GPIO41 => 41,
        GPIOPin::GPIO42 => 42,
        GPIOPin::GPIO43 => 43,
        GPIOPin::GPIO44 => 44,
        GPIOPin::GPIO45 => 45,
        GPIOPin::GPIO46 => 46,
        GPIOPin::GPIO47 => 47,
        GPIOPin::GPIO48 => 48,
        GPIOPin::GPIO49 => 49,
        GPIOPin::GPIO50 => 50,
        GPIOPin::GPIO51 => 51,
        GPIOPin::GPIO52 => 52,
        GPIOPin::GPIO53 => 53,
        GPIOPin::GPIO54 => 54,
        GPIOPin::GPIO55 => 55,
        GPIOPin::GPIO56 => 56,
        GPIOPin::GPIO57 => 57,
    }
}

/// The 3-bit function select code of a pin function.
pub open spec fn function_code(func: GPIOPinFunction) -> u32 {
    match func {
        GPIOPinFunction::Input => 0,
        GPIOPinFunction::Output => 1,
        GPIOPinFunction::AltFn0 => 4,
        GPIOPinFunction::AltFn1 => 5,
        GPIOPinFunction::AltFn2 => 6,
        GPIOPinFunction::AltFn3 => 7,
        GPIOPinFunction::AltFn4 => 3,
        GPIOPinFunction::AltFn5 => 2,
    }
}

/// The number of a pin.
pub fn pin_number(pin: GPIOPin) -> (r: u32)
    ensures
        r == pin_num(pin),
        r < 58,
{
    match pin {
        GPIOPin::GPIO0 => 0,
        GPIOPin::GPIO1 => 1,
        GPIOPin::GPIO2 => 2,
        GPIOPin::GPIO3 => 3,
        GPIOPin::GPIO4 => 4,
        GPIOPin::GPIO5 => 5,
        GPIOPin::GPIO6 => 6,
        GPIOPin::GPIO7 => 7,
        GPIOPin::GPIO8 => 8,
        GPIOPin::GPIO9 => 9,
        GPIOPin::GPIO10 => 10,
        GPIOPin::GPIO11 => 11,
        GPIOPin::GPIO12 => 12,
        GPIOPin::GPIO13 => 13,
        GPIOPin::GPIO14 => 14,
        GPIOPin::GPIO15 => 15,
        GPIOPin::GPIO16 => 16,
        GPIOPin::GPIO17 => 17,
        GPIOPin::GPIO18 => 18,
        GPIOPin::GPIO19 => 19,
        GPIOPin::GPIO20 => 20,
        GPIOPin::GPIO21 => 21,
        GPIOPin::GPIO22 => 22,
        GPIOPin::GPIO23 => 23,
        GPIOPin::GPIO24 => 24,
        GPIOPin::GPIO25 => 25,
        GPIOPin::GPIO26 => 26,
        GPIOPin::GPIO27 => 27,
        GPIOPin::GPIO28 => 28,
        GPIOPin::GPIO29 => 29,
        GPIOPin::GPIO30 => 30,
        GPIOPin::GPIO31 => 31,
        GPIOPin::GPIO32 => 32,
        GPIOPin::GPIO33 => 33,
        GPIOPin::GPIO34 => 34,
        GPIOPin::GPIO35 => 35,
        GPIOPin::GPIO36 => 36,
        GPIOPin::GPIO37 => 37,
        GPIOPin::GPIO38 => 38,
        GPIOPin::GPIO39 => 39,
        GPIOPin::GPIO40 => 40,
        GPIOPin::GPIO41 => 41,
        GPIOPin::GPIO42 => 42,
        GPIOPin::GPIO43 => 43,
        GPIOPin::GPIO44 => 44,
        GPIOPin::GPIO45 => 45,
        GPIOPin::GPIO46 => 46,
        GPIOPin::GPIO47 => 47,
        GPIOPin::GPIO48 => 48,
        GPIOPin::GPIO49 => 49,
        GPIOPin::GPIO50 => 50,
        GPIOPin::GPIO51 => 51,
        GPIOPin::GPIO52 => 52,
        GPIOPin::GPIO53 => 53,
        GPIOPin::GPIO54 => 54,
        GPIOPin::GPIO55 => 55,
        GPIOPin::GPIO56 => 56,
        GPIOPin::GPIO57 => 57,
    }
}

/// The function select code of a pin function.
pub fn function_bits(func: GPIOPinFunction) -> (r: u32)
    ensures
        r == function_code(func),
        r < 8,
{
    match func {
        GPIOPinFunction::Input => 0,
        GPIOPinFunction::Output => 1,
        GPIOPinFunction::AltFn0 => 4,
        GPIOPinFunction::AltFn1 => 5,
        GPIOPinFunction::AltFn2 => 6,
        GPIOPinFunction::AltFn3 => 7,
        GPIOPinFunction::AltFn4 => 3,
        GPIOPinFunction::AltFn5 => 2,
    }
}

/// The function select register of a pin: GPFSEL0 to GPFSEL5, ten pins each.
pub open spec fn fsel_register(pin: GPIOPin) -> usize {
    (GPFSEL0 + 4 * (pin_num(pin) / 10)) as usize
}

/// The value of a function select register after assigning function `func`
/// to `pin`: the pin's 3-bit field replaced by the function's code.
pub open spec fn fsel_value(current: u32, pin: GPIOPin, func: GPIOPinFunction) -> u32 {
    let shift = ((pin_num(pin) % 10) * 3) as u32;
    (current & !(7u32 << shift)) | (function_code(func) << shift)
}

/// The function select register holding the function assignment of a pin.
pub fn function_select_register(pin: GPIOPin) -> (r: usize)
    ensures
        r == fsel_register(pin),
{
    let n = pin_number(pin);
    GPFSEL0 + 4 * ((n / 10) as usize)
}

/// Changes the function assignment for a GPIO pin: given the current value of
/// the pin's function select register, returns the write that assigns the new
/// function and leaves the other pins' fields unchanged.
pub fn set_pin_function(pin: GPIOPin, func: GPIOPinFunction, current: u32) -> (r: RegisterWrite)
    ensures
        r.reg == fsel_register(pin),
        r.value == fsel_value(current, pin, func),
{
    let pin_val = pin_number(pin);
    let shift = (pin_val % 10) * 3;
    let reg = function_select_register(pin);
    let mut val = current;
    val &= !(7u32 << shift);
    val |= function_bits(func) << shift;
    RegisterWrite { reg, value: val }
}

/// Writes a truth value to a GPIO pin: a 1 in the pin's bit of GPSET0/1 to
/// drive it high, or of GPCLR0/1 to drive it low.
pub fn write_to_pin(pin: GPIOPin, val: bool) -> (r: RegisterWrite)
    ensures
        r.reg == (if pin_num(pin) < 32 {
            if val {
                GPSET0
            } else {
                GPCLR0
            }
        } else if val {
            GPSET1
        } else {
            GPCLR1
        }),
        r.value == 1u32 << ((pin_num(pin) % 32) as u32),
{
    let pin_val = pin_number(pin);
    let shift = pin_val % 32;
    let reg = if pin_val / 32 == 0 {
        if val {
            GPSET0
        } else {
            GPCLR0
        }
    } else {
        if val {
            GPSET1
        } else {
            GPCLR1
        }
    };
    RegisterWrite { reg, value: 1u32 << shift }
}


/// The pin function that a 3-bit function select field denotes (BCM283x
/// datasheet, GPFSELn): 000 input, 001 output, 100 to 111 alternate
/// functions 0 to 3, 011 alternate function 4, 010 alternate function 5.
pub open spec fn function_of_field(field: u32) -> Option<GPIOPinFunction> {
    if field == 0b000 {
        Some(GPIOPinFunction::Input)
    } else if field == 0b001 {
        Some(GPIOPinFunction::Output)
    } else if field == 0b100 {
        Some(GPIOPinFunction::AltFn0)
    } else if field == 0b101 {
        Some(GPIOPinFunction::AltFn1)
    } else if field == 0b110 {
        Some(GPIOPinFunction::AltFn2)
    } else if field == 0b111 {
        Some(GPIOPinFunction::AltFn3)
    } else if field == 0b011 {
        Some(GPIOPinFunction::AltFn4)
    } else if field == 0b010 {
        Some(GPIOPinFunction::AltFn5)
    } else {
        None
    }
}

proof fn lemma_field_bits(current: u32, c: u32, s: u32, t: u32)
    by (bit_vector)
    requires
        c < 8,
        s <= 27,
        t <= 27,
        s % 3 == 0,
        t % 3 == 0,
    ensures
        (((current & !(7u32 << s)) | (c << s)) >> s) & 7u32 == c,
        t != s ==> (((current & !(7u32 << s)) | (c << s)) >> t) & 7u32 == (current >> t) & 7u32,
{
}

/// Assigning a function to a pin writes, in the pin's 3-bit field of its
/// function select register (field `n % 10` of register `n / 10` for pin
/// `n`), the field that denotes that function in the datasheet, and leaves
/// the other pins' fields as they were.
pub proof fn law_set_pin_function_field(pin: GPIOPin, func: GPIOPinFunction, current: u32)
    ensures
        fsel_register(pin) == GPFSEL0 + 4 * (pin_num(pin) / 10),
        function_of_field((fsel_value(current, pin, func) >> ((pin_num(pin) % 10) * 3) as u32) & 7u32) == Some(func),
        forall|q: u32|
            q < 10 && q != pin_num(pin) % 10 ==> (#[trigger] (fsel_value(current, pin, func) >> (3 * q))) & 7u32 == (
            current >> (3 * q)) & 7u32,
{
    let s = ((pin_num(pin) % 10) * 3) as u32;
    let c = function_code(func);
    lemma_field_bits(current, c, s, s);
    assert forall|q: u32| q < 10 && q != pin_num(pin) % 10 implies (#[trigger] (fsel_value(current, pin, func) >> (3
        * q))) & 7u32 == (current >> (3 * q)) & 7u32 by {
        lemma_field_bits(current, c, s, (3 * q) as u32);
    }
}

} // verus!
