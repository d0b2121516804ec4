use ros_kernel::drivers::framebuffer::{configure_fb, configure_properties, Framebuffer};
use ros_kernel::early::mini_uart::{uart_init, uart_send, uart_send_bytes, uart_send_string};
use ros_kernel::peripherals::base::RegisterWrite;
use ros_kernel::peripherals::gpio::{self, GPIOPin, GPIOPinFunction};
use ros_kernel::peripherals::mailbox;
use ros_kernel::peripherals::mini_uart::{self, UartStep};

#[test]
fn gpio_function_select() {
    let w = gpio::set_pin_function(GPIOPin::GPIO14, GPIOPinFunction::AltFn5, 0);
    assert_eq!(w, RegisterWrite { reg: gpio::GPFSEL1, value: 2 << 12 });
    // The pin's whole 3-bit field is replaced; other pins are kept.
    let w = gpio::set_pin_function(GPIOPin::GPIO15, GPIOPinFunction::Input, 0xffff_ffff);
    assert_eq!(w.value, 0xffff_ffff & !(7 << 15));
    let w = gpio::set_pin_function(GPIOPin::GPIO57, GPIOPinFunction::AltFn0, 0);
    assert_eq!(w, RegisterWrite { reg: gpio::GPFSEL5, value: 4 << 21 });
}

#[test]
fn gpio_write() {
    assert_eq!(gpio::write_to_pin(GPIOPin::GPIO47, true), RegisterWrite { reg: gpio::GPSET1, value: 1 << 15 });
    assert_eq!(gpio::write_to_pin(GPIOPin::GPIO3, false), RegisterWrite { reg: gpio::GPCLR0, value: 1 << 3 });
}

#[test]
fn uart_setup_and_send() {
    let steps = mini_uart::init();
    assert_eq!(steps.len(), 14);
    assert_eq!(steps[0], UartStep::Write(RegisterWrite { reg: gpio::GPPUD, value: 0 }));
    assert_eq!(steps[1], UartStep::Delay(150));
    assert_eq!(steps[10], UartStep::Write(RegisterWrite { reg: mini_uart::AUX_MU_BAUD_REG, value: 270 }));
    assert_eq!(steps[11], UartStep::PinFunction(GPIOPin::GPIO14, GPIOPinFunction::AltFn5));
    assert_eq!(mini_uart::send(b'a', 0x20), Some(RegisterWrite { reg: mini_uart::AUX_MU_IO_REG, value: 97 }));
    assert_eq!(mini_uart::send(b'a', 0x1f), None);
    assert_eq!(mini_uart::recv(1, 0x1_41), Some(0x41));
    assert_eq!(mini_uart::recv(0, 0x41), None);
    let w = mini_uart::send_string("hi");
    assert_eq!(w.len(), 2);
    assert_eq!(w[1].value, b'i' as u32);
    assert_eq!(mini_uart::send_bytes(&[1, 2, 3]).len(), 3);
}

#[test]
fn early_uart() {
    let steps = uart_init(0xffff_ffff);
    assert_eq!(steps.len(), 13);
    let expected = (0xffff_ffffu32 & !(7 << 12) & !(7 << 15)) | (2 << 12) | (2 << 15);
    assert_eq!(steps[0], UartStep::Write(RegisterWrite { reg: gpio::GPFSEL1, value: expected }));
    assert_eq!(uart_send(b'x', 0x20).unwrap().value, b'x' as u32);
    assert_eq!(uart_send(b'x', 0), None);
    assert_eq!(uart_send_bytes(b"abc").len(), 3);
    assert_eq!(uart_send_string("=== ROS ===\n").len(), 12);
}

#[test]
fn mailbox_packing() {
    assert_eq!(mailbox::pack_address_and_channel(0x1234_5678, 8), 0x1234_5678);
    assert_eq!(mailbox::pack_address_and_channel(0x1234_5670, 0x18), 0x1234_5678);
    assert_eq!(mailbox::send(8, 0x1000), RegisterWrite { reg: mailbox::MBOX_WRITE, value: 0x1008 });
    assert!(mailbox::is_full(0x8000_0000));
    assert!(!mailbox::is_full(0x4000_0000));
    assert!(mailbox::is_empty(0x4000_0000));
    assert!(mailbox::is_reply(0x1008, 0x1008));
}

#[test]
fn framebuffer_request_and_response() {
    let mut buf = vec![0xaau32; mailbox::MAIL_SIZE];
    configure_properties(&mut buf);
    assert_eq!(buf[0], 144);
    assert_eq!(buf[2], mailbox::MBOX_TAG_SETPHYWH);
    assert_eq!((buf[5], buf[6]), (1920, 1080));
    assert_eq!(buf[20], 32);
    assert_eq!(buf[28], 4096);
    assert_eq!(buf[35], 0);
    assert_eq!(buf[36], 0xaa);
    assert_eq!(
        configure_fb(&buf),
        Some(Framebuffer { fb_addr: 4096, width: 1920, height: 1080, pitch: 0, isrgb: 1 })
    );
    buf[28] = 0;
    assert_eq!(configure_fb(&buf), None);
    buf[28] = 0xfe00_0000;
    buf[33] = 7680;
    assert_eq!(
        configure_fb(&buf),
        Some(Framebuffer { fb_addr: 0x3e00_0000, width: 1920, height: 1080, pitch: 7680, isrgb: 1 })
    );
    buf[20] = 16;
    assert_eq!(configure_fb(&buf), None);
}
