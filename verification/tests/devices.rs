use kernel::dev::output_serial::OutputSerial;
use kernel::dev::text_video::{Cursor, TextColor, TextStyle, TextVideo};
use kernel::drv::gfx::vga::text_buffer::{Color, ScreenChar, Style, VgaTextVideo};
use kernel::kio;
use kernel::kio::idt::{create_idt, register_interrupt, Handler, Idt};
use kernel::kio::pic;
use kernel::kio::port::{InOut, Port, PortSpace, PortWrite, UnsafePort};
use kernel::mem::heap::{align_up, AllocErr, KernelAlloc};

fn write(port: u16, value: u32) -> PortWrite {
    PortWrite { port, value }
}

#[test]
fn port_space_holds_last_written_value() {
    let mut ports = PortSpace::new();
    assert_eq!(ports.read(0x60), 0);
    ports.write(0x60, 0x1234_5678);
    ports.write(0xffff, 7);
    assert_eq!(ports.read(0x60), 0x1234_5678);
    assert_eq!(ports.read(0xffff), 7);
    assert_eq!(ports.writes(), &vec![write(0x60, 0x1234_5678), write(0xffff, 7)]);
}

#[test]
fn ports_read_and_write_values_of_their_width() {
    let mut ports = PortSpace::new();
    ports.write(0x60, 0x1234_5678);
    let byte: Port<u8> = Port::new(0x60);
    let half: UnsafePort<u16> = UnsafePort::new(0x60);
    let word: Port<u32> = Port::new(0x60);
    assert_eq!(byte.read(&ports), 0x78);
    assert_eq!(half.read(&ports), 0x5678);
    assert_eq!(word.read(&ports), 0x1234_5678);
    half.write(&mut ports, 0xabcd);
    assert_eq!(word.read(&ports), 0xabcd);
    assert_eq!(u8::port_in(&ports, 0x60), 0xcd);
    u32::port_out(&mut ports, 0x61, 0xffff_ffff);
    assert_eq!(u16::port_in(&ports, 0x61), 0xffff);
}

#[test]
fn scenario_pic_remap() {
    let mut ports = PortSpace::new();
    pic::init(&mut ports);
    assert_eq!(
        ports.writes(),
        &vec![
            write(0x20, 0x11),
            write(0x80, 0),
            write(0xA0, 0x11),
            write(0x80, 0),
            write(0x21, 0x20),
            write(0x80, 0),
            write(0xA1, 0x28),
            write(0x80, 0),
            write(0x21, 4),
            write(0x80, 0),
            write(0xA1, 2),
            write(0x80, 0),
            write(0x21, 1),
            write(0x80, 0),
            write(0xA1, 1),
            write(0x80, 0),
            write(0x21, 0),
            write(0x80, 0),
            write(0xA1, 0),
            write(0x80, 0),
        ]
    );
    let after_init = ports.writes().len();
    pic::mask(&mut ports, 33);
    assert_eq!(ports.read(0x21), 0b10);
    assert_eq!(ports.read(0xA1), 0);
    pic::mask(&mut ports, 47);
    assert_eq!(ports.read(0xA1), 0x80);
    pic::mask(&mut ports, 32);
    assert_eq!(ports.read(0x21), 0b11);
    pic::unmask(&mut ports, 33);
    assert_eq!(ports.read(0x21), 0b01);
    pic::unmask(&mut ports, 47);
    assert_eq!(ports.read(0xA1), 0);
    let before_eoi = ports.writes().len();
    assert_eq!(before_eoi, after_init + 5);
    pic::eoi(&mut ports, 33);
    assert_eq!(&ports.writes()[before_eoi..], &[write(0x20, 0x20)]);
    pic::eoi(&mut ports, 40);
    assert_eq!(&ports.writes()[before_eoi + 1..], &[write(0xA0, 0x20), write(0x20, 0x20)]);
}

#[test]
fn pic_vectors_and_lines() {
    assert!(!pic::valid_irq(31));
    assert!(pic::valid_irq(32));
    assert!(pic::valid_irq(47));
    assert!(!pic::valid_irq(48));
    let (_, line) = pic::get_data_port_and_irqline(39);
    assert_eq!(line, 7);
    let (_, line) = pic::get_data_port_and_irqline(40);
    assert_eq!(line, 0);
    let mut ports = PortSpace::new();
    pic::io_wait(&mut ports);
    assert_eq!(ports.writes(), &vec![write(0x80, 0)]);
}

#[test]
fn idt_has_the_kernels_handlers() {
    let idt = create_idt();
    let expect = |vector: u8, handler: Option<Handler>, stack: Option<u16>| {
        assert_eq!(idt.entry(vector).handler, handler, "vector {}", vector);
        assert_eq!(idt.entry(vector).stack_index, stack, "vector {}", vector);
    };
    expect(0, Some(Handler::DivideByZero), None);
    expect(1, None, None);
    expect(3, Some(Handler::Breakpoint), None);
    expect(4, Some(Handler::Overflow), None);
    expect(6, Some(Handler::InvalidOpcode), None);
    expect(8, Some(Handler::DoubleFault), Some(0));
    expect(14, Some(Handler::PageFault), Some(0));
    expect(18, Some(Handler::MachineCheck), Some(1));
    expect(31, None, None);
    expect(32, Some(Handler::Default), None);
    expect(255, Some(Handler::Default), None);
}

#[test]
fn idt_register_interrupt_overwrites_default() {
    let mut idt = create_idt();
    register_interrupt(&mut idt, 33, Handler::Registered(0xdead));
    assert_eq!(idt.entry(33).handler, Some(Handler::Registered(0xdead)));
    assert_eq!(idt.entry(32).handler, Some(Handler::Default));
    assert_eq!(idt.entry(34).handler, Some(Handler::Default));
    let empty = Idt::new();
    assert_eq!(empty.entry(0).handler, None);
}

#[test]
fn exception_names_and_fatality() {
    assert_eq!(Handler::DivideByZero.exception_name(), Some("DIVIDE BY ZERO"));
    assert_eq!(Handler::MachineCheck.exception_name(), Some("OOPS MACHINE CHECK"));
    assert_eq!(Handler::Default.exception_name(), None);
    assert!(!Handler::Breakpoint.is_fatal());
    assert!(Handler::DoubleFault.is_fatal());
    assert!(Handler::PageFault.is_fatal());
    assert!(!Handler::Registered(1).is_fatal());
}

#[test]
fn vga_put_byte_advances_and_wraps() {
    let mut ports = PortSpace::new();
    let mut video = VgaTextVideo::new();
    assert_eq!(video.width(), 80);
    assert_eq!(video.height(), 25);
    video.put_byte(&mut ports, b'A');
    assert_eq!(video.char_at(0, 0), ScreenChar { char: b'A', style: Style(0x07) });
    assert_eq!(video.cursor(), Cursor::new(0, 1));
    assert_eq!(
        ports.writes(),
        &vec![write(0x3d4, 0x0f), write(0x3d5, 1), write(0x3d4, 0x0e), write(0x3d5, 0)]
    );
    video.set_cursor(&mut ports, Cursor::new(3, 79));
    video.put_byte(&mut ports, b'Z');
    assert_eq!(video.char_at(3, 79).char, b'Z');
    assert_eq!(video.cursor(), Cursor::new(4, 0));
    video.put_byte(&mut ports, b'\n');
    assert_eq!(video.cursor(), Cursor::new(5, 0));
    // Position 5 * 80 = 400 = 0x190.
    let count = ports.writes().len();
    assert_eq!(&ports.writes()[count - 4..], &[
        write(0x3d4, 0x0f),
        write(0x3d5, 0x90),
        write(0x3d4, 0x0e),
        write(0x3d5, 0x01),
    ]);
}

#[test]
fn vga_scrolls_on_last_row() {
    let mut ports = PortSpace::new();
    let mut video = VgaTextVideo::new();
    video.put_str(&mut ports, "first\nsecond\n");
    video.set_cursor(&mut ports, Cursor::new(24, 0));
    video.put_str(&mut ports, "last");
    video.put_byte(&mut ports, b'\n');
    assert_eq!(video.cursor(), Cursor::new(24, 0));
    assert_eq!(video.char_at(0, 0).char, b's');
    assert_eq!(video.char_at(0, 5).char, b'd');
    assert_eq!(video.char_at(23, 0).char, b'l');
    assert_eq!(video.char_at(23, 3).char, b't');
    assert_eq!(video.char_at(24, 0), ScreenChar { char: 0, style: Style(0x07) });
    assert_eq!(video.char_at(24, 79), ScreenChar { char: 0, style: Style(0x07) });
}

#[test]
fn vga_clear_and_styles() {
    let mut ports = PortSpace::new();
    let mut video = VgaTextVideo::new();
    let style = TextStyle { foreground: TextColor::White, background: TextColor::Red };
    assert_eq!(
        video.current_style(),
        TextStyle { foreground: TextColor::LightGray, background: TextColor::Black }
    );
    video.put_str(&mut ports, "hello");
    video.set_current_style(style);
    assert_eq!(video.current_style(), style);
    video.put_byte(&mut ports, b'!');
    assert_eq!(video.char_at(0, 5), ScreenChar { char: b'!', style: Style(0x4f) });
    video.clear(&mut ports);
    assert_eq!(video.cursor(), Cursor::zero());
    assert_eq!(video.char_at(0, 0), ScreenChar { char: 0, style: Style(0x4f) });
    assert_eq!(video.char_at(24, 79), ScreenChar { char: 0, style: Style(0x4f) });
}

#[test]
fn vga_cursor_registers() {
    let mut ports = PortSpace::new();
    let mut video = VgaTextVideo::new();
    ports.write(0x3d5, 0xff);
    ports.write(0x3e0, 0xff);
    let before = ports.writes().len();
    video.enable_cursor(&mut ports);
    assert_eq!(&ports.writes()[before..], &[
        write(0x3d4, 0x0a),
        write(0x3d5, 0xc0 | 14),
        write(0x3d4, 0x0b),
        write(0x3d5, 0xe0 | 15),
    ]);
    let before = ports.writes().len();
    video.disable_cursor(&mut ports);
    assert_eq!(&ports.writes()[before..], &[write(0x3d4, 0x0a), write(0x3d5, 0x20)]);
}

#[test]
fn vga_colors_and_styles_round_trip() {
    let colors = [
        TextColor::Black,
        TextColor::Blue,
        TextColor::Green,
        TextColor::Cyan,
        TextColor::Red,
        TextColor::Magenta,
        TextColor::Brown,
        TextColor::LightGray,
        TextColor::DarkGray,
        TextColor::LightBlue,
        TextColor::LightGreen,
        TextColor::LightCyan,
        TextColor::LightRed,
        TextColor::Pink,
        TextColor::Yellow,
        TextColor::White,
    ];
    for (code, color) in colors.iter().enumerate() {
        assert_eq!(Color::from_text(*color), Color(code as u8));
        assert_eq!(Color(code as u8).to_text(), *color);
        assert_eq!(Color::from(*color), Color(code as u8));
        assert_eq!(TextColor::from(Color(code as u8)), *color);
    }
    let style = Style::new(Color(0xf), Color(0x4));
    assert_eq!(style, Style(0x4f));
    assert_eq!(style.foreground(), Color(0xf));
    assert_eq!(style.background(), Color(0x4));
    let text = TextStyle { foreground: TextColor::LightRed, background: TextColor::Black };
    assert_eq!(Style::from_text(text), Style(0x0c));
    assert_eq!(Style::from_text(text).to_text(), text);
    assert_eq!(Style::from(text), Style(0x0c));
    assert_eq!(TextStyle::from(Style(0x0c)), text);
    assert_eq!(TextStyle::from(Style(0x4f)).background, TextColor::Red);
}

#[test]
fn kio_early_init_and_styled_output() {
    let mut ports = PortSpace::new();
    let mut video = VgaTextVideo::new();
    kio::early_init(&mut video, &mut ports);
    assert_eq!(video.char_at(0, 0).char, b'e');
    assert_eq!(video.char_at(0, 18).char, b's');
    assert_eq!(video.cursor(), Cursor::new(1, 0));
    let red = TextStyle { foreground: TextColor::Red, background: TextColor::Black };
    kio::with_output_style(&mut video, &mut ports, red, |screen: &mut VgaTextVideo, space: &mut PortSpace| {
        kio::_print(screen, space, "PANIC");
    });
    assert_eq!(video.char_at(1, 0), ScreenChar { char: b'P', style: Style(0x04) });
    assert_eq!(
        video.current_style(),
        TextStyle { foreground: TextColor::LightGray, background: TextColor::Black }
    );
    kio::_print(&mut video, &mut ports, "x");
    assert_eq!(video.char_at(1, 5), ScreenChar { char: b'x', style: Style(0x07) });
}

#[test]
fn kernel_alloc_bumps_and_aligns() {
    let mut heap = KernelAlloc::new(0x1001, 0x2000);
    assert_eq!(heap.allocate(16, 8), Ok(0x1008));
    assert_eq!(heap.allocate(1, 1), Ok(0x1018));
    assert_eq!(heap.allocate(0x100, 0x100), Ok(0x1100));
    assert_eq!(heap.allocate(0xe00, 1), Ok(0x1200));
    assert_eq!(heap.allocate(1, 1), Err(AllocErr::Exhausted { size: 1, align: 1 }));
    assert_eq!(heap.allocate(0, 1), Ok(0x2000));
    heap.deallocate(0x1008, 16, 8);
    assert_eq!(heap.allocate(1, 1), Err(AllocErr::Exhausted { size: 1, align: 1 }));
}

#[test]
fn align_up_rounds_to_multiples() {
    assert_eq!(align_up(0, 8), Some(0));
    assert_eq!(align_up(1, 8), Some(8));
    assert_eq!(align_up(8, 8), Some(8));
    assert_eq!(align_up(9, 6), Some(12));
    assert_eq!(align_up(usize::MAX, 2), None);
    assert_eq!(align_up(usize::MAX - 1, 2), Some(usize::MAX - 1));
}
