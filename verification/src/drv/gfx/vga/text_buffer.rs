//! The VGA text buffer.
//!
//! I/O Ports of 6845: http://stanislavs.org/helppc/6845.html

use vstd::prelude::*;
use vstd::string::StringSliceAdditionalSpecFns;

use crate::dev::output_serial::OutputSerial;
use crate::dev::text_video::{Cursor, TextColor, TextStyle, TextVideo};
use crate::kio::port::{Port, PortSpace, PortWrite};

verus! {

pub const VGA_TEXT_BUFFER_ADDR: u64 = 0xb8000;

/// 6845 index register, selects which register [0-11h]
/// is to be accessed through port 3B5/3D5
pub const CMD_PORT: u16 = 0x3d4;

/// 6845 data register [0-11h] selected by port 3B4/3D4,
/// registers 0C-0F may be read.  If a read occurs without the
/// adapter installed, FFh is returned.
pub const DATA_PORT: u16 = 0x3d5;

/// The port that the end of the cursor's scan lines is read from.
pub const WAT_PORT: u16 = 0x3e0;

/// The height of VGA text buffer
pub const SCREEN_HEIGHT: usize = 25;

/// The width of VGA text buffer
pub const SCREEN_WIDTH: usize = 80;

/// The number of a text color as the VGA hardware knows it.
pub open spec fn color_code(color: TextColor) -> u8 {
    match color {
        TextColor::Black => 0,
        TextColor::Blue => 1,
        TextColor::Green => 2,
        TextColor::Cyan => 3,
        TextColor::Red => 4,
        TextColor::Magenta => 5,
        TextColor::Brown => 6,
        TextColor::LightGray => 7,
        TextColor::DarkGray => 8,
        TextColor::LightBlue => 9,
        TextColor::LightGreen => 10,
        TextColor::LightCyan => 11,
        TextColor::LightRed => 12,
        TextColor::Pink => 13,
        TextColor::Yellow => 14,
        TextColor::White => 15,
    }
}

/// The text color with the given number, taken modulo 16.
pub open spec fn color_of(code: u8) -> TextColor {
    let low = code % 16;
    if low == 0 {
        TextColor::Black
    } else if low == 1 {
        TextColor::Blue
    } else if low == 2 {
        TextColor::Green
    } else if low == 3 {
        TextColor::Cyan
    } else if low == 4 {
        TextColor::Red
    } else if low == 5 {
        TextColor::Magenta
    } else if low == 6 {
        TextColor::Brown
    } else if low == 7 {
        TextColor::LightGray
    } else if low == 8 {
        TextColor::DarkGray
    } else if low == 9 {
        TextColor::LightBlue
    } else if low == 10 {
        TextColor::LightGreen
    } else if low == 11 {
        TextColor::LightCyan
    } else if low == 12 {
        TextColor::LightRed
    } else if low == 13 {
        TextColor::Pink
    } else if low == 14 {
        TextColor::Yellow
    } else {
        TextColor::White
    }
}

/// Represents single VGA color
#[derive(Debug, Copy, Clone, Eq, PartialEq, Structural)]
pub struct Color(pub u8);

impl Color {
    /// The VGA color of a text color.
    pub fn from_text(color: TextColor) -> (r: Color)
        ensures
            r.0 == color_code(color),
            r.0 < 16,
    {
        match color {
            TextColor::Black => Color(0),
            TextColor::Blue => Color(1),
            TextColor::Green => Color(2),
            TextColor::Cyan => Color(3),
            TextColor::Red => Color(4),
            TextColor::Magenta => Color(5),
            TextColor::Brown => Color(6),
            TextColor::LightGray => Color(7),
            TextColor::DarkGray => Color(8),
            TextColor::LightBlue => Color(9),
            TextColor::LightGreen => Color(10),
            TextColor::LightCyan => Color(11),
            TextColor::LightRed => Color(12),
            TextColor::Pink => Color(13),
            TextColor::Yellow => Color(14),
            TextColor::White => Color(15),
        }
    }

    /// The text color of a VGA color.
    pub fn to_text(self) -> (r: TextColor)
        ensures
            r == color_of(self.0),
    {
        match self.0 % 16 {
            0 => TextColor::Black,
            1 => TextColor::Blue,
            2 => TextColor::Green,
            3 => TextColor::Cyan,
            4 => TextColor::Red,
            5 => TextColor::Magenta,
            6 => TextColor::Brown,
            7 => TextColor::LightGray,
            8 => TextColor::DarkGray,
            9 => TextColor::LightBlue,
            10 => TextColor::LightGreen,
            11 => TextColor::LightCyan,
            12 => TextColor::LightRed,
            13 => TextColor::Pink,
            14 => TextColor::Yellow,
            _ => TextColor::White,
        }
    }
}

impl From<TextColor> for Color {
    fn from(color: TextColor) -> (r: Color) {
        Color::from_text(color)
    }
}

impl vstd::std_specs::convert::FromSpecImpl<TextColor> for Color {
    open spec fn obeys_from_spec() -> bool {
        true
    }

    open spec fn from_spec(color: TextColor) -> Color {
        Color(color_code(color))
    }
}

impl From<Color> for TextColor {
    fn from(color: Color) -> (r: TextColor) {
        color.to_text()
    }
}

impl vstd::std_specs::convert::FromSpecImpl<Color> for TextColor {
    open spec fn obeys_from_spec() -> bool {
        true
    }

    open spec fn from_spec(color: Color) -> TextColor {
        color_of(color.0)
    }
}

/// The number of a color gives that color back.
pub proof fn lemma_color_round_trip(color: TextColor)
    ensures
        color_of(color_code(color)) == color,
{
}

/// Represents foreground-background VGA color pair
#[derive(Debug, Copy, Clone, Eq, PartialEq, Structural)]
pub struct Style(pub u8);

impl Style {
    /// The style byte of a pair of colors: the background in the upper four
    /// bits, the foreground in the lower four.
    pub open spec fn of(foreground: TextColor, background: TextColor) -> u8 {
        (color_code(background) * 16 + color_code(foreground)) as u8
    }

    /// Creates new VGA character style
    pub fn new(foreground: Color, background: Color) -> (r: Style)
        requires
            foreground.0 < 16,
            background.0 < 16,
        ensures
            r.0 == background.0 * 16 + foreground.0,
    {
        let high: u8 = background.0;
        let low: u8 = foreground.0;
        assert((high << 4) | low == high * 16 + low) by (bit_vector)
            requires
                high < 16,
                low < 16,
        ;
        Style((background.0) << 4 | (foreground.0))
    }

    /// Gets background color
    pub fn background(&self) -> (r: Color)
        ensures
            r.0 == self.0 / 16,
            r.0 < 16,
    {
        let raw: u8 = self.0;
        assert((raw & 0b11110000) >> 4 == raw / 16) by (bit_vector);
        Color((self.0 & 0b11110000) >> 4)
    }

    /// Gets foreground color
    pub fn foreground(&self) -> (r: Color)
        ensures
            r.0 == self.0 % 16,
            r.0 < 16,
    {
        let raw: u8 = self.0;
        assert(raw & 0b00001111 == raw % 16) by (bit_vector);
        Color(self.0 & 0b00001111)
    }

    /// The style of a text style.
    pub fn from_text(style: TextStyle) -> (r: Style)
        ensures
            r.0 == Self::of(style.foreground, style.background),
    {
        Style::new(Color::from_text(style.foreground), Color::from_text(style.background))
    }

    /// The text style of a style.
    pub fn to_text(self) -> (r: TextStyle)
        ensures
            r == (TextStyle {
                foreground: color_of(self.0 % 16),
                background: color_of(self.0 / 16),
            }),
    {
        TextStyle {
            foreground: self.foreground().to_text(),
            background: self.background().to_text(),
        }
    }
}

impl From<TextStyle> for Style {
    fn from(style: TextStyle) -> (r: Style) {
        Style::from_text(style)
    }
}

impl vstd::std_specs::convert::FromSpecImpl<TextStyle> for Style {
    open spec fn obeys_from_spec() -> bool {
        true
    }

    open spec fn from_spec(style: TextStyle) -> Style {
        Style(Style::of(style.foreground, style.background))
    }
}

impl From<Style> for TextStyle {
    fn from(style: Style) -> (r: TextStyle) {
        style.to_text()
    }
}

impl vstd::std_specs::convert::FromSpecImpl<Style> for TextStyle {
    open spec fn obeys_from_spec() -> bool {
        true
    }

    open spec fn from_spec(style: Style) -> TextStyle {
        TextStyle { foreground: color_of(style.0 % 16), background: color_of(style.0 / 16) }
    }
}

/// The style byte of a text style gives that text style back.
pub proof fn lemma_style_round_trip(style: TextStyle)
    ensures
        color_of(Style::of(style.foreground, style.background) % 16) == style.foreground,
        color_of(Style::of(style.foreground, style.background) / 16) == style.background,
{
}

/// Represents single, VGA styled character
#[derive(Debug, Copy, Clone, Eq, PartialEq, Structural)]
pub struct ScreenChar {
    /// ASCII character code
    pub char: u8,
    /// Character style
    pub style: Style,
}

/// The state of the text screen as a mathematical value.
pub struct ScreenState {
    /// The characters of the screen, row by row.
    pub chars: Seq<ScreenChar>,
    /// The style that characters are printed with.
    pub style: Style,
    /// Where the next character goes.
    pub cursor: Cursor,
}

impl ScreenState {
    /// The screen has 25 rows of 80 characters, and the cursor is on it.
    pub open spec fn wf(self) -> bool {
        &&& self.chars.len() == SCREEN_HEIGHT * SCREEN_WIDTH
        &&& self.cursor.row < SCREEN_HEIGHT
        &&& self.cursor.col < SCREEN_WIDTH
    }

    /// The character at a position.
    pub open spec fn at(self, row: int, col: int) -> ScreenChar {
        self.chars[row * 80 + col]
    }

    /// The character that fills cleared places: code zero in the current
    /// style.
    pub open spec fn blank(self) -> ScreenChar {
        ScreenChar { char: 0, style: self.style }
    }

    /// The screen after a line feed: the cursor goes to the start of the
    /// next row; on the last row the rows move up by one instead, and the
    /// last row is blanked.
    pub open spec fn newline(self) -> ScreenState {
        if self.cursor.row == SCREEN_HEIGHT - 1 {
            ScreenState {
                chars: Seq::new(
                    2000,
                    |i: int|
                        if i < 1920 {
                            self.chars[i + 80]
                        } else {
                            self.blank()
                        },
                ),
                style: self.style,
                cursor: Cursor { row: self.cursor.row, col: 0 },
            }
        } else {
            ScreenState {
                chars: self.chars,
                style: self.style,
                cursor: Cursor { row: (self.cursor.row + 1) as usize, col: 0 },
            }
        }
    }

    /// The screen after a byte has been printed: a line feed starts a new
    /// line; any other byte is put at the cursor in the current style, and
    /// the cursor moves right, or to a new line after the last column.
    pub open spec fn put_byte(self, byte: u8) -> ScreenState {
        if byte == 10 {
            self.newline()
        } else {
            let written = ScreenState {
                chars: self.chars.update(
                    self.cursor.row * 80 + self.cursor.col,
                    ScreenChar { char: byte, style: self.style },
                ),
                style: self.style,
                cursor: self.cursor,
            };
            if self.cursor.col == SCREEN_WIDTH - 1 {
                written.newline()
            } else {
                ScreenState {
                    chars: written.chars,
                    style: self.style,
                    cursor: Cursor { row: self.cursor.row, col: (self.cursor.col + 1) as usize },
                }
            }
        }
    }

    /// The screen after the bytes have been printed one after another.
    pub open spec fn put_bytes(self, bytes: Seq<u8>) -> ScreenState
        decreases bytes.len(),
    {
        if bytes.len() == 0 {
            self
        } else {
            self.put_bytes(bytes.drop_last()).put_byte(bytes.last())
        }
    }

    /// The screen with every place blanked and the cursor at the top left.
    pub open spec fn cleared(self) -> ScreenState {
        ScreenState {
            chars: Seq::new(2000, |i: int| self.blank()),
            style: self.style,
            cursor: Cursor { row: 0, col: 0 },
        }
    }
}

/// Printing keeps the screen in order.
pub proof fn lemma_put_byte_wf(state: ScreenState, byte: u8)
    requires
        state.wf(),
    ensures
        state.put_byte(byte).wf(),
        state.newline().wf(),
        state.put_byte(byte).style == state.style,
{
}

/// The writes that tell the hardware where the cursor is: the low byte of
/// its position, then the high byte.
pub open spec fn cursor_writes(cursor: Cursor) -> Seq<PortWrite> {
    let pos = cursor.row * 80 + cursor.col;
    seq![
        PortWrite { port: CMD_PORT, value: 0x0f },
        PortWrite { port: DATA_PORT, value: (pos % 256) as u32 },
        PortWrite { port: CMD_PORT, value: 0x0e },
        PortWrite { port: DATA_PORT, value: ((pos / 256) % 256) as u32 },
    ]
}

/// Represents console backed by VGA text memory
pub struct VgaTextVideo {
    current_style: Style,
    cursor: Cursor,
    buffer: Vec<ScreenChar>,
}

impl View for VgaTextVideo {
    type V = ScreenState;

    closed spec fn view(&self) -> ScreenState {
        ScreenState { chars: self.buffer@, style: self.current_style, cursor: self.cursor }
    }
}

impl VgaTextVideo {
    /// The text screen as it is before anything is printed: light gray on
    /// black, every place blank, the cursor at the top left.
    pub fn new() -> (r: VgaTextVideo)
        ensures
            r@.wf(),
            r@.style.0 == Style::of(TextColor::LightGray, TextColor::Black),
            r@.cursor == (Cursor { row: 0, col: 0 }),
            r@ == r@.cleared(),
    {
        let style = Style::new(Color(7), Color(0));
        let blank = ScreenChar { char: 0, style };
        let mut buffer: Vec<ScreenChar> = Vec::new();
        let mut i: usize = 0;
        while i < SCREEN_HEIGHT * SCREEN_WIDTH
            invariant
                i <= 2000,
                buffer@.len() == i,
                forall|k: int| 0 <= k < i ==> buffer@[k] == blank,
            decreases 2000 - i,
        {
            buffer.push(blank);
            i = i + 1;
        }
        let r = VgaTextVideo { current_style: style, cursor: Cursor::zero(), buffer };
        proof {
            assert(r@.chars =~= r@.cleared().chars);
        }
        r
    }

    /// The character at a position of the screen.
    pub fn char_at(&self, row: usize, col: usize) -> (r: ScreenChar)
        requires
            self@.wf(),
            row < SCREEN_HEIGHT,
            col < SCREEN_WIDTH,
        ensures
            r == self@.at(row as int, col as int),
    {
        self.buffer[row * SCREEN_WIDTH + col]
    }

    fn raw_put_byte(&mut self, char: u8)
        requires
            old(self)@.wf(),
        ensures
            final(self)@ == old(self)@.put_byte(char),
            final(self)@.wf(),
    {
        if char == 10 {
            self.newline();
        } else {
            let screen_char = ScreenChar { char, style: self.current_style };
            let mut cur = self.cursor;
            self.buffer.set(cur.row * SCREEN_WIDTH + cur.col, screen_char);
            if cur.col == SCREEN_WIDTH - 1 {
                self.newline()
            } else {
                cur.col += 1;
                self.cursor = cur;
            }
        }
    }

    fn newline(&mut self)
        requires
            old(self)@.wf(),
        ensures
            final(self)@ == old(self)@.newline(),
            final(self)@.wf(),
    {
        let mut cur = self.cursor;
        if cur.row == SCREEN_HEIGHT - 1 {
            let ghost before = self.buffer@;
            let mut index: usize = 0;
            while index < (SCREEN_HEIGHT - 1) * SCREEN_WIDTH
                invariant
                    index <= 1920,
                    self.buffer@.len() == 2000,
                    before.len() == 2000,
                    self.cursor == old(self).cursor,
                    self.current_style == old(self).current_style,
                    forall|k: int| 0 <= k < index ==> self.buffer@[k] == before[k + 80],
                    forall|k: int| index <= k < 2000 ==> self.buffer@[k] == before[k],
                decreases 1920 - index,
            {
                let ch = self.buffer[index + SCREEN_WIDTH];
                self.buffer.set(index, ch);
                index = index + 1;
            }
            let blank = ScreenChar { char: 0, style: self.current_style };
            while index < SCREEN_HEIGHT * SCREEN_WIDTH
                invariant
                    1920 <= index <= 2000,
                    self.buffer@.len() == 2000,
                    before.len() == 2000,
                    self.cursor == old(self).cursor,
                    self.current_style == old(self).current_style,
                    blank == (ScreenChar { char: 0, style: self.current_style }),
                    forall|k: int| 0 <= k < 1920 ==> self.buffer@[k] == before[k + 80],
                    forall|k: int| 1920 <= k < index ==> self.buffer@[k] == blank,
                decreases 2000 - index,
            {
                self.buffer.set(index, blank);
                index = index + 1;
            }
            cur.col = 0;
            self.cursor = cur;
            proof {
                assert(self@.chars =~= old(self)@.newline().chars);
            }
        } else {
            cur.row += 1;
            cur.col = 0;
            self.cursor = cur;
        }
    }

    fn update_cursor(&mut self, ports: &mut PortSpace)
        requires
            old(self)@.wf(),
        ensures
            final(self)@ == old(self)@,
            final(ports)@.writes == old(ports)@.writes + cursor_writes(old(self)@.cursor),
    {
        let pos: u16 = (self.cursor.row * SCREEN_WIDTH + self.cursor.col) as u16;
        let command: Port<u8> = Port::new(CMD_PORT);
        let data: Port<u8> = Port::new(DATA_PORT);
        assert(pos & 0xff == pos % 256 && (pos >> 8) & 0xff == (pos / 256) % 256) by (bit_vector);
        // Select "Cursor address (LSB)" register
        command.write(ports, 0x0f);
        // Write least significant byte of cursor position
        data.write(ports, (pos & 0xff) as u8);
        // Select "Cursor address (MSB) register
        command.write(ports, 0x0e);
        // Write most significant byte of cursor position
        data.write(ports, ((pos >> 8) & 0xff) as u8);
        proof {
            assert(ports@.writes =~= old(ports)@.writes + cursor_writes(old(self)@.cursor));
        }
    }
}

impl OutputSerial for VgaTextVideo {
    open spec fn ready(&self) -> bool {
        self@.wf()
    }

    /// Prints the byte and tells the hardware where the cursor is.
    fn put_byte(&mut self, ports: &mut PortSpace, char: u8)
        ensures
            final(self)@ == old(self)@.put_byte(char),
            final(ports)@.writes == old(ports)@.writes + cursor_writes(final(self)@.cursor),
    {
        self.raw_put_byte(char);
        self.update_cursor(ports)
    }

    /// Prints the bytes of the string, then tells the hardware where the
    /// cursor is.
    fn put_str(&mut self, ports: &mut PortSpace, s: &str)
        ensures
            final(self)@ == old(self)@.put_bytes(s.spec_bytes()),
            final(ports)@.writes == old(ports)@.writes + cursor_writes(final(self)@.cursor),
    {
        let bytes = s.as_bytes();
        let mut i: usize = 0;
        while i < bytes.len()
            invariant
                i <= bytes@.len(),
                self@.wf(),
                self@ == old(self)@.put_bytes(bytes@.subrange(0, i as int)),
            decreases bytes@.len() - i,
        {
            let ghost before = self@;
            self.raw_put_byte(bytes[i]);
            proof {
                let next = bytes@.subrange(0, i as int + 1);
                assert(next.drop_last() =~= bytes@.subrange(0, i as int));
                assert(next.last() == bytes@[i as int]);
            }
            i = i + 1;
        }
        proof {
            assert(bytes@.subrange(0, bytes@.len() as int) =~= bytes@);
        }
        self.update_cursor(ports)
    }
}

impl TextVideo for VgaTextVideo {
    open spec fn spec_cursor(&self) -> Cursor {
        self@.cursor
    }

    open spec fn spec_style(&self) -> TextStyle {
        TextStyle {
            foreground: color_of(self@.style.0 % 16),
            background: color_of(self@.style.0 / 16),
        }
    }

    open spec fn holds(&self, cursor: Cursor) -> bool {
        cursor.row < SCREEN_HEIGHT && cursor.col < SCREEN_WIDTH
    }

    fn width(&self) -> (r: usize)
        ensures
            r == SCREEN_WIDTH,
    {
        SCREEN_WIDTH
    }

    fn height(&self) -> (r: usize)
        ensures
            r == SCREEN_HEIGHT,
    {
        SCREEN_HEIGHT
    }

    /// Puts the cursor at the top left and makes the hardware show it: the
    /// cursor's scan lines go from 14 to 15, the upper bits of the two
    /// registers staying as they are read.
    fn enable_cursor(&mut self, ports: &mut PortSpace)
        ensures
            final(self)@.chars == old(self)@.chars,
            final(ports)@.writes == old(ports)@.writes.push(
                PortWrite { port: CMD_PORT, value: 0x0a },
            ).push(
                PortWrite {
                    port: DATA_PORT,
                    value: (((old(ports)@.value(DATA_PORT) % 0x100) as u8 & 0xc0) | 14) as u32,
                },
            ).push(PortWrite { port: CMD_PORT, value: 0x0b }).push(
                PortWrite {
                    port: DATA_PORT,
                    value: (((old(ports)@.value(WAT_PORT) % 0x100) as u8 & 0xe0) | 15) as u32,
                },
            ),
    {
        self.cursor = Cursor::zero();
        let command: Port<u8> = Port::new(CMD_PORT);
        let data: Port<u8> = Port::new(DATA_PORT);
        let wat: Port<u8> = Port::new(WAT_PORT);
        // Select "Cursor start (scan line)" register
        command.write(ports, 0x0a);
        let scan_line_start: u8 = (data.read(ports) & 0xc0) | 14;
        data.write(ports, scan_line_start);
        // Select "Cursor end (scan line)" register
        command.write(ports, 0x0b);
        let scan_line_end: u8 = (wat.read(ports) & 0xe0) | 15;
        data.write(ports, scan_line_end);
    }

    /// Makes the hardware hide the cursor.
    fn disable_cursor(&mut self, ports: &mut PortSpace)
        ensures
            final(self)@ == old(self)@,
            final(ports)@.writes == old(ports)@.writes.push(
                PortWrite { port: CMD_PORT, value: 0x0a },
            ).push(PortWrite { port: DATA_PORT, value: 0x20 }),
    {
        let command: Port<u8> = Port::new(CMD_PORT);
        let data: Port<u8> = Port::new(DATA_PORT);
        // Select "Cursor start (scan line)" register
        command.write(ports, 0x0a);
        // Disable cursor (bit 5)
        data.write(ports, 0b0010_0000);
    }

    fn cursor(&self) -> Cursor {
        self.cursor
    }

    fn set_cursor(&mut self, ports: &mut PortSpace, new_cursor: Cursor)
        ensures
            final(self)@.chars == old(self)@.chars,
            final(ports)@.writes == old(ports)@.writes + cursor_writes(new_cursor),
    {
        self.cursor = new_cursor;
        self.update_cursor(ports);
    }

    fn current_style(&self) -> TextStyle {
        self.current_style.to_text()
    }

    fn set_current_style(&mut self, new_style: TextStyle)
        ensures
            final(self)@.chars == old(self)@.chars,
            final(self)@.style.0 == Style::of(new_style.foreground, new_style.background),
    {
        proof {
            lemma_style_round_trip(new_style);
        }
        self.current_style = Style::from_text(new_style)
    }

    /// Blanks every place in the current style and puts the cursor at the
    /// top left.
    fn clear(&mut self, ports: &mut PortSpace)
        ensures
            final(self)@ == old(self)@.cleared(),
            final(ports)@.writes == old(ports)@.writes + cursor_writes(Cursor { row: 0, col: 0 }),
    {
        let blank = ScreenChar { char: 0, style: self.current_style };
        let mut index: usize = 0;
        while index < SCREEN_HEIGHT * SCREEN_WIDTH
            invariant
                index <= 2000,
                self.buffer@.len() == 2000,
                self.cursor == old(self).cursor,
                self.current_style == old(self).current_style,
                blank == (ScreenChar { char: 0, style: self.current_style }),
                forall|k: int| 0 <= k < index ==> self.buffer@[k] == blank,
            decreases 2000 - index,
        {
            self.buffer.set(index, blank);
            index = index + 1;
        }
        self.set_cursor(ports, Cursor::zero());
        proof {
            assert(self@.chars =~= old(self)@.cleared().chars);
        }
    }
}

} // verus!
