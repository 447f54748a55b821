//! Text video devices.

use vstd::prelude::*;

use super::output_serial::OutputSerial;
use crate::kio::port::PortSpace;

verus! {

/// Represents single text color
#[allow(dead_code)]
#[derive(Debug, Copy, Clone, Eq, PartialEq, Structural)]
pub enum TextColor {
    Black,
    Blue,
    Green,
    Cyan,
    Red,
    Magenta,
    Brown,
    LightGray,
    DarkGray,
    LightBlue,
    LightGreen,
    LightCyan,
    LightRed,
    Pink,
    Yellow,
    White,
}

/// Represents foreground-background text color pair
#[derive(Debug, Copy, Clone, Eq, PartialEq, Structural)]
pub struct TextStyle {
    pub foreground: TextColor,
    pub background: TextColor,
}

/// Represents cursor position
#[derive(Debug, Copy, Clone, Eq, PartialEq, Structural)]
pub struct Cursor {
    pub row: usize,
    pub col: usize,
}

impl Cursor {
    /// Convenience shortcut
    #[inline(always)]
    pub fn new(row: usize, col: usize) -> (r: Cursor)
        ensures
            r == (Cursor { row, col }),
    {
        Cursor { row, col }
    }

    /// Convenience shortcut for `{ 0, 0 }` cursor position
    #[inline(always)]
    pub fn zero() -> (r: Cursor)
        ensures
            r == (Cursor { row: 0, col: 0 }),
    {
        Cursor::new(0, 0)
    }
}

pub trait TextVideo: OutputSerial {
    /// The cursor position that the device shows.
    spec fn spec_cursor(&self) -> Cursor;

    /// The text style that the device prints with.
    spec fn spec_style(&self) -> TextStyle;

    /// Whether the device can show the cursor at the position.
    spec fn holds(&self, cursor: Cursor) -> bool;

    /// Character width of video buffer
    fn width(&self) -> usize;

    /// Character height (number of visible lines) of video buffer
    fn height(&self) -> usize;

    /// Enables cursor
    ///
    /// Should do nothing if this operation is not supported. This function is expected to
    /// set cursor position to `{ 0, 0 }`.
    fn enable_cursor(&mut self, ports: &mut PortSpace)
        requires
            old(self).ready(),
        ensures
            final(self).ready(),
            final(self).spec_cursor() == (Cursor { row: 0, col: 0 }),
            final(self).spec_style() == old(self).spec_style(),
    ;

    /// Disables cursor
    ///
    /// Should do nothing if this operation is not supported.
    fn disable_cursor(&mut self, ports: &mut PortSpace)
        requires
            old(self).ready(),
        ensures
            final(self).ready(),
            final(self).spec_cursor() == old(self).spec_cursor(),
            final(self).spec_style() == old(self).spec_style(),
    ;

    /// Returns current cursor position
    ///
    /// Should always return `{ 0, 0 }` if cursor is not supported.
    fn cursor(&self) -> (r: Cursor)
        ensures
            r == self.spec_cursor(),
    ;

    /// Updates cursor position
    ///
    /// Should do nothing if this operation is not supported.
    fn set_cursor(&mut self, ports: &mut PortSpace, new_cursor: Cursor)
        requires
            old(self).ready(),
            old(self).holds(new_cursor),
        ensures
            final(self).ready(),
            final(self).spec_cursor() == new_cursor,
            final(self).spec_style() == old(self).spec_style(),
    ;

    /// Gets current text style
    fn current_style(&self) -> (r: TextStyle)
        requires
            self.ready(),
        ensures
            r == self.spec_style(),
    ;

    /// Sets current text style
    fn set_current_style(&mut self, new_style: TextStyle)
        requires
            old(self).ready(),
        ensures
            final(self).ready(),
            final(self).spec_style() == new_style,
            final(self).spec_cursor() == old(self).spec_cursor(),
    ;

    /// Clears buffer with current style
    fn clear(&mut self, ports: &mut PortSpace)
        requires
            old(self).ready(),
        ensures
            final(self).ready(),
            final(self).spec_cursor() == (Cursor { row: 0, col: 0 }),
            final(self).spec_style() == old(self).spec_style(),
    ;
}

} // verus!
