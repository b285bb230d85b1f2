//! The diagnostic text writer.
//!
//! The running kernel writes character cells into a fixed hardware buffer;
//! here the writer owns its cell buffer outright, per-cell writes replace
//! the volatile stores, and the caller threads the writer through the boot
//! sequence instead of reaching a global behind a lock.

use vstd::prelude::*;

verus! {

/// Rows of the text buffer.
pub const BUFFER_HEIGHT: usize = 25;

/// Columns of the text buffer.
pub const BUFFER_WIDTH: usize = 80;

/// The sixteen text-mode colors.
#[derive(Debug, Clone, Copy, PartialEq, Eq, Structural)]
pub enum Color {
    Black,
    Blue,
    Green,
    Cyan,
    Red,
    Magenta,
    Brown,
    LightGrey,
    DarkGrey,
    LightBlue,
    LightGreen,
    LightCyan,
    LightRed,
    Pink,
    Yellow,
    White,
}

impl Color {
    /// The hardware code of the color.
    pub open spec fn code_spec(self) -> u8 {
        match self {
            Color::Black => 0,
            Color::Blue => 1,
            Color::Green => 2,
            Color::Cyan => 3,
            Color::Red => 4,
            Color::Magenta => 5,
            Color::Brown => 6,
            Color::LightGrey => 7,
            Color::DarkGrey => 8,
            Color::LightBlue => 9,
            Color::LightGreen => 10,
            Color::LightCyan => 11,
            Color::LightRed => 12,
            Color::Pink => 13,
            Color::Yellow => 14,
            Color::White => 15,
        }
    }

    /// The hardware code of the color.
    pub fn code(self) -> (r: u8)
        ensures
            r == self.code_spec(),
            r < 16,
    {
        match self {
            Color::Black => 0,
            Color::Blue => 1,
            Color::Green => 2,
            Color::Cyan => 3,
            Color::Red => 4,
            Color::Magenta => 5,
            Color::Brown => 6,
            Color::LightGrey => 7,
            Color::DarkGrey => 8,
            Color::LightBlue => 9,
            Color::LightGreen => 10,
            Color::LightCyan => 11,
            Color::LightRed => 12,
            Color::Pink => 13,
            Color::Yellow => 14,
            Color::White => 15,
        }
    }
}

/// One character cell: an ASCII byte and its color attribute.
#[derive(Debug, Clone, Copy, PartialEq, Eq, Structural)]
pub struct ScreenChar {
    pub ascii_char: u8,
    pub color: u8,
}

/// The packed foreground / background attribute byte.
pub fn color_code(fg: Color, bg: Color) -> (r: u8)
    ensures
        r == bg.code_spec() * 16 + fg.code_spec(),
{
    bg.code() * 16 + fg.code()
}

/// The text writer: a cursor column, the current colors, and the owned
/// cell buffer, written row-major with the newest line at the bottom.
pub struct Writer {
    pub column_pos: usize,
    pub fg_color: Color,
    pub bg_color: Color,
    pub buffer: Vec<ScreenChar>,
}

impl Writer {
    /// The buffer holds one cell per position, and the cursor is within
    /// the bottom row.
    pub closed spec fn wf(self) -> bool {
        self.buffer@.len() == BUFFER_HEIGHT * BUFFER_WIDTH && self.column_pos <= BUFFER_WIDTH
    }

    /// A blank screen with the given colors.
    pub fn new(fg: Color, bg: Color) -> (r: Writer)
        ensures
            r.wf(),
            r.column_pos == 0,
            r.fg_color == fg,
            r.bg_color == bg,
    {
        let blank = ScreenChar { ascii_char: 32u8, color: color_code(fg, bg) };
        let buffer = vec![blank; BUFFER_HEIGHT * BUFFER_WIDTH];
        Writer { column_pos: 0, fg_color: fg, bg_color: bg, buffer }
    }

    /// Blank the given row with the current colors.
    pub fn clear_row(&mut self, row: usize)
        requires
            old(self).wf(),
            row < BUFFER_HEIGHT,
        ensures
            final(self).wf(),
            final(self).column_pos == old(self).column_pos,
            final(self).fg_color == old(self).fg_color,
            final(self).bg_color == old(self).bg_color,
    {
        let blank = ScreenChar {
            ascii_char: 32u8,
            color: color_code(self.fg_color, self.bg_color),
        };
        let mut col: usize = 0;
        while col < BUFFER_WIDTH
            invariant
                self.wf(),
                self.column_pos == old(self).column_pos,
                self.fg_color == old(self).fg_color,
                self.bg_color == old(self).bg_color,
                row < BUFFER_HEIGHT,
                0 <= col <= BUFFER_WIDTH,
            decreases BUFFER_WIDTH - col,
        {
            proof {
                assert(0 <= row * BUFFER_WIDTH + col < BUFFER_HEIGHT * BUFFER_WIDTH)
                    by (nonlinear_arith)
                    requires
                        0 <= (row as int) < BUFFER_HEIGHT,
                        0 <= (col as int) < BUFFER_WIDTH,
                ;
            }
            let idx = row * BUFFER_WIDTH + col;
            self.buffer[idx] = blank;
            col = col + 1;
        }
    }

    /// Scroll: every row moves up by one, the bottom row is blanked, and
    /// the cursor returns to the first column.
    pub fn new_line(&mut self)
        requires
            old(self).wf(),
        ensures
            final(self).wf(),
            final(self).column_pos == 0,
            final(self).fg_color == old(self).fg_color,
            final(self).bg_color == old(self).bg_color,
    {
        let mut row: usize = 1;
        while row < BUFFER_HEIGHT
            invariant
                self.wf(),
                self.fg_color == old(self).fg_color,
                self.bg_color == old(self).bg_color,
                1 <= row <= BUFFER_HEIGHT,
            decreases BUFFER_HEIGHT - row,
        {
            let mut col: usize = 0;
            while col < BUFFER_WIDTH
                invariant
                    self.wf(),
                    self.fg_color == old(self).fg_color,
                    self.bg_color == old(self).bg_color,
                    1 <= row < BUFFER_HEIGHT,
                    0 <= col <= BUFFER_WIDTH,
                decreases BUFFER_WIDTH - col,
            {
                proof {
                    assert(0 <= row * BUFFER_WIDTH + col < BUFFER_HEIGHT * BUFFER_WIDTH
                        && 0 <= (row - 1) * BUFFER_WIDTH + col < BUFFER_HEIGHT * BUFFER_WIDTH)
                        by (nonlinear_arith)
                        requires
                            1 <= (row as int) < BUFFER_HEIGHT,
                            0 <= (col as int) < BUFFER_WIDTH,
                    ;
                }
                let character = self.buffer[row * BUFFER_WIDTH + col];
                let idx = (row - 1) * BUFFER_WIDTH + col;
                self.buffer[idx] = character;
                col = col + 1;
            }
            row = row + 1;
        }
        self.clear_row(BUFFER_HEIGHT - 1);
        self.column_pos = 0;
    }

    /// Write one byte: a newline scrolls, anything else lands in the
    /// bottom row at the cursor, wrapping when the row is full.
    pub fn write_byte(&mut self, byte: u8)
        requires
            old(self).wf(),
        ensures
            final(self).wf(),
            final(self).fg_color == old(self).fg_color,
            final(self).bg_color == old(self).bg_color,
            byte == 10 ==> final(self).column_pos == 0,
            byte != 10 && old(self).column_pos < BUFFER_WIDTH ==> final(self).column_pos == old(
                self,
            ).column_pos + 1,
    {
        if byte == 10u8 {
            self.new_line();
        } else {
            if self.column_pos >= BUFFER_WIDTH {
                self.new_line();
            }
            let row = BUFFER_HEIGHT - 1;
            let col = self.column_pos;
            proof {
                assert(0 <= row * BUFFER_WIDTH + col < BUFFER_HEIGHT * BUFFER_WIDTH)
                    by (nonlinear_arith)
                    requires
                        row == BUFFER_HEIGHT - 1,
                        0 <= (col as int) < BUFFER_WIDTH,
                ;
            }
            let color = color_code(self.fg_color, self.bg_color);
            let idx = row * BUFFER_WIDTH + col;
            self.buffer[idx] = ScreenChar { ascii_char: byte, color };
            self.column_pos = col + 1;
        }
    }

    /// Write every byte of the string in order.
    pub fn write_string(&mut self, s: &str)
        requires
            old(self).wf(),
        ensures
            final(self).wf(),
            final(self).fg_color == old(self).fg_color,
            final(self).bg_color == old(self).bg_color,
    {
        let bytes = s.as_bytes();
        let mut i: usize = 0;
        while i < bytes.len()
            invariant
                self.wf(),
                self.fg_color == old(self).fg_color,
                self.bg_color == old(self).bg_color,
                0 <= i <= bytes@.len(),
            decreases bytes@.len() - i,
        {
            self.write_byte(bytes[i]);
            i = i + 1;
        }
    }
}

/// Print a string with the writer's current colors.
pub fn print(writer: &mut Writer, s: &str)
    requires
        old(writer).wf(),
    ensures
        final(writer).wf(),
        final(writer).fg_color == old(writer).fg_color,
        final(writer).bg_color == old(writer).bg_color,
{
    writer.write_string(s);
}

/// Print a string in the given foreground color, which stays current.
pub fn print_color(writer: &mut Writer, color: Color, s: &str)
    requires
        old(writer).wf(),
    ensures
        final(writer).wf(),
        final(writer).fg_color == color,
{
    writer.fg_color = color;
    writer.write_string(s);
}

/// Change the foreground color.
pub fn fg_color(writer: &mut Writer, color: Color)
    requires
        old(writer).wf(),
    ensures
        final(writer).wf(),
        final(writer).fg_color == color,
        final(writer).bg_color == old(writer).bg_color,
{
    writer.fg_color = color;
}

/// Change the background color.
pub fn bg_color(writer: &mut Writer, color: Color)
    requires
        old(writer).wf(),
    ensures
        final(writer).wf(),
        final(writer).bg_color == color,
        final(writer).fg_color == old(writer).fg_color,
{
    writer.bg_color = color;
}

/// Blank the whole screen by scrolling every row out.
pub fn clear_screen(writer: &mut Writer)
    requires
        old(writer).wf(),
    ensures
        final(writer).wf(),
        final(writer).column_pos == 0,
{
    let mut i: usize = 0;
    while i < BUFFER_HEIGHT
        invariant
            writer.wf(),
        decreases BUFFER_HEIGHT - i,
    {
        writer.write_byte(10u8);
        i = i + 1;
    }
    writer.write_byte(10u8);
}

} // verus!
