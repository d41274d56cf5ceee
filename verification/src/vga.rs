//! Colours of the text console.

use vstd::prelude::*;

verus! {

/// Height of the text buffer in rows.
pub const BUFFER_HEIGHT: usize = 25;

/// Width of the text buffer in columns.
pub const BUFFER_WIDTH: usize = 80;

/// The sixteen colours of the text console.
#[derive(Clone, Copy, Debug, PartialEq, Eq, Structural)]
pub enum Colour {
    Black,
    Blue,
    Green,
    Cyan,
    Red,
    Magenta,
    Brown,
    LightGray,
    DarkGray,
    LightBlue,
    LightGreen,
    LightCyan,
    LightRed,
    Pink,
    Yellow,
    White,
}

impl Colour {
    /// The colour's number in an attribute byte.
    pub open spec fn spec_code(self) -> u8 {
        match self {
            Colour::Black => 0,
            Colour::Blue => 1,
            Colour::Green => 2,
            Colour::Cyan => 3,
            Colour::Red => 4,
            Colour::Magenta => 5,
            Colour::Brown => 6,
            Colour::LightGray => 7,
            Colour::DarkGray => 8,
            Colour::LightBlue => 9,
            Colour::LightGreen => 10,
            Colour::LightCyan => 11,
            Colour::LightRed => 12,
            Colour::Pink => 13,
            Colour::Yellow => 14,
            Colour::White => 15,
        }
    }

    /// The colour's number in an attribute byte.
    #[verifier::when_used_as_spec(spec_code)]
    pub fn code(self) -> (c: u8)
        ensures
            c == self.spec_code(),
            c < 16,
    {
        match self {
            Colour::Black => 0,
            Colour::Blue => 1,
            Colour::Green => 2,
            Colour::Cyan => 3,
            Colour::Red => 4,
            Colour::Magenta => 5,
            Colour::Brown => 6,
            Colour::LightGray => 7,
            Colour::DarkGray => 8,
            Colour::LightBlue => 9,
            Colour::LightGreen => 10,
            Colour::LightCyan => 11,
            Colour::LightRed => 12,
            Colour::Pink => 13,
            Colour::Yellow => 14,
            Colour::White => 15,
        }
    }
}

/// An attribute byte: the background colour in the high nibble, the
/// foreground colour in the low one.
#[derive(Clone, Copy, Debug, PartialEq, Eq, Structural)]
pub struct ColourCode(pub u8);

impl ColourCode {
    /// The attribute byte for text in `fg` on `bg`.
    pub fn new(fg: Colour, bg: Colour) -> (c: ColourCode)
        ensures
            c.0 == bg.spec_code() * 16 + fg.spec_code(),
            c.0 == (bg.spec_code() << 4) | fg.spec_code(),
    {
        let b = bg.code();
        let f = fg.code();
        assert(((b << 4) | f) == b * 16 + f) by (bit_vector)
            requires
                b < 16,
                f < 16,
        ;
        ColourCode((b << 4) | f)
    }
}

/// Index port of the display controller.
pub const CURSOR_INDEX_PORT: u16 = 0x3D4;

/// Data port of the display controller.
pub const CURSOR_DATA_PORT: u16 = 0x3D5;

/// The byte shown in place of one that cannot be printed.
pub const UNPRINTABLE: u8 = 0xfe;

/// The byte that is put on the screen for a byte of text: the byte itself
/// if it is a printable ASCII character or a newline, and a filled box
/// otherwise.
pub fn printable(byte: u8) -> (shown: u8)
    ensures
        shown == if (0x20 <= byte <= 0x7e) || byte == 0x0a {
            byte
        } else {
            UNPRINTABLE
        },
{
    if (0x20 <= byte && byte <= 0x7e) || byte == 0x0a {
        byte
    } else {
        UNPRINTABLE
    }
}

/// The port writes that move the cursor to column `x` of row `y`: the low
/// byte of the position `y * 80 + x` into register 15 of the display
/// controller, then the high byte into register 14.
pub fn cursor_writes(x: usize, y: usize) -> (writes: [(u16, u8); 4])
    requires
        x <= BUFFER_WIDTH,
        y < BUFFER_HEIGHT,
    ensures
        writes[0] == (CURSOR_INDEX_PORT, 0x0Fu8),
        writes[1].0 == CURSOR_DATA_PORT,
        writes[2] == (CURSOR_INDEX_PORT, 0x0Eu8),
        writes[3].0 == CURSOR_DATA_PORT,
        writes[1].1 as int + 256 * writes[3].1 as int == y * 80 + x,
{
    let pos: u16 = (y * BUFFER_WIDTH + x) as u16;
    assert((pos & 0xFF) < 256 && ((pos >> 8) & 0xFF) < 256 && (pos & 0xFF) == pos % 256 && ((pos >> 8) & 0xFF) == pos
        / 256) by (bit_vector);
    let low = (pos & 0xFF) as u8;
    let high = ((pos >> 8) & 0xFF) as u8;
    [(CURSOR_INDEX_PORT, 0x0F), (CURSOR_DATA_PORT, low), (CURSOR_INDEX_PORT, 0x0E), (CURSOR_DATA_PORT, high)]
}

} // verus!
