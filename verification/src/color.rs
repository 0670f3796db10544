//! Colors of the VGA text buffer, and the packed color code the hardware
//! reads: background in the high four bits, foreground in the low four.

use vstd::prelude::*;

verus! {

/// The colors a character cell of the VGA text buffer can use.
#[derive(Debug, Clone, Copy, PartialEq, Eq, Structural)]
pub enum Color {
    Black,
    Blue,
    Green,
    Cyan,
    Red,
    Magenta,
    Brown,
    LightGray,
    DarkGray,
    LightBlue,
    LightGreen,
    LightCyan,
    LightRed,
    Pink,
    Yellow,
    White,
}

/// The hardware number of a color.
pub open spec fn color_num(c: Color) -> u8 {
    match c {
        Color::Black => 0,
        Color::Blue => 1,
        Color::Green => 2,
        Color::Cyan => 3,
        Color::Red => 4,
        Color::Magenta => 5,
        Color::Brown => 6,
        Color::LightGray => 7,
        Color::DarkGray => 8,
        Color::LightBlue => 9,
        Color::LightGreen => 10,
        Color::LightCyan => 11,
        Color::LightRed => 12,
        Color::Pink => 13,
        Color::Yellow => 14,
        Color::White => 15,
    }
}

impl Color {
    /// The hardware number of the color, as a plain value.
    pub fn number(self) -> (r: u8)
        ensures
            r == color_num(self),
    {
        match self {
            Color::Black => 0,
            Color::Blue => 1,
            Color::Green => 2,
            Color::Cyan => 3,
            Color::Red => 4,
            Color::Magenta => 5,
            Color::Brown => 6,
            Color::LightGray => 7,
            Color::DarkGray => 8,
            Color::LightBlue => 9,
            Color::LightGreen => 10,
            Color::LightCyan => 11,
            Color::LightRed => 12,
            Color::Pink => 13,
            Color::Yellow => 14,
            Color::White => 15,
        }
    }
}

/// A foreground and a background color packed into one byte.
#[derive(Debug, Clone, Copy, PartialEq, Eq, Structural)]
pub struct ColorCode {
    code: u8,
}

impl ColorCode {
    /// The packed byte.
    pub closed spec fn val(self) -> u8 {
        self.code
    }

    /// Pack a foreground and a background color: sixteen times the
    /// background number, plus the foreground number.
    pub fn new(foreground: Color, background: Color) -> (r: ColorCode)
        ensures
            r.val() == color_num(background) * 16 + color_num(foreground),
    {
        let fg = foreground.number();
        let bg = background.number();
        proof {
            assert(fg < 16 && bg < 16 ==> ((bg << 4) | fg) == bg * 16 + fg) by (bit_vector);
        }
        ColorCode { code: (bg << 4) | fg }
    }

    /// The packed byte, as a plain value.
    pub fn value(self) -> (r: u8)
        ensures
            r == self.val(),
    {
        self.code
    }
}

} // verus!
