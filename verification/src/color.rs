use vstd::prelude::*;

verus! {

/// The colour shown at a cell, or asked of a terminal.
///
/// The playfield itself only ever writes `Black` (an empty cell) and `Rgb`
/// (a piece); the other values are there for callers that draw frames.
#[derive(Clone, Copy, Debug, PartialEq, Eq, Structural, Hash)]
pub enum Color {
    Reset,
    Black,
    DarkGrey,
    Red,
    DarkRed,
    Green,
    DarkGreen,
    Yellow,
    DarkYellow,
    Blue,
    DarkBlue,
    Magenta,
    DarkMagenta,
    Cyan,
    DarkCyan,
    White,
    Grey,
    Rgb { r: u8, g: u8, b: u8 },
    AnsiValue(u8),
}

} // verus!
