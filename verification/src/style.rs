//! Colours and text styles.

use vstd::prelude::*;

verus! {

/// A colour as red, green and blue.
#[derive(Clone, Copy, PartialEq, Eq, Structural, Debug)]
pub struct Rgb {
    pub r: u8,
    pub g: u8,
    pub b: u8,
}

/// The mark of bold text.
pub const BOLD: u16 = 1;

/// The mark of dimmed text.
pub const DIM: u16 = 2;

/// The mark of italic text.
pub const ITALIC: u16 = 4;

/// What a piece of text changes of the cells under it.
#[derive(Clone, Copy, PartialEq, Eq, Structural, Debug)]
pub struct Style {
    /// The text colour, where it changes.
    pub fg: Option<Rgb>,
    /// The background colour, where it changes.
    pub bg: Option<Rgb>,
    /// The marks that are added, a bit each.
    pub marks: u16,
}

/// The colour with these parts.
pub open spec fn color(r: int, g: int, b: int) -> Rgb {
    Rgb { r: r as u8, g: g as u8, b: b as u8 }
}

/// The colour with these parts.
pub fn rgb(r: u8, g: u8, b: u8) -> (c: Rgb)
    ensures
        c == color(r as int, g as int, b as int),
{
    Rgb { r, g, b }
}

/// The style that changes nothing.
pub open spec fn bare() -> Style {
    Style { fg: None, bg: None, marks: 0 }
}

/// Text in the colour with these parts.
pub open spec fn ink(r: int, g: int, b: int) -> Style {
    Style { fg: Some(color(r, g, b)), bg: None, marks: 0 }
}

/// Text in the colour with these parts, with `marks` added.
pub open spec fn marked(r: int, g: int, b: int, marks: u16) -> Style {
    Style { fg: Some(color(r, g, b)), bg: None, marks }
}

impl Style {
    /// The style that changes nothing.
    pub fn plain() -> (s: Style)
        ensures
            s == bare(),
    {
        Style { fg: None, bg: None, marks: 0 }
    }

    /// Text in one colour.
    pub fn fg(r: u8, g: u8, b: u8) -> (s: Style)
        ensures
            s == ink(r as int, g as int, b as int),
    {
        Style { fg: Some(Rgb { r, g, b }), bg: None, marks: 0 }
    }

    /// Text in one colour with marks.
    pub fn with(r: u8, g: u8, b: u8, marks: u16) -> (s: Style)
        ensures
            s == marked(r as int, g as int, b as int, marks),
    {
        Style { fg: Some(Rgb { r, g, b }), bg: None, marks }
    }

    /// Text in the colour `c`.
    pub fn tint(c: Rgb) -> (s: Style)
        ensures
            s == (Style { fg: Some(c), bg: None, marks: 0 }),
    {
        Style { fg: Some(c), bg: None, marks: 0 }
    }

    /// The background `c`.
    pub fn ground(c: Rgb) -> (s: Style)
        ensures
            s == (Style { fg: None, bg: Some(c), marks: 0 }),
    {
        Style { fg: None, bg: Some(c), marks: 0 }
    }
}

} // verus!
