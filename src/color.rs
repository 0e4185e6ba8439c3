//! The six colors a cell can have.
use vstd::prelude::*;

verus! {

/// Number of distinct colors.
pub const NUM_COLORS: u8 = 6;

/// A color, identified by its tag. Tags of the game's colors lie in `0..6`.
#[derive(Clone, Copy, PartialEq, Eq, Hash, Debug, Structural)]
pub struct Color {
    pub tag: u8,
}

/// The terminal text that shows a color: two spaces on its background.
pub open spec fn symbol_of(tag: u8) -> Seq<char> {
    if tag == 0 {
        "\u{1b}[41m  \u{1b}(B\u{1b}[m"@
    } else if tag == 1 {
        "\u{1b}[42m  \u{1b}(B\u{1b}[m"@
    } else if tag == 2 {
        "\u{1b}[43m  \u{1b}(B\u{1b}[m"@
    } else if tag == 3 {
        "\u{1b}[44m  \u{1b}(B\u{1b}[m"@
    } else if tag == 4 {
        "\u{1b}[45m  \u{1b}(B\u{1b}[m"@
    } else if tag == 5 {
        "\u{1b}[46m  \u{1b}(B\u{1b}[m"@
    } else {
        "X"@
    }
}

impl Color {
    pub fn new(tag: u8) -> (r: Color)
        ensures
            r.tag == tag,
    {
        Color { tag: tag }
    }

    /// Whether this is one of the game's six colors.
    pub open spec fn is_valid(&self) -> bool {
        self.tag < NUM_COLORS
    }

    /// The terminal text for this color: red, green, yellow, blue, magenta
    /// and cyan backgrounds for tags 0 to 5, and `X` for any other tag.
    pub fn symbol(&self) -> (r: &'static str)
        ensures
            r@ == symbol_of(self.tag),
    {
        match self.tag {
            0 => "\u{1b}[41m  \u{1b}(B\u{1b}[m",
            1 => "\u{1b}[42m  \u{1b}(B\u{1b}[m",
            2 => "\u{1b}[43m  \u{1b}(B\u{1b}[m",
            3 => "\u{1b}[44m  \u{1b}(B\u{1b}[m",
            4 => "\u{1b}[45m  \u{1b}(B\u{1b}[m",
            5 => "\u{1b}[46m  \u{1b}(B\u{1b}[m",
            _ => "X",
        }
    }
}

} // verus!
