use colored::Colorize;
use vstd::prelude::*;
use vstd::string::StringExecFns;

use crate::text::{colored_text, decimal, decimal_text, lemma_decimal_no_escape, no_escape};

verus! {

/// A terminal colour for the diagnostic dump.
#[derive(Debug, Clone, Copy, PartialEq, Eq, Structural)]
pub enum Shade {
    BrightRed,
    Cyan,
    Green,
    Yellow,
    Red,
    Purple,
    Rgb(u8, u8, u8),
}

/// Relies on colored's `Colorize::color` and the `Display` of its
/// `ColoredString`: the text as it is when colouring is off, else the text
/// between the colour's start sequence (`compute_style`) and the reset
/// sequence. A text without an escape character is not altered inside.
#[verifier::external_body]
fn paint(text: &str, shade: Shade) -> (r: String)
    requires
        no_escape(text@),
    ensures
        colored_text(r@, text@),
{
    let color = match shade {
        Shade::BrightRed => colored::Color::BrightRed,
        Shade::Cyan => colored::Color::Cyan,
        Shade::Green => colored::Color::Green,
        Shade::Yellow => colored::Color::Yellow,
        Shade::Red => colored::Color::Red,
        Shade::Purple => colored::Color::Magenta,
        Shade::Rgb(r, g, b) => colored::Color::TrueColor { r, g, b },
    };
    format!("{}", text.color(color))
}

/// What a cell of the field holds.
#[derive(Debug, Clone, Copy, PartialEq, Eq, Structural)]
pub enum Tile {
    Mine,
    /// A safe cell with the given number of mines around it (never zero).
    MineNeighbor(u8),
    /// A safe cell with no mine around it.
    Empty,
}

/// The symbol a tile shows in the diagnostic dump.
pub open spec fn symbol(t: Tile) -> Seq<char> {
    match t {
        Tile::Mine => "*"@,
        Tile::MineNeighbor(v) => decimal(v as nat),
        Tile::Empty => " "@,
    }
}

/// `s` is how the dump shows tile `t`: its symbol, coloured except for an
/// empty tile.
pub open spec fn cell_text(t: Tile, s: Seq<char>) -> bool {
    match t {
        Tile::Empty => s == " "@,
        _ => colored_text(s, symbol(t)),
    }
}

impl Tile {
    pub fn is_a_mine(&self) -> (r: bool)
        ensures
            r == (*self == Tile::Mine),
    {
        match self {
            Tile::Mine => true,
            _ => false,
        }
    }

    /// One character cell of the diagnostic dump: `*` for a mine, the count
    /// for a numbered cell (each count in its own colour), a blank for an
    /// empty cell. Colour codes surround the symbol when the terminal takes
    /// them.
    pub fn console_output(&self) -> (r: String)
        ensures
            cell_text(*self, r@),
    {
        match self {
            Tile::Mine => {
                proof {
                    reveal_strlit("*");
                }
                paint("*", Shade::BrightRed)
            },
            Tile::MineNeighbor(v) => {
                let digits = decimal_text(*v as u64);
                proof {
                    lemma_decimal_no_escape(*v as nat);
                }
                let shade = match *v {
                    1 => Shade::Cyan,
                    2 => Shade::Green,
                    3 => Shade::Yellow,
                    4 => Shade::Rgb(255, 140, 0),
                    5 => Shade::Red,
                    _ => Shade::Purple,
                };
                paint(digits.as_str(), shade)
            },
            Tile::Empty => String::from_str(" "),
        }
    }
}

} // verus!
