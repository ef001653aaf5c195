//! The kinds a generated grid cell can take, and their console rendering.

use colored::Colorize;
use vstd::prelude::*;

verus! {

/// One cell of a generated grid: a bomb, a numbered bomb neighbor, or an
/// empty cell (no bomb among its 8 neighbors).
#[derive(Debug, Copy, Clone, Eq, PartialEq, Structural)]
pub enum Tile {
    /// Is a bomb
    Bomb,
    /// Is a bomb neighbor; the payload counts the bombs among the cell's
    /// in-bounds 8-neighbors and is therefore between 1 and 8
    BombNeighbor(u8),
    /// Empty tile: no bomb among the in-bounds 8-neighbors
    Empty,
}

/// The digit character for a neighbor count between 1 and 8.
pub open spec fn digit_char(v: u8) -> char {
    if v == 1 {
        '1'
    } else if v == 2 {
        '2'
    } else if v == 3 {
        '3'
    } else if v == 4 {
        '4'
    } else if v == 5 {
        '5'
    } else if v == 6 {
        '6'
    } else if v == 7 {
        '7'
    } else {
        '8'
    }
}

impl Tile {
    /// A stored neighbor count is always between 1 and 8.
    pub open spec fn wf(self) -> bool {
        match self {
            Tile::BombNeighbor(v) => 1 <= v <= 8,
            _ => true,
        }
    }

    /// The one-character console symbol of the tile: `*` for a bomb, the
    /// count's digit for a bomb neighbor, a space for an empty cell.
    pub open spec fn symbol_seq(self) -> Seq<char> {
        match self {
            Tile::Bomb => seq!['*'],
            Tile::BombNeighbor(v) => seq![digit_char(v)],
            Tile::Empty => seq![' '],
        }
    }

    /// Is the tile a bomb?
    pub fn is_bomb(&self) -> (r: bool)
        ensures
            r == (*self is Bomb),
    {
        match self {
            Tile::Bomb => true,
            _ => false,
        }
    }

    /// The tile's plain console symbol, without any terminal styling.
    pub fn console_symbol(&self) -> (r: &'static str)
        requires
            self.wf(),
        ensures
            r@ == self.symbol_seq(),
    {
        match self {
            Tile::Bomb => {
                proof {
                    reveal_strlit("*");
                    assert("*"@ =~= seq!['*']);
                }
                "*"
            },
            Tile::BombNeighbor(v) => {
                if *v == 1 {
                    proof {
                        reveal_strlit("1");
                        assert("1"@ =~= seq!['1']);
                    }
                    "1"
                } else if *v == 2 {
                    proof {
                        reveal_strlit("2");
                        assert("2"@ =~= seq!['2']);
                    }
                    "2"
                } else if *v == 3 {
                    proof {
                        reveal_strlit("3");
                        assert("3"@ =~= seq!['3']);
                    }
                    "3"
                } else if *v == 4 {
                    proof {
                        reveal_strlit("4");
                        assert("4"@ =~= seq!['4']);
                    }
                    "4"
                } else if *v == 5 {
                    proof {
                        reveal_strlit("5");
                        assert("5"@ =~= seq!['5']);
                    }
                    "5"
                } else if *v == 6 {
                    proof {
                        reveal_strlit("6");
                        assert("6"@ =~= seq!['6']);
                    }
                    "6"
                } else if *v == 7 {
                    proof {
                        reveal_strlit("7");
                        assert("7"@ =~= seq!['7']);
                    }
                    "7"
                } else {
                    proof {
                        reveal_strlit("8");
                        assert("8"@ =~= seq!['8']);
                    }
                    "8"
                }
            },
            Tile::Empty => {
                proof {
                    reveal_strlit(" ");
                    assert(" "@ =~= seq![' ']);
                }
                " "
            },
        }
    }

    /// The tile's console symbol decorated for a color terminal: bombs in
    /// bright red, low counts in cyan, green and yellow, high counts in
    /// red, empty cells unstyled. The styling depends on the terminal
    /// environment, so nothing is claimed of the returned text.
    pub fn console_output(&self) -> String
        requires
            self.wf(),
    {
        match self {
            Tile::Bomb => styled_bright_red(self.console_symbol()),
            Tile::BombNeighbor(v) => {
                if *v == 1 {
                    styled_cyan(self.console_symbol())
                } else if *v == 2 {
                    styled_green(self.console_symbol())
                } else if *v == 3 {
                    styled_yellow(self.console_symbol())
                } else {
                    styled_red(self.console_symbol())
                }
            },
            Tile::Empty => styled_plain(self.console_symbol()),
        }
    }
}

/// Relies on colored's `Colorize::bright_red`: decorates text for a color
/// terminal. What is emitted depends on the terminal environment, so
/// nothing is claimed of the result.
#[verifier::external_body]
fn styled_bright_red(s: &str) -> String {
    s.bright_red().to_string()
}

/// Relies on colored's `Colorize::cyan`: decorates text for a color
/// terminal. What is emitted depends on the terminal environment, so
/// nothing is claimed of the result.
#[verifier::external_body]
fn styled_cyan(s: &str) -> String {
    s.cyan().to_string()
}

/// Relies on colored's `Colorize::green`: decorates text for a color
/// terminal. What is emitted depends on the terminal environment, so
/// nothing is claimed of the result.
#[verifier::external_body]
fn styled_green(s: &str) -> String {
    s.green().to_string()
}

/// Relies on colored's `Colorize::yellow`: decorates text for a color
/// terminal. What is emitted depends on the terminal environment, so
/// nothing is claimed of the result.
#[verifier::external_body]
fn styled_yellow(s: &str) -> String {
    s.yellow().to_string()
}

/// Relies on colored's `Colorize::red`: decorates text for a color
/// terminal. What is emitted depends on the terminal environment, so
/// nothing is claimed of the result.
#[verifier::external_body]
fn styled_red(s: &str) -> String {
    s.red().to_string()
}

/// Relies on colored's `Colorize::normal`: wraps text in an unstyled
/// colored string. What is emitted depends on the terminal environment,
/// so nothing is claimed of the result.
#[verifier::external_body]
fn styled_plain(s: &str) -> String {
    s.normal().to_string()
}

} // verus!
