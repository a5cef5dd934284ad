use vstd::prelude::*;

verus! {

/// Squares along one edge of the board.
pub const BOARD_SIZE: usize = 8;

/// Black's two discs in the opening position.
pub const STARTING_BLACK: u64 = 0x0000000810000000;

/// White's two discs in the opening position.
pub const STARTING_WHITE: u64 = 0x0000001008000000;

/// The outermost ring of squares.
pub const EDGE_MASK: u64 = 0xff818181818181ff;

/// The four corner squares.
pub const CORNER_MASK: u64 = 0x8100000000000081;

/// Every square of the board.
pub const FULL: u64 = 0xffffffffffffffff;

/// The side that moves first.
pub const STARTING_PLAYER: Color = Color::Black;

/// The name of the white side.
pub open spec fn name_white() -> Seq<char> {
    seq!['w', 'h', 'i', 't', 'e']
}

/// The name of the easy level.
pub open spec fn name_easy() -> Seq<char> {
    seq!['e', 'a', 's', 'y']
}

/// The name of the hard level.
pub open spec fn name_hard() -> Seq<char> {
    seq!['h', 'a', 'r', 'd']
}

/// One of the two sides.
#[derive(Clone, Copy, Debug, PartialEq, Eq, Structural)]
pub enum Color {
    Black,
    White,
}

impl Color {
    /// The side that is not `self`.
    pub open spec fn other(self) -> Color {
        match self {
            Color::Black => Color::White,
            Color::White => Color::Black,
        }
    }

    /// The side that a player names: White for "white", Black for
    /// "black" and for anything else.
    pub fn from_name(name: &str) -> (r: Color)
        ensures
            r == if name@ == name_white() {
                Color::White
            } else {
                Color::Black
            },
    {
        proof {
            reveal_strlit("white");
            assert("white"@ =~= name_white());
        }
        if same_text(name, "white") {
            Color::White
        } else {
            Color::Black
        }
    }

    /// The side that is not `self`.
    pub fn opponent(self) -> (r: Color)
        ensures
            r == self.other(),
    {
        match self {
            Color::Black => Color::White,
            Color::White => Color::Black,
        }
    }
}

/// How strong an opponent the computer is asked to be.
#[derive(Clone, Copy, Debug, PartialEq, Eq, Structural)]
pub enum Difficulty {
    Unset,
    Easy,
    Normal,
    Hard,
}

impl Difficulty {
    /// The level that a player names: "easy" and "hard" are themselves,
    /// "normal" and anything else is `Normal`.
    pub fn from_name(name: &str) -> (r: Difficulty)
        ensures
            r == if name@ == name_easy() {
                Difficulty::Easy
            } else if name@ == name_hard() {
                Difficulty::Hard
            } else {
                Difficulty::Normal
            },
    {
        proof {
            reveal_strlit("easy");
            reveal_strlit("hard");
            assert("easy"@ =~= name_easy());
            assert("hard"@ =~= name_hard());
        }
        if same_text(name, "easy") {
            Difficulty::Easy
        } else if same_text(name, "hard") {
            Difficulty::Hard
        } else {
            Difficulty::Normal
        }
    }
}

/// Whether two strings hold the same characters.
fn same_text(a: &str, b: &str) -> (r: bool)
    ensures
        r == (a@ == b@),
{
    let a_owned = a.to_owned();
    let b_owned = b.to_owned();
    a_owned == b_owned
}

} // verus!
