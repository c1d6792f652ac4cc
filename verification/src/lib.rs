//! Rules-and-search core of a two-player chess engine: a board model that
//! enumerates legal moves (castling, en passant and promotion included),
//! applies and exactly reverses moves, detects check and checkmate, and picks
//! a move by depth-bounded adversarial search with alpha-beta pruning.

use vstd::prelude::*;

pub mod avec;
pub mod board;
pub mod minimax;
pub mod piece;
pub mod serialize;

verus! {

broadcast use vstd::string::axiom_spec_iter, vstd::string::next_postcondition;

/// A position on the board: file (column) and rank index (row), each in
/// `[0, 8)` when valid. Row 0 is the black back rank, row 7 the white one.
#[derive(Debug, Clone, Copy, PartialEq, Eq, Structural, Hash)]
pub struct Pos(pub i8, pub i8);

impl Pos {
    /// Returns true if the position is actually within the boundaries of a board.
    pub fn is_valid(self) -> (r: bool)
        ensures
            r == self.valid(),
    {
        let Pos(x, y) = self;
        x >= 0 && x < 8 && y >= 0 && y < 8
    }

    /// Whether the position lies on the 8x8 board.
    pub open spec fn valid(self) -> bool {
        0 <= self.0 < 8 && 0 <= self.1 < 8
    }

    /// Parse a position from a string such as `e2`: a file letter (either
    /// case), then a rank digit, anything after ignored.
    pub fn parse(s: &str) -> (r: Result<Pos, ParsePosError>)
        ensures
            match r {
                Ok(p) => parse_pos_spec(s@) == Some(p) && p.valid(),
                Err(_) => parse_pos_spec(s@) is None,
            },
    {
        let mut chars = s.chars();
        let x: i8 = match chars.next() {
            Some(c) => {
                let v = c as u32;
                if v >= 'a' as u32 && v <= 'h' as u32 {
                    (v - 'a' as u32) as i8
                } else if v >= 'A' as u32 && v <= 'H' as u32 {
                    (v - 'A' as u32) as i8
                } else {
                    return Err(ParsePosError);
                }
            },
            None => return Err(ParsePosError),
        };
        let y: i8 = match chars.next() {
            Some(c) => {
                let v = c as u32;
                if v >= '1' as u32 && v <= '8' as u32 {
                    ('8' as u32 - v) as i8
                } else {
                    return Err(ParsePosError);
                }
            },
            None => return Err(ParsePosError),
        };
        Ok(Pos(x, y))
    }
}

/// Spec-level position addition; matches the executable `i8` additions, which
/// are always proved free of overflow before they are run.
pub open spec fn padd(a: Pos, b: Pos) -> Pos {
    Pos((a.0 + b.0) as i8, (a.1 + b.1) as i8)
}

/// What a position string denotes: a file letter `a` through `h` (either
/// case), then a rank digit `1` through `8`, anything after ignored. Rank 8
/// is row 0.
pub open spec fn parse_pos_spec(s: Seq<char>) -> Option<Pos> {
    if s.len() < 2 {
        None
    } else {
        let c0 = s[0] as u32;
        let c1 = s[1] as u32;
        let x: int = if 'a' as u32 <= c0 && c0 <= 'h' as u32 {
            c0 - 'a' as u32
        } else if 'A' as u32 <= c0 && c0 <= 'H' as u32 {
            c0 - 'A' as u32
        } else {
            -1
        };
        let y: int = if '1' as u32 <= c1 && c1 <= '8' as u32 {
            '8' as u32 - c1
        } else {
            -1
        };
        if x >= 0 && y >= 0 {
            Some(Pos(x as i8, y as i8))
        } else {
            None
        }
    }
}

/// An error parsing a position from a string.
#[derive(Debug, Clone, Copy, PartialEq, Eq, Structural)]
pub struct ParsePosError;

/// What side a piece belongs to.
#[derive(Debug, Clone, Copy, PartialEq, Eq, Structural)]
pub enum Side {
    Black,
    White,
}

impl Side {
    /// The opposing side.
    pub open spec fn spec_not(self) -> Side {
        match self {
            Side::Black => Side::White,
            Side::White => Side::Black,
        }
    }

    /// The opposing side.
    #[verifier::when_used_as_spec(spec_not)]
    pub fn not(self) -> (r: Side)
        ensures
            r == self.spec_not(),
    {
        match self {
            Side::Black => Side::White,
            Side::White => Side::Black,
        }
    }
}

} // verus!
