//! Chess pieces: kind, side, material worth, and the table of unit steps each
//! kind may take, together with whether those steps repeat (slide) until
//! blocked.

use vstd::prelude::*;
use crate::{Pos, Side};
use crate::avec::{pos_av_new, pos_av_push, pos_av_seq};

verus! {

/// A chess piece on the board: a kind of piece and what side it is on.
#[derive(Clone, Copy, Debug, PartialEq, Eq, Structural)]
pub struct Piece {
    pub kind: PieceKind,
    pub side: Side,
}

/// A kind of chess piece.
#[derive(Clone, Copy, Debug, PartialEq, Eq, Structural)]
pub enum PieceKind {
    Pawn,
    Knight,
    Bishop,
    Rook,
    Queen,
    King,
}

impl PieceKind {
    /// The piece worth as commonly given for material evaluation. The king's
    /// worth is 0 because the search handles king capture as a distinguished
    /// terminal condition, not as material.
    pub open spec fn spec_worth(self) -> u8 {
        match self {
            PieceKind::Pawn => 1,
            PieceKind::Knight => 3,
            PieceKind::Bishop => 3,
            PieceKind::Rook => 5,
            PieceKind::Queen => 9,
            PieceKind::King => 0,
        }
    }

    /// Return the piece worth; see `spec_worth`.
    #[verifier::when_used_as_spec(spec_worth)]
    pub fn worth(self) -> (r: u8)
        ensures
            r == self.spec_worth(),
    {
        match self {
            PieceKind::Pawn => 1,
            PieceKind::Knight | PieceKind::Bishop => 3,
            PieceKind::Rook => 5,
            PieceKind::Queen => 9,
            PieceKind::King => 0,
        }
    }
}

impl Piece {
    /// Convenience function to create a black piece.
    pub fn black(kind: PieceKind) -> (r: Self)
        ensures
            r == (Piece { kind, side: Side::Black }),
    {
        Self { kind, side: Side::Black }
    }

    /// Convenience function to create a white piece.
    pub fn white(kind: PieceKind) -> (r: Self)
        ensures
            r == (Piece { kind, side: Side::White }),
    {
        Self { kind, side: Side::White }
    }

    /// A unicode character for this piece.
    pub open spec fn spec_to_char(&self) -> char {
        match (self.side, self.kind) {
            (Side::Black, PieceKind::Pawn) => '\u{265f}',
            (Side::Black, PieceKind::Knight) => '\u{265e}',
            (Side::Black, PieceKind::Bishop) => '\u{265d}',
            (Side::Black, PieceKind::Rook) => '\u{265c}',
            (Side::Black, PieceKind::Queen) => '\u{265b}',
            (Side::Black, PieceKind::King) => '\u{265a}',
            (Side::White, PieceKind::Pawn) => '\u{2659}',
            (Side::White, PieceKind::Knight) => '\u{2658}',
            (Side::White, PieceKind::Bishop) => '\u{2657}',
            (Side::White, PieceKind::Rook) => '\u{2656}',
            (Side::White, PieceKind::Queen) => '\u{2655}',
            (Side::White, PieceKind::King) => '\u{2654}',
        }
    }

    /// Get a unicode character for this piece.
    #[verifier::when_used_as_spec(spec_to_char)]
    pub fn to_char(&self) -> (r: char)
        ensures
            r == self.spec_to_char(),
    {
        match (self.side, self.kind) {
            (Side::Black, PieceKind::Pawn) => '♟',
            (Side::Black, PieceKind::Knight) => '♞',
            (Side::Black, PieceKind::Bishop) => '♝',
            (Side::Black, PieceKind::Rook) => '♜',
            (Side::Black, PieceKind::Queen) => '♛',
            (Side::Black, PieceKind::King) => '♚',
            (Side::White, PieceKind::Pawn) => '♙',
            (Side::White, PieceKind::Knight) => '♘',
            (Side::White, PieceKind::Bishop) => '♗',
            (Side::White, PieceKind::Rook) => '♖',
            (Side::White, PieceKind::Queen) => '♕',
            (Side::White, PieceKind::King) => '♔',
        }
    }

    /// The table of relative steps this piece may take, in the order the move
    /// generator examines them. Whether a step is possible on a given board
    /// is decided separately; sliding pieces extend each step until blocked.
    pub open spec fn move_list(self) -> Seq<Pos> {
        match (self.side, self.kind) {
            (Side::Black, PieceKind::Pawn) => seq![
                Pos(0i8, 1i8), Pos(0i8, 2i8), Pos(1i8, 1i8), Pos(-1i8, 1i8),
            ],
            (Side::White, PieceKind::Pawn) => seq![
                Pos(0i8, -1i8), Pos(0i8, -2i8), Pos(1i8, -1i8), Pos(-1i8, -1i8),
            ],
            (_, PieceKind::Knight) => seq![
                Pos(1i8, 2i8), Pos(1i8, -2i8), Pos(-1i8, 2i8), Pos(-1i8, -2i8),
                Pos(2i8, 1i8), Pos(2i8, -1i8), Pos(-2i8, 1i8), Pos(-2i8, -1i8),
            ],
            (_, PieceKind::Bishop) => seq![
                Pos(1i8, 1i8), Pos(1i8, -1i8), Pos(-1i8, 1i8), Pos(-1i8, -1i8),
            ],
            (_, PieceKind::Rook) => seq![
                Pos(0i8, 1i8), Pos(0i8, -1i8), Pos(1i8, 0i8), Pos(-1i8, 0i8),
            ],
            (_, PieceKind::Queen) => seq![
                Pos(0i8, 1i8), Pos(0i8, -1i8), Pos(1i8, 0i8), Pos(-1i8, 0i8),
                Pos(1i8, 1i8), Pos(1i8, -1i8), Pos(-1i8, 1i8), Pos(-1i8, -1i8),
            ],
            (_, PieceKind::King) => seq![
                Pos(0i8, 1i8), Pos(0i8, -1i8), Pos(1i8, 0i8), Pos(-1i8, 0i8),
                Pos(1i8, 1i8), Pos(1i8, -1i8), Pos(-1i8, 1i8), Pos(-1i8, -1i8),
                Pos(2i8, 0i8), Pos(-2i8, 0i8),
            ],
        }
    }

    /// Whether the steps of `move_list` repeat outward (sliding piece).
    pub open spec fn repeats(self) -> bool {
        self.kind == PieceKind::Bishop || self.kind == PieceKind::Rook
            || self.kind == PieceKind::Queen
    }

    /// Every step of the move table is small: at most two squares in each
    /// direction, and for a sliding piece a nonzero unit step.
    pub proof fn lemma_move_list_bounds(self)
        ensures
            forall|j: int| 0 <= j < self.move_list().len()
                ==> -2 <= (#[trigger] self.move_list()[j]).0 <= 2
                    && -2 <= self.move_list()[j].1 <= 2,
            self.repeats() ==> forall|j: int| 0 <= j < self.move_list().len()
                ==> -1 <= (#[trigger] self.move_list()[j]).0 <= 1
                    && -1 <= self.move_list()[j].1 <= 1
                    && self.move_list()[j] != Pos(0i8, 0i8),
    {
    }

    /// All relative moves this piece can make, and whether they repeat.
    /// Note: some moves may or may not be possible, depending on the position
    /// on the board.
    pub fn moves(&self) -> (r: (arrayvec::ArrayVec<Pos, 10>, bool))
        ensures
            pos_av_seq(r.0) == self.move_list(),
            r.1 == self.repeats(),
    {
        let mut vec = pos_av_new();
        let repeat: bool;
        match (self.side, self.kind) {
            (Side::Black, PieceKind::Pawn) => {
                pos_av_push(&mut vec, Pos(0, 1));
                pos_av_push(&mut vec, Pos(0, 2));
                pos_av_push(&mut vec, Pos(1, 1));
                pos_av_push(&mut vec, Pos(-1, 1));
                repeat = false;
            }
            (Side::White, PieceKind::Pawn) => {
                pos_av_push(&mut vec, Pos(0, -1));
                pos_av_push(&mut vec, Pos(0, -2));
                pos_av_push(&mut vec, Pos(1, -1));
                pos_av_push(&mut vec, Pos(-1, -1));
                repeat = false;
            }
            (_, PieceKind::Knight) => {
                pos_av_push(&mut vec, Pos(1, 2));
                pos_av_push(&mut vec, Pos(1, -2));
                pos_av_push(&mut vec, Pos(-1, 2));
                pos_av_push(&mut vec, Pos(-1, -2));
                pos_av_push(&mut vec, Pos(2, 1));
                pos_av_push(&mut vec, Pos(2, -1));
                pos_av_push(&mut vec, Pos(-2, 1));
                pos_av_push(&mut vec, Pos(-2, -1));
                repeat = false;
            }
            (_, PieceKind::Bishop) => {
                pos_av_push(&mut vec, Pos(1, 1));
                pos_av_push(&mut vec, Pos(1, -1));
                pos_av_push(&mut vec, Pos(-1, 1));
                pos_av_push(&mut vec, Pos(-1, -1));
                repeat = true;
            }
            (_, PieceKind::Rook) => {
                pos_av_push(&mut vec, Pos(0, 1));
                pos_av_push(&mut vec, Pos(0, -1));
                pos_av_push(&mut vec, Pos(1, 0));
                pos_av_push(&mut vec, Pos(-1, 0));
                repeat = true;
            }
            (_, PieceKind::Queen) | (_, PieceKind::King) => {
                pos_av_push(&mut vec, Pos(0, 1));
                pos_av_push(&mut vec, Pos(0, -1));
                pos_av_push(&mut vec, Pos(1, 0));
                pos_av_push(&mut vec, Pos(-1, 0));
                pos_av_push(&mut vec, Pos(1, 1));
                pos_av_push(&mut vec, Pos(1, -1));
                pos_av_push(&mut vec, Pos(-1, 1));
                pos_av_push(&mut vec, Pos(-1, -1));
                if self.kind == PieceKind::King {
                    pos_av_push(&mut vec, Pos(2, 0));
                    pos_av_push(&mut vec, Pos(-2, 0));
                }
                repeat = self.kind == PieceKind::Queen;
            }
        }
        proof {
            assert(pos_av_seq(vec) =~= self.move_list());
        }
        (vec, repeat)
    }
}

} // verus!
