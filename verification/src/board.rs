//! The chess board: an 8x8 grid of optional pieces plus the en-passant target
//! square and both sides' castling rights, with move application, undo,
//! move generation, and check/checkmate detection.

use vstd::prelude::*;
use crate::{Pos, Side, padd};
use crate::piece::{Piece, PieceKind};
use crate::avec::{undo_av_seq, undo_av_new, undo_av_push, undo_av_len, undo_av_get, pos_av_seq, pos_av_new, pos_av_len, pos_av_get};

verus! {

/// The width (and height, because square) of the board.
pub const WIDTH: i8 = 8;

/// A change record: the ordered list of reversible edits produced by one move
/// application, consumed exactly once by `Board::undo`.
pub type Change = arrayvec::ArrayVec<Undo, 6>;

/// Describes how to revert one edit to the board. Used for undoing moves.
#[derive(Clone, Copy, Debug)]
pub enum Undo {
    /// The square held this piece before.
    Square(Pos, Option<Piece>),
    /// The en-passant target was this before.
    EnPassant(Option<Pos>),
    /// The castling rights for this side were these before.
    Castling(Side, Castling),
}

/// Information about whether or not one side can castle.
#[derive(Clone, Copy, Debug, PartialEq, Eq, Structural)]
pub struct Castling {
    pub queenside: bool,
    pub kingside: bool,
}

impl Default for Castling {
    /// Both castlings available.
    fn default() -> (r: Self)
        ensures
            r.queenside && r.kingside,
    {
        Self { queenside: true, kingside: true }
    }
}

/// The mathematical model of a board: the 8x8 square contents as nested
/// sequences (outer index is the rank index, inner the file), the en-passant
/// target, and both castling records.
#[verifier::ext_equal]
pub struct BoardModel {
    pub squares: Seq<Seq<Option<Piece>>>,
    pub en_passant: Option<Pos>,
    pub castling_black: Castling,
    pub castling_white: Castling,
}

impl BoardModel {
    /// Structural well-formedness: an 8x8 grid and a valid en-passant target
    /// when one is recorded.
    pub open spec fn wf(self) -> bool {
        &&& self.squares.len() == 8
        &&& forall|y: int| 0 <= y < 8 ==> (#[trigger] self.squares[y]).len() == 8
        &&& match self.en_passant {
            Some(p) => p.valid(),
            None => true,
        }
    }

    /// The piece at a position.
    pub open spec fn at(self, p: Pos) -> Option<Piece> {
        self.squares[p.1 as int][p.0 as int]
    }

    /// The model with one square replaced.
    pub open spec fn set_sq(self, p: Pos, v: Option<Piece>) -> BoardModel {
        BoardModel {
            squares: self.squares.update(
                p.1 as int,
                self.squares[p.1 as int].update(p.0 as int, v),
            ),
            ..self
        }
    }

    /// The castling record of a side.
    pub open spec fn castling(self, side: Side) -> Castling {
        match side {
            Side::Black => self.castling_black,
            Side::White => self.castling_white,
        }
    }

    /// The model with one side's castling record replaced.
    pub open spec fn with_castling(self, side: Side, c: Castling) -> BoardModel {
        match side {
            Side::Black => BoardModel { castling_black: c, ..self },
            Side::White => BoardModel { castling_white: c, ..self },
        }
    }

    /// The model with the en-passant target replaced.
    pub open spec fn with_ep(self, e: Option<Pos>) -> BoardModel {
        BoardModel { en_passant: e, ..self }
    }
}

/// A typical chess board.
#[derive(Debug, Clone, Copy)]
pub struct Board {
    pub pieces: [[Option<Piece>; 8]; 8],
    pub en_passant: Option<Pos>,
    pub castling_black: Castling,
    pub castling_white: Castling,
}

impl View for Board {
    type V = BoardModel;

    open spec fn view(&self) -> BoardModel {
        BoardModel {
            squares: Seq::new(8, |y: int| Seq::new(8, |x: int| self.pieces[y][x])),
            en_passant: self.en_passant,
            castling_black: self.castling_black,
            castling_white: self.castling_white,
        }
    }
}

/// The rank index, counted from a side's own back rank: black counts from
/// rank index 0 downward, white from rank index 7 upward.
pub open spec fn spec_edge_offset(side: Side, y: i8) -> i8 {
    match side {
        Side::Black => y,
        Side::White => (7 - y) as i8,
    }
}

#[verifier::when_used_as_spec(spec_edge_offset)]
pub(crate) fn edge_offset(side: Side, y: i8) -> (r: i8)
    requires
        0 <= y < 8,
    ensures
        r == spec_edge_offset(side, y),
{
    match side {
        Side::Black => y,
        Side::White => (WIDTH - 1) - y,
    }
}

/// Whether the relative step `m` of the piece `piece` is a castling step:
/// a king moving two files.
pub open spec fn spec_is_castling(piece: Option<Piece>, m: Pos) -> bool {
    match piece {
        Some(p) => p.kind == PieceKind::King && (m.0 == 2 || m.0 == -2),
        None => false,
    }
}

#[verifier::when_used_as_spec(spec_is_castling)]
pub(crate) fn is_castling(piece: Option<Piece>, m: Pos) -> (r: bool)
    ensures
        r == spec_is_castling(piece, m),
{
    match piece {
        Some(p) => p.kind == PieceKind::King && (m.0 == 2 || m.0 == -2),
        None => false,
    }
}

/// The piece of the standard starting arrangement at file `x`, rank index `y`
/// (rank index 0 is the black back rank).
pub open spec fn start_at(x: int, y: int) -> Option<Piece> {
    let kind = if x == 0 || x == 7 {
        PieceKind::Rook
    } else if x == 1 || x == 6 {
        PieceKind::Knight
    } else if x == 2 || x == 5 {
        PieceKind::Bishop
    } else if x == 3 {
        PieceKind::Queen
    } else {
        PieceKind::King
    };
    if y == 0 {
        Some(Piece { kind, side: Side::Black })
    } else if y == 1 {
        Some(Piece { kind: PieceKind::Pawn, side: Side::Black })
    } else if y == 6 {
        Some(Piece { kind: PieceKind::Pawn, side: Side::White })
    } else if y == 7 {
        Some(Piece { kind, side: Side::White })
    } else {
        None
    }
}

impl Default for Board {
    /// The standard starting arrangement.
    fn default() -> (r: Self)
        ensures
            r@.wf(),
            r@.en_passant == Option::<Pos>::None,
            r@.castling_black == (Castling { queenside: true, kingside: true }),
            r@.castling_white == (Castling { queenside: true, kingside: true }),
            forall|x: int, y: int|
                0 <= x < 8 && 0 <= y < 8 ==> #[trigger] r@.squares[y][x] == start_at(x, y),
    {
        Board::new()
    }
}

impl Board {
    /// Create a new chess board with the default pieces.
    pub fn new() -> (r: Self)
        ensures
            r@.wf(),
            r@.en_passant == Option::<Pos>::None,
            r@.castling_black == (Castling { queenside: true, kingside: true }),
            r@.castling_white == (Castling { queenside: true, kingside: true }),
            forall|x: int, y: int|
                0 <= x < 8 && 0 <= y < 8 ==> #[trigger] r@.squares[y][x] == start_at(x, y),
    {
        let black_pawn: Option<Piece> = Some(Piece { kind: PieceKind::Pawn, side: Side::Black });
        let white_pawn: Option<Piece> = Some(Piece { kind: PieceKind::Pawn, side: Side::White });
        let board = Self {
            pieces: [
                [
                    Some(Piece { kind: PieceKind::Rook, side: Side::Black }),
                    Some(Piece { kind: PieceKind::Knight, side: Side::Black }),
                    Some(Piece { kind: PieceKind::Bishop, side: Side::Black }),
                    Some(Piece { kind: PieceKind::Queen, side: Side::Black }),
                    Some(Piece { kind: PieceKind::King, side: Side::Black }),
                    Some(Piece { kind: PieceKind::Bishop, side: Side::Black }),
                    Some(Piece { kind: PieceKind::Knight, side: Side::Black }),
                    Some(Piece { kind: PieceKind::Rook, side: Side::Black }),
                ],
                [black_pawn, black_pawn, black_pawn, black_pawn, black_pawn, black_pawn, black_pawn, black_pawn],
                [None, None, None, None, None, None, None, None],
                [None, None, None, None, None, None, None, None],
                [None, None, None, None, None, None, None, None],
                [None, None, None, None, None, None, None, None],
                [white_pawn, white_pawn, white_pawn, white_pawn, white_pawn, white_pawn, white_pawn, white_pawn],
                [
                    Some(Piece { kind: PieceKind::Rook, side: Side::White }),
                    Some(Piece { kind: PieceKind::Knight, side: Side::White }),
                    Some(Piece { kind: PieceKind::Bishop, side: Side::White }),
                    Some(Piece { kind: PieceKind::Queen, side: Side::White }),
                    Some(Piece { kind: PieceKind::King, side: Side::White }),
                    Some(Piece { kind: PieceKind::Bishop, side: Side::White }),
                    Some(Piece { kind: PieceKind::Knight, side: Side::White }),
                    Some(Piece { kind: PieceKind::Rook, side: Side::White }),
                ],
            ],
            en_passant: None,
            castling_black: Castling { queenside: true, kingside: true },
            castling_white: Castling { queenside: true, kingside: true },
        };
        board
    }

    /// Get the piece at the requested position.
    pub fn get(&self, pos: Pos) -> (r: Option<Piece>)
        requires
            pos.valid(),
        ensures
            r == self@.at(pos),
    {
        let Pos(x, y) = pos;
        self.pieces[y as usize][x as usize]
    }

    /// Get a mutable reference to the square at the requested position.
    pub fn get_mut(&mut self, pos: Pos) -> (r: &mut Option<Piece>)
        requires
            pos.valid(),
        ensures
            *r == old(self)@.at(pos),
            final(self)@ =~~= old(self)@.set_sq(pos, *final(r)),
    {
        let Pos(x, y) = pos;
        &mut self.pieces[y as usize][x as usize]
    }

    /// Replace the square at `pos`, returning what it held.
    pub fn set_at(&mut self, pos: Pos, v: Option<Piece>) -> (r: Option<Piece>)
        requires
            pos.valid(),
        ensures
            r == old(self)@.at(pos),
            final(self)@ == old(self)@.set_sq(pos, v),
    {
        let Pos(x, y) = pos;
        let prev = self.pieces[y as usize][x as usize];
        self.pieces[y as usize][x as usize] = v;
        proof {
            assert(self@ =~~= old(self)@.set_sq(pos, v));
        }
        prev
    }

    /// Set one side's castling record.
    pub(crate) fn set_castling(&mut self, side: Side, c: Castling)
        ensures
            final(self)@ == old(self)@.with_castling(side, c),
    {
        match side {
            Side::Black => self.castling_black = c,
            Side::White => self.castling_white = c,
        }
        proof {
            assert(self@ =~~= old(self)@.with_castling(side, c));
        }
    }

    /// Set the en-passant target.
    pub(crate) fn set_en_passant(&mut self, e: Option<Pos>)
        ensures
            final(self)@ == old(self)@.with_ep(e),
    {
        self.en_passant = e;
        proof {
            assert(self@ =~~= old(self)@.with_ep(e));
        }
    }

    /// The castling record of a side.
    pub fn castling(&self, side: Side) -> (r: Castling)
        ensures
            r == self@.castling(side),
    {
        match side {
            Side::Black => self.castling_black,
            Side::White => self.castling_white,
        }
    }

    /// Move a piece, replacing whatever was already on `to`. Handles any logic
    /// like spawning a queen. Can be undone: replaying the returned record
    /// with `undo` restores the exact prior board.
    pub fn move_(&mut self, from: Pos, to: Pos) -> (r: Change)
        requires
            from.valid(),
            to.valid(),
            old(self)@.wf(),
        ensures
            final(self)@ == move_model(old(self)@, from, to),
            final(self)@.wf(),
            undo_av_seq(r) == change_model(old(self)@, from, to),
            wf_change(undo_av_seq(r)),
            replay(final(self)@, undo_av_seq(r)) == old(self)@,
    {
        let ghost bm0 = self@;
        let prev_en_passant = self.en_passant;
        self.set_en_passant(None);

        let mut vec = undo_av_new();
        let piece = self.set_at(from, None);
        let old_to = self.set_at(to, piece);
        undo_av_push(&mut vec, Undo::Square(from, piece));
        undo_av_push(&mut vec, Undo::Square(to, old_to));

        if let Some(p) = piece {
            match p.kind {
                PieceKind::Pawn => {
                    let Pos(from_x, from_y) = from;
                    let Pos(to_x, to_y) = to;
                    let victim = Pos(to_x, from_y);
                    let was_ep_target = match prev_en_passant {
                        Some(e) => e == to,
                        None => false,
                    };
                    if to_y == edge_offset(p.side.not(), 0) {
                        // Pawn moved all the way to the other's edge: promote.
                        let _ = self.set_at(
                            to,
                            Some(Piece { kind: PieceKind::Queen, side: p.side }),
                        );
                    } else if from_y == edge_offset(p.side, 1) && to_y == edge_offset(p.side, 3) {
                        // Did the initial double step: the passed-over square
                        // becomes the en-passant target.
                        self.set_en_passant(Some(Pos(to_x, (from_y + to_y) / 2)));
                    } else if from_x != to_x && was_ep_target {
                        // Did en passant: remove the passed pawn.
                        let killed = self.set_at(victim, None);
                        undo_av_push(&mut vec, Undo::Square(victim, killed));
                    }
                },
                PieceKind::Rook => {
                    // Leaving a home corner revokes that side's castling.
                    let row = edge_offset(p.side, 0);
                    let c = self.castling(p.side);
                    if from.0 == 0 && from.1 == row {
                        if c.queenside {
                            undo_av_push(&mut vec, Undo::Castling(p.side, c));
                            self.set_castling(
                                p.side,
                                Castling { queenside: false, kingside: c.kingside },
                            );
                        }
                    } else if from.0 == WIDTH - 1 && from.1 == row {
                        if c.kingside {
                            undo_av_push(&mut vec, Undo::Castling(p.side, c));
                            self.set_castling(
                                p.side,
                                Castling { queenside: c.queenside, kingside: false },
                            );
                        }
                    }
                },
                PieceKind::King => {
                    let c = self.castling(p.side);
                    let row = edge_offset(p.side, 0);

                    // Was this a castling? Then also relocate the rook.
                    let positions: Option<(Pos, Pos)> = if to.0 - from.0 == -2 && c.queenside {
                        Some((Pos(0, row), Pos(to.0 + 1, row)))
                    } else if to.0 - from.0 == 2 && c.kingside {
                        Some((Pos(WIDTH - 1, row), Pos(to.0 - 1, row)))
                    } else {
                        None
                    };
                    if let Some((rook_from, rook_to)) = positions {
                        let rook = self.set_at(rook_from, None);
                        let old_rt = self.set_at(rook_to, rook);
                        undo_av_push(&mut vec, Undo::Square(rook_from, rook));
                        undo_av_push(&mut vec, Undo::Square(rook_to, old_rt));
                    }

                    // The king can no longer castle at all.
                    if c.kingside || c.queenside {
                        undo_av_push(&mut vec, Undo::Castling(p.side, c));
                        self.set_castling(
                            p.side,
                            Castling { queenside: false, kingside: false },
                        );
                    }
                },
                _ => {},
            }
        }

        if prev_en_passant.is_some() || self.en_passant.is_some() {
            undo_av_push(&mut vec, Undo::EnPassant(prev_en_passant));
        }

        proof {
            assert(self@ == move_model(bm0, from, to));
            assert(undo_av_seq(vec) =~= change_model(bm0, from, to));
            assert(wf_change(undo_av_seq(vec)));
            lemma_move_undo_round_trip(bm0, from, to);
        }
        vec
    }

    /// Undo a move: replay its change record in reverse, restoring the board
    /// the record was produced from.
    pub fn undo(&mut self, change: Change)
        requires
            old(self)@.wf(),
            wf_change(undo_av_seq(change)),
        ensures
            final(self)@ == replay(old(self)@, undo_av_seq(change)),
    {
        let ghost bm0 = self@;
        let ghost cs = undo_av_seq(change);
        let len = undo_av_len(&change);
        let mut i: usize = len;
        while i > 0
            invariant
                i <= len,
                len == cs.len(),
                cs == undo_av_seq(change),
                wf_change(cs),
                self@ == replay(bm0, cs.subrange(i as int, len as int)),
            decreases i,
        {
            i = i - 1;
            let u = undo_av_get(&change, i);
            match u {
                Undo::Square(pos, piece) => {
                    let _ = self.set_at(pos, piece);
                },
                Undo::EnPassant(pos) => self.set_en_passant(pos),
                Undo::Castling(side, castling) => self.set_castling(side, castling),
            }
            proof {
                let sub = cs.subrange(i as int, len as int);
                assert(sub.first() == cs[i as int]);
                assert(sub.drop_first() =~= cs.subrange(i + 1, len as int));
                assert(self@ == replay(bm0, sub));
            }
        }
        proof {
            assert(cs.subrange(0, len as int) =~= cs);
        }
    }

    /// Return an iterator over all the rows, starting at the black back
    /// rank.
    pub fn iter(&self) -> (r: std::slice::Iter<'_, [Option<Piece>; 8]>)
        ensures
            r == vstd::array::spec_array_iter(&self.pieces),
    {
        (&self.pieces).into_iter()
    }

    /// Return a reference to all the rows, starting at the black back rank.
    pub fn rows(&self) -> (r: &[[Option<Piece>; 8]; 8])
        ensures
            *r == self.pieces,
            forall|x: int, y: int|
                0 <= x < 8 && 0 <= y < 8 ==> r@[y]@[x] == self@.squares[y][x],
    {
        &self.pieces
    }
}

// ---------------------------------------------------------------------------
// Move generation: what steps a piece may take on a given board.
//
// Castling legality depends on check detection, which depends on move
// generation; the cycle is broken by a tagged filter: enumeration on behalf
// of check detection suppresses castling candidates (`allow_castling` =
// false), so the recursion strictly loses the right to recurse again. The
// `decreases` measures below spell that out.
// ---------------------------------------------------------------------------

/// Whether the piece at `from` may take the relative step `m`, castling
/// candidates suppressed: the destination is on the board and free of a
/// friendly piece, a pawn advances only onto an empty square and captures
/// only diagonally (en passant included) with the double step only from its
/// starting rank over an empty square, and a king's two-file step is
/// refused. Like the executable `Board::can_move`, this judges only steps of
/// the piece's own move table; on other steps it may hold trivially.
pub open spec fn can_move_nc(bm: BoardModel, from: Pos, m: Pos) -> bool {
    let dest = padd(from, m);
    if !dest.valid() {
        false
    } else if bm.at(from) is None {
        false
    } else {
        let piece = bm.at(from)->Some_0;
        if bm.at(dest) matches Some(q) && q.side == piece.side {
            false
        } else {
            match piece.kind {
                PieceKind::Pawn => {
                    let cap = m.0 == 1 || m.0 == -1;
                    ((cap == (bm.at(dest) is Some))
                        || (cap && bm.en_passant == Some(dest)))
                    && (!(m.1 == 2 || m.1 == -2)
                        || (from.1 == spec_edge_offset(piece.side, 1)
                            && bm.at(Pos(from.0, (from.1 + m.1 / 2) as i8)) is None))
                },
                PieceKind::King => !(m.0 == 2 || m.0 == -2),
                _ => true,
            }
        }
    }
}

/// The destinations a sliding piece reaches onward along direction `v`,
/// castling suppressed, having already walked `k` steps.
pub open spec fn chain_nc(bm: BoardModel, start: Pos, v: Pos, k: int) -> Seq<Pos>
    decreases 16 - k,
{
    if k < 0 || k >= 16 {
        Seq::empty()
    } else {
        let m = Pos((v.0 * (k + 1)) as i8, (v.1 * (k + 1)) as i8);
        if can_move_nc(bm, start, m) {
            let dest = padd(start, m);
            seq![dest] + (if bm.at(dest) is Some {
                Seq::<Pos>::empty()
            } else {
                chain_nc(bm, start, v, k + 1)
            })
        } else {
            Seq::empty()
        }
    }
}

/// The destinations reached from the steps of `moves` at index `i` onward,
/// castling suppressed.
pub open spec fn rem_moves_nc(
    bm: BoardModel,
    start: Pos,
    moves: Seq<Pos>,
    repeat: bool,
    i: int,
) -> Seq<Pos>
    decreases moves.len() - i,
{
    if i < 0 || i >= moves.len() {
        Seq::empty()
    } else {
        let m = moves[i];
        if can_move_nc(bm, start, m) {
            let dest = padd(start, m);
            let slide = if repeat && bm.at(dest) is None {
                chain_nc(bm, start, m, 1)
            } else {
                Seq::<Pos>::empty()
            };
            seq![dest] + slide + rem_moves_nc(bm, start, moves, repeat, i + 1)
        } else {
            rem_moves_nc(bm, start, moves, repeat, i + 1)
        }
    }
}

/// Every destination the piece at `from` can reach with castling candidates
/// suppressed: the enumeration check detection works with. An empty or
/// off-board square reaches nothing.
pub open spec fn dests_nc(bm: BoardModel, from: Pos) -> Seq<Pos> {
    if !from.valid() {
        Seq::empty()
    } else {
        match bm.at(from) {
            Some(p) => rem_moves_nc(bm, from, p.move_list(), p.repeats(), 0),
            None => Seq::empty(),
        }
    }
}

/// Whether the generated move set of `f` (castling suppressed) reaches `t`,
/// and `t` holds `side`'s king.
pub open spec fn attack_hits(bm: BoardModel, f: Pos, t: Pos, side: Side) -> bool {
    dests_nc(bm, f).contains(t) && bm.at(t) == Some(Piece { kind: PieceKind::King, side })
}

/// Whether the enemy piece at `f` has a generated move (castling suppressed)
/// landing on `side`'s king.
pub open spec fn attacks(bm: BoardModel, f: Pos, side: Side) -> bool {
    match bm.at(f) {
        Some(p) => p.side == side.spec_not()
            && exists|t: Pos| #[trigger] attack_hits(bm, f, t, side),
        None => false,
    }
}

/// Whether some opposing piece currently has a generated move landing on
/// `side`'s king.
pub open spec fn in_check(bm: BoardModel, side: Side) -> bool {
    exists|f: Pos| f.valid() && #[trigger] attacks(bm, f, side)
}

/// Whether the two-file king step `m` from `from` is a legal castling: the
/// destination is on the board and free of a friendly piece, the king stands
/// on its back rank, the corresponding right is intact with the rook in its
/// corner and the path clear, and the king is not in check now, on the
/// passed-through square, or on the destination (each judged by trial
/// application of the full move).
pub open spec fn castling_legal(bm: BoardModel, from: Pos, m: Pos) -> bool {
    let piece = bm.at(from)->Some_0;
    let dest = padd(from, m);
    let row = spec_edge_offset(piece.side, 0);
    let clear = if m.0 < 0 {
        bm.castling(piece.side).queenside
            && bm.at(Pos(0i8, row)) == Some(Piece { kind: PieceKind::Rook, side: piece.side })
            && bm.at(Pos(1i8, row)) is None
            && bm.at(Pos(2i8, row)) is None
            && bm.at(Pos(3i8, row)) is None
    } else {
        bm.castling(piece.side).kingside
            && bm.at(Pos(7i8, row)) == Some(Piece { kind: PieceKind::Rook, side: piece.side })
            && bm.at(Pos(6i8, row)) is None
            && bm.at(Pos(5i8, row)) is None
    };
    &&& dest.valid()
    &&& !(bm.at(dest) matches Some(q) && q.side == piece.side)
    &&& from.1 == row
    &&& clear
    &&& !in_check(bm, piece.side)
    &&& !in_check(move_model(bm, from, Pos((from.0 + m.0 / 2) as i8, from.1)), piece.side)
    &&& !in_check(move_model(bm, from, dest), piece.side)
}

/// Whether the piece at `from` may take the relative step `m`, castling
/// candidates considered.
pub open spec fn can_move_full(bm: BoardModel, from: Pos, m: Pos) -> bool {
    match bm.at(from) {
        Some(p) => if p.kind == PieceKind::King && (m.0 == 2 || m.0 == -2) {
            castling_legal(bm, from, m)
        } else {
            can_move_nc(bm, from, m)
        },
        None => false,
    }
}

/// Whether the piece at `from` may take the relative step `m`;
/// `allow_castling` false suppresses castling candidates, the tagged filter
/// check detection enumerates under.
pub open spec fn can_move_spec(bm: BoardModel, from: Pos, m: Pos, allow_castling: bool) -> bool {
    if allow_castling {
        can_move_full(bm, from, m)
    } else {
        can_move_nc(bm, from, m)
    }
}

/// The destinations a sliding piece reaches onward along direction `v`,
/// castling candidates considered, having already walked `k` steps.
pub open spec fn chain_full(bm: BoardModel, start: Pos, v: Pos, k: int) -> Seq<Pos>
    decreases 16 - k,
{
    if k < 0 || k >= 16 {
        Seq::empty()
    } else {
        let m = Pos((v.0 * (k + 1)) as i8, (v.1 * (k + 1)) as i8);
        if can_move_full(bm, start, m) {
            let dest = padd(start, m);
            seq![dest] + (if bm.at(dest) is Some {
                Seq::<Pos>::empty()
            } else {
                chain_full(bm, start, v, k + 1)
            })
        } else {
            Seq::empty()
        }
    }
}

/// The destinations reached from the steps of `moves` at index `i` onward,
/// castling candidates considered.
pub open spec fn rem_moves_full(
    bm: BoardModel,
    start: Pos,
    moves: Seq<Pos>,
    repeat: bool,
    i: int,
) -> Seq<Pos>
    decreases moves.len() - i,
{
    if i < 0 || i >= moves.len() {
        Seq::empty()
    } else {
        let m = moves[i];
        if can_move_full(bm, start, m) {
            let dest = padd(start, m);
            let slide = if repeat && bm.at(dest) is None {
                chain_full(bm, start, m, 1)
            } else {
                Seq::<Pos>::empty()
            };
            seq![dest] + slide + rem_moves_full(bm, start, moves, repeat, i + 1)
        } else {
            rem_moves_full(bm, start, moves, repeat, i + 1)
        }
    }
}

/// The sliding continuation along `v` after `k` steps, with or without
/// castling candidates.
pub open spec fn chain(bm: BoardModel, start: Pos, v: Pos, k: int, castle: bool) -> Seq<Pos> {
    if castle {
        chain_full(bm, start, v, k)
    } else {
        chain_nc(bm, start, v, k)
    }
}

/// The destinations from the steps of `moves` at index `i` onward, with or
/// without castling candidates.
pub open spec fn rem_moves(
    bm: BoardModel,
    start: Pos,
    moves: Seq<Pos>,
    repeat: bool,
    i: int,
    castle: bool,
) -> Seq<Pos> {
    if castle {
        rem_moves_full(bm, start, moves, repeat, i)
    } else {
        rem_moves_nc(bm, start, moves, repeat, i)
    }
}

/// Every destination the piece at `from` can reach, in the order the move
/// iterator yields them. An empty or off-board square reaches nothing, not a
/// fault. With `castle` false, castling candidates are suppressed (the
/// filter check detection enumerates under).
pub open spec fn dests(bm: BoardModel, from: Pos, castle: bool) -> Seq<Pos> {
    if !from.valid() {
        Seq::empty()
    } else {
        match bm.at(from) {
            Some(p) => rem_moves(bm, from, p.move_list(), p.repeats(), 0, castle),
            None => Seq::empty(),
        }
    }
}

/// Whether every generated move of `side` (castling candidates included)
/// leaves `side` in check after trial application. A side with no pieces or
/// no moves counts as checkmated.
pub open spec fn checkmate_spec(bm: BoardModel, side: Side) -> bool {
    forall|f: Pos, j: int|
        (match bm.at(f) {
            Some(p) => f.valid() && p.side == side && 0 <= j < dests(bm, f, true).len(),
            None => false,
        }) ==> in_check(#[trigger] move_model(bm, f, dests(bm, f, true)[j]), side)
}

// ---------------------------------------------------------------------------
// Move application and undo.
// ---------------------------------------------------------------------------

/// The board after relocating whatever occupies `from` to `to`, with every
/// side effect of `Board::move_`: clearing `from`, promoting a pawn that
/// reaches the far rank, recording or clearing the en-passant target,
/// removing a pawn captured en passant, revoking castling rights, and moving
/// the rook of a castling.
pub open spec fn move_model(bm: BoardModel, from: Pos, to: Pos) -> BoardModel {
    let piece = bm.at(from);
    let prev_ep = bm.en_passant;
    let moved = bm.with_ep(None).set_sq(from, None).set_sq(to, piece);
    match piece {
        None => moved,
        Some(p) => match p.kind {
            PieceKind::Pawn => {
                if to.1 == spec_edge_offset(p.side.spec_not(), 0) {
                    moved.set_sq(to, Some(Piece { kind: PieceKind::Queen, side: p.side }))
                } else if from.1 == spec_edge_offset(p.side, 1)
                    && to.1 == spec_edge_offset(p.side, 3) {
                    moved.with_ep(Some(Pos(to.0, ((from.1 + to.1) / 2) as i8)))
                } else if from.0 != to.0 && prev_ep == Some(to) {
                    moved.set_sq(Pos(to.0, from.1), None)
                } else {
                    moved
                }
            },
            PieceKind::Rook => {
                let row = spec_edge_offset(p.side, 0);
                let c = bm.castling(p.side);
                if from == Pos(0i8, row) && c.queenside {
                    moved.with_castling(
                        p.side,
                        Castling { queenside: false, kingside: c.kingside },
                    )
                } else if from == Pos(7i8, row) && c.kingside {
                    moved.with_castling(
                        p.side,
                        Castling { queenside: c.queenside, kingside: false },
                    )
                } else {
                    moved
                }
            },
            PieceKind::King => {
                let row = spec_edge_offset(p.side, 0);
                let c = bm.castling(p.side);
                let with_rook = if to.0 - from.0 == -2 && c.queenside {
                    let rf = Pos(0i8, row);
                    let rt = Pos((to.0 + 1) as i8, row);
                    moved.set_sq(rf, None).set_sq(rt, moved.at(rf))
                } else if to.0 - from.0 == 2 && c.kingside {
                    let rf = Pos(7i8, row);
                    let rt = Pos((to.0 - 1) as i8, row);
                    moved.set_sq(rf, None).set_sq(rt, moved.at(rf))
                } else {
                    moved
                };
                if c.kingside || c.queenside {
                    with_rook.with_castling(p.side, Castling { queenside: false, kingside: false })
                } else {
                    with_rook
                }
            },
            _ => moved,
        },
    }
}

/// The change record `Board::move_` produces for this move, in push order.
pub open spec fn change_model(bm: BoardModel, from: Pos, to: Pos) -> Seq<Undo> {
    let piece = bm.at(from);
    let prev_ep = bm.en_passant;
    let moved = bm.with_ep(None).set_sq(from, None).set_sq(to, piece);
    let base = seq![
        Undo::Square(from, piece),
        Undo::Square(to, bm.set_sq(from, None).at(to)),
    ];
    let with_kind = match piece {
        None => base,
        Some(p) => match p.kind {
            PieceKind::Pawn => {
                if to.1 == spec_edge_offset(p.side.spec_not(), 0) {
                    base
                } else if from.1 == spec_edge_offset(p.side, 1)
                    && to.1 == spec_edge_offset(p.side, 3) {
                    base
                } else if from.0 != to.0 && prev_ep == Some(to) {
                    let victim = Pos(to.0, from.1);
                    base.push(Undo::Square(victim, moved.at(victim)))
                } else {
                    base
                }
            },
            PieceKind::Rook => {
                let row = spec_edge_offset(p.side, 0);
                let c = bm.castling(p.side);
                if (from == Pos(0i8, row) && c.queenside)
                    || (from == Pos(7i8, row) && c.kingside) {
                    base.push(Undo::Castling(p.side, c))
                } else {
                    base
                }
            },
            PieceKind::King => {
                let row = spec_edge_offset(p.side, 0);
                let c = bm.castling(p.side);
                let with_rook = if to.0 - from.0 == -2 && c.queenside {
                    let rf = Pos(0i8, row);
                    let rt = Pos((to.0 + 1) as i8, row);
                    base.push(Undo::Square(rf, moved.at(rf)))
                        .push(Undo::Square(rt, moved.set_sq(rf, None).at(rt)))
                } else if to.0 - from.0 == 2 && c.kingside {
                    let rf = Pos(7i8, row);
                    let rt = Pos((to.0 - 1) as i8, row);
                    base.push(Undo::Square(rf, moved.at(rf)))
                        .push(Undo::Square(rt, moved.set_sq(rf, None).at(rt)))
                } else {
                    base
                };
                if c.kingside || c.queenside {
                    with_rook.push(Undo::Castling(p.side, c))
                } else {
                    with_rook
                }
            },
            _ => base,
        },
    };
    let new_ep = move_model(bm, from, to).en_passant;
    if prev_ep is Some || new_ep is Some {
        with_kind.push(Undo::EnPassant(prev_ep))
    } else {
        with_kind
    }
}

/// One undo entry applied to a board model.
pub open spec fn apply_one(bm: BoardModel, u: Undo) -> BoardModel {
    match u {
        Undo::Square(p, v) => bm.set_sq(p, v),
        Undo::EnPassant(e) => bm.with_ep(e),
        Undo::Castling(side, c) => bm.with_castling(side, c),
    }
}

/// A change record replayed in reverse: the last entry is applied first, the
/// first entry last.
pub open spec fn replay(bm: BoardModel, cs: Seq<Undo>) -> BoardModel
    decreases cs.len(),
{
    if cs.len() == 0 {
        bm
    } else {
        apply_one(replay(bm, cs.drop_first()), cs.first())
    }
}

/// Every position a change record touches is on the board.
pub open spec fn wf_change(cs: Seq<Undo>) -> bool {
    forall|i: int| 0 <= i < cs.len() ==> match #[trigger] cs[i] {
        Undo::Square(p, _) => p.valid(),
        Undo::EnPassant(Some(p)) => p.valid(),
        _ => true,
    }
}

/// Replaying a record extended at its end first applies the new last entry.
pub proof fn lemma_replay_push(m: BoardModel, cs: Seq<Undo>, u: Undo)
    ensures
        replay(m, cs.push(u)) == replay(apply_one(m, u), cs),
    decreases cs.len(),
{
    if cs.len() == 0 {
        assert(cs.push(u).first() == u);
        assert(cs.push(u).drop_first() =~= cs);
        assert(replay(m, cs.push(u)) == apply_one(replay(m, cs), u));
        assert(replay(m, cs) == m);
        assert(replay(apply_one(m, u), cs) == apply_one(m, u));
    } else {
        assert(cs.push(u).first() == cs.first());
        assert(cs.push(u).drop_first() =~= cs.drop_first().push(u));
        assert(replay(m, cs.push(u))
            == apply_one(replay(m, cs.drop_first().push(u)), cs.first()));
        lemma_replay_push(m, cs.drop_first(), u);
        assert(replay(apply_one(m, u), cs)
            == apply_one(replay(apply_one(m, u), cs.drop_first()), cs.first()));
    }
}

/// Replaying a two-entry record applies the second entry, then the first.
proof fn lemma_replay2(m: BoardModel, a: Undo, b: Undo)
    ensures
        replay(m, seq![a, b]) == apply_one(apply_one(m, b), a),
{
    let s = seq![a, b];
    assert(s.first() == a);
    assert(s.drop_first() =~= seq![b]);
    assert(seq![b].first() == b);
    assert(seq![b].drop_first() =~= Seq::<Undo>::empty());
    assert(replay(m, Seq::<Undo>::empty()) == m);
    assert(replay(m, seq![b]) == apply_one(m, b));
    assert(replay(m, s) == apply_one(replay(m, seq![b]), a));
}

/// The board the conditional en-passant record, which stands last in every
/// change record, rewinds to: the moved board with the prior target back.
spec fn ep_peeled(bm: BoardModel, from: Pos, to: Pos) -> BoardModel {
    let mm = move_model(bm, from, to);
    if bm.en_passant is Some || mm.en_passant is Some {
        mm.with_ep(bm.en_passant)
    } else {
        mm
    }
}

/// Peeling the conditional en-passant record off a change record leaves the
/// per-kind entries, applied to `ep_peeled`.
proof fn lemma_rt_peel_ep(bm: BoardModel, from: Pos, to: Pos, with_kind: Seq<Undo>)
    requires
        change_model(bm, from, to) == if bm.en_passant is Some
            || move_model(bm, from, to).en_passant is Some {
            with_kind.push(Undo::EnPassant(bm.en_passant))
        } else {
            with_kind
        },
    ensures
        replay(move_model(bm, from, to), change_model(bm, from, to))
            == replay(ep_peeled(bm, from, to), with_kind),
{
    let mm = move_model(bm, from, to);
    if bm.en_passant is Some || mm.en_passant is Some {
        lemma_replay_push(mm, with_kind, Undo::EnPassant(bm.en_passant));
    }
}

/// Round trip for a move of a pawn (or of an empty source square).
proof fn lemma_rt_pawn(bm: BoardModel, from: Pos, to: Pos)
    requires
        bm.wf(),
        from.valid(),
        to.valid(),
        match bm.at(from) {
            Some(p) => p.kind == PieceKind::Pawn,
            None => true,
        },
    ensures
        replay(move_model(bm, from, to), change_model(bm, from, to)) == bm,
{
    let piece = bm.at(from);
    let prev_ep = bm.en_passant;
    let s0 = Undo::Square(from, piece);
    let s1 = Undo::Square(to, bm.set_sq(from, None).at(to));
    let base = seq![s0, s1];
    let m_ep = ep_peeled(bm, from, to);
    match piece {
        None => {
            lemma_rt_peel_ep(bm, from, to, base);
            lemma_replay2(m_ep, s0, s1);
            assert(replay(m_ep, base) =~~= bm);
        },
        Some(p) => {
            if !(to.1 == spec_edge_offset(p.side.spec_not(), 0))
                && !(from.1 == spec_edge_offset(p.side, 1)
                    && to.1 == spec_edge_offset(p.side, 3))
                && from.0 != to.0 && prev_ep == Some(to) {
                let victim = Pos(to.0, from.1);
                let moved = bm.with_ep(None).set_sq(from, None).set_sq(to, piece);
                let u = Undo::Square(victim, moved.at(victim));
                lemma_rt_peel_ep(bm, from, to, base.push(u));
                lemma_replay_push(m_ep, base, u);
                lemma_replay2(apply_one(m_ep, u), s0, s1);
                assert(replay(m_ep, base.push(u)) =~~= bm);
            } else {
                lemma_rt_peel_ep(bm, from, to, base);
                lemma_replay2(m_ep, s0, s1);
                assert(replay(m_ep, base) =~~= bm);
            }
        },
    }
}

/// Round trip for a move of a rook, a knight, a bishop or a queen.
proof fn lemma_rt_rook_other(bm: BoardModel, from: Pos, to: Pos)
    requires
        bm.wf(),
        from.valid(),
        to.valid(),
        match bm.at(from) {
            Some(p) => p.kind != PieceKind::Pawn && p.kind != PieceKind::King,
            None => false,
        },
    ensures
        replay(move_model(bm, from, to), change_model(bm, from, to)) == bm,
{
    let piece = bm.at(from);
    let p = piece->Some_0;
    let s0 = Undo::Square(from, piece);
    let s1 = Undo::Square(to, bm.set_sq(from, None).at(to));
    let base = seq![s0, s1];
    let m_ep = ep_peeled(bm, from, to);
    let row = spec_edge_offset(p.side, 0);
    let c = bm.castling(p.side);
    if p.kind == PieceKind::Rook
        && ((from == Pos(0i8, row) && c.queenside)
            || (from == Pos(7i8, row) && c.kingside)) {
        let u = Undo::Castling(p.side, c);
        lemma_rt_peel_ep(bm, from, to, base.push(u));
        lemma_replay_push(m_ep, base, u);
        lemma_replay2(apply_one(m_ep, u), s0, s1);
        assert(replay(m_ep, base.push(u)) =~~= bm);
    } else {
        lemma_rt_peel_ep(bm, from, to, base);
        lemma_replay2(m_ep, s0, s1);
        assert(replay(m_ep, base) =~~= bm);
    }
}

/// Round trip for a move of a king, a castling included.
proof fn lemma_rt_king(bm: BoardModel, from: Pos, to: Pos)
    requires
        bm.wf(),
        from.valid(),
        to.valid(),
        match bm.at(from) {
            Some(p) => p.kind == PieceKind::King,
            None => false,
        },
    ensures
        replay(move_model(bm, from, to), change_model(bm, from, to)) == bm,
{
    let piece = bm.at(from);
    let p = piece->Some_0;
    let s0 = Undo::Square(from, piece);
    let s1 = Undo::Square(to, bm.set_sq(from, None).at(to));
    let base = seq![s0, s1];
    let m_ep = ep_peeled(bm, from, to);
    let row = spec_edge_offset(p.side, 0);
    let c = bm.castling(p.side);
    let moved = bm.with_ep(None).set_sq(from, None).set_sq(to, piece);
    let rook: Option<(Pos, Pos)> = if to.0 - from.0 == -2 && c.queenside {
        Some((Pos(0i8, row), Pos((to.0 + 1) as i8, row)))
    } else if to.0 - from.0 == 2 && c.kingside {
        Some((Pos(7i8, row), Pos((to.0 - 1) as i8, row)))
    } else {
        None
    };
    let with_rook: Seq<Undo> = match rook {
        Some((rf, rt)) => base.push(Undo::Square(rf, moved.at(rf)))
            .push(Undo::Square(rt, moved.set_sq(rf, None).at(rt))),
        None => base,
    };
    let cleared = c.kingside || c.queenside;
    let with_kind: Seq<Undo> = if cleared {
        with_rook.push(Undo::Castling(p.side, c))
    } else {
        with_rook
    };
    lemma_rt_peel_ep(bm, from, to, with_kind);
    let m_cast = if cleared {
        let u = Undo::Castling(p.side, c);
        lemma_replay_push(m_ep, with_rook, u);
        apply_one(m_ep, u)
    } else {
        m_ep
    };
    assert(replay(m_ep, with_kind) == replay(m_cast, with_rook));
    match rook {
        Some((rf, rt)) => {
            let u1 = Undo::Square(rf, moved.at(rf));
            let u2 = Undo::Square(rt, moved.set_sq(rf, None).at(rt));
            lemma_replay_push(m_cast, base.push(u1), u2);
            lemma_replay_push(apply_one(m_cast, u2), base, u1);
            lemma_replay2(apply_one(apply_one(m_cast, u2), u1), s0, s1);
            assert(replay(m_cast, with_rook) =~~= bm);
        },
        None => {
            lemma_replay2(m_cast, s0, s1);
            assert(replay(m_cast, with_rook) =~~= bm);
        },
    }
}

/// Whether `side` owns the piece standing at `p`.
pub open spec fn own_at(bm: BoardModel, p: Pos, side: Side) -> bool {
    match bm.at(p) {
        Some(q) => q.side == side,
        None => false,
    }
}

/// While `PieceIter` doesn't actually implement the `Iterator` trait, it does
/// let you iterate the positions of one side's pieces using the `next`
/// function, scanning ranks top to bottom and files left to right.
#[derive(Debug, Clone, Copy)]
pub struct PieceIter {
    side: Side,
    pos: Pos,
}

impl PieceIter {
    /// The side whose pieces are enumerated.
    pub closed spec fn iter_side(self) -> Side {
        self.side
    }

    /// The scan cursor is on the board or one rank past its end.
    pub closed spec fn wf(self) -> bool {
        0 <= self.pos.0 < 8 && 0 <= self.pos.1 <= 8
    }

    /// The scan cursor as a single index in scan order.
    pub closed spec fn idx(self) -> int {
        self.pos.1 * 8 + self.pos.0
    }

    /// Gets the next position of a piece in the "iterator": the first square
    /// at or after the cursor, in scan order, holding a piece of the side.
    pub fn next(&mut self, board: &Board) -> (r: Option<Pos>)
        requires
            old(self).wf(),
        ensures
            final(self).wf(),
            final(self).iter_side() == old(self).iter_side(),
            final(self).idx() >= old(self).idx(),
            match r {
                Some(p) => {
                    &&& p.valid()
                    &&& own_at(board@, p, old(self).iter_side())
                    &&& p.1 * 8 + p.0 >= old(self).idx()
                    &&& final(self).idx() == p.1 * 8 + p.0 + 1
                    &&& forall|q: Pos| q.valid() && old(self).idx() <= q.1 * 8 + q.0 < p.1 * 8 + p.0
                        ==> !own_at(board@, q, old(self).iter_side())
                },
                None => forall|q: Pos| q.valid() && q.1 * 8 + q.0 >= old(self).idx()
                    ==> !own_at(board@, q, old(self).iter_side()),
            },
    {
        if !self.pos.is_valid() {
            return None;
        }
        loop
            invariant
                self.wf(),
                self.side == old(self).iter_side(),
                self.idx() >= old(self).idx(),
                forall|q: Pos| q.valid() && old(self).idx() <= q.1 * 8 + q.0 < self.idx()
                    ==> !own_at(board@, q, old(self).iter_side()),
            decreases 65 - self.idx(),
        {
            let pos = self.pos;
            if !pos.is_valid() {
                return None;
            }
            self.pos = if pos.0 + 1 < WIDTH {
                Pos(pos.0 + 1, pos.1)
            } else {
                Pos(0, pos.1 + 1)
            };
            let hit = match board.get(pos) {
                Some(p) => p.side == self.side,
                None => false,
            };
            if hit {
                return Some(pos);
            }
        }
    }
}

/// While `MoveIter` doesn't actually implement the `Iterator` trait, it does
/// let you iterate the destinations reachable from one square using the
/// `next` function, supplying the board on every call: the board may be
/// mutated and restored between calls, as the search does around each trial.
pub struct MoveIter {
    start: Pos,
    moves: arrayvec::ArrayVec<Pos, 10>,
    repeat: bool,
    repeat_cursor: Option<(Pos, Pos)>,
    i: usize,
    castle: bool,
    cursor_k: Ghost<int>,
}

impl MoveIter {
    /// The move table being walked.
    pub closed spec fn mv_seq(self) -> Seq<Pos> {
        pos_av_seq(self.moves)
    }

    /// The square moves are generated from.
    pub closed spec fn start_pos(self) -> Pos {
        self.start
    }

    /// Whether castling candidates are considered (false during the
    /// enumeration check detection performs).
    pub closed spec fn castle_flag(self) -> bool {
        self.castle
    }

    /// Structural well-formedness: the start square is on the board, the
    /// table entries are small steps, and an active sliding cursor stands a
    /// whole number of nonzero unit steps out.
    pub closed spec fn wf(self) -> bool {
        &&& (self.start.valid() || (self.mv_seq().len() == 0 && self.repeat_cursor is None))
        &&& self.i <= self.mv_seq().len()
        &&& forall|j: int| 0 <= j < self.mv_seq().len()
            ==> -2 <= (#[trigger] self.mv_seq()[j]).0 <= 2 && -2 <= self.mv_seq()[j].1 <= 2
        &&& (self.repeat ==> forall|j: int| 0 <= j < self.mv_seq().len()
            ==> -1 <= (#[trigger] self.mv_seq()[j]).0 <= 1 && -1 <= self.mv_seq()[j].1 <= 1
                && self.mv_seq()[j] != Pos(0i8, 0i8))
        &&& match self.repeat_cursor {
            Some((v, m)) => self.repeat && 1 <= self.cursor_k@ <= 15
                && -1 <= v.0 <= 1 && -1 <= v.1 <= 1 && v != Pos(0i8, 0i8)
                && m.0 == v.0 * self.cursor_k@ && m.1 == v.1 * self.cursor_k@,
            None => true,
        }
    }

    /// The destinations future `next` calls will yield, against a given
    /// board: what is left of the sliding cursor, then of the move table.
    pub closed spec fn remaining(self, bm: BoardModel) -> Seq<Pos> {
        (match self.repeat_cursor {
            Some((v, _)) => chain(bm, self.start, v, self.cursor_k@, self.castle),
            None => Seq::<Pos>::empty(),
        }) + rem_moves(bm, self.start, self.mv_seq(), self.repeat, self.i as int, self.castle)
    }

    /// Gets the next destination for a move in the "iterator".
    pub fn next(&mut self, board: &mut Board) -> (r: Option<Pos>)
        requires
            old(self).wf(),
            old(board)@.wf(),
        ensures
            final(board)@ == old(board)@,
            final(self).wf(),
            final(self).start_pos() == old(self).start_pos(),
            final(self).castle_flag() == old(self).castle_flag(),
            match r {
                Some(t) => t.valid()
                    && old(self).remaining(old(board)@)
                        == seq![t] + final(self).remaining(old(board)@),
                None => old(self).remaining(old(board)@).len() == 0
                    && final(self).remaining(old(board)@).len() == 0,
            },
        decreases (if old(self).castle_flag() { 5int } else { 2int }), 0int,
    {
        let ghost bm = board@;
        if let Some((velocity, m)) = self.repeat_cursor {
            let ghost k = self.cursor_k@;
            proof {
                assert(-15 <= m.0 <= 15 && -15 <= m.1 <= 15) by (nonlinear_arith)
                    requires
                        m.0 == velocity.0 * k,
                        m.1 == velocity.1 * k,
                        1 <= k <= 15,
                        -1 <= velocity.0 <= 1,
                        -1 <= velocity.1 <= 1,
                ;
            }
            let m2 = Pos(m.0 + velocity.0, m.1 + velocity.1);
            proof {
                assert(m2.0 == velocity.0 * (k + 1) && m2.1 == velocity.1 * (k + 1))
                    by (nonlinear_arith)
                    requires
                        m.0 == velocity.0 * k,
                        m.1 == velocity.1 * k,
                        m2.0 == m.0 + velocity.0,
                        m2.1 == m.1 + velocity.1,
                ;
            }
            let can = board.can_move(self.start, m2, self.castle);
            if can {
                let target = Pos(self.start.0 + m2.0, self.start.1 + m2.1);
                proof {
                    assert(target == padd(self.start, m2));
                    assert(target.valid());
                    assert((velocity.0 != 0 && velocity.0 * (k + 1) == m2.0 && -7 <= m2.0 <= 7)
                        || (velocity.1 != 0 && velocity.1 * (k + 1) == m2.1 && -7 <= m2.1 <= 7));
                    assert(k + 1 <= 7) by (nonlinear_arith)
                        requires
                            k >= 1,
                            (velocity.0 == 1 || velocity.0 == -1) && velocity.0 * (k + 1) == m2.0
                                && -7 <= m2.0 <= 7
                            || (velocity.1 == 1 || velocity.1 == -1)
                                && velocity.1 * (k + 1) == m2.1 && -7 <= m2.1 <= 7,
                    ;
                }
                if board.get(target).is_some() {
                    self.repeat_cursor = None;
                } else {
                    self.repeat_cursor = Some((velocity, m2));
                    self.cursor_k = Ghost(k + 1);
                }
                proof {
                    let cont = match self.repeat_cursor {
                        Some(_) => chain(bm, self.start, velocity, k + 1, self.castle),
                        None => Seq::<Pos>::empty(),
                    };
                    assert(Pos((velocity.0 * (k + 1)) as i8, (velocity.1 * (k + 1)) as i8) == m2);
                    assert(chain(bm, self.start, velocity, k, self.castle)
                        == seq![target] + cont);
                    assert(old(self).remaining(bm) =~= seq![target] + self.remaining(bm));
                }
                return Some(target);
            } else {
                self.repeat_cursor = None;
                proof {
                    assert(Pos((velocity.0 * (k + 1)) as i8, (velocity.1 * (k + 1)) as i8) == m2);
                    assert(chain(bm, self.start, velocity, k, self.castle)
                        =~= Seq::<Pos>::empty());
                    assert(old(self).remaining(bm) =~= self.remaining(bm));
                }
            }
        }
        let n = pos_av_len(&self.moves);
        while self.i < n
            invariant
                self.wf(),
                self.repeat_cursor is None,
                n == self.mv_seq().len(),
                self.start == old(self).start_pos(),
                self.castle == old(self).castle_flag(),
                board@ == bm,
                bm == old(board)@,
                bm.wf(),
                self.moves == old(self).moves,
                self.repeat == old(self).repeat,
                old(self).remaining(bm) == self.remaining(bm),
            decreases
                (if old(self).castle_flag() { 5int } else { 2int }), self.mv_seq().len() - self.i,
        {
            let ghost i0 = self.i as int;
            let m = pos_av_get(&self.moves, self.i);
            self.i = self.i + 1;
            let can = board.can_move(self.start, m, self.castle);
            if can {
                let target = Pos(self.start.0 + m.0, self.start.1 + m.1);
                proof {
                    assert(target == padd(self.start, m));
                    assert(target.valid());
                }
                if self.repeat {
                    if board.get(target).is_none() {
                        self.repeat_cursor = Some((m, m));
                        self.cursor_k = Ghost(1);
                    }
                }
                proof {
                    let slide = if self.repeat && bm.at(target) is None {
                        chain(bm, self.start, m, 1, self.castle)
                    } else {
                        Seq::<Pos>::empty()
                    };
                    assert(rem_moves(bm, self.start, self.mv_seq(), self.repeat, i0, self.castle)
                        == seq![target] + slide
                            + rem_moves(bm, self.start, self.mv_seq(), self.repeat, i0 + 1, self.castle));
                    assert(old(self).remaining(bm) =~= seq![target] + self.remaining(bm));
                }
                return Some(target);
            }
            proof {
                assert(rem_moves(bm, self.start, self.mv_seq(), self.repeat, i0, self.castle)
                    == rem_moves(bm, self.start, self.mv_seq(), self.repeat, i0 + 1, self.castle));
            }
        }
        proof {
            assert(old(self).remaining(bm) =~= Seq::<Pos>::empty());
            assert(self.remaining(bm) =~= Seq::<Pos>::empty());
        }
        None
    }
}

impl Board {
    /// An iterator over the positions of every piece that belongs to `side`.
    pub fn pieces(&self, side: Side) -> (r: PieceIter)
        ensures
            r.wf(),
            r.iter_side() == side,
            r.idx() == 0,
    {
        PieceIter { side, pos: Pos(0, 0) }
    }

    /// An iterator over the moves the piece at `pos` can make, castling
    /// candidates suppressed when `castle` is false. An empty or off-board
    /// square yields an empty move set, not a fault.
    pub(crate) fn moves_from(&self, pos: Pos, castle: bool) -> (r: MoveIter)
        ensures
            r.wf(),
            r.start_pos() == pos,
            r.castle_flag() == castle,
            r.remaining(self@) == dests(self@, pos, castle),
    {
        let got = if pos.is_valid() {
            self.get(pos)
        } else {
            None
        };
        let (moves, repeat) = match got {
            Some(piece) => piece.moves(),
            None => (pos_av_new(), false),
        };
        proof {
            match got {
                Some(piece) => piece.lemma_move_list_bounds(),
                None => {},
            }
        }
        MoveIter {
            start: pos,
            moves,
            repeat,
            repeat_cursor: None,
            i: 0,
            castle,
            cursor_k: Ghost(0),
        }
    }

    /// An iterator over the moves the piece at `pos` can make. An empty or
    /// off-board square yields an empty move set, not a fault.
    pub fn moves_for(&self, pos: Pos) -> (r: MoveIter)
        ensures
            r.wf(),
            r.start_pos() == pos,
            r.castle_flag() == true,
            r.remaining(self@) == dests(self@, pos, true),
    {
        self.moves_from(pos, true)
    }

    /// Does extra validation for a move. Returns whether the piece at `from`
    /// may take the relative step `m`; `allow_castling` false suppresses
    /// castling candidates, the tagged filter check detection enumerates
    /// under. Warning: this may return false positives if called on anything
    /// other than steps of the piece's own move table.
    pub fn can_move(&mut self, from: Pos, m: Pos, allow_castling: bool) -> (r: bool)
        requires
            old(self)@.wf(),
            from.valid(),
            -16 <= m.0 <= 16,
            -16 <= m.1 <= 16,
        ensures
            final(self)@ == old(self)@,
            r == can_move_spec(old(self)@, from, m, allow_castling),
        decreases (if allow_castling { 4int } else { 0int }), 0int,
    {
        let dest = Pos(from.0 + m.0, from.1 + m.1);
        if !dest.is_valid() {
            return false;
        }
        let piece = match self.get(from) {
            Some(piece) => piece,
            None => return false,
        };
        let friendly = match self.get(dest) {
            Some(q) => q.side == piece.side,
            None => false,
        };
        if friendly {
            return false;
        }
        match piece.kind {
            PieceKind::Pawn => {
                let cap = m.0 == 1 || m.0 == -1;
                let ep_ok = match self.en_passant {
                    Some(e) => e == dest,
                    None => false,
                };
                let first = (cap == self.get(dest).is_some()) || (cap && ep_ok);
                let second = !(m.1 == 2 || m.1 == -2)
                    || (from.1 == edge_offset(piece.side, 1)
                        && self.get(Pos(from.0, from.1 + m.1 / 2)).is_none());
                first && second
            },
            PieceKind::King => {
                if !(m.0 == 2 || m.0 == -2) {
                    return true;
                }
                if !allow_castling {
                    return false;
                }
                let row = edge_offset(piece.side, 0);
                if from.1 != row {
                    return false;
                }
                let clear = if m.0 < 0 {
                    self.castling(piece.side).queenside
                        && match self.get(Pos(0, row)) {
                            Some(q) => q.kind == PieceKind::Rook && q.side == piece.side,
                            None => false,
                        }
                        && self.get(Pos(1, row)).is_none()
                        && self.get(Pos(2, row)).is_none()
                        && self.get(Pos(3, row)).is_none()
                } else {
                    self.castling(piece.side).kingside
                        && match self.get(Pos(WIDTH - 1, row)) {
                            Some(q) => q.kind == PieceKind::Rook && q.side == piece.side,
                            None => false,
                        }
                        && self.get(Pos(WIDTH - 2, row)).is_none()
                        && self.get(Pos(WIDTH - 3, row)).is_none()
                };
                if !clear {
                    return false;
                }
                if self.check(piece.side).is_some() {
                    return false;
                }
                let mid = Pos(from.0 + m.0 / 2, from.1);
                let undo_mid = self.move_(from, mid);
                let check_mid = self.check(piece.side).is_some();
                self.undo(undo_mid);
                if check_mid {
                    return false;
                }
                let undo_full = self.move_(from, dest);
                let check_full = self.check(piece.side).is_some();
                self.undo(undo_full);
                !check_full
            },
            _ => true,
        }
    }

    /// Return whatever piece is threatening the specified side's king, if
    /// any: the first attacker in scan order. The answer is `Some` exactly
    /// when the side is in check.
    #[verifier::rlimit(60)]
    pub fn check(&mut self, side: Side) -> (r: Option<Pos>)
        requires
            old(self)@.wf(),
        ensures
            final(self)@ == old(self)@,
            r is Some <==> in_check(old(self)@, side),
            match r {
                Some(f) => f.valid() && attacks(old(self)@, f, side)
                    && forall|g: Pos| g.valid() && g.1 * 8 + g.0 < f.1 * 8 + f.0
                        ==> !attacks(old(self)@, g, side),
                None => !in_check(old(self)@, side),
            },
        decreases 3int, 0int,
    {
        let ghost bm = self@;
        let mut pieces_it = self.pieces(side.not());
        loop
            invariant_except_break
                self@ == bm,
                bm == old(self)@,
                bm.wf(),
                pieces_it.wf(),
                pieces_it.iter_side() == side.spec_not(),
                forall|f: Pos| f.valid() && f.1 * 8 + f.0 < pieces_it.idx()
                    ==> !attacks(bm, f, side),
            ensures
                self@ == bm,
                bm == old(self)@,
                forall|f: Pos| f.valid() ==> !attacks(bm, f, side),
            decreases 3int, 65 - pieces_it.idx(),
        {
            let ghost idx0 = pieces_it.idx();
            let from = match pieces_it.next(&*self) {
                Some(f) => f,
                None => break,
            };
            let ghost fidx = from.1 * 8 + from.0;
            let mut moves_it = self.moves_from(from, false);
            let ghost all = dests(bm, from, false);
            let ghost mut yielded: Seq<Pos> = Seq::empty();
            loop
                invariant_except_break
                    self@ == bm,
                    bm == old(self)@,
                    bm.wf(),
                    from.valid(),
                    own_at(bm, from, side.spec_not()),
                    fidx == from.1 * 8 + from.0,
                    forall|g: Pos| g.valid() && g.1 * 8 + g.0 < idx0 ==> !attacks(bm, g, side),
                    forall|q: Pos| q.valid() && idx0 <= q.1 * 8 + q.0 < fidx
                        ==> !own_at(bm, q, side.spec_not()),
                    moves_it.wf(),
                    moves_it.castle_flag() == false,
                    all == yielded + moves_it.remaining(bm),
                    all == dests(bm, from, false),
                    forall|j: int| 0 <= j < yielded.len()
                        ==> bm.at(#[trigger] yielded[j])
                            != Some(Piece { kind: PieceKind::King, side }),
                ensures
                    self@ == bm,
                    bm == old(self)@,
                    forall|j: int| 0 <= j < all.len()
                        ==> bm.at(#[trigger] all[j]) != Some(Piece { kind: PieceKind::King, side }),
                decreases 3int, moves_it.remaining(bm).len(),
            {
                let to = match moves_it.next(self) {
                    Some(t) => t,
                    None => {
                        proof {
                            assert(all =~= yielded);
                        }
                        break;
                    },
                };
                let hit = match self.get(to) {
                    Some(q) => q.kind == PieceKind::King && q.side == side,
                    None => false,
                };
                if hit {
                    proof {
                        assert(all == yielded + (seq![to] + moves_it.remaining(bm)));
                        assert(all[yielded.len() as int] == to);
                        assert(dests(bm, from, false).contains(to));
                        assert(dests(bm, from, false) == dests_nc(bm, from));
                        assert(bm.at(to) == Some(Piece { kind: PieceKind::King, side }));
                        assert(attack_hits(bm, from, to, side));
                        assert(attacks(bm, from, side));
                        assert forall|g: Pos| g.valid() && g.1 * 8 + g.0 < fidx
                            implies !attacks(bm, g, side) by {
                            if g.1 * 8 + g.0 >= idx0 {
                                assert(!own_at(bm, g, side.spec_not()));
                            }
                        }
                    }
                    return Some(from);
                }
                proof {
                    yielded = yielded.push(to);
                    assert(all =~= yielded + moves_it.remaining(bm));
                }
            }
            proof {
                assert(dests(bm, from, false) == dests_nc(bm, from));
                assert forall|t: Pos| !(#[trigger] attack_hits(bm, from, t, side)) by {
                    if dests_nc(bm, from).contains(t) {
                        let j = choose|j: int| 0 <= j < all.len() && all[j] == t;
                        assert(bm.at(t) != Some(Piece { kind: PieceKind::King, side }));
                    }
                }
                assert(!attacks(bm, from, side));
            }
        }
        proof {
            assert(!in_check(bm, side));
        }
        None
    }

    /// Returns true if every move the specified side can make leaves it in
    /// check after trial application; a side with no pieces or no moves
    /// counts as checkmated.
    #[verifier::rlimit(60)]
    pub fn is_checkmate(&mut self, side: Side) -> (r: bool)
        requires
            old(self)@.wf(),
        ensures
            final(self)@ == old(self)@,
            r == checkmate_spec(old(self)@, side),
    {
        let ghost bm = self@;
        let mut pieces_it = self.pieces(side);
        loop
            invariant_except_break
                self@ == bm,
                bm == old(self)@,
                bm.wf(),
                pieces_it.wf(),
                pieces_it.iter_side() == side,
                forall|f: Pos, j: int|
                    f.valid() && f.1 * 8 + f.0 < pieces_it.idx() && own_at(bm, f, side)
                        && 0 <= j < dests(bm, f, true).len()
                        ==> in_check(#[trigger] move_model(bm, f, dests(bm, f, true)[j]), side),
            ensures
                self@ == bm,
                bm == old(self)@,
                checkmate_spec(bm, side),
            decreases 65 - pieces_it.idx(),
        {
            let from = match pieces_it.next(&*self) {
                Some(f) => f,
                None => break,
            };
            let mut moves_it = self.moves_for(from);
            let ghost all = dests(bm, from, true);
            let ghost mut yielded: Seq<Pos> = Seq::empty();
            loop
                invariant_except_break
                    self@ == bm,
                    bm == old(self)@,
                    bm.wf(),
                    from.valid(),
                    own_at(bm, from, side),
                    moves_it.wf(),
                    moves_it.castle_flag() == true,
                    all == yielded + moves_it.remaining(bm),
                    all == dests(bm, from, true),
                    forall|j: int| 0 <= j < yielded.len()
                        ==> in_check(#[trigger] move_model(bm, from, all[j]), side),
                ensures
                    self@ == bm,
                    bm == old(self)@,
                    forall|j: int| 0 <= j < all.len()
                        ==> in_check(#[trigger] move_model(bm, from, all[j]), side),
                decreases moves_it.remaining(bm).len(),
            {
                let to = match moves_it.next(self) {
                    Some(t) => t,
                    None => {
                        proof {
                            assert(all =~= yielded);
                        }
                        break;
                    },
                };
                let undo_rec = self.move_(from, to);
                let escaped = self.check(side).is_none();
                self.undo(undo_rec);
                if escaped {
                    proof {
                        assert(all == yielded + (seq![to] + moves_it.remaining(bm)));
                        assert(all[yielded.len() as int] == to);
                        assert(dests(bm, from, true)[yielded.len() as int] == to);
                        assert(own_at(bm, from, side));
                        assert(!in_check(move_model(bm, from, to), side));
                        assert(!checkmate_spec(bm, side));
                    }
                    return false;
                }
                proof {
                    yielded = yielded.push(to);
                    assert(all =~= yielded + moves_it.remaining(bm));
                }
            }
        }
        true
    }
}

/// A possible step never lands on the mover's own side: its destination is
/// on the board and holds no friendly piece.
pub proof fn lemma_can_move_target(bm: BoardModel, from: Pos, m: Pos, castle: bool)
    requires
        can_move_spec(bm, from, m, castle),
    ensures
        bm.at(from) is Some,
        padd(from, m).valid(),
        !(bm.at(padd(from, m)) matches Some(q) && q.side == bm.at(from)->Some_0.side),
{
}

/// Every destination a sliding continuation yields is on the board and free
/// of a friendly piece.
proof fn lemma_chain_no_friendly(bm: BoardModel, start: Pos, v: Pos, k: int, castle: bool)
    ensures
        forall|j: int| 0 <= j < chain(bm, start, v, k, castle).len()
            ==> (#[trigger] chain(bm, start, v, k, castle)[j]).valid()
                && !(bm.at(chain(bm, start, v, k, castle)[j]) matches Some(q)
                    && q.side == bm.at(start)->Some_0.side),
    decreases 16 - k,
{
    if 0 <= k < 16 {
        let m = Pos((v.0 * (k + 1)) as i8, (v.1 * (k + 1)) as i8);
        if can_move_spec(bm, start, m, castle) {
            lemma_can_move_target(bm, start, m, castle);
            lemma_chain_no_friendly(bm, start, v, k + 1, castle);
        }
    }
}

/// Every destination the move table yields from index `i` onward is on the
/// board and free of a friendly piece.
proof fn lemma_rem_moves_no_friendly(
    bm: BoardModel,
    start: Pos,
    moves: Seq<Pos>,
    repeat: bool,
    i: int,
    castle: bool,
)
    ensures
        forall|j: int| 0 <= j < rem_moves(bm, start, moves, repeat, i, castle).len()
            ==> (#[trigger] rem_moves(bm, start, moves, repeat, i, castle)[j]).valid()
                && !(bm.at(rem_moves(bm, start, moves, repeat, i, castle)[j]) matches Some(q)
                    && q.side == bm.at(start)->Some_0.side),
    decreases moves.len() - i,
{
    if 0 <= i < moves.len() {
        lemma_rem_moves_no_friendly(bm, start, moves, repeat, i + 1, castle);
        if can_move_spec(bm, start, moves[i], castle) {
            lemma_can_move_target(bm, start, moves[i], castle);
            lemma_chain_no_friendly(bm, start, moves[i], 1, castle);
        }
    }
}

/// No piece has a generated destination landing on its own side's square,
/// and every generated destination is on the board.
pub proof fn lemma_dests_no_friendly_fire(bm: BoardModel, from: Pos, castle: bool)
    ensures
        forall|j: int| 0 <= j < dests(bm, from, castle).len()
            ==> (#[trigger] dests(bm, from, castle)[j]).valid()
                && !(bm.at(dests(bm, from, castle)[j]) matches Some(q)
                    && q.side == bm.at(from)->Some_0.side),
{
    match bm.at(from) {
        Some(p) => {
            lemma_rem_moves_no_friendly(bm, from, p.move_list(), p.repeats(), 0, castle);
        },
        None => {},
    }
}

/// A pawn moved to the farthest rank for its side becomes a queen of the
/// same side immediately.
pub proof fn lemma_promotion(bm: BoardModel, from: Pos, to: Pos)
    requires
        bm.wf(),
        from.valid(),
        to.valid(),
        bm.at(from) matches Some(p) && p.kind == PieceKind::Pawn,
        to.1 == spec_edge_offset(bm.at(from)->Some_0.side.spec_not(), 0),
    ensures
        move_model(bm, from, to).at(to)
            == Some(Piece { kind: PieceKind::Queen, side: bm.at(from)->Some_0.side }),
{
}

/// After a double step put a pawn beside an enemy pawn, the enemy pawn's
/// diagonal move to the passed-over square removes the double-stepped pawn:
/// its square becomes empty and the capturing pawn stands on the target.
pub proof fn lemma_en_passant_capture(bm: BoardModel, from: Pos, to: Pos)
    requires
        bm.wf(),
        from.valid(),
        to.valid(),
        bm.at(from) matches Some(p) && p.kind == PieceKind::Pawn,
        bm.en_passant == Some(to),
        from.0 != to.0,
        from.1 != to.1,
        to.1 != spec_edge_offset(bm.at(from)->Some_0.side.spec_not(), 0),
        !(from.1 == spec_edge_offset(bm.at(from)->Some_0.side, 1)
            && to.1 == spec_edge_offset(bm.at(from)->Some_0.side, 3)),
    ensures
        move_model(bm, from, to).at(Pos(to.0, from.1)) == Option::<Piece>::None,
        move_model(bm, from, to).at(to) == bm.at(from),
        move_model(bm, from, to).at(from) == Option::<Piece>::None,
{
}

/// Moving a king clears every castling right of its side.
pub proof fn lemma_king_move_clears_castling(bm: BoardModel, from: Pos, to: Pos)
    requires
        bm.wf(),
        from.valid(),
        to.valid(),
        bm.at(from) matches Some(p) && p.kind == PieceKind::King,
    ensures
        move_model(bm, from, to).castling(bm.at(from)->Some_0.side)
            == (Castling { queenside: false, kingside: false }),
{
}

/// Moving a rook off its home corner clears the corresponding right of its
/// side, and no move ever sets a right that was clear.
pub proof fn lemma_rook_move_clears_castling(bm: BoardModel, from: Pos, to: Pos)
    requires
        bm.wf(),
        from.valid(),
        to.valid(),
        bm.at(from) matches Some(p) && p.kind == PieceKind::Rook,
    ensures
        from == Pos(0i8, spec_edge_offset(bm.at(from)->Some_0.side, 0))
            ==> !move_model(bm, from, to).castling(bm.at(from)->Some_0.side).queenside,
        from == Pos(7i8, spec_edge_offset(bm.at(from)->Some_0.side, 0))
            ==> !move_model(bm, from, to).castling(bm.at(from)->Some_0.side).kingside,
{
}

/// A castling is refused whenever the king is in check, or any square it
/// traverses or lands on is attacked: a generated two-file king step implies
/// all three safety conditions held.
pub proof fn lemma_castling_needs_safety(bm: BoardModel, from: Pos, m: Pos)
    requires
        bm.at(from) matches Some(p) && p.kind == PieceKind::King,
        m.0 == 2 || m.0 == -2,
        can_move_spec(bm, from, m, true),
    ensures
        !in_check(bm, bm.at(from)->Some_0.side),
        !in_check(
            move_model(bm, from, Pos((from.0 + m.0 / 2) as i8, from.1)),
            bm.at(from)->Some_0.side,
        ),
        !in_check(move_model(bm, from, padd(from, m)), bm.at(from)->Some_0.side),
{
}

/// Castling rights never increase along a forward move: each right that holds
/// after a move held before it.
pub proof fn lemma_castling_monotone(bm: BoardModel, from: Pos, to: Pos, side: Side)
    requires
        bm.wf(),
        from.valid(),
        to.valid(),
    ensures
        move_model(bm, from, to).castling(side).queenside ==> bm.castling(side).queenside,
        move_model(bm, from, to).castling(side).kingside ==> bm.castling(side).kingside,
{
}

/// Replaying the change record of a move on the moved board restores the
/// exact prior board: squares, en-passant target and castling rights.
pub proof fn lemma_move_undo_round_trip(bm: BoardModel, from: Pos, to: Pos)
    requires
        bm.wf(),
        from.valid(),
        to.valid(),
    ensures
        replay(move_model(bm, from, to), change_model(bm, from, to)) == bm,
{
    match bm.at(from) {
        None => lemma_rt_pawn(bm, from, to),
        Some(p) => match p.kind {
            PieceKind::Pawn => lemma_rt_pawn(bm, from, to),
            PieceKind::King => lemma_rt_king(bm, from, to),
            _ => lemma_rt_rook_other(bm, from, to),
        },
    }
}

} // verus!
