//! The persisted board byte layout: one flags byte (bit 0 = en-passant
//! target present, bits 1-4 the castling rights), an optional en-passant
//! square index, then 32 bytes holding the 64 squares at one nibble per
//! square (3 bits piece-kind code, 1 bit side), high nibble first, ranks in
//! board order. Reading and writing the bytes is a caller's concern; this
//! module turns boards into bytes and bytes into boards, exactly.

use vstd::prelude::*;
use crate::{Pos, Side};
use crate::board::{Board, BoardModel, Castling};
use crate::piece::{Piece, PieceKind};

verus! {

/// The single error of deserialization: the bytes are the wrong length or
/// hold an out-of-range value.
#[derive(Debug, Clone, Copy, PartialEq, Eq, Structural)]
pub struct CorruptedData;

/// The 3-bit code of a piece kind.
pub open spec fn kind_code(k: PieceKind) -> u8 {
    match k {
        PieceKind::Pawn => 1,
        PieceKind::Knight => 2,
        PieceKind::Bishop => 3,
        PieceKind::Rook => 4,
        PieceKind::Queen => 5,
        PieceKind::King => 6,
    }
}

/// The nibble of one square: kind code in the high 3 bits, side in the low
/// bit (1 = white), 0 for an empty square.
pub open spec fn nibble_of(op: Option<Piece>) -> u8 {
    match op {
        None => 0,
        Some(p) => (kind_code(p.kind) * 2 + if p.side == Side::White { 1 as u8 } else { 0 as u8 }) as u8,
    }
}

/// The square a nibble decodes to: codes 1 to 6 give a piece, 0 and 7 give
/// an empty square (7 is refused earlier by whole-board deserialization).
pub open spec fn piece_of_nibble(n: u8) -> Option<Piece> {
    let side = if n % 2 == 1 { Side::White } else { Side::Black };
    let code = n / 2;
    if code == 1 {
        Some(Piece { kind: PieceKind::Pawn, side })
    } else if code == 2 {
        Some(Piece { kind: PieceKind::Knight, side })
    } else if code == 3 {
        Some(Piece { kind: PieceKind::Bishop, side })
    } else if code == 4 {
        Some(Piece { kind: PieceKind::Rook, side })
    } else if code == 5 {
        Some(Piece { kind: PieceKind::Queen, side })
    } else if code == 6 {
        Some(Piece { kind: PieceKind::King, side })
    } else {
        None
    }
}

/// Two squares packed into one byte, the first in the high nibble.
pub open spec fn pieces_byte(a: Option<Piece>, b: Option<Piece>) -> u8 {
    (nibble_of(a) * 16 + nibble_of(b)) as u8
}

/// The single-byte index of a position: `file + rank * 8`.
pub open spec fn pos_index(p: Pos) -> u8 {
    (p.0 + p.1 * 8) as u8
}

/// The flags byte: bit 0 en-passant present, bits 1-4 the castling rights
/// (black queenside, black kingside, white queenside, white kingside).
pub open spec fn flags_byte(bm: BoardModel) -> u8 {
    ((if bm.en_passant is Some { 1 as u8 } else { 0 as u8 })
        + (if bm.castling_black.queenside { 2 as u8 } else { 0 as u8 })
        + (if bm.castling_black.kingside { 4 as u8 } else { 0 as u8 })
        + (if bm.castling_white.queenside { 8 as u8 } else { 0 as u8 })
        + (if bm.castling_white.kingside { 16 as u8 } else { 0 as u8 })) as u8
}

/// The 32 packed square bytes, ranks in board order.
pub open spec fn squares_bytes(bm: BoardModel) -> Seq<u8> {
    Seq::new(
        32,
        |i: int| pieces_byte(
            bm.at(Pos((2 * (i % 4)) as i8, (i / 4) as i8)),
            bm.at(Pos((2 * (i % 4) + 1) as i8, (i / 4) as i8)),
        ),
    )
}

/// The serialized form of a board.
pub open spec fn board_bytes(bm: BoardModel) -> Seq<u8> {
    let ep = match bm.en_passant {
        Some(p) => seq![pos_index(p)],
        None => Seq::<u8>::empty(),
    };
    seq![flags_byte(bm)] + ep + squares_bytes(bm)
}

/// One nibble of a byte: `j == 0` is the high nibble.
pub open spec fn nib(b: u8, j: int) -> u8 {
    if j == 0 {
        b / 16
    } else {
        b % 16
    }
}

/// Whether any of the 32 square bytes holds the unused piece code 7.
pub open spec fn has_bad_code(s: Seq<u8>, hdr: int) -> bool {
    exists|i: int| 0 <= i < 32
        && (nib(#[trigger] s[hdr + i], 0) / 2 == 7 || nib(s[hdr + i], 1) / 2 == 7)
}

/// What a byte sequence deserializes to, or nothing when it is the wrong
/// length or holds an out-of-range value (an en-passant index off the board,
/// or the unused piece code 7).
pub open spec fn parse_board(s: Seq<u8>) -> Option<BoardModel> {
    if s.len() < 1 {
        None
    } else {
        let flags = s[0];
        let ep_present = flags % 2 == 1;
        let hdr: int = if ep_present { 2 } else { 1 };
        if s.len() != hdr + 32 {
            None
        } else if ep_present && s[1] >= 64 {
            None
        } else if has_bad_code(s, hdr) {
            None
        } else {
            Some(
                BoardModel {
                    squares: Seq::new(
                        8,
                        |y: int| Seq::new(
                            8,
                            |x: int| piece_of_nibble(nib(s[hdr + y * 4 + x / 2], x % 2)),
                        ),
                    ),
                    en_passant: if ep_present {
                        Some(Pos((s[1] % 8) as i8, (s[1] / 8) as i8))
                    } else {
                        None
                    },
                    castling_black: Castling {
                        queenside: (flags / 2) % 2 == 1,
                        kingside: (flags / 4) % 2 == 1,
                    },
                    castling_white: Castling {
                        queenside: (flags / 8) % 2 == 1,
                        kingside: (flags / 16) % 2 == 1,
                    },
                },
            )
        }
    }
}

/// Serialize a position into a byte.
pub fn serialize_pos(pos: Pos) -> (r: u8)
    requires
        pos.valid(),
    ensures
        r == pos_index(pos),
        r < 64,
{
    let Pos(x, y) = pos;
    (x as u8) + (y as u8) * 8
}

/// Deserialize a byte into a position; indices off the board give nothing.
pub fn deserialize_pos(byte: u8) -> (r: Option<Pos>)
    ensures
        byte < 64 ==> r == Some(Pos((byte % 8) as i8, (byte / 8) as i8)),
        byte >= 64 ==> r is None,
        r matches Some(p) ==> p.valid() && pos_index(p) == byte,
{
    if byte < 64 {
        Some(Pos((byte % 8) as i8, (byte / 8) as i8))
    } else {
        None
    }
}

/// The nibble of one square, executable form.
fn piece_nibble(op: Option<Piece>) -> (r: u8)
    ensures
        r == nibble_of(op),
        r <= 13,
{
    match op {
        None => 0,
        Some(p) => {
            let code: u8 = match p.kind {
                PieceKind::Pawn => 1,
                PieceKind::Knight => 2,
                PieceKind::Bishop => 3,
                PieceKind::Rook => 4,
                PieceKind::Queen => 5,
                PieceKind::King => 6,
            };
            let bit: u8 = match p.side {
                Side::White => 1,
                Side::Black => 0,
            };
            code * 2 + bit
        },
    }
}

/// The square a nibble decodes to, executable form.
fn piece_from_nibble(n: u8) -> (r: Option<Piece>)
    ensures
        r == piece_of_nibble(n),
{
    let side = if n % 2 == 1 { Side::White } else { Side::Black };
    match n / 2 {
        1 => Some(Piece { kind: PieceKind::Pawn, side }),
        2 => Some(Piece { kind: PieceKind::Knight, side }),
        3 => Some(Piece { kind: PieceKind::Bishop, side }),
        4 => Some(Piece { kind: PieceKind::Rook, side }),
        5 => Some(Piece { kind: PieceKind::Queen, side }),
        6 => Some(Piece { kind: PieceKind::King, side }),
        _ => None,
    }
}

/// Serialize 2 pieces into one single byte.
pub fn serialize_pieces(pieces: &[Option<Piece>; 2]) -> (r: u8)
    ensures
        r == pieces_byte(pieces@[0], pieces@[1]),
{
    let hi = piece_nibble(pieces[0]);
    let lo = piece_nibble(pieces[1]);
    hi * 16 + lo
}

/// Deserialize a byte into 2 pieces. The unused code 7 decodes to an empty
/// square here; whole-board deserialization refuses it first.
pub fn deserialize_pieces(byte: u8) -> (r: [Option<Piece>; 2])
    ensures
        r@[0] == piece_of_nibble(nib(byte, 0)),
        r@[1] == piece_of_nibble(nib(byte, 1)),
{
    [piece_from_nibble(byte / 16), piece_from_nibble(byte % 16)]
}

/// Serialize a board to bytes.
pub fn serialize_board(board: &Board) -> (r: Vec<u8>)
    requires
        board@.wf(),
    ensures
        r@ == board_bytes(board@),
{
    let ghost target = board_bytes(board@);
    let mut out: Vec<u8> = Vec::new();

    let mut flags: u8 = 0;
    if board.en_passant.is_some() {
        flags = flags + 1;
    }
    if board.castling_black.queenside {
        flags = flags + 2;
    }
    if board.castling_black.kingside {
        flags = flags + 4;
    }
    if board.castling_white.queenside {
        flags = flags + 8;
    }
    if board.castling_white.kingside {
        flags = flags + 16;
    }
    out.push(flags);

    if let Some(en_passant) = board.en_passant {
        out.push(serialize_pos(en_passant));
    }
    let hdr = out.len();
    proof {
        assert(out@ =~= target.take(hdr as int));
    }

    let mut i: usize = 0;
    while i < 32
        invariant
            board@.wf(),
            i <= 32,
            hdr == (if board@.en_passant is Some { 2 as int } else { 1 as int }),
            target == board_bytes(board@),
            out@ =~= target.take(hdr + i),
        decreases 32 - i,
    {
        let y = (i / 4) as i8;
        let x = (2 * (i % 4)) as i8;
        let a = board.get(Pos(x, y));
        let b = board.get(Pos(x + 1, y));
        let byte = serialize_pieces(&[a, b]);
        out.push(byte);
        i = i + 1;
        proof {
            assert(out@ =~= target.take(hdr + i));
        }
    }
    proof {
        assert(out@ =~= target);
    }
    out
}

/// Deserialize a board from bytes. Bytes of the wrong length or holding an
/// out-of-range value give the corrupted-data error and nothing else; the
/// board handed back is exactly what the bytes describe.
pub fn deserialize_board(bytes: &[u8]) -> (r: Result<Board, CorruptedData>)
    ensures
        match r {
            Ok(b) => parse_board(bytes@) == Some(b@) && b@.wf(),
            Err(_) => parse_board(bytes@) is None,
        },
{
    let n = bytes.len();
    if n < 1 {
        return Err(CorruptedData);
    }
    let flags = bytes[0];
    let ep_present = flags % 2 == 1;
    let hdr: usize = if ep_present { 2 } else { 1 };
    if n != hdr + 32 {
        return Err(CorruptedData);
    }
    let en_passant: Option<Pos> = if ep_present {
        let b = bytes[1];
        if b >= 64 {
            return Err(CorruptedData);
        }
        Some(Pos((b % 8) as i8, (b / 8) as i8))
    } else {
        None
    };

    let mut i: usize = 0;
    while i < 32
        invariant
            i <= 32,
            n == bytes@.len(),
            n == hdr + 32,
            hdr == (if bytes@[0] % 2 == 1 { 2 as int } else { 1 as int }),
            forall|k: int| 0 <= k < i ==> nib(#[trigger] bytes@[hdr + k], 0) / 2 != 7
                && nib(bytes@[hdr + k], 1) / 2 != 7,
        decreases 32 - i,
    {
        let b = bytes[hdr + i];
        if b / 16 / 2 == 7 || b % 16 / 2 == 7 {
            proof {
                assert(nib(bytes@[hdr + i], 0) / 2 == 7 || nib(bytes@[hdr + i], 1) / 2 == 7);
                assert(has_bad_code(bytes@, hdr as int));
            }
            return Err(CorruptedData);
        }
        i = i + 1;
    }

    let ghost parsed = parse_board(bytes@)->Some_0;
    proof {
        assert(!has_bad_code(bytes@, hdr as int));
        assert(parse_board(bytes@) is Some);
    }

    let mut board = Board::new();
    board.set_en_passant(en_passant);
    board.set_castling(
        Side::Black,
        Castling { queenside: flags / 2 % 2 == 1, kingside: flags / 4 % 2 == 1 },
    );
    board.set_castling(
        Side::White,
        Castling { queenside: flags / 8 % 2 == 1, kingside: flags / 16 % 2 == 1 },
    );
    let mut y: usize = 0;
    while y < 8
        invariant
            y <= 8,
            n == bytes@.len(),
            n == hdr + 32,
            hdr == (if bytes@[0] % 2 == 1 { 2 as int } else { 1 as int }),
            board@.wf(),
            parsed.wf(),
            board@.en_passant == parsed.en_passant,
            board@.castling_black == parsed.castling_black,
            board@.castling_white == parsed.castling_white,
            parsed == parse_board(bytes@)->Some_0,
            parse_board(bytes@) is Some,
            forall|yy: int, xx: int| 0 <= yy < y && 0 <= xx < 8
                ==> #[trigger] board@.squares[yy][xx] == parsed.squares[yy][xx],
        decreases 8 - y,
    {
        let mut x: usize = 0;
        while x < 8
            invariant
                y < 8,
                x <= 8,
                n == bytes@.len(),
                n == hdr + 32,
                hdr == (if bytes@[0] % 2 == 1 { 2 as int } else { 1 as int }),
                board@.wf(),
                parsed.wf(),
                board@.en_passant == parsed.en_passant,
                board@.castling_black == parsed.castling_black,
                board@.castling_white == parsed.castling_white,
                parsed == parse_board(bytes@)->Some_0,
                parse_board(bytes@) is Some,
                forall|yy: int, xx: int| 0 <= yy < y && 0 <= xx < 8
                    ==> #[trigger] board@.squares[yy][xx] == parsed.squares[yy][xx],
                forall|xx: int| 0 <= xx < x
                    ==> #[trigger] board@.squares[y as int][xx] == parsed.squares[y as int][xx],
            decreases 8 - x,
        {
            let b = bytes[hdr + y * 4 + x / 2];
            let nibble = if x % 2 == 0 { b / 16 } else { b % 16 };
            let _ = board.set_at(Pos(x as i8, y as i8), piece_from_nibble(nibble));
            x = x + 1;
        }
        y = y + 1;
    }
    proof {
        assert(board@ =~~= parsed);
    }
    Ok(board)
}

/// Serialization round trip: the bytes of a well-formed board deserialize to
/// exactly that board.
pub proof fn lemma_board_bytes_round_trip(bm: BoardModel)
    requires
        bm.wf(),
    ensures
        parse_board(board_bytes(bm)) == Some(bm),
{
    let s = board_bytes(bm);
    let flags = flags_byte(bm);
    assert(s[0] == flags);
    assert(flags % 2 == 1 <==> bm.en_passant is Some);
    let hdr: int = if bm.en_passant is Some { 2 } else { 1 };
    assert(s.len() == hdr + 32);
    assert(forall|i: int| 0 <= i < 32 ==> #[trigger] s[hdr + i] == squares_bytes(bm)[i]);
    assert forall|a: Option<Piece>, b: Option<Piece>| true implies
        nib(#[trigger] pieces_byte(a, b), 0) == nibble_of(a)
            && nib(pieces_byte(a, b), 1) == nibble_of(b) by {
        assert(nibble_of(a) <= 13 && nibble_of(b) <= 13);
        assert((nibble_of(a) * 16 + nibble_of(b)) / 16 == nibble_of(a)) by (nonlinear_arith)
            requires nibble_of(a) <= 13 && nibble_of(b) <= 13;
        assert((nibble_of(a) * 16 + nibble_of(b)) % 16 == nibble_of(b)) by (nonlinear_arith)
            requires nibble_of(a) <= 13 && nibble_of(b) <= 13;
    }
    assert(forall|op: Option<Piece>| #[trigger] piece_of_nibble(nibble_of(op)) == op);
    if bm.en_passant is Some {
        let p = bm.en_passant->Some_0;
        assert(s[1] == pos_index(p));
        assert(pos_index(p) < 64);
        assert(pos_index(p) % 8 == p.0 && pos_index(p) / 8 == p.1) by (nonlinear_arith)
            requires 0 <= p.0 < 8 && 0 <= p.1 < 8 && pos_index(p) == p.0 + p.1 * 8;
    }
    assert(!has_bad_code(s, hdr)) by {
        assert forall|i: int| 0 <= i < 32 implies nib(#[trigger] s[hdr + i], 0) / 2 != 7
            && nib(s[hdr + i], 1) / 2 != 7 by {
            assert(s[hdr + i] == squares_bytes(bm)[i]);
        }
    }
    let parsed = parse_board(s);
    assert(parsed is Some);
    assert forall|y: int, x: int| 0 <= y < 8 && 0 <= x < 8 implies
        #[trigger] parsed->Some_0.squares[y][x] == bm.squares[y][x] by {
        let i = y * 4 + x / 2;
        assert(0 <= i < 32);
        assert(i / 4 == y && i % 4 == x / 2) by (nonlinear_arith)
            requires i == y * 4 + x / 2 && 0 <= x < 8 && 0 <= y < 8;
        assert(2 * (i % 4) == x || 2 * (i % 4) + 1 == x);
        assert(s[hdr + i] == pieces_byte(
            bm.at(Pos((2 * (i % 4)) as i8, (i / 4) as i8)),
            bm.at(Pos((2 * (i % 4) + 1) as i8, (i / 4) as i8)),
        ));
    }
    assert(parsed->Some_0 =~~= bm);
}

} // verus!
