use chess_minimax::Pos;
use chess_minimax::ParsePosError;
use chess_minimax::Side;
use chess_minimax::board::Board;
use chess_minimax::board::Castling;
use chess_minimax::piece::Piece;
use chess_minimax::piece::PieceKind;
use chess_minimax::serialize::serialize_board;

fn boards_equal(a: &Board, b: &Board) -> bool {
    serialize_board(a) == serialize_board(b)
}

fn collect_moves(board: &mut Board, from: Pos) -> Vec<Pos> {
    let mut out = Vec::new();
    let mut moves = board.moves_for(from);
    while let Some(to) = moves.next(board) {
        out.push(to);
    }
    out
}

#[test]
fn start_board_layout() {
    let board = Board::new();
    assert_eq!(
        board.get(Pos(0, 0)),
        Some(Piece::black(PieceKind::Rook))
    );
    assert_eq!(
        board.get(Pos(4, 7)),
        Some(Piece::white(PieceKind::King))
    );
    assert_eq!(board.get(Pos(3, 3)), None);
    for x in 0..8 {
        assert_eq!(board.get(Pos(x, 1)), Some(Piece::black(PieceKind::Pawn)));
        assert_eq!(board.get(Pos(x, 6)), Some(Piece::white(PieceKind::Pawn)));
    }
    let rows = board.rows();
    assert_eq!(rows[0][4], Some(Piece::black(PieceKind::King)));
    let collected: Vec<[Option<Piece>; 8]> = board.iter().cloned().collect();
    assert_eq!(collected.len(), 8);
    assert_eq!(collected[7][4], Some(Piece::white(PieceKind::King)));
    assert!(board.castling(Side::White).kingside);
    assert!(board.castling(Side::Black).queenside);
}

#[test]
fn piece_worth_and_chars() {
    assert_eq!(PieceKind::Pawn.worth(), 1);
    assert_eq!(PieceKind::Knight.worth(), 3);
    assert_eq!(PieceKind::Bishop.worth(), 3);
    assert_eq!(PieceKind::Rook.worth(), 5);
    assert_eq!(PieceKind::Queen.worth(), 9);
    assert_eq!(PieceKind::King.worth(), 0);
    assert_eq!(Piece::white(PieceKind::King).to_char(), '♔');
    assert_eq!(Piece::black(PieceKind::Pawn).to_char(), '♟');
}

#[test]
fn side_negation() {
    assert_eq!(Side::White.not(), Side::Black);
    assert_eq!(Side::Black.not(), Side::White);
}

#[test]
fn parse_positions() {
    assert_eq!(Pos::parse("a8"), Ok(Pos(0, 0)));
    assert_eq!(Pos::parse("h1"), Ok(Pos(7, 7)));
    assert_eq!(Pos::parse("E2"), Ok(Pos(4, 6)));
    assert_eq!(Pos::parse("e2xx"), Ok(Pos(4, 6)));
    assert_eq!(Pos::parse(""), Err(ParsePosError));
    assert_eq!(Pos::parse("a"), Err(ParsePosError));
    assert_eq!(Pos::parse("i1"), Err(ParsePosError));
    assert_eq!(Pos::parse("a9"), Err(ParsePosError));
    assert_eq!(Pos::parse("a0"), Err(ParsePosError));
    assert!(Pos(0, 0).is_valid());
    assert!(!Pos(-1, 0).is_valid());
    assert!(!Pos(0, 8).is_valid());
}

// A pawn's double step and a simple move both undo to the exact prior board,
// en-passant target and castling rights included.
#[test]
fn move_undo_round_trip() {
    let mut board = Board::new();
    let before = board;
    let change = board.move_(Pos(4, 6), Pos(4, 4));
    assert!(board.en_passant.is_some());
    assert!(!boards_equal(&before, &board));
    board.undo(change);
    assert!(boards_equal(&before, &board));

    // A knight move, with nothing captured.
    let before = board;
    let change = board.move_(Pos(1, 7), Pos(2, 5));
    board.undo(change);
    assert!(boards_equal(&before, &board));
}

#[test]
fn rook_and_king_moves_clear_castling_and_undo_restores() {
    let mut board = Board::new();
    // Lift the a2 pawn out of the way, then walk the a1 rook out.
    *board.get_mut(Pos(0, 6)) = None;
    let before = board;
    let change = board.move_(Pos(0, 7), Pos(0, 5));
    assert_eq!(
        board.castling(Side::White),
        Castling { queenside: false, kingside: true }
    );
    assert_eq!(
        board.castling(Side::Black),
        Castling { queenside: true, kingside: true }
    );
    board.undo(change);
    assert!(boards_equal(&before, &board));
    assert_eq!(
        board.castling(Side::White),
        Castling { queenside: true, kingside: true }
    );

    // Moving the king clears both rights at once.
    *board.get_mut(Pos(4, 6)) = None;
    let change = board.move_(Pos(4, 7), Pos(4, 6));
    assert_eq!(
        board.castling(Side::White),
        Castling { queenside: false, kingside: false }
    );
    board.undo(change);
    assert_eq!(
        board.castling(Side::White),
        Castling { queenside: true, kingside: true }
    );
}

// Standard start: the e2 pawn has exactly e3 and e4; the b1 knight has
// exactly a3 and c3; no piece may land on a friendly square.
#[test]
fn generation_counts_standard_start() {
    let mut board = Board::new();
    let pawn_moves = collect_moves(&mut board, Pos(4, 6));
    assert_eq!(pawn_moves.len(), 2);
    assert!(pawn_moves.contains(&Pos(4, 5)));
    assert!(pawn_moves.contains(&Pos(4, 4)));

    let knight_moves = collect_moves(&mut board, Pos(1, 7));
    assert_eq!(knight_moves.len(), 2);
    assert!(knight_moves.contains(&Pos(0, 5)));
    assert!(knight_moves.contains(&Pos(2, 5)));

    for side in [Side::Black, Side::White] {
        let mut pieces = board.pieces(side);
        let mut froms = Vec::new();
        loop {
            let b = board;
            match pieces.next(&b) {
                Some(f) => froms.push(f),
                None => break,
            }
        }
        for from in froms {
            for to in collect_moves(&mut board, from) {
                if let Some(p) = board.get(to) {
                    assert_ne!(p.side, side, "move lands on a friendly square");
                }
            }
        }
    }
}

#[test]
fn empty_square_has_no_moves() {
    let mut board = Board::new();
    assert_eq!(collect_moves(&mut board, Pos(4, 4)).len(), 0);
}

// Requesting moves for an off-board square yields an empty move set, not a
// fault.
#[test]
fn invalid_square_has_no_moves() {
    let mut board = Board::new();
    assert_eq!(collect_moves(&mut board, Pos(8, 0)).len(), 0);
    assert_eq!(collect_moves(&mut board, Pos(-1, 5)).len(), 0);
    assert_eq!(collect_moves(&mut board, Pos(3, 127)).len(), 0);
}

// Fool's mate: white is checkmated, black is not.
#[test]
fn fools_mate_detection() {
    let mut board = Board::new();
    board.move_(Pos(5, 6), Pos(5, 5)); // f2 f3
    board.move_(Pos(4, 1), Pos(4, 3)); // e7 e5
    board.move_(Pos(6, 6), Pos(6, 4)); // g2 g4
    board.move_(Pos(3, 0), Pos(7, 4)); // Qd8 h4
    assert!(board.check(Side::White).is_some());
    assert_eq!(board.check(Side::White), Some(Pos(7, 4)));
    assert!(board.is_checkmate(Side::White));
    assert!(!board.is_checkmate(Side::Black));
    assert!(board.check(Side::Black).is_none());
}

// After a double step, the adjacent enemy pawn may capture en passant onto
// the passed-over square, removing the double-stepped pawn.
#[test]
fn en_passant_capture() {
    let mut board = Board::new();
    board.move_(Pos(4, 6), Pos(4, 4)); // e2 e4
    board.move_(Pos(0, 1), Pos(0, 2)); // a7 a6
    board.move_(Pos(4, 4), Pos(4, 3)); // e4 e5
    board.move_(Pos(3, 1), Pos(3, 3)); // d7 d5, the double step
    // The target is the passed-over square d6.
    assert_eq!(board.en_passant, Some(Pos(3, 2)));

    // The white e5 pawn may move diagonally onto the passed-over square d6.
    let dests = collect_moves(&mut board, Pos(4, 3));
    assert!(dests.contains(&Pos(3, 2)));

    let before = board;
    let change = board.move_(Pos(4, 3), Pos(3, 2));
    assert_eq!(board.get(Pos(3, 2)), Some(Piece::white(PieceKind::Pawn)));
    assert_eq!(board.get(Pos(3, 3)), None, "the double-stepped pawn is gone");
    assert_eq!(board.get(Pos(4, 3)), None);

    board.undo(change);
    assert!(boards_equal(&before, &board));
    assert_eq!(board.get(Pos(3, 3)), Some(Piece::black(PieceKind::Pawn)));
}

// A pawn reaching the farthest rank becomes a queen of its own side at once.
#[test]
fn promotion_to_queen() {
    let mut board = Board::new();
    *board.get_mut(Pos(1, 1)) = Some(Piece::white(PieceKind::Pawn));
    *board.get_mut(Pos(1, 0)) = None;
    let change = board.move_(Pos(1, 1), Pos(1, 0));
    assert_eq!(board.get(Pos(1, 0)), Some(Piece::white(PieceKind::Queen)));
    board.undo(change);
    assert_eq!(board.get(Pos(1, 1)), Some(Piece::white(PieceKind::Pawn)));
    assert_eq!(board.get(Pos(1, 0)), None);

    // Black promotes on the other edge, by capture.
    let mut board = Board::new();
    *board.get_mut(Pos(2, 6)) = Some(Piece::black(PieceKind::Pawn));
    let change = board.move_(Pos(2, 6), Pos(1, 7));
    assert_eq!(board.get(Pos(1, 7)), Some(Piece::black(PieceKind::Queen)));
    board.undo(change);
    assert_eq!(board.get(Pos(1, 7)), Some(Piece::white(PieceKind::Knight)));
}

// Castling works when the path is clear and safe, moves the rook too, and is
// refused while any square the king traverses is attacked.
#[test]
fn castling_path_safety() {
    let mut board = Board::new();
    *board.get_mut(Pos(5, 7)) = None; // f1
    *board.get_mut(Pos(6, 7)) = None; // g1
    let dests = collect_moves(&mut board, Pos(4, 7));
    assert!(dests.contains(&Pos(6, 7)), "kingside castling is available");

    let change = board.move_(Pos(4, 7), Pos(6, 7));
    assert_eq!(board.get(Pos(6, 7)), Some(Piece::white(PieceKind::King)));
    assert_eq!(board.get(Pos(5, 7)), Some(Piece::white(PieceKind::Rook)));
    assert_eq!(board.get(Pos(7, 7)), None);
    assert_eq!(
        board.castling(Side::White),
        Castling { queenside: false, kingside: false }
    );
    board.undo(change);
    assert_eq!(board.get(Pos(4, 7)), Some(Piece::white(PieceKind::King)));
    assert_eq!(board.get(Pos(7, 7)), Some(Piece::white(PieceKind::Rook)));
    assert_eq!(
        board.castling(Side::White),
        Castling { queenside: true, kingside: true }
    );

    // A black rook eyeing f1 makes the same castling illegal: the king would
    // pass through an attacked square.
    *board.get_mut(Pos(5, 6)) = None; // clear the f2 pawn
    *board.get_mut(Pos(5, 4)) = Some(Piece::black(PieceKind::Rook));
    let dests = collect_moves(&mut board, Pos(4, 7));
    assert!(!dests.contains(&Pos(6, 7)), "castling through an attacked square");

    // Take the attacker away again and the castling returns.
    *board.get_mut(Pos(5, 4)) = None;
    let dests = collect_moves(&mut board, Pos(4, 7));
    assert!(dests.contains(&Pos(6, 7)));
}

#[test]
fn castling_refused_without_rights() {
    let mut board = Board::new();
    *board.get_mut(Pos(5, 7)) = None;
    *board.get_mut(Pos(6, 7)) = None;
    // Walk the h1 rook out and back: the kingside right is gone for good.
    let _ = board.move_(Pos(7, 7), Pos(7, 6));
    let _ = board.move_(Pos(7, 6), Pos(7, 7));
    let dests = collect_moves(&mut board, Pos(4, 7));
    assert!(!dests.contains(&Pos(6, 7)));
}
