use std::sync::atomic::AtomicBool;
use std::sync::atomic::Ordering;

use chess_minimax::Pos;
use chess_minimax::Side;
use chess_minimax::board::Board;
use chess_minimax::minimax::MinimaxResult;
use chess_minimax::piece::Piece;
use chess_minimax::piece::PieceKind;

/// A plain, unpruned minimax over the same enumeration order, the reference
/// the pruning search is compared against.
fn full_minimax(board: &mut Board, depth: u8, original: Side, player: Side) -> Option<MinimaxResult> {
    let maximizing = original == player;
    let mut best: Option<MinimaxResult> = None;
    let mut pieces = board.pieces(player);
    loop {
        let snapshot = *board;
        let from = match pieces.next(&snapshot) {
            Some(f) => f,
            None => break,
        };
        let mut moves = board.moves_for(from);
        while let Some(to) = moves.next(board) {
            let game_over = if maximizing {
                99999 + depth as i32
            } else {
                -99999 - depth as i32
            };
            let captures_king = match board.get(to) {
                Some(p) => p.kind == PieceKind::King,
                None => false,
            };
            let score = if captures_king {
                game_over
            } else {
                let undo = board.move_(from, to);
                let s = if depth == 1 {
                    board.score(original) - board.score(original.not())
                } else {
                    full_minimax(board, depth - 1, original, player.not())
                        .map(|r| r.score)
                        .unwrap_or(game_over)
                };
                board.undo(undo);
                s
            };
            let take = match &best {
                None => true,
                Some(b) => {
                    if maximizing {
                        score > b.score
                    } else {
                        score < b.score
                    }
                }
            };
            if take {
                best = Some(MinimaxResult { score, from, to });
            }
        }
    }
    best
}

fn clear_side(board: &mut Board, side: Side) {
    for y in 0..8i8 {
        for x in 0..8i8 {
            if let Some(p) = board.get(Pos(x, y)) {
                if p.side == side {
                    *board.get_mut(Pos(x, y)) = None;
                }
            }
        }
    }
}

// Standard start: 39 points of material, a hundredfold, plus 20 reachable
// squares (16 pawn steps and 4 knight steps), for either side.
#[test]
fn score_standard_start() {
    let mut board = Board::new();
    assert_eq!(board.score(Side::White), 3920);
    assert_eq!(board.score(Side::Black), 3920);
}

#[test]
fn score_counts_material() {
    let mut board = Board::new();
    clear_side(&mut board, Side::Black);
    *board.get_mut(Pos(0, 0)) = Some(Piece::black(PieceKind::King));
    let score = board.score(Side::Black);
    // A lone king: no material, only its three reachable corner squares.
    assert_eq!(score, 3);
}

// The pruning search and the unpruned one agree on move and score.
#[test]
fn alpha_beta_matches_full_minimax_at_start() {
    let mut board = Board::new();
    for depth in 1..=2u8 {
        for side in [Side::White, Side::Black] {
            let pruned = board.minimax(depth, side, None);
            let full = full_minimax(&mut board, depth, side, side);
            assert_eq!(pruned, full, "depth {} side {:?}", depth, side);
        }
    }
}

#[test]
fn alpha_beta_matches_full_minimax_sparse() {
    let mut board = Board::new();
    clear_side(&mut board, Side::White);
    clear_side(&mut board, Side::Black);
    *board.get_mut(Pos(4, 7)) = Some(Piece::white(PieceKind::King));
    *board.get_mut(Pos(4, 0)) = Some(Piece::black(PieceKind::King));
    *board.get_mut(Pos(0, 4)) = Some(Piece::white(PieceKind::Rook));
    *board.get_mut(Pos(7, 2)) = Some(Piece::black(PieceKind::Bishop));
    *board.get_mut(Pos(2, 2)) = Some(Piece::black(PieceKind::Pawn));
    for depth in 1..=3u8 {
        for side in [Side::White, Side::Black] {
            let pruned = board.minimax(depth, side, None);
            let full = full_minimax(&mut board, depth, side, side);
            assert_eq!(pruned, full, "depth {} side {:?}", depth, side);
        }
    }
}

#[test]
fn minimax_returns_a_generated_move() {
    let mut board = Board::new();
    let r = board.minimax(2, Side::White, None).expect("white has moves");
    assert_eq!(board.get(r.from).map(|p| p.side), Some(Side::White));
    let mut found = false;
    let mut moves = board.moves_for(r.from);
    while let Some(to) = moves.next(&mut board) {
        if to == r.to {
            found = true;
        }
    }
    assert!(found, "the chosen move is one the generator yields");
}

#[test]
fn minimax_none_without_pieces() {
    let mut board = Board::new();
    clear_side(&mut board, Side::Black);
    assert_eq!(board.minimax(1, Side::Black, None), None);
}

#[test]
fn minimax_leaves_board_unchanged() {
    let mut board = Board::new();
    let before = *board.rows();
    let _ = board.minimax(2, Side::Black, None);
    assert_eq!(*board.rows(), before);
    assert_eq!(board.en_passant, None);
}

#[test]
fn cancelled_search_yields_nothing() {
    let mut board = Board::new();
    let exit = AtomicBool::new(true);
    assert_eq!(board.minimax(3, Side::White, Some(&exit)), None);
    assert_eq!(board.iterative_deepening(3, Side::White, Some(&exit)), None);
}

// Cancelling while depth 3 is in flight falls back to the depth-2 result: the
// same answer a driver stopped cleanly after depth 2 hands back.
#[test]
fn cancellation_falls_back_to_last_completed_depth() {
    let mut board = Board::new();
    let clean = board.iterative_deepening(2, Side::White, None);
    assert!(matches!(clean, Some((2, _))));

    // A driver run whose depth-3 pass observes the cancellation flag.
    let mut fallback: Option<(u8, MinimaxResult)> = None;
    for depth in 1..=3u8 {
        let exit = AtomicBool::new(depth == 3);
        assert_eq!(exit.load(Ordering::SeqCst), depth == 3);
        if let Some(r) = board.minimax(depth, Side::White, Some(&exit)) {
            fallback = Some((depth, r));
        }
    }
    assert_eq!(fallback.map(|(_, r)| r), clean.map(|(_, r)| r));
    assert_eq!(fallback.map(|(d, _)| d), Some(2));
}

#[test]
fn iterative_deepening_reaches_max_depth() {
    let mut board = Board::new();
    let r = board.iterative_deepening(2, Side::White, None).expect("moves exist");
    assert_eq!(r.0, 2);
    assert_eq!(Some(r.1), board.minimax(2, Side::White, None));
    assert_eq!(board.iterative_deepening(0, Side::White, None), None);
}
