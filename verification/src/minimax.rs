//! The search engine: material-and-mobility evaluation and depth-bounded
//! adversarial search with alpha-beta pruning, cooperatively cancellable,
//! with an iterative-deepening driver.

use vstd::prelude::*;
use core::sync::atomic::{AtomicBool, Ordering};
use crate::{Pos, Side};
use crate::board::{Board, BoardModel, chain, rem_moves, dests, own_at, move_model};
use crate::piece::PieceKind;

verus! {

/// The result of a minimax session: the best move found for the side to
/// move, and its evaluated score.
#[derive(Debug, Clone, Copy, PartialEq, Eq, Structural)]
pub struct MinimaxResult {
    pub score: i32,
    pub from: Pos,
    pub to: Pos,
}

/// A sliding continuation holds at most the squares left until the walk cap.
pub proof fn lemma_chain_len(bm: BoardModel, start: Pos, v: Pos, k: int, castle: bool)
    ensures
        chain(bm, start, v, k, castle).len() <= (if 0 <= k < 16 { 16 - k } else { 0int }),
    decreases 16 - k,
{
    if 0 <= k < 16 {
        lemma_chain_len(bm, start, v, k + 1, castle);
    }
}

/// The move table from index `i` onward yields at most 16 destinations per
/// remaining step.
pub proof fn lemma_rem_moves_len(
    bm: BoardModel,
    start: Pos,
    moves: Seq<Pos>,
    repeat: bool,
    i: int,
    castle: bool,
)
    ensures
        rem_moves(bm, start, moves, repeat, i, castle).len()
            <= (if 0 <= i <= moves.len() { 16 * (moves.len() - i) } else { 0int }),
    decreases moves.len() - i,
{
    if 0 <= i < moves.len() {
        lemma_rem_moves_len(bm, start, moves, repeat, i + 1, castle);
        lemma_chain_len(bm, start, moves[i], 1, castle);
    }
}

/// A piece reaches at most 160 destinations.
pub proof fn lemma_dests_len(bm: BoardModel, from: Pos, castle: bool)
    ensures
        dests(bm, from, castle).len() <= 160,
{
    match bm.at(from) {
        Some(p) => {
            p.lemma_move_list_bounds();
            assert(p.move_list().len() <= 10);
            lemma_rem_moves_len(bm, from, p.move_list(), p.repeats(), 0, castle);
        },
        None => {},
    }
}

/// The score one square contributes for a side: the material worth of an own
/// piece standing there, a hundredfold, plus one per destination it reaches.
pub open spec fn sq_score(bm: BoardModel, side: Side, i: int) -> int {
    let p = Pos((i % 8) as i8, (i / 8) as i8);
    if own_at(bm, p, side) {
        bm.at(p)->Some_0.kind.spec_worth() * 100 + dests(bm, p, true).len()
    } else {
        0
    }
}

/// The summed score of the first `n` squares in scan order.
pub open spec fn score_upto(bm: BoardModel, side: Side, n: int) -> int
    decreases n,
{
    if n <= 0 {
        0
    } else {
        score_upto(bm, side, n - 1) + sq_score(bm, side, n - 1)
    }
}

/// The total score of a side: material worth of its pieces, a hundredfold,
/// plus one per destination each reaches (mobility).
pub open spec fn score_model(bm: BoardModel, side: Side) -> int {
    score_upto(bm, side, 64)
}

/// Every partial score sum lies between 0 and 1060 per square.
pub proof fn lemma_score_upto_bound(bm: BoardModel, side: Side, n: int)
    ensures
        0 <= score_upto(bm, side, n) <= (if n >= 0 { 1060 * n } else { 0int }),
    decreases n,
{
    if n > 0 {
        lemma_score_upto_bound(bm, side, n - 1);
        let p = Pos(((n - 1) % 8) as i8, ((n - 1) / 8) as i8);
        lemma_dests_len(bm, p, true);
    }
}

/// Squares holding no own piece contribute nothing to the sum.
pub proof fn lemma_score_upto_skip(bm: BoardModel, side: Side, a: int, b: int)
    requires
        0 <= a <= b <= 64,
        forall|q: Pos| q.valid() && a <= q.1 * 8 + q.0 < b ==> !own_at(bm, q, side),
    ensures
        score_upto(bm, side, b) == score_upto(bm, side, a),
    decreases b - a,
{
    if a < b {
        let p = Pos(((b - 1) % 8) as i8, ((b - 1) / 8) as i8);
        assert(p.valid() && p.1 * 8 + p.0 == b - 1);
        assert(sq_score(bm, side, b - 1) == 0);
        lemma_score_upto_skip(bm, side, a, b - 1);
    }
}

/// The terminal score seen at this depth when the opponent's king can be
/// captured: maximal in magnitude, biased by remaining depth so that faster
/// forced outcomes win over slower ones.
pub open spec fn game_over_score(depth: u8, maximizing: bool) -> int {
    if maximizing {
        99999 + depth
    } else {
        -99999 - depth
    }
}

/// A concrete search result seen as a mathematical one.
pub open spec fn opt_mr(r: Option<MinimaxResult>) -> Option<(int, Pos, Pos)> {
    match r {
        None => None,
        Some(mr) => Some((mr.score as int, mr.from, mr.to)),
    }
}

/// Whether a concrete search result carries exactly a mathematical one.
pub open spec fn result_matches(r: Option<MinimaxResult>, s: Option<(int, Pos, Pos)>) -> bool {
    opt_mr(r) == s
}

/// The rest of the alpha-beta search over the pieces of `player` from scan
/// index `idx` onward, carrying the best result so far and the (alpha, beta)
/// window. Ties keep the first move examined.
pub open spec fn ab_pieces(
    bm: BoardModel,
    depth: u8,
    original: Side,
    player: Side,
    alpha: int,
    beta: int,
    best: Option<(int, Pos, Pos)>,
    idx: int,
) -> Option<(int, Pos, Pos)>
    decreases depth, 64 - idx, 1int, 0int,
{
    if idx < 0 || idx >= 64 {
        best
    } else {
        let f = Pos((idx % 8) as i8, (idx / 8) as i8);
        if own_at(bm, f, player) {
            ab_moves(bm, depth, original, player, alpha, beta, best, f, 0, idx)
        } else {
            ab_pieces(bm, depth, original, player, alpha, beta, best, idx + 1)
        }
    }
}

/// The rest of the alpha-beta search from destination index `j` of the piece
/// at `f` (scan index `idx`) onward. A move onto the opposing king scores as
/// game over; otherwise the move is applied and the child position searched
/// one ply shallower, leaf positions scoring as material plus mobility for
/// the original side minus its opponent's. A strictly better score replaces
/// the best and tightens the mover's own window bound; a closed window stops
/// the whole enumeration.
pub open spec fn ab_moves(
    bm: BoardModel,
    depth: u8,
    original: Side,
    player: Side,
    alpha: int,
    beta: int,
    best: Option<(int, Pos, Pos)>,
    f: Pos,
    j: int,
    idx: int,
) -> Option<(int, Pos, Pos)>
    decreases depth, 64 - idx, 0int, dests(bm, f, true).len() - j,
{
    let ds = dests(bm, f, true);
    if j < 0 || j >= ds.len() {
        if 0 <= idx < 64 {
            ab_pieces(bm, depth, original, player, alpha, beta, best, idx + 1)
        } else {
            best
        }
    } else {
        let to = ds[j];
        let maximizing = original == player;
        let go = game_over_score(depth, maximizing);
        let score = if bm.at(to) matches Some(q) && q.kind == PieceKind::King {
            go
        } else {
            let child = move_model(bm, f, to);
            if depth <= 1 {
                score_model(child, original) - score_model(child, original.spec_not())
            } else {
                match ab_pieces(
                    child,
                    (depth - 1) as u8,
                    original,
                    player.spec_not(),
                    alpha,
                    beta,
                    None,
                    0,
                ) {
                    Some(s) => s.0,
                    None => go,
                }
            }
        };
        let take = match best {
            None => true,
            Some(b) => if maximizing {
                score > b.0
            } else {
                score < b.0
            },
        };
        let best2 = if take {
            Some((score, f, to))
        } else {
            best
        };
        let alpha2 = if maximizing && take && score > alpha {
            score
        } else {
            alpha
        };
        let beta2 = if !maximizing && take && score < beta {
            score
        } else {
            beta
        };
        if alpha2 >= beta2 {
            best2
        } else {
            ab_moves(bm, depth, original, player, alpha2, beta2, best2, f, j + 1, idx)
        }
    }
}

/// The whole search: all pieces of `player`, a full window, nothing found
/// yet.
pub open spec fn ab_root(bm: BoardModel, depth: u8, player: Side) -> Option<(int, Pos, Pos)> {
    ab_pieces(bm, depth, player, player, i32::MIN as int, i32::MAX as int, None, 0)
}

/// Whether `player` owns, at scan index `idx` or later, a piece with at
/// least one generated move.
pub open spec fn has_move_from(bm: BoardModel, player: Side, idx: int) -> bool {
    exists|f: Pos| f.valid() && f.1 * 8 + f.0 >= idx && own_at(bm, f, player)
        && (#[trigger] dests(bm, f, true)).len() > 0
}

/// Whether `player` has any piece with at least one generated move.
pub open spec fn has_any_move(bm: BoardModel, player: Side) -> bool {
    has_move_from(bm, player, 0)
}

/// The move phase of the search ends with a result exactly when something
/// was already found, the current piece still has moves to offer, or a later
/// piece has any move.
proof fn lemma_ab_moves_some(
    bm: BoardModel,
    depth: u8,
    original: Side,
    player: Side,
    alpha: int,
    beta: int,
    best: Option<(int, Pos, Pos)>,
    f: Pos,
    j: int,
    idx: int,
)
    requires
        0 <= idx < 64,
    ensures
        ab_moves(bm, depth, original, player, alpha, beta, best, f, j, idx) is Some
            <==> best is Some || (0 <= j < dests(bm, f, true).len())
                || has_move_from(bm, player, idx + 1),
    decreases depth, 64 - idx, 0int, dests(bm, f, true).len() - j,
{
    let ds = dests(bm, f, true);
    if j < 0 || j >= ds.len() {
        lemma_ab_pieces_some(bm, depth, original, player, alpha, beta, best, idx + 1);
    } else {
        let to = ds[j];
        let maximizing = original == player;
        let go = game_over_score(depth, maximizing);
        let score = if bm.at(to) matches Some(q) && q.kind == PieceKind::King {
            go
        } else {
            let child = move_model(bm, f, to);
            if depth <= 1 {
                score_model(child, original) - score_model(child, original.spec_not())
            } else {
                match ab_pieces(
                    child, (depth - 1) as u8, original, player.spec_not(), alpha, beta, None, 0,
                ) {
                    Some(s) => s.0,
                    None => go,
                }
            }
        };
        let take = match best {
            None => true,
            Some(b) => if maximizing {
                score > b.0
            } else {
                score < b.0
            },
        };
        let best2 = if take {
            Some((score, f, to))
        } else {
            best
        };
        assert(best2 is Some);
        let alpha2 = if maximizing && take && score > alpha {
            score
        } else {
            alpha
        };
        let beta2 = if !maximizing && take && score < beta {
            score
        } else {
            beta
        };
        if alpha2 >= beta2 {
        } else {
            lemma_ab_moves_some(
                bm, depth, original, player, alpha2, beta2, best2, f, j + 1, idx,
            );
        }
    }
}

/// The piece phase of the search ends with a result exactly when something
/// was already found or a piece at this scan index or later has any move.
proof fn lemma_ab_pieces_some(
    bm: BoardModel,
    depth: u8,
    original: Side,
    player: Side,
    alpha: int,
    beta: int,
    best: Option<(int, Pos, Pos)>,
    idx: int,
)
    requires
        0 <= idx <= 64,
    ensures
        ab_pieces(bm, depth, original, player, alpha, beta, best, idx) is Some
            <==> best is Some || has_move_from(bm, player, idx),
    decreases depth, 64 - idx, 1int, 0int,
{
    if idx >= 64 {
        assert(!has_move_from(bm, player, idx)) by {
            assert forall|f: Pos|
                !(f.valid() && f.1 * 8 + f.0 >= idx && own_at(bm, f, player)
                    && (#[trigger] dests(bm, f, true)).len() > 0) by {
                if f.valid() {
                    assert(f.1 * 8 + f.0 <= 63);
                }
            }
        }
    } else {
        let f = Pos((idx % 8) as i8, (idx / 8) as i8);
        assert(f.valid() && f.1 * 8 + f.0 == idx);
        assert forall|g: Pos| g.valid() && g.1 * 8 + g.0 == idx implies g == f by {
            assert(g.0 == idx % 8 && g.1 == idx / 8) by (nonlinear_arith)
                requires idx == g.1 * 8 + g.0 && 0 <= g.0 < 8 && 0 <= g.1 < 8;
        }
        if own_at(bm, f, player) {
            lemma_ab_moves_some(bm, depth, original, player, alpha, beta, best, f, 0, idx);
            if dests(bm, f, true).len() > 0 {
                assert(has_move_from(bm, player, idx));
            }
            if has_move_from(bm, player, idx) && dests(bm, f, true).len() == 0 {
                let g = choose|g: Pos| g.valid() && g.1 * 8 + g.0 >= idx
                    && own_at(bm, g, player) && (#[trigger] dests(bm, g, true)).len() > 0;
                assert(g.1 * 8 + g.0 >= idx + 1);
                assert(has_move_from(bm, player, idx + 1));
            }
            if has_move_from(bm, player, idx + 1) {
                assert(has_move_from(bm, player, idx));
            }
        } else {
            lemma_ab_pieces_some(bm, depth, original, player, alpha, beta, best, idx + 1);
            if has_move_from(bm, player, idx) {
                let g = choose|g: Pos| g.valid() && g.1 * 8 + g.0 >= idx
                    && own_at(bm, g, player) && (#[trigger] dests(bm, g, true)).len() > 0;
                assert(g.1 * 8 + g.0 >= idx + 1);
                assert(has_move_from(bm, player, idx + 1));
            }
            if has_move_from(bm, player, idx + 1) {
                assert(has_move_from(bm, player, idx));
            }
        }
    }
}

/// The unpruned move phase ends with a result exactly when something was
/// already found, the current piece still has moves, or a later piece has
/// any move.
proof fn lemma_full_moves_some(
    bm: BoardModel,
    depth: u8,
    original: Side,
    player: Side,
    best: Option<(int, Pos, Pos)>,
    f: Pos,
    j: int,
    idx: int,
)
    requires
        0 <= idx < 64,
    ensures
        full_moves(bm, depth, original, player, best, f, j, idx) is Some
            <==> best is Some || (0 <= j < dests(bm, f, true).len())
                || has_move_from(bm, player, idx + 1),
    decreases depth, 64 - idx, 0int, dests(bm, f, true).len() - j,
{
    let ds = dests(bm, f, true);
    if j < 0 || j >= ds.len() {
        lemma_full_pieces_some(bm, depth, original, player, best, idx + 1);
    } else {
        let to = ds[j];
        let maximizing = original == player;
        let go = game_over_score(depth, maximizing);
        let score = if bm.at(to) matches Some(q) && q.kind == PieceKind::King {
            go
        } else {
            let child = move_model(bm, f, to);
            if depth <= 1 {
                score_model(child, original) - score_model(child, original.spec_not())
            } else {
                match full_pieces(child, (depth - 1) as u8, original, player.spec_not(), None, 0) {
                    Some(s) => s.0,
                    None => go,
                }
            }
        };
        let take = match best {
            None => true,
            Some(b) => if maximizing {
                score > b.0
            } else {
                score < b.0
            },
        };
        let best2 = if take {
            Some((score, f, to))
        } else {
            best
        };
        assert(best2 is Some);
        lemma_full_moves_some(bm, depth, original, player, best2, f, j + 1, idx);
    }
}

/// The unpruned piece phase ends with a result exactly when something was
/// already found or a piece at this scan index or later has any move.
proof fn lemma_full_pieces_some(
    bm: BoardModel,
    depth: u8,
    original: Side,
    player: Side,
    best: Option<(int, Pos, Pos)>,
    idx: int,
)
    requires
        0 <= idx <= 64,
    ensures
        full_pieces(bm, depth, original, player, best, idx) is Some
            <==> best is Some || has_move_from(bm, player, idx),
    decreases depth, 64 - idx, 1int, 0int,
{
    if idx >= 64 {
        assert(!has_move_from(bm, player, idx)) by {
            assert forall|f: Pos|
                !(f.valid() && f.1 * 8 + f.0 >= idx && own_at(bm, f, player)
                    && (#[trigger] dests(bm, f, true)).len() > 0) by {
                if f.valid() {
                    assert(f.1 * 8 + f.0 <= 63);
                }
            }
        }
    } else {
        let f = Pos((idx % 8) as i8, (idx / 8) as i8);
        assert(f.valid() && f.1 * 8 + f.0 == idx);
        assert forall|g: Pos| g.valid() && g.1 * 8 + g.0 == idx implies g == f by {
            assert(g.0 == idx % 8 && g.1 == idx / 8) by (nonlinear_arith)
                requires idx == g.1 * 8 + g.0 && 0 <= g.0 < 8 && 0 <= g.1 < 8;
        }
        if own_at(bm, f, player) {
            lemma_full_moves_some(bm, depth, original, player, best, f, 0, idx);
            if dests(bm, f, true).len() > 0 {
                assert(has_move_from(bm, player, idx));
            }
            if has_move_from(bm, player, idx) && dests(bm, f, true).len() == 0 {
                let g = choose|g: Pos| g.valid() && g.1 * 8 + g.0 >= idx
                    && own_at(bm, g, player) && (#[trigger] dests(bm, g, true)).len() > 0;
                assert(g.1 * 8 + g.0 >= idx + 1);
                assert(has_move_from(bm, player, idx + 1));
            }
            if has_move_from(bm, player, idx + 1) {
                assert(has_move_from(bm, player, idx));
            }
        } else {
            lemma_full_pieces_some(bm, depth, original, player, best, idx + 1);
            if has_move_from(bm, player, idx) {
                let g = choose|g: Pos| g.valid() && g.1 * 8 + g.0 >= idx
                    && own_at(bm, g, player) && (#[trigger] dests(bm, g, true)).len() > 0;
                assert(g.1 * 8 + g.0 >= idx + 1);
                assert(has_move_from(bm, player, idx + 1));
            }
            if has_move_from(bm, player, idx + 1) {
                assert(has_move_from(bm, player, idx));
            }
        }
    }
}

/// Every score the unpruned search can produce lies within the terminal
/// magnitude: leaf evaluations are far smaller, and game-over scores are at
/// most 99999 plus the depth.
proof fn lemma_full_moves_bound(
    bm: BoardModel,
    depth: u8,
    original: Side,
    player: Side,
    best: Option<(int, Pos, Pos)>,
    f: Pos,
    j: int,
    idx: int,
)
    requires
        best matches Some(b) ==> -100254 <= b.0 <= 100254,
    ensures
        full_moves(bm, depth, original, player, best, f, j, idx) matches Some(y)
            ==> -100254 <= y.0 <= 100254,
    decreases depth, 64 - idx, 0int, dests(bm, f, true).len() - j,
{
    let ds = dests(bm, f, true);
    if j < 0 || j >= ds.len() {
        if 0 <= idx < 64 {
            lemma_full_pieces_bound(bm, depth, original, player, best, idx + 1);
        }
    } else {
        let to = ds[j];
        let maximizing = original == player;
        let go = game_over_score(depth, maximizing);
        let score = if bm.at(to) matches Some(q) && q.kind == PieceKind::King {
            go
        } else {
            let child = move_model(bm, f, to);
            if depth <= 1 {
                score_model(child, original) - score_model(child, original.spec_not())
            } else {
                match full_pieces(child, (depth - 1) as u8, original, player.spec_not(), None, 0) {
                    Some(s) => s.0,
                    None => go,
                }
            }
        };
        assert(-100254 <= score <= 100254) by {
            if !(bm.at(to) matches Some(q) && q.kind == PieceKind::King) {
                let child = move_model(bm, f, to);
                if depth <= 1 {
                    lemma_score_upto_bound(child, original, 64);
                    lemma_score_upto_bound(child, original.spec_not(), 64);
                } else {
                    lemma_full_pieces_bound(
                        child, (depth - 1) as u8, original, player.spec_not(), None, 0,
                    );
                }
            }
        }
        let take = match best {
            None => true,
            Some(b) => if maximizing {
                score > b.0
            } else {
                score < b.0
            },
        };
        let best2 = if take {
            Some((score, f, to))
        } else {
            best
        };
        lemma_full_moves_bound(bm, depth, original, player, best2, f, j + 1, idx);
    }
}

/// See `lemma_full_moves_bound`.
proof fn lemma_full_pieces_bound(
    bm: BoardModel,
    depth: u8,
    original: Side,
    player: Side,
    best: Option<(int, Pos, Pos)>,
    idx: int,
)
    requires
        best matches Some(b) ==> -100254 <= b.0 <= 100254,
    ensures
        full_pieces(bm, depth, original, player, best, idx) matches Some(y)
            ==> -100254 <= y.0 <= 100254,
    decreases depth, 64 - idx, 1int, 0int,
{
    if 0 <= idx < 64 {
        let f = Pos((idx % 8) as i8, (idx / 8) as i8);
        if own_at(bm, f, player) {
            lemma_full_moves_bound(bm, depth, original, player, best, f, 0, idx);
        } else {
            lemma_full_pieces_bound(bm, depth, original, player, best, idx + 1);
        }
    }
}

/// An unpruned search only improves on the best it carries: for the
/// maximizing side the final score is at least the carried one, for the
/// minimizing side at most.
proof fn lemma_full_moves_mono(
    bm: BoardModel,
    depth: u8,
    original: Side,
    player: Side,
    best: Option<(int, Pos, Pos)>,
    f: Pos,
    j: int,
    idx: int,
)
    requires
        best is Some,
    ensures
        full_moves(bm, depth, original, player, best, f, j, idx) matches Some(y)
            && (if original == player {
                y.0 >= best->Some_0.0
            } else {
                y.0 <= best->Some_0.0
            }),
    decreases depth, 64 - idx, 0int, dests(bm, f, true).len() - j,
{
    let ds = dests(bm, f, true);
    if j < 0 || j >= ds.len() {
        if 0 <= idx < 64 {
            lemma_full_pieces_mono(bm, depth, original, player, best, idx + 1);
        }
    } else {
        let to = ds[j];
        let maximizing = original == player;
        let go = game_over_score(depth, maximizing);
        let score = if bm.at(to) matches Some(q) && q.kind == PieceKind::King {
            go
        } else {
            let child = move_model(bm, f, to);
            if depth <= 1 {
                score_model(child, original) - score_model(child, original.spec_not())
            } else {
                match full_pieces(child, (depth - 1) as u8, original, player.spec_not(), None, 0) {
                    Some(s) => s.0,
                    None => go,
                }
            }
        };
        let take = match best {
            None => true,
            Some(b) => if maximizing {
                score > b.0
            } else {
                score < b.0
            },
        };
        let best2 = if take {
            Some((score, f, to))
        } else {
            best
        };
        lemma_full_moves_mono(bm, depth, original, player, best2, f, j + 1, idx);
    }
}

/// See `lemma_full_moves_mono`.
proof fn lemma_full_pieces_mono(
    bm: BoardModel,
    depth: u8,
    original: Side,
    player: Side,
    best: Option<(int, Pos, Pos)>,
    idx: int,
)
    requires
        best is Some,
    ensures
        full_pieces(bm, depth, original, player, best, idx) matches Some(y)
            && (if original == player {
                y.0 >= best->Some_0.0
            } else {
                y.0 <= best->Some_0.0
            }),
    decreases depth, 64 - idx, 1int, 0int,
{
    if 0 <= idx < 64 {
        let f = Pos((idx % 8) as i8, (idx / 8) as i8);
        if own_at(bm, f, player) {
            lemma_full_moves_mono(bm, depth, original, player, best, f, 0, idx);
        } else {
            lemma_full_pieces_mono(bm, depth, original, player, best, idx + 1);
        }
    }
}

/// How a windowed search result may relate to the unpruned one, for a node
/// entered with window `(alpha0, beta0)`: present exactly together; equal
/// whenever the true score lies strictly inside the window; and otherwise
/// the windowed score fails on the same side of the window as the true one.
pub open spec fn win_rel(
    alpha0: int,
    beta0: int,
    x: Option<(int, Pos, Pos)>,
    y: Option<(int, Pos, Pos)>,
) -> bool {
    &&& (x is Some <==> y is Some)
    &&& match (x, y) {
        (Some(xv), Some(yv)) => {
            &&& (alpha0 < yv.0 < beta0 ==> xv == yv)
            &&& (yv.0 <= alpha0 ==> xv.0 <= alpha0)
            &&& (yv.0 >= beta0 ==> xv.0 >= beta0)
        },
        _ => true,
    }
}

/// How the windowed and the unpruned fold states stay aligned mid-node:
/// the mover's own bound carries its best score once that beats the entry
/// window, the opponent's bound never moves, and a best below the entry
/// window is matched only in failing low (respectively high).
spec fn win_inv(
    maximizing: bool,
    alpha0: int,
    beta0: int,
    alpha: int,
    beta: int,
    b: Option<(int, Pos, Pos)>,
    bf: Option<(int, Pos, Pos)>,
) -> bool {
    if maximizing {
        &&& beta == beta0
        &&& alpha0 <= alpha < beta0
        &&& match (b, bf) {
            (None, None) => alpha == alpha0,
            (Some(x), Some(y)) => if y.0 > alpha0 {
                x == y && alpha == y.0 && y.0 < beta0
            } else {
                x.0 <= alpha0 && alpha == alpha0
            },
            _ => false,
        }
    } else {
        &&& alpha == alpha0
        &&& alpha0 < beta <= beta0
        &&& match (b, bf) {
            (None, None) => beta == beta0,
            (Some(x), Some(y)) => if y.0 < beta0 {
                x == y && beta == y.0 && y.0 > alpha0
            } else {
                x.0 >= beta0 && beta == beta0
            },
            _ => false,
        }
    }
}

/// Pruning is sound through the piece phase: aligned fold states end in
/// related results.
proof fn lemma_eq_pieces(
    bm: BoardModel,
    depth: u8,
    original: Side,
    player: Side,
    alpha0: int,
    beta0: int,
    alpha: int,
    beta: int,
    b: Option<(int, Pos, Pos)>,
    bf: Option<(int, Pos, Pos)>,
    idx: int,
)
    requires
        0 <= idx <= 64,
        win_inv(original == player, alpha0, beta0, alpha, beta, b, bf),
    ensures
        win_rel(
            alpha0,
            beta0,
            ab_pieces(bm, depth, original, player, alpha, beta, b, idx),
            full_pieces(bm, depth, original, player, bf, idx),
        ),
    decreases depth, 64 - idx, 1int, 0int,
{
    if idx >= 64 {
    } else {
        let f = Pos((idx % 8) as i8, (idx / 8) as i8);
        if own_at(bm, f, player) {
            lemma_eq_moves(
                bm, depth, original, player, alpha0, beta0, alpha, beta, b, bf, f, 0, idx,
            );
        } else {
            lemma_eq_pieces(
                bm, depth, original, player, alpha0, beta0, alpha, beta, b, bf, idx + 1,
            );
        }
    }
}

/// Pruning is sound through the move phase: aligned fold states end in
/// related results, and a closed window returns a best the unpruned
/// continuation can only confirm.
proof fn lemma_eq_moves(
    bm: BoardModel,
    depth: u8,
    original: Side,
    player: Side,
    alpha0: int,
    beta0: int,
    alpha: int,
    beta: int,
    b: Option<(int, Pos, Pos)>,
    bf: Option<(int, Pos, Pos)>,
    f: Pos,
    j: int,
    idx: int,
)
    requires
        0 <= idx < 64,
        win_inv(original == player, alpha0, beta0, alpha, beta, b, bf),
    ensures
        win_rel(
            alpha0,
            beta0,
            ab_moves(bm, depth, original, player, alpha, beta, b, f, j, idx),
            full_moves(bm, depth, original, player, bf, f, j, idx),
        ),
    decreases depth, 64 - idx, 0int, dests(bm, f, true).len() - j,
{
    let maximizing = original == player;
    let ds = dests(bm, f, true);
    if j < 0 || j >= ds.len() {
        lemma_eq_pieces(
            bm, depth, original, player, alpha0, beta0, alpha, beta, b, bf, idx + 1,
        );
    } else {
        let to = ds[j];
        let go = game_over_score(depth, maximizing);
        let king = bm.at(to) matches Some(q) && q.kind == PieceKind::King;
        let child = move_model(bm, f, to);
        let s_a: int = if king {
            go
        } else if depth <= 1 {
            score_model(child, original) - score_model(child, original.spec_not())
        } else {
            match ab_pieces(
                child, (depth - 1) as u8, original, player.spec_not(), alpha, beta, None, 0,
            ) {
                Some(v) => v.0,
                None => go,
            }
        };
        let s_f: int = if king {
            go
        } else if depth <= 1 {
            score_model(child, original) - score_model(child, original.spec_not())
        } else {
            match full_pieces(child, (depth - 1) as u8, original, player.spec_not(), None, 0) {
                Some(v) => v.0,
                None => go,
            }
        };
        if !king && depth > 1 {
            lemma_eq_pieces(
                child, (depth - 1) as u8, original, player.spec_not(), alpha, beta, alpha,
                beta, None, None, 0,
            );
        }
        // The child relation, or plain equality, gives the score trichotomy
        // over the current window.
        assert((s_a == s_f) || (s_f <= alpha && s_a <= alpha) || (s_f >= beta && s_a >= beta));

        let take_a = match b {
            None => true,
            Some(x) => if maximizing {
                s_a > x.0
            } else {
                s_a < x.0
            },
        };
        let take_f = match bf {
            None => true,
            Some(y) => if maximizing {
                s_f > y.0
            } else {
                s_f < y.0
            },
        };
        let b2 = if take_a {
            Some((s_a, f, to))
        } else {
            b
        };
        let bf2 = if take_f {
            Some((s_f, f, to))
        } else {
            bf
        };
        let alpha2 = if maximizing && take_a && s_a > alpha {
            s_a
        } else {
            alpha
        };
        let beta2 = if !maximizing && take_a && s_a < beta {
            s_a
        } else {
            beta
        };
        assert(ab_moves(bm, depth, original, player, alpha, beta, b, f, j, idx)
            == (if alpha2 >= beta2 {
                b2
            } else {
                ab_moves(bm, depth, original, player, alpha2, beta2, b2, f, j + 1, idx)
            }));
        assert(full_moves(bm, depth, original, player, bf, f, j, idx)
            == full_moves(bm, depth, original, player, bf2, f, j + 1, idx));

        if alpha2 >= beta2 {
            // The window closed: the windowed side stops with a best that
            // fails on the opponent's side of the entry window, and the
            // unpruned side can only move further that way.
            lemma_full_moves_some(bm, depth, original, player, bf2, f, j + 1, idx);
            lemma_full_moves_mono(bm, depth, original, player, bf2, f, j + 1, idx);
            if maximizing {
                assert(s_a >= beta0 && s_f >= beta0);
            } else {
                assert(s_a <= alpha0 && s_f <= alpha0);
            }
            assert(win_rel(
                alpha0,
                beta0,
                b2,
                full_moves(bm, depth, original, player, bf2, f, j + 1, idx),
            ));
        } else {
            assert(win_inv(maximizing, alpha0, beta0, alpha2, beta2, b2, bf2));
            lemma_eq_moves(
                bm, depth, original, player, alpha0, beta0, alpha2, beta2, b2, bf2, f, j + 1,
                idx,
            );
        }
    }
}

/// Alpha-beta pruning never changes the result: over the full window, the
/// pruning search returns exactly the move and score of the exhaustive,
/// unpruned minimax at the same depth, first-examined-move ties included.
pub proof fn lemma_pruning_never_changes_result(bm: BoardModel, depth: u8, player: Side)
    ensures
        ab_root(bm, depth, player) == full_root(bm, depth, player),
{
    lemma_eq_pieces(
        bm, depth, player, player, i32::MIN as int, i32::MAX as int, i32::MIN as int,
        i32::MAX as int, None, None, 0,
    );
    lemma_full_pieces_bound(bm, depth, player, player, None, 0);
}

/// An uncancelled search finds a move exactly when the side to move has any
/// generated move at all.
pub proof fn lemma_search_some_iff_any_move(bm: BoardModel, depth: u8, player: Side)
    ensures
        ab_root(bm, depth, player) is Some <==> has_any_move(bm, player),
{
    lemma_ab_pieces_some(
        bm, depth, player, player, i32::MIN as int, i32::MAX as int, None, 0,
    );
}

/// The rest of an exhaustive, unpruned minimax over the pieces of `player`
/// from scan index `idx` onward: as `ab_pieces`, but with no window and so
/// no early stop.
pub open spec fn full_pieces(
    bm: BoardModel,
    depth: u8,
    original: Side,
    player: Side,
    best: Option<(int, Pos, Pos)>,
    idx: int,
) -> Option<(int, Pos, Pos)>
    decreases depth, 64 - idx, 1int, 0int,
{
    if idx < 0 || idx >= 64 {
        best
    } else {
        let f = Pos((idx % 8) as i8, (idx / 8) as i8);
        if own_at(bm, f, player) {
            full_moves(bm, depth, original, player, best, f, 0, idx)
        } else {
            full_pieces(bm, depth, original, player, best, idx + 1)
        }
    }
}

/// The rest of the unpruned minimax from destination index `j` of the piece
/// at `f` (scan index `idx`) onward: as `ab_moves`, but every sibling is
/// examined and children are searched with no window.
pub open spec fn full_moves(
    bm: BoardModel,
    depth: u8,
    original: Side,
    player: Side,
    best: Option<(int, Pos, Pos)>,
    f: Pos,
    j: int,
    idx: int,
) -> Option<(int, Pos, Pos)>
    decreases depth, 64 - idx, 0int, dests(bm, f, true).len() - j,
{
    let ds = dests(bm, f, true);
    if j < 0 || j >= ds.len() {
        if 0 <= idx < 64 {
            full_pieces(bm, depth, original, player, best, idx + 1)
        } else {
            best
        }
    } else {
        let to = ds[j];
        let maximizing = original == player;
        let go = game_over_score(depth, maximizing);
        let score = if bm.at(to) matches Some(q) && q.kind == PieceKind::King {
            go
        } else {
            let child = move_model(bm, f, to);
            if depth <= 1 {
                score_model(child, original) - score_model(child, original.spec_not())
            } else {
                match full_pieces(child, (depth - 1) as u8, original, player.spec_not(), None, 0) {
                    Some(s) => s.0,
                    None => go,
                }
            }
        };
        let take = match best {
            None => true,
            Some(b) => if maximizing {
                score > b.0
            } else {
                score < b.0
            },
        };
        let best2 = if take {
            Some((score, f, to))
        } else {
            best
        };
        full_moves(bm, depth, original, player, best2, f, j + 1, idx)
    }
}

/// The whole unpruned search: all pieces of `player`, nothing found yet.
pub open spec fn full_root(bm: BoardModel, depth: u8, player: Side) -> Option<(int, Pos, Pos)> {
    full_pieces(bm, depth, player, player, None, 0)
}

/// Squares holding no piece of the player leave the search state unchanged.
pub proof fn lemma_ab_pieces_skip(
    bm: BoardModel,
    depth: u8,
    original: Side,
    player: Side,
    alpha: int,
    beta: int,
    best: Option<(int, Pos, Pos)>,
    a: int,
    b: int,
)
    requires
        0 <= a <= b <= 64,
        forall|q: Pos| q.valid() && a <= q.1 * 8 + q.0 < b ==> !own_at(bm, q, player),
    ensures
        ab_pieces(bm, depth, original, player, alpha, beta, best, a)
            == ab_pieces(bm, depth, original, player, alpha, beta, best, b),
    decreases b - a,
{
    if a < b {
        let p = Pos((a % 8) as i8, (a / 8) as i8);
        assert(p.valid() && p.1 * 8 + p.0 == a);
        assert(!own_at(bm, p, player));
        lemma_ab_pieces_skip(bm, depth, original, player, alpha, beta, best, a + 1, b);
    }
}

impl Board {
    /// Calculate the total score for a certain side: material worth of its
    /// pieces, a hundredfold, plus one per destination each piece reaches.
    pub fn score(&mut self, side: Side) -> (r: i32)
        requires
            old(self)@.wf(),
        ensures
            final(self)@ == old(self)@,
            r == score_model(old(self)@, side),
    {
        let ghost bm = self@;
        let mut score: i32 = 0;
        let mut pieces_it = self.pieces(side);
        loop
            invariant_except_break
                self@ == bm,
                bm == old(self)@,
                bm.wf(),
                pieces_it.wf(),
                pieces_it.iter_side() == side,
                0 <= pieces_it.idx() <= 64,
                score == score_upto(bm, side, pieces_it.idx()),
            ensures
                self@ == bm,
                bm == old(self)@,
                score == score_model(bm, side),
            decreases 65 - pieces_it.idx(),
        {
            let ghost idx0 = pieces_it.idx();
            let from = match pieces_it.next(&*self) {
                Some(f) => f,
                None => {
                    proof {
                        lemma_score_upto_skip(bm, side, idx0, 64);
                    }
                    break;
                },
            };
            let ghost fidx = from.1 * 8 + from.0;
            proof {
                lemma_score_upto_skip(bm, side, idx0, fidx);
                lemma_score_upto_bound(bm, side, fidx);
            }
            let piece = self.get(from).unwrap();
            score = score + (piece.kind.worth() as i32) * 100;

            let mut moves_it = self.moves_for(from);
            let ghost all = dests(bm, from, true);
            let ghost mut yielded: Seq<Pos> = Seq::empty();
            proof {
                lemma_dests_len(bm, from, true);
            }
            loop
                invariant_except_break
                    self@ == bm,
                    bm == old(self)@,
                    bm.wf(),
                    from.valid(),
                    own_at(bm, from, side),
                    fidx == from.1 * 8 + from.0,
                    0 <= fidx < 64,
                    moves_it.wf(),
                    moves_it.castle_flag() == true,
                    all == yielded + moves_it.remaining(bm),
                    all == dests(bm, from, true),
                    all.len() <= 160,
                    score == score_upto(bm, side, fidx)
                        + bm.at(from)->Some_0.kind.spec_worth() * 100 + yielded.len(),
                ensures
                    self@ == bm,
                    bm == old(self)@,
                    score == score_upto(bm, side, fidx) + sq_score(bm, side, fidx),
                decreases moves_it.remaining(bm).len(),
            {
                let to = match moves_it.next(self) {
                    Some(t) => t,
                    None => {
                        proof {
                            assert(all =~= yielded);
                        }
                        break;
                    },
                };
                proof {
                    lemma_score_upto_bound(bm, side, fidx);
                }
                score = score + 1;
                proof {
                    yielded = yielded.push(to);
                    assert(all =~= yielded + moves_it.remaining(bm));
                }
            }
            proof {
                assert(score_upto(bm, side, fidx + 1)
                    == score_upto(bm, side, fidx) + sq_score(bm, side, fidx));
            }
        }
        score
    }

    /// Return the best move according to a simple minimax algorithm with
    /// alpha-beta pruning: exactly the mathematical search result when no
    /// cancellation flag is supplied; when one is, an observed cancellation
    /// yields nothing, and any move handed back is a generated move of
    /// `player`. The board is left exactly as found.
    pub fn minimax(&mut self, depth: u8, player: Side, exit: Option<&AtomicBool>) -> (r: Option<
        MinimaxResult,
    >)
        requires
            depth >= 1,
            old(self)@.wf(),
        ensures
            final(self)@ == old(self)@,
            exit is None ==> result_matches(r, ab_root(old(self)@, depth, player)),
            exit is None ==> result_matches(r, full_root(old(self)@, depth, player)),
            exit is None ==> (r is Some <==> has_any_move(old(self)@, player)),
            r matches Some(mr) ==> mr.from.valid() && mr.to.valid()
                && own_at(old(self)@, mr.from, player)
                && dests(old(self)@, mr.from, true).contains(mr.to),
    {
        proof {
            lemma_search_some_iff_any_move(self@, depth, player);
            lemma_pruning_never_changes_result(self@, depth, player);
        }
        self.minimax_inner(depth, player, player, exit, i32::MIN, i32::MAX)
    }

    /// One level of the search; see `ab_pieces` and `ab_moves` for what it
    /// computes.
    fn minimax_inner(
        &mut self,
        depth: u8,
        original: Side,
        player: Side,
        exit: Option<&AtomicBool>,
        alpha: i32,
        beta: i32,
    ) -> (r: Option<MinimaxResult>)
        requires
            depth >= 1,
            old(self)@.wf(),
        ensures
            final(self)@ == old(self)@,
            exit is None ==> result_matches(
                r,
                ab_pieces(old(self)@, depth, original, player, alpha as int, beta as int, None, 0),
            ),
            r matches Some(mr) ==> mr.from.valid() && mr.to.valid()
                && own_at(old(self)@, mr.from, player)
                && dests(old(self)@, mr.from, true).contains(mr.to),
        decreases depth,
    {
        let ghost bm = self@;
        let ghost target = ab_pieces(bm, depth, original, player, alpha as int, beta as int, None, 0);
        let maximizing = original == player;
        let mut best: Option<MinimaxResult> = None;
        let mut al = alpha;
        let mut be = beta;
        let ghost mut clean: bool = true;
        let mut pieces_it = self.pieces(player);
        loop
            invariant_except_break
                self@ == bm,
                bm == old(self)@,
                bm.wf(),
                depth >= 1,
                maximizing == (original == player),
                pieces_it.wf(),
                pieces_it.iter_side() == player,
                0 <= pieces_it.idx() <= 64,
                exit is None ==> clean,
                target == ab_pieces(
                    bm, depth, original, player, alpha as int, beta as int, None, 0,
                ),
                clean ==> ab_pieces(
                    bm, depth, original, player, al as int, be as int, opt_mr(best),
                    pieces_it.idx(),
                ) == target,
                best matches Some(b) ==> b.from.valid() && b.to.valid()
                    && own_at(bm, b.from, player) && dests(bm, b.from, true).contains(b.to),
            ensures
                self@ == bm,
                bm == old(self)@,
                exit is None ==> clean,
                clean ==> opt_mr(best) == target,
                best matches Some(b) ==> b.from.valid() && b.to.valid()
                    && own_at(bm, b.from, player) && dests(bm, b.from, true).contains(b.to),
            decreases 65 - pieces_it.idx(),
        {
            let ghost idx0 = pieces_it.idx();
            let from = match pieces_it.next(&*self) {
                Some(f) => f,
                None => {
                    proof {
                        if clean {
                            lemma_ab_pieces_skip(
                                bm, depth, original, player, al as int, be as int, opt_mr(best),
                                idx0, 64,
                            );
                        }
                    }
                    break;
                },
            };
            let ghost fidx = from.1 * 8 + from.0;
            proof {
                if clean {
                    lemma_ab_pieces_skip(
                        bm, depth, original, player, al as int, be as int, opt_mr(best), idx0,
                        fidx,
                    );
                }
            }
            let mut moves_it = self.moves_for(from);
            let ghost all = dests(bm, from, true);
            let ghost mut yielded: Seq<Pos> = Seq::empty();
            loop
                invariant_except_break
                    self@ == bm,
                    bm == old(self)@,
                    bm.wf(),
                    depth >= 1,
                    maximizing == (original == player),
                    from.valid(),
                    own_at(bm, from, player),
                    fidx == from.1 * 8 + from.0,
                    0 <= fidx < 64,
                    moves_it.wf(),
                    moves_it.castle_flag() == true,
                    all == yielded + moves_it.remaining(bm),
                    all == dests(bm, from, true),
                    exit is None ==> clean,
                    target == ab_pieces(
                        bm, depth, original, player, alpha as int, beta as int, None, 0,
                    ),
                    clean ==> ab_moves(
                        bm, depth, original, player, al as int, be as int, opt_mr(best), from,
                        yielded.len() as int, fidx,
                    ) == target,
                    best matches Some(b) ==> b.from.valid() && b.to.valid()
                        && own_at(bm, b.from, player) && dests(bm, b.from, true).contains(b.to),
                ensures
                    self@ == bm,
                    bm == old(self)@,
                    exit is None ==> clean,
                    clean ==> ab_pieces(
                        bm, depth, original, player, al as int, be as int, opt_mr(best), fidx + 1,
                    ) == target,
                    best matches Some(b) ==> b.from.valid() && b.to.valid()
                        && own_at(bm, b.from, player) && dests(bm, b.from, true).contains(b.to),
                decreases moves_it.remaining(bm).len(),
            {
                let ghost j = yielded.len() as int;
                let ghost al0 = al as int;
                let ghost be0 = be as int;
                let ghost best0 = best;
                let to = match moves_it.next(self) {
                    Some(t) => t,
                    None => {
                        proof {
                            assert(all =~= yielded);
                        }
                        break;
                    },
                };
                proof {
                    assert(all == yielded + (seq![to] + moves_it.remaining(bm)));
                    assert(all[j] == to);
                }
                let go: i32 = if maximizing {
                    99999 + depth as i32
                } else {
                    -99999 - depth as i32
                };
                let captures_king = match self.get(to) {
                    Some(q) => q.kind == PieceKind::King,
                    None => false,
                };
                let ghost child_bm = move_model(bm, from, to);
                let score: i32 = if captures_king {
                    go
                } else {
                    let undo_rec = self.move_(from, to);
                    let sc: i32 = if depth == 1 {
                        proof {
                            lemma_score_upto_bound(self@, original, 64);
                            lemma_score_upto_bound(self@, original.spec_not(), 64);
                        }
                        self.score(original) - self.score(original.not())
                    } else {
                        let sub = self.minimax_inner(depth - 1, original, player.not(), exit, al, be);
                        proof {
                            if !result_matches(
                                sub,
                                ab_pieces(
                                    child_bm, (depth - 1) as u8, original,
                                    player.spec_not(), al0, be0, None, 0,
                                ),
                            ) {
                                clean = false;
                            }
                        }
                        match sub {
                            Some(s) => s.score,
                            None => go,
                        }
                    };
                    self.undo(undo_rec);
                    sc
                };
                proof {
                    if clean {
                        if captures_king {
                            assert(bm.at(to) matches Some(q) && q.kind == PieceKind::King);
                        } else {
                            assert(!(bm.at(to) matches Some(q) && q.kind == PieceKind::King));
                        }
                        assert(score == (if bm.at(to) matches Some(q) && q.kind == PieceKind::King {
                            game_over_score(depth, maximizing)
                        } else {
                            if depth <= 1 {
                                score_model(child_bm, original)
                                    - score_model(child_bm, original.spec_not())
                            } else {
                                match ab_pieces(
                                    child_bm, (depth - 1) as u8, original, player.spec_not(),
                                    al0, be0, None, 0,
                                ) {
                                    Some(s) => s.0,
                                    None => game_over_score(depth, maximizing),
                                }
                            }
                        }));
                    }
                }

                let stop = match exit {
                    Some(e) => e.load(Ordering::SeqCst),
                    None => false,
                };
                if stop {
                    return None;
                }

                let take = match best {
                    None => true,
                    Some(b) => if maximizing {
                        score > b.score
                    } else {
                        score < b.score
                    },
                };
                if take {
                    best = Some(MinimaxResult { score, from, to });
                    if maximizing {
                        if score > al {
                            al = score;
                        }
                    } else {
                        if score < be {
                            be = score;
                        }
                    }
                }
                proof {
                    yielded = yielded.push(to);
                    assert(all =~= yielded + moves_it.remaining(bm));
                    if clean {
                        assert(ab_moves(bm, depth, original, player, al0, be0, opt_mr(best0),
                            from, j, fidx)
                            == (if al as int >= be as int {
                                opt_mr(best)
                            } else {
                                ab_moves(bm, depth, original, player, al as int, be as int,
                                    opt_mr(best), from, j + 1, fidx)
                            }));
                    }
                    assert(dests(bm, from, true).contains(to));
                }
                if al >= be {
                    // The window closed: no remaining sibling can matter.
                    return best;
                }
            }
        }
        best
    }

    /// Iterative deepening: search at depth 1, 2, and so on up to
    /// `max_depth`, keeping the last fully completed depth's result, until
    /// the cancellation flag is observed or the maximum depth is reached. A
    /// cancelled in-flight depth contributes nothing; the best complete
    /// result stands, paired with its depth.
    pub fn iterative_deepening(
        &mut self,
        max_depth: u8,
        player: Side,
        exit: Option<&AtomicBool>,
    ) -> (r: Option<(u8, MinimaxResult)>)
        requires
            old(self)@.wf(),
        ensures
            final(self)@ == old(self)@,
            r matches Some((dd, mr)) ==> 1 <= dd <= max_depth && mr.from.valid()
                && mr.to.valid() && own_at(old(self)@, mr.from, player)
                && dests(old(self)@, mr.from, true).contains(mr.to),
            exit is None ==> match r {
                Some((dd, mr)) => result_matches(Some(mr), ab_root(old(self)@, dd, player))
                    && (ab_root(old(self)@, max_depth, player) is Some ==> dd == max_depth),
                None => max_depth == 0 || ab_root(old(self)@, max_depth, player) is None,
            },
    {
        let ghost bm = self@;
        let mut res: Option<(u8, MinimaxResult)> = None;
        if max_depth == 0 {
            return None;
        }
        let mut d: u8 = 1;
        loop
            invariant_except_break
                self@ == bm,
                bm == old(self)@,
                bm.wf(),
                1 <= d <= max_depth,
                res matches Some((dd, mr)) ==> 1 <= dd <= max_depth && mr.from.valid()
                    && mr.to.valid() && own_at(bm, mr.from, player)
                    && dests(bm, mr.from, true).contains(mr.to),
                exit is None ==> match res {
                    Some((dd, mr)) => result_matches(Some(mr), ab_root(bm, dd, player))
                        && (ab_root(bm, (d - 1) as u8, player) is Some ==> dd == d - 1),
                    None => d == 1 || ab_root(bm, (d - 1) as u8, player) is None,
                },
            ensures
                self@ == bm,
                bm == old(self)@,
                res matches Some((dd, mr)) ==> 1 <= dd <= max_depth && mr.from.valid()
                    && mr.to.valid() && own_at(bm, mr.from, player)
                    && dests(bm, mr.from, true).contains(mr.to),
                exit is None ==> match res {
                    Some((dd, mr)) => result_matches(Some(mr), ab_root(bm, dd, player))
                        && (ab_root(bm, max_depth, player) is Some ==> dd == max_depth),
                    None => ab_root(bm, max_depth, player) is None,
                },
            decreases max_depth - d,
        {
            let sub = self.minimax(d, player, exit);
            if let Some(mr) = sub {
                res = Some((d, mr));
            }
            let stop = match exit {
                Some(e) => e.load(Ordering::SeqCst),
                None => false,
            };
            if stop {
                proof {
                    assert(exit is Some);
                }
                break;
            }
            if d == max_depth {
                break;
            }
            d = d + 1;
        }
        res
    }
}

/// Fallback after cancellation is deterministic: any two search results that
/// both carry the mathematical result at one depth are the same result. A
/// driver cancelled while a deeper pass was in flight keeps its result from
/// the last completed depth, and a driver stopped cleanly right after that
/// depth hands back the very same move and score.
pub proof fn lemma_cancellation_fallback(
    bm: BoardModel,
    depth: u8,
    player: Side,
    r1: Option<MinimaxResult>,
    r2: Option<MinimaxResult>,
)
    requires
        result_matches(r1, ab_root(bm, depth, player)),
        result_matches(r2, ab_root(bm, depth, player)),
    ensures
        r1 == r2,
{
}

} // verus!
