//! Side-wide attack maps and check detection.
//!
//! Two aggregate maps are kept apart on purpose.  In `attacks_simple` a
//! king contributes its plain adjacency; this map is what the *other* king
//! must keep out of, and using the plain reach breaks the mutual recursion
//! between the two kings' generators.  In `attacks_full` a king contributes
//! its filtered moves (adjacency minus squares the opponent attacks), so
//! the map holds only squares that side could actually move to.
use vstd::prelude::*;
use crate::bits::{is_sq, sq_of, sq_in, lemma_sq_of, group_squares};
use crate::piece::{ChessPiece, ChessColour, ChessPieceKind, op_colour, get_file, get_op_col};
use crate::board::{ChessBoard, colour_occupies, pieces_wf, kings_unique,
    get_piece_map};
use crate::movegen::{knight_reach, pawn_capture_at, king_adj, king_simple_attacks, has_king,
    king_index, rook_reach, bishop_reach, queen_reach, get_knight_moves, get_pawn_captures,
    get_rook_moves, get_bishop_moves, get_queen_moves, get_king_moves_colour};

verus! {

broadcast use group_squares;

/// The squares piece `p` attacks, a king counting with its plain adjacency.
pub open spec fn piece_attacks_simple(board: ChessBoard, p: ChessPiece, b: int) -> bool {
    match p.kind {
        ChessPieceKind::Rook => rook_reach(board, p, b),
        ChessPieceKind::Pawn => pawn_capture_at(p.colour, sq_of(p.pos), b),
        ChessPieceKind::Knight => knight_reach(board, p, b),
        ChessPieceKind::King => king_simple_attacks(board, p.colour, b),
        ChessPieceKind::Bishop => bishop_reach(board, p, b),
        ChessPieceKind::Queen => queen_reach(board, p, b),
    }
}

/// Colour `c` attacks square `b`, its king counting with plain adjacency:
/// the map the opposing king must avoid.
pub open spec fn attacks_simple(board: ChessBoard, c: ChessColour, b: int) -> bool {
    exists|k: int|
        0 <= k < 32 && !board.pieces[k].is_captured && board.pieces[k].colour == c
            && piece_attacks_simple(board, board.pieces[k], b)
}

/// A king's actual moves: adjacency, minus its own side's occupancy, minus
/// every square the opponent attacks (with the opponent's king counted by
/// plain adjacency).
pub open spec fn king_filtered_reach(board: ChessBoard, p: ChessPiece, b: int) -> bool {
    king_adj(sq_of(p.pos), b) && !colour_occupies(board, p.colour, b) && !attacks_simple(
        board,
        op_colour(p.colour),
        b,
    )
}

/// The squares piece `p` attacks, a king counting with its filtered moves.
pub open spec fn piece_attacks_full(board: ChessBoard, p: ChessPiece, b: int) -> bool {
    match p.kind {
        ChessPieceKind::King => king_filtered_reach(board, p, b),
        _ => piece_attacks_simple(board, p, b),
    }
}

/// Colour `c` attacks square `b`, its king counting only moves it could
/// make.
pub open spec fn attacks_full(board: ChessBoard, c: ChessColour, b: int) -> bool {
    exists|k: int|
        0 <= k < 32 && !board.pieces[k].is_captured && board.pieces[k].colour == c
            && piece_attacks_full(board, board.pieces[k], b)
}

/// Union of the attack squares of every uncaptured piece of colour `col`,
/// kings contributing plain adjacency: used to decide what the other king
/// must avoid, free of the mutual recursion between the two kings.
#[verifier::loop_isolation(false)]
pub fn get_capture_map_king_check(col: ChessColour, board: &ChessBoard) -> (res: u64)
    requires
        pieces_wf(*board),
        kings_unique(*board),
    ensures
        forall|b: int| sq_in(res, b) == attacks_simple(*board, col, b),
{
    let mut out: u64 = 0;
    let mut k: usize = 0;
    while k < 32
        invariant
            k <= 32,
            forall|b: int|
                sq_in(out, b) == exists|j: int|
                    0 <= j < k && !board.pieces[j].is_captured && board.pieces[j].colour == col
                        && piece_attacks_simple(*board, board.pieces[j], b),
        decreases 32 - k,
    {
        let p = board.pieces[k];
        if !p.is_captured && p.colour == col {
            let m = match p.kind {
                ChessPieceKind::Rook => get_rook_moves(p, board),
                ChessPieceKind::Pawn => get_pawn_captures(p, board),
                ChessPieceKind::Knight => get_knight_moves(p, board),
                ChessPieceKind::King => get_king_moves_colour(col, board),
                ChessPieceKind::Bishop => get_bishop_moves(p, board),
                ChessPieceKind::Queen => get_queen_moves(p, board),
            };
            out = out | m;
        }
        proof {
            assert forall|b: int|
                sq_in(out, b) == exists|j: int|
                    0 <= j < k + 1 && !board.pieces[j].is_captured && board.pieces[j].colour == col
                        && piece_attacks_simple(*board, board.pieces[j], b) by {
                if !p.is_captured && p.colour == col && piece_attacks_simple(*board, p, b) {
                    assert(0 <= k < k + 1 && !board.pieces[k as int].is_captured
                        && board.pieces[k as int].colour == col && piece_attacks_simple(
                        *board,
                        board.pieces[k as int],
                        b,
                    ));
                }
            }
        }
        k = k + 1;
    }
    out
}

/// Destinations of a king: the adjacent squares, minus its own side's
/// occupancy, minus every square the opponent attacks — the "never move
/// into check" rule is built into the generator itself.
pub fn get_king_moves(piece: ChessPiece, board: &ChessBoard) -> (res: u64)
    requires
        pieces_wf(*board),
        kings_unique(*board),
        !piece.is_captured,
        is_sq(piece.pos),
    ensures
        forall|b: int| sq_in(res, b) == king_filtered_reach(*board, piece, b),
{
    proof {
        lemma_sq_of(piece.pos);
    }
    let own = get_piece_map(piece.colour, board);
    let danger = get_capture_map_king_check(get_op_col(piece.colour), board);
    let f = get_file(piece);
    let adj = crate::movegen::king_adj_mask(piece.pos, f, own);
    let res = adj & !danger;
    res
}

/// Union of the attack squares of every uncaptured piece of colour `col`,
/// the king contributing only moves it could make: the squares that side
/// could actually move a piece to, for hypothetical lookahead.
#[verifier::loop_isolation(false)]
pub fn get_capture_map(col: ChessColour, board: &ChessBoard) -> (res: u64)
    requires
        pieces_wf(*board),
        kings_unique(*board),
    ensures
        forall|b: int| sq_in(res, b) == attacks_full(*board, col, b),
{
    let mut out: u64 = 0;
    let mut k: usize = 0;
    while k < 32
        invariant
            k <= 32,
            forall|b: int|
                sq_in(out, b) == exists|j: int|
                    0 <= j < k && !board.pieces[j].is_captured && board.pieces[j].colour == col
                        && piece_attacks_full(*board, board.pieces[j], b),
        decreases 32 - k,
    {
        let p = board.pieces[k];
        if !p.is_captured && p.colour == col {
            let m = match p.kind {
                ChessPieceKind::Rook => get_rook_moves(p, board),
                ChessPieceKind::Pawn => get_pawn_captures(p, board),
                ChessPieceKind::Knight => get_knight_moves(p, board),
                ChessPieceKind::King => get_king_moves(p, board),
                ChessPieceKind::Bishop => get_bishop_moves(p, board),
                ChessPieceKind::Queen => get_queen_moves(p, board),
            };
            out = out | m;
        }
        proof {
            assert forall|b: int|
                sq_in(out, b) == exists|j: int|
                    0 <= j < k + 1 && !board.pieces[j].is_captured && board.pieces[j].colour == col
                        && piece_attacks_full(*board, board.pieces[j], b) by {
                if !p.is_captured && p.colour == col && piece_attacks_full(*board, p, b) {
                    assert(0 <= k < k + 1 && !board.pieces[k as int].is_captured
                        && board.pieces[k as int].colour == col && piece_attacks_full(
                        *board,
                        board.pieces[k as int],
                        b,
                    ));
                }
            }
        }
        k = k + 1;
    }
    out
}

/// Colour `c` is in check: its king's square lies in the opponent's
/// king-safety attack map — or it has no king at all, which is reported as
/// checked as a fail-safe.
pub open spec fn in_check(board: ChessBoard, c: ChessColour) -> bool {
    !has_king(board, c) || attacks_simple(
        board,
        op_colour(c),
        sq_of(board.pieces[king_index(board, c)].pos),
    )
}

/// Whether the `col` king stands on a square the opponent attacks; a side
/// with no king left is reported as checked.
#[verifier::loop_isolation(false)]
pub fn is_checked(col: ChessColour, board: &ChessBoard) -> (r: bool)
    requires
        pieces_wf(*board),
        kings_unique(*board),
    ensures
        r == in_check(*board, col),
{
    let check_map = get_capture_map_king_check(get_op_col(col), board);
    let mut k: usize = 0;
    while k < 32
        invariant
            k <= 32,
            forall|j: int|
                0 <= j < k ==> (#[trigger] board.pieces[j].is_captured || board.pieces[j].kind
                    != ChessPieceKind::King || board.pieces[j].colour != col),
        decreases 32 - k,
    {
        let p = board.pieces[k];
        if !p.is_captured && p.kind == ChessPieceKind::King && p.colour == col {
            proof {
                assert(has_king(*board, col));
                assert(king_index(*board, col) == k as int);
                lemma_sq_of(p.pos);
                crate::bits::lemma_one_and(check_map, sq_of(p.pos));
            }
            return (p.pos & check_map) > 0;
        }
        k = k + 1;
    }
    proof {
        assert(!has_king(*board, col));
    }
    true
}

} // verus!
