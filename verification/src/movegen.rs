//! Pseudo-legal move generation for each piece kind.
//!
//! Every generator returns a bitmask; its contract characterizes exactly
//! which squares are set, in terms of ranks, files and board occupancy.
//! The generators do not consider whether the mover's own king is left in
//! check; the king's own generator is the one exception, filtering out the
//! squares the opponent attacks.
use vstd::prelude::*;
use crate::bits::{is_sq, sq_of, sq_in, lemma_sq_of, group_squares};
use crate::piece::{ChessPiece, ChessColour, ChessPieceKind, sq_index, rank_of, file_of,
    lemma_sq_index, lemma_coords, op_colour, get_file, get_rank};
use crate::board::{ChessBoard, occupies, colour_occupies, any_occupies, pieces_wf, kings_unique,
    get_piece_map, get_all_piece_map};
use vstd::arithmetic::div_mod::lemma_fundamental_div_mod;

verus! {

broadcast use group_squares;

/// A knight's jump: two ranks and one file, or one rank and two files.
pub open spec fn knight_jump(a: int, b: int) -> bool {
    0 <= a < 64 && 0 <= b < 64 && {
        let dr = rank_of(b) - rank_of(a);
        let df = file_of(b) - file_of(a);
        ((dr == 1 || dr == -1) && (df == 2 || df == -2)) || ((dr == 2 || dr == -2) && (df == 1
            || df == -1))
    }
}

/// A knight on square `a` reaches `b` exactly when `b` is a jump away and
/// not occupied by the knight's own side.
pub open spec fn knight_reach(board: ChessBoard, p: ChessPiece, b: int) -> bool {
    knight_jump(sq_of(p.pos), b) && !colour_occupies(board, p.colour, b)
}

/// The knight's jumps in bit-index form: the eight offsets, each guarded by
/// the file clearance it needs.
proof fn lemma_knight_char(a: int)
    requires
        0 <= a < 64,
    ensures
        forall|i: int|
            0 <= i < 64 ==> (#[trigger] knight_jump(a, i) == ((i == a + 17 && a % 8 <= 6) || (i == a
                - 15 && a % 8 <= 6) || (i == a + 10 && a % 8 <= 5) || (i == a - 6 && a % 8 <= 5) || (
            i == a - 17 && a % 8 >= 1) || (i == a + 15 && a % 8 >= 1) || (i == a - 10 && a % 8 >= 2)
                || (i == a + 6 && a % 8 >= 2))),
{
    assert forall|i: int| 0 <= i < 64 implies (#[trigger] knight_jump(a, i) == ((i == a + 17 && a % 8
        <= 6) || (i == a - 15 && a % 8 <= 6) || (i == a + 10 && a % 8 <= 5) || (i == a - 6 && a % 8
        <= 5) || (i == a - 17 && a % 8 >= 1) || (i == a + 15 && a % 8 >= 1) || (i == a - 10 && a % 8
        >= 2) || (i == a + 6 && a % 8 >= 2))) by {
        lemma_fundamental_div_mod(a, 8);
        lemma_fundamental_div_mod(i, 8);
    }
}

/// Destinations of a knight: the eight L-shaped offsets, edge-clipped by
/// file, minus the squares its own side occupies.
pub fn get_knight_moves(piece: ChessPiece, board: &ChessBoard) -> (res: u64)
    requires
        pieces_wf(*board),
        !piece.is_captured,
        is_sq(piece.pos),
    ensures
        forall|b: int| sq_in(res, b) == knight_reach(*board, piece, b),
{
    proof {
        lemma_sq_of(piece.pos);
        lemma_coords(sq_of(piece.pos));
        lemma_knight_char(sq_of(piece.pos));
        lemma_fundamental_div_mod(sq_of(piece.pos), 8);
    }
    let mut out: u64 = 0;
    let f = get_file(piece);
    if f >= 2 {
        out = out | (piece.pos << 17) | (piece.pos >> 15);
        if f >= 3 {
            out = out | (piece.pos >> 6) | (piece.pos << 10);
        }
    }
    if f <= 7 {
        out = out | (piece.pos >> 17) | (piece.pos << 15);
        if f <= 6 {
            out = out | (piece.pos >> 10) | (piece.pos << 6);
        }
    }
    let own = get_piece_map(piece.colour, board);
    let res = out & !own;
    proof {
        let a = sq_of(piece.pos);
        assert forall|b: int| sq_in(res, b) == knight_reach(*board, piece, b) by {
            if 0 <= b < 64 {
                assert(sq_in(out, b) == knight_jump(a, b));
            }
        }
    }
    res
}

/// Rank step of a pawn: White advances towards rank 8, Black towards 1.
pub open spec fn pawn_rank_dir(c: ChessColour) -> int {
    if c == ChessColour::White {
        1
    } else {
        -1
    }
}

/// The rank a pawn starts on, from which it may double-step.
pub open spec fn pawn_home_rank(c: ChessColour) -> int {
    if c == ChessColour::White {
        2
    } else {
        7
    }
}

/// Square `b` is one of the two diagonal capture squares of a pawn of
/// colour `c` standing on square `a`; board edges leave one (or, off a
/// 1-wide board, no) choice.
pub open spec fn pawn_capture_at(c: ChessColour, a: int, b: int) -> bool {
    0 <= a < 64 && 0 <= b < 64 && rank_of(b) == rank_of(a) + pawn_rank_dir(c) && (file_of(b)
        == file_of(a) + 1 || file_of(b) == file_of(a) - 1)
}

/// The pawn's capture squares in bit-index form.
proof fn lemma_pawn_capture_char(c: ChessColour, a: int)
    requires
        0 <= a < 64,
    ensures
        forall|i: int|
            0 <= i < 64 ==> (#[trigger] pawn_capture_at(c, a, i) == (if c == ChessColour::White {
                (i == a - 9 && a % 8 >= 1) || (i == a - 7 && a % 8 <= 6)
            } else {
                (i == a + 7 && a % 8 >= 1) || (i == a + 9 && a % 8 <= 6)
            })),
{
    assert forall|i: int| 0 <= i < 64 implies (#[trigger] pawn_capture_at(c, a, i) == (if c
        == ChessColour::White {
        (i == a - 9 && a % 8 >= 1) || (i == a - 7 && a % 8 <= 6)
    } else {
        (i == a + 7 && a % 8 >= 1) || (i == a + 9 && a % 8 <= 6)
    })) by {
        lemma_fundamental_div_mod(a, 8);
        lemma_fundamental_div_mod(i, 8);
    }
}

/// The two diagonal squares a pawn attacks, clipped at the board's files;
/// occupancy is not consulted (these are attack squares, not moves).
pub fn get_pawn_captures(piece: ChessPiece, _board: &ChessBoard) -> (res: u64)
    requires
        !piece.is_captured,
        is_sq(piece.pos),
    ensures
        forall|b: int| sq_in(res, b) == pawn_capture_at(piece.colour, sq_of(piece.pos), b),
{
    proof {
        lemma_sq_of(piece.pos);
        lemma_coords(sq_of(piece.pos));
        lemma_pawn_capture_char(piece.colour, sq_of(piece.pos));
        lemma_fundamental_div_mod(sq_of(piece.pos), 8);
    }
    let f = get_file(piece);
    let res: u64 = if piece.colour == ChessColour::White {
        if f == 1 {
            piece.pos >> 9
        } else if f == 8 {
            piece.pos >> 7
        } else {
            (piece.pos >> 7) | (piece.pos >> 9)
        }
    } else {
        if f == 1 {
            piece.pos << 7
        } else if f == 8 {
            piece.pos << 9
        } else {
            (piece.pos << 7) | (piece.pos << 9)
        }
    };
    proof {
        let a = sq_of(piece.pos);
        assert forall|b: int| sq_in(res, b) == pawn_capture_at(piece.colour, a, b) by {}
    }
    res
}

/// Piece `p` is a pawn of colour `c` that has just double-stepped (its
/// previous position is two ranks behind its position), and `b` is the
/// square it skipped — the square an enemy pawn may capture it on.
pub open spec fn ep_pawn_target(p: ChessPiece, c: ChessColour, b: int) -> bool {
    !p.is_captured && p.colour == c && p.kind == ChessPieceKind::Pawn && is_sq(p.pos) && is_sq(
        p.prev_pos,
    ) && {
        let a = sq_of(p.pos);
        if c == ChessColour::White {
            sq_of(p.prev_pos) == a + 16 && b == a + 8
        } else {
            sq_of(p.prev_pos) == a - 16 && b == a - 8
        }
    }
}

/// Square `b` is an en passant capture square against some pawn of colour
/// `c`: derived afresh from positions, never stored, so it expires as soon
/// as the side's previous positions advance.
pub open spec fn ep_target(board: ChessBoard, c: ChessColour, b: int) -> bool {
    exists|k: int| 0 <= k < 32 && ep_pawn_target(board.pieces[k], c, b)
}

/// The union of the en passant capture squares against colour `col`.
#[verifier::loop_isolation(false)]
pub fn get_ep_capture_spots(col: ChessColour, board: &ChessBoard) -> (res: u64)
    requires
        pieces_wf(*board),
    ensures
        forall|b: int| sq_in(res, b) == ep_target(*board, col, b),
{
    let mut out: u64 = 0;
    let mut k: usize = 0;
    while k < 32
        invariant
            k <= 32,
            forall|b: int|
                sq_in(out, b) == exists|j: int|
                    0 <= j < k && ep_pawn_target(board.pieces[j], col, b),
        decreases 32 - k,
    {
        let p = board.pieces[k];
        let ghost out0 = out;
        if !p.is_captured && p.colour == col && p.kind == ChessPieceKind::Pawn {
            proof {
                lemma_sq_of(p.pos);
                lemma_sq_of(p.prev_pos);
            }
            if p.colour == ChessColour::White {
                if (p.pos << 16) == p.prev_pos {
                    out = out | (p.pos << 8);
                }
            } else {
                if (p.pos >> 16) == p.prev_pos {
                    out = out | (p.pos >> 8);
                }
            }
        }
        proof {
            assert forall|b: int|
                sq_in(out, b) == exists|j: int|
                    0 <= j < k + 1 && ep_pawn_target(board.pieces[j], col, b) by {
                if !p.is_captured && p.colour == col && p.kind == ChessPieceKind::Pawn {
                    let a = sq_of(p.pos);
                    let v = sq_of(p.prev_pos);
                    if col == ChessColour::White {
                        if a + 16 < 64 {
                            crate::bits::lemma_shl_val(a, 16, a + 16);
                        } else {
                            crate::bits::lemma_shl_val_off(a, 16);
                        }
                    } else {
                        if a - 16 >= 0 {
                            crate::bits::lemma_shr_val(a, 16, a - 16);
                        } else {
                            crate::bits::lemma_shr_val_off(a, 16);
                        }
                    }
                }
                if ep_pawn_target(p, col, b) {
                    assert(0 <= k < k + 1 && ep_pawn_target(board.pieces[k as int], col, b));
                }
            }
        }
        k = k + 1;
    }
    out
}

/// A pawn's moves: a single push onto an empty square, a double push from
/// its home rank across two empty squares, or a diagonal capture onto an
/// enemy-occupied square or an en passant capture square.
pub open spec fn pawn_move_reach(board: ChessBoard, p: ChessPiece, b: int) -> bool {
    let a = sq_of(p.pos);
    let c = p.colour;
    0 <= b < 64 && ((rank_of(b) == rank_of(a) + pawn_rank_dir(c) && file_of(b) == file_of(a)
        && !any_occupies(board, b)) || (rank_of(a) == pawn_home_rank(c) && rank_of(b) == rank_of(a)
        + 2 * pawn_rank_dir(c) && file_of(b) == file_of(a) && !any_occupies(
        board,
        sq_index(rank_of(a) + pawn_rank_dir(c), file_of(a)),
    ) && !any_occupies(board, b)) || (pawn_capture_at(c, a, b) && (colour_occupies(
        board,
        op_colour(c),
        b,
    ) || ep_target(board, op_colour(c), b))))
}

/// The pawn's push squares in bit-index form.
proof fn lemma_pawn_push_char(c: ChessColour, a: int)
    requires
        0 <= a < 64,
    ensures
        forall|i: int|
            0 <= i < 64 ==> ((#[trigger] rank_of(i) == rank_of(a) + pawn_rank_dir(c) && file_of(i)
                == file_of(a)) == (i == a - 8 * pawn_rank_dir(c))),
        forall|i: int|
            0 <= i < 64 ==> ((#[trigger] rank_of(i) == rank_of(a) + 2 * pawn_rank_dir(c) && file_of(
                i,
            ) == file_of(a)) == (i == a - 16 * pawn_rank_dir(c))),
        (rank_of(a) == pawn_home_rank(c)) == (if c == ChessColour::White {
            48 <= a < 56
        } else {
            8 <= a < 16
        }),
        rank_of(a) == pawn_home_rank(c) ==> sq_index(
            rank_of(a) + pawn_rank_dir(c),
            file_of(a),
        ) == a - 8 * pawn_rank_dir(c),
{
    lemma_fundamental_div_mod(a, 8);
    assert forall|i: int| 0 <= i < 64 implies ((#[trigger] rank_of(i) == rank_of(a) + pawn_rank_dir(
        c,
    ) && file_of(i) == file_of(a)) == (i == a - 8 * pawn_rank_dir(c))) by {
        lemma_fundamental_div_mod(i, 8);
    }
    assert forall|i: int| 0 <= i < 64 implies ((#[trigger] rank_of(i) == rank_of(a) + 2
        * pawn_rank_dir(c) && file_of(i) == file_of(a)) == (i == a - 16 * pawn_rank_dir(c))) by {
        lemma_fundamental_div_mod(i, 8);
    }
    if rank_of(a) == pawn_home_rank(c) {
        lemma_coords(a);
        lemma_sq_index(rank_of(a) + pawn_rank_dir(c), file_of(a));
    }
}

/// Destinations of a pawn: pushes onto empty squares (one, or two from the
/// home rank) and diagonal captures, en passant included.
pub fn get_pawn_moves(piece: ChessPiece, board: &ChessBoard) -> (res: u64)
    requires
        pieces_wf(*board),
        !piece.is_captured,
        is_sq(piece.pos),
    ensures
        forall|b: int| sq_in(res, b) == pawn_move_reach(*board, piece, b),
{
    proof {
        lemma_sq_of(piece.pos);
        lemma_coords(sq_of(piece.pos));
        lemma_pawn_push_char(piece.colour, sq_of(piece.pos));
        lemma_fundamental_div_mod(sq_of(piece.pos), 8);
    }
    let all = get_all_piece_map(board);
    let opp = get_piece_map(crate::piece::get_op_col(piece.colour), board);
    let ep = get_ep_capture_spots(crate::piece::get_op_col(piece.colour), board);
    let caps = get_pawn_captures(piece, board) & (opp | ep);
    let res: u64 = if piece.colour == ChessColour::White {
        let single = (piece.pos >> 8) & !all;
        let dbl = ((((piece.pos & (0xFFu64 << 48)) >> 8) & !all) >> 8) & !all;
        caps | single | dbl
    } else {
        let single = (piece.pos << 8) & !all;
        let dbl = ((((piece.pos & (0xFFu64 << 8)) << 8) & !all) << 8) & !all;
        caps | single | dbl
    };
    proof {
        let a = sq_of(piece.pos);
        assert forall|b: int| sq_in(res, b) == pawn_move_reach(*board, piece, b) by {
            if piece.colour == ChessColour::White {
                crate::bits::lemma_row_scan(48, a);
                crate::bits::lemma_one_and(0xFFu64 << 48, a);
            } else {
                crate::bits::lemma_row_scan(8, a);
                crate::bits::lemma_one_and(0xFFu64 << 8, a);
            }
        }
    }
    res
}

/// Squares a king reaches in one step: the up-to-eight adjacent squares.
pub open spec fn king_adj(a: int, b: int) -> bool {
    0 <= a < 64 && 0 <= b < 64 && a != b && {
        let dr = rank_of(b) - rank_of(a);
        let df = file_of(b) - file_of(a);
        -1 <= dr <= 1 && -1 <= df <= 1
    }
}

/// The king's adjacency in bit-index form.
proof fn lemma_king_adj_char(a: int)
    requires
        0 <= a < 64,
    ensures
        forall|i: int|
            0 <= i < 64 ==> (#[trigger] king_adj(a, i) == (i == a - 8 || i == a + 8 || ((i == a - 1
                || i == a - 9 || i == a + 7) && a % 8 >= 1) || ((i == a + 1 || i == a + 9 || i == a
                - 7) && a % 8 <= 6))),
{
    assert forall|i: int| 0 <= i < 64 implies (#[trigger] king_adj(a, i) == (i == a - 8 || i == a + 8
        || ((i == a - 1 || i == a - 9 || i == a + 7) && a % 8 >= 1) || ((i == a + 1 || i == a + 9
        || i == a - 7) && a % 8 <= 6))) by {
        lemma_fundamental_div_mod(a, 8);
        lemma_fundamental_div_mod(i, 8);
    }
}

/// The board has an uncaptured king of colour `c`.
pub open spec fn has_king(board: ChessBoard, c: ChessColour) -> bool {
    exists|k: int|
        0 <= k < 32 && !board.pieces[k].is_captured && board.pieces[k].kind
            == ChessPieceKind::King && board.pieces[k].colour == c
}

/// The index of the uncaptured king of colour `c` (unique on a well-formed
/// board).
pub open spec fn king_index(board: ChessBoard, c: ChessColour) -> int {
    choose|k: int|
        0 <= k < 32 && !board.pieces[k].is_captured && board.pieces[k].kind
            == ChessPieceKind::King && board.pieces[k].colour == c
}

/// The simplified reach of the king of colour `c`: plain adjacency minus
/// its own side's occupancy, with no check filtering.  This is what the
/// opposing king must stay clear of.
pub open spec fn king_simple_attacks(board: ChessBoard, c: ChessColour, b: int) -> bool {
    has_king(board, c) && king_adj(sq_of(board.pieces[king_index(board, c)].pos), b)
        && !colour_occupies(board, c, b)
}

/// Adjacent squares of a single king position, minus `own`; shared by the
/// simplified and the filtered king generators.
pub(crate) fn king_adj_mask(pos: u64, f: u8, own: u64) -> (res: u64)
    requires
        is_sq(pos),
        f == file_of(sq_of(pos)),
    ensures
        forall|b: int| sq_in(res, b) == (king_adj(sq_of(pos), b) && !sq_in(own, b)),
{
    proof {
        lemma_sq_of(pos);
        lemma_coords(sq_of(pos));
        lemma_king_adj_char(sq_of(pos));
        lemma_fundamental_div_mod(sq_of(pos), 8);
    }
    let mut out: u64 = (pos >> 8) | (pos << 8);
    if f != 8 {
        out = out | (pos >> 1) | (pos >> 9) | (pos << 7);
    }
    if f != 1 {
        out = out | (pos << 1) | (pos << 9) | (pos >> 7);
    }
    let res = out & !own;
    proof {
        let a = sq_of(pos);
        assert forall|b: int| sq_in(res, b) == (king_adj(a, b) && !sq_in(own, b)) by {}
    }
    res
}

/// The simplified move map of the king of colour `col`: adjacency minus own
/// occupancy, or the empty mask when that side has no king left.
#[verifier::loop_isolation(false)]
pub fn get_king_moves_colour(col: ChessColour, board: &ChessBoard) -> (res: u64)
    requires
        pieces_wf(*board),
        kings_unique(*board),
    ensures
        forall|b: int| sq_in(res, b) == king_simple_attacks(*board, col, b),
{
    let mut k: usize = 0;
    while k < 32
        invariant
            k <= 32,
            forall|j: int|
                0 <= j < k ==> (#[trigger] board.pieces[j].is_captured || board.pieces[j].kind
                    != ChessPieceKind::King || board.pieces[j].colour != col),
        decreases 32 - k,
    {
        let p = board.pieces[k];
        if !p.is_captured && p.kind == ChessPieceKind::King && p.colour == col {
            proof {
                assert(has_king(*board, col));
                assert(king_index(*board, col) == k as int);
            }
            let own = get_piece_map(col, board);
            let f = get_file(p);
            proof {
                lemma_sq_of(p.pos);
            }
            return king_adj_mask(p.pos, f, own);
        }
        k = k + 1;
    }
    proof {
        assert(!has_king(*board, col));
        crate::bits::lemma_sq_in_zero(0);
    }
    0
}

/// Squares `a` and `b` share a rank or a file.
pub open spec fn rook_aligned(a: int, b: int) -> bool {
    0 <= a < 64 && 0 <= b < 64 && a != b && (rank_of(a) == rank_of(b) || file_of(a) == file_of(b))
}

/// Squares `a` and `b` share a diagonal.
pub open spec fn bishop_aligned(a: int, b: int) -> bool {
    0 <= a < 64 && 0 <= b < 64 && a != b && (rank_of(b) - rank_of(a) == file_of(b) - file_of(a)
        || rank_of(b) - rank_of(a) == file_of(a) - file_of(b))
}

/// No uncaptured piece stands strictly between `a` and `b`.
pub open spec fn between_clear(board: ChessBoard, a: int, b: int) -> bool {
    forall|s: int| crate::rays::seg_between(a, b, s) ==> !any_occupies(board, s)
}

/// A rook on its square reaches `b` exactly when `b` shares its rank or
/// file, every square strictly between is empty, and `b` does not hold one
/// of its own side's pieces: the ray stops at the first occupied square and
/// includes it only for a capture.
pub open spec fn rook_reach(board: ChessBoard, p: ChessPiece, b: int) -> bool {
    rook_aligned(sq_of(p.pos), b) && between_clear(board, sq_of(p.pos), b) && !colour_occupies(
        board,
        p.colour,
        b,
    )
}

/// The bishop's diagonal counterpart of `rook_reach`.
pub open spec fn bishop_reach(board: ChessBoard, p: ChessPiece, b: int) -> bool {
    bishop_aligned(sq_of(p.pos), b) && between_clear(board, sq_of(p.pos), b) && !colour_occupies(
        board,
        p.colour,
        b,
    )
}

/// A queen reaches what a rook or a bishop would reach from her square.
pub open spec fn queen_reach(board: ChessBoard, p: ChessPiece, b: int) -> bool {
    rook_reach(board, p, b) || bishop_reach(board, p, b)
}

/// The union of the four rook (or four bishop) rays equals the declarative
/// aligned-and-clear characterization.
proof fn lemma_slider_char(
    own: u64,
    all: u64,
    board: ChessBoard,
    p: ChessPiece,
    b: int,
    diag: bool,
)
    requires
        pieces_wf(board),
        !p.is_captured,
        is_sq(p.pos),
        forall|i: int| sq_in(own, i) == colour_occupies(board, p.colour, i),
        forall|i: int| sq_in(all, i) == any_occupies(board, i),
    ensures
        ({
            let a = sq_of(p.pos);
            let r0 = rank_of(a);
            let f0 = file_of(a);
            if diag {
                (crate::rays::ray_reach(own, all, r0, f0, 1, 1, b, 7) || crate::rays::ray_reach(
                    own,
                    all,
                    r0,
                    f0,
                    1,
                    -1,
                    b,
                    7,
                ) || crate::rays::ray_reach(own, all, r0, f0, -1, 1, b, 7)
                    || crate::rays::ray_reach(own, all, r0, f0, -1, -1, b, 7)) == bishop_reach(
                    board,
                    p,
                    b,
                )
            } else {
                (crate::rays::ray_reach(own, all, r0, f0, 1, 0, b, 7) || crate::rays::ray_reach(
                    own,
                    all,
                    r0,
                    f0,
                    -1,
                    0,
                    b,
                    7,
                ) || crate::rays::ray_reach(own, all, r0, f0, 0, 1, b, 7)
                    || crate::rays::ray_reach(own, all, r0, f0, 0, -1, b, 7)) == rook_reach(
                    board,
                    p,
                    b,
                )
            }
        }),
{
    let a = sq_of(p.pos);
    lemma_sq_of(p.pos);
    lemma_coords(a);
    let r0 = rank_of(a);
    let f0 = file_of(a);
    let dirs: Seq<(int, int)> = if diag {
        seq![(1int, 1int), (1int, -1int), (-1int, 1int), (-1int, -1int)]
    } else {
        seq![(1int, 0int), (-1int, 0int), (0int, 1int), (0int, -1int)]
    };
    assert forall|n: int|
        0 <= n < 4 && crate::rays::ray_reach(
            own,
            all,
            r0,
            f0,
            dirs[n].0,
            dirs[n].1,
            b,
            7,
        ) implies (if diag {
        bishop_reach(board, p, b)
    } else {
        rook_reach(board, p, b)
    }) by {
        crate::rays::lemma_ray_sound(own, all, r0, f0, dirs[n].0, dirs[n].1, b, 7);
        lemma_coords(b);
    }
    if (if diag {
        bishop_reach(board, p, b)
    } else {
        rook_reach(board, p, b)
    }) {
        lemma_coords(b);
        let br = rank_of(b);
        let bf = file_of(b);
        let dr: int = if br > r0 {
            1
        } else if br < r0 {
            -1
        } else {
            0
        };
        let df: int = if bf > f0 {
            1
        } else if bf < f0 {
            -1
        } else {
            0
        };
        assert(crate::rays::dir_aligned(r0, f0, dr, df, b));
        assert(crate::rays::ray_dist(r0, f0, b) <= 7);
        crate::rays::lemma_ray_complete(own, all, r0, f0, dr, df, b, 7);
        assert(exists|n: int|
            0 <= n < 4 && #[trigger] dirs[n] == (dr, df)) by {
            if diag {
                if dr == 1 && df == 1 {
                    assert(dirs[0] == (dr, df));
                } else if dr == 1 && df == -1 {
                    assert(dirs[1] == (dr, df));
                } else if dr == -1 && df == 1 {
                    assert(dirs[2] == (dr, df));
                } else {
                    assert(dirs[3] == (dr, df));
                }
            } else {
                if dr == 1 && df == 0 {
                    assert(dirs[0] == (dr, df));
                } else if dr == -1 && df == 0 {
                    assert(dirs[1] == (dr, df));
                } else if dr == 0 && df == 1 {
                    assert(dirs[2] == (dr, df));
                } else {
                    assert(dirs[3] == (dr, df));
                }
            }
        }
    }
}

/// Destinations of a rook: every square along the four orthogonal rays up
/// to and including the first enemy piece, excluding its own.
pub fn get_rook_moves(piece: ChessPiece, board: &ChessBoard) -> (res: u64)
    requires
        pieces_wf(*board),
        !piece.is_captured,
        is_sq(piece.pos),
    ensures
        forall|b: int| sq_in(res, b) == rook_reach(*board, piece, b),
{
    proof {
        lemma_sq_of(piece.pos);
        lemma_coords(sq_of(piece.pos));
    }
    let own = get_piece_map(piece.colour, board);
    let all = get_all_piece_map(board);
    let r0 = get_rank(piece);
    let f0 = get_file(piece);
    let m1 = crate::rays::ray_scan(own, all, r0, f0, 1, 0);
    let m2 = crate::rays::ray_scan(own, all, r0, f0, -1, 0);
    let m3 = crate::rays::ray_scan(own, all, r0, f0, 0, 1);
    let m4 = crate::rays::ray_scan(own, all, r0, f0, 0, -1);
    let res = m1 | m2 | m3 | m4;
    proof {
        assert forall|b: int| sq_in(res, b) == rook_reach(*board, piece, b) by {
            lemma_slider_char(own, all, *board, piece, b, false);
        }
    }
    res
}

/// Destinations of a bishop: every square along the four diagonal rays up
/// to and including the first enemy piece, excluding its own.
pub fn get_bishop_moves(piece: ChessPiece, board: &ChessBoard) -> (res: u64)
    requires
        pieces_wf(*board),
        !piece.is_captured,
        is_sq(piece.pos),
    ensures
        forall|b: int| sq_in(res, b) == bishop_reach(*board, piece, b),
{
    proof {
        lemma_sq_of(piece.pos);
        lemma_coords(sq_of(piece.pos));
    }
    let own = get_piece_map(piece.colour, board);
    let all = get_all_piece_map(board);
    let r0 = get_rank(piece);
    let f0 = get_file(piece);
    let m1 = crate::rays::ray_scan(own, all, r0, f0, 1, 1);
    let m2 = crate::rays::ray_scan(own, all, r0, f0, 1, -1);
    let m3 = crate::rays::ray_scan(own, all, r0, f0, -1, 1);
    let m4 = crate::rays::ray_scan(own, all, r0, f0, -1, -1);
    let res = m1 | m2 | m3 | m4;
    proof {
        assert forall|b: int| sq_in(res, b) == bishop_reach(*board, piece, b) by {
            lemma_slider_char(own, all, *board, piece, b, true);
        }
    }
    res
}

/// Destinations of a queen: the union of the rook's and the bishop's rays.
pub fn get_queen_moves(piece: ChessPiece, board: &ChessBoard) -> (res: u64)
    requires
        pieces_wf(*board),
        !piece.is_captured,
        is_sq(piece.pos),
    ensures
        forall|b: int| sq_in(res, b) == queen_reach(*board, piece, b),
{
    let res = get_bishop_moves(piece, board) | get_rook_moves(piece, board);
    res
}

} // verus!
