//! The move dispatch, the castling validators and promotion eligibility.
use vstd::prelude::*;
use crate::bits::{is_sq, one_sq, sq_of, sq_in, lemma_sq_of, lemma_shr_val, lemma_shr_val_off,
    lemma_shl_val, lemma_shl_val_off, group_squares};
use crate::piece::{ChessPiece, ChessColour, ChessPieceKind, rank_of, lemma_coords,
    op_colour, get_rank, get_op_col};
use crate::board::{ChessBoard, occupies, any_occupies, pieces_wf, distinct_alive,
    kings_unique, lookup, lemma_lookup, lemma_lookup_occupant, get_piece_bit_mask,
    get_all_piece_map};
use crate::movegen::{knight_reach, pawn_move_reach, rook_reach, bishop_reach, queen_reach,
    get_knight_moves, get_pawn_moves, get_rook_moves, get_bishop_moves, get_queen_moves};
use crate::attack::{king_filtered_reach, attacks_simple, in_check, get_king_moves,
    get_capture_map_king_check, is_checked};

verus! {

broadcast use group_squares;

/// The squares piece `p` may move to, by its kind.  Castling is not here:
/// it is validated separately and recognised by the committed transition.
pub open spec fn moves_spec(board: ChessBoard, p: ChessPiece, b: int) -> bool {
    match p.kind {
        ChessPieceKind::King => king_filtered_reach(board, p, b),
        ChessPieceKind::Queen => queen_reach(board, p, b),
        ChessPieceKind::Rook => rook_reach(board, p, b),
        ChessPieceKind::Bishop => bishop_reach(board, p, b),
        ChessPieceKind::Knight => knight_reach(board, p, b),
        ChessPieceKind::Pawn => pawn_move_reach(board, p, b),
    }
}

/// Pseudo-legal destinations of `piece`, dispatched on its kind.
pub fn get_moves(piece: ChessPiece, board: &ChessBoard) -> (res: u64)
    requires
        pieces_wf(*board),
        kings_unique(*board),
        !piece.is_captured,
        is_sq(piece.pos),
    ensures
        forall|b: int| sq_in(res, b) == moves_spec(*board, piece, b),
{
    match piece.kind {
        ChessPieceKind::King => get_king_moves(piece, board),
        ChessPieceKind::Queen => get_queen_moves(piece, board),
        ChessPieceKind::Rook => get_rook_moves(piece, board),
        ChessPieceKind::Bishop => get_bishop_moves(piece, board),
        ChessPieceKind::Knight => get_knight_moves(piece, board),
        ChessPieceKind::Pawn => get_pawn_moves(piece, board),
    }
}

/// An unmoved rook of colour `c` stands on square `b`.
pub open spec fn rook_ready_at(board: ChessBoard, c: ChessColour, b: int) -> bool {
    exists|k: int|
        0 <= k < 32 && occupies(#[trigger] board.pieces[k], b) && board.pieces[k].kind
            == ChessPieceKind::Rook && board.pieces[k].colour == c && !board.pieces[k].has_moved
}

/// A square the king passes through or lands on while castling: it must be
/// empty and free of opponent attack (the opponent's king counted by plain
/// adjacency, per the king-safety map).
pub open spec fn castle_transit_ok(board: ChessBoard, c: ChessColour, b: int) -> bool {
    !any_occupies(board, b) && !attacks_simple(board, op_colour(c), b)
}

/// Short (king-side) castling is available to `p`: an unmoved, unchecked
/// king, an unmoved rook three files over, and both squares the king
/// crosses empty and unattacked.
pub open spec fn can_castle_short(board: ChessBoard, p: ChessPiece) -> bool {
    &&& !p.is_captured
    &&& is_sq(p.pos)
    &&& p.kind == ChessPieceKind::King
    &&& !p.has_moved
    &&& !in_check(board, p.colour)
    &&& sq_of(p.pos) >= 3
    &&& rook_ready_at(board, p.colour, sq_of(p.pos) - 3)
    &&& castle_transit_ok(board, p.colour, sq_of(p.pos) - 1)
    &&& castle_transit_ok(board, p.colour, sq_of(p.pos) - 2)
}

/// Long (queen-side) castling is available to `p`: as for the short side,
/// with the rook four files over, and additionally the square next to the
/// rook empty so the rook's path is clear.
pub open spec fn can_castle_long(board: ChessBoard, p: ChessPiece) -> bool {
    &&& !p.is_captured
    &&& is_sq(p.pos)
    &&& p.kind == ChessPieceKind::King
    &&& !p.has_moved
    &&& !in_check(board, p.colour)
    &&& sq_of(p.pos) + 4 < 64
    &&& rook_ready_at(board, p.colour, sq_of(p.pos) + 4)
    &&& castle_transit_ok(board, p.colour, sq_of(p.pos) + 1)
    &&& castle_transit_ok(board, p.colour, sq_of(p.pos) + 2)
    &&& !any_occupies(board, sq_of(p.pos) + 3)
}

/// The square `steps` files towards file 8 from `p`'s square, as a mask
/// (0 when it falls off the board), with the facts needed to test it.
pub(crate) fn shifted_sq(pos: u64, steps: u8) -> (r: u64)
    requires
        is_sq(pos),
        steps < 8,
    ensures
        sq_of(pos) - steps >= 0 ==> r == one_sq(sq_of(pos) - steps) && is_sq(r),
        sq_of(pos) - steps < 0 ==> r == 0,
{
    proof {
        lemma_sq_of(pos);
        if sq_of(pos) - steps >= 0 {
            lemma_shr_val(sq_of(pos), steps as u64, sq_of(pos) - steps);
            crate::bits::lemma_one_nonzero(sq_of(pos) - steps);
        } else {
            lemma_shr_val_off(sq_of(pos), steps as u64);
        }
    }
    pos >> (steps as u64)
}

/// As `shifted_sq`, towards file 1 / the higher bit indices.
pub(crate) fn shifted_sq_up(pos: u64, steps: u8) -> (r: u64)
    requires
        is_sq(pos),
        steps < 8,
    ensures
        sq_of(pos) + steps < 64 ==> r == one_sq(sq_of(pos) + steps) && is_sq(r),
        sq_of(pos) + steps >= 64 ==> r == 0,
{
    proof {
        lemma_sq_of(pos);
        if sq_of(pos) + steps < 64 {
            lemma_shl_val(sq_of(pos), steps as u64, sq_of(pos) + steps);
            crate::bits::lemma_one_nonzero(sq_of(pos) + steps);
        } else {
            lemma_shl_val_off(sq_of(pos), steps as u64);
        }
    }
    pos << (steps as u64)
}

/// The square mask `m` (a single square) holds no piece and is not
/// attacked by the opponent of `c`, given the two maps.
fn transit_clear(m: u64, all: u64, danger: u64) -> (r: bool)
    requires
        is_sq(m),
    ensures
        r == (!sq_in(all, sq_of(m)) && !sq_in(danger, sq_of(m))),
{
    proof {
        lemma_sq_of(m);
        crate::bits::lemma_one_and(all, sq_of(m));
        crate::bits::lemma_one_and(danger, sq_of(m));
    }
    (m & all) == 0 && (m & danger) == 0
}

/// Whether `piece` may castle short: king and rook unmoved, king not in
/// check, and the two squares the king crosses empty and unattacked.
pub fn get_short_castle_move(piece: ChessPiece, board: &ChessBoard) -> (r: bool)
    requires
        pieces_wf(*board),
        distinct_alive(*board),
        kings_unique(*board),
        !piece.is_captured,
        is_sq(piece.pos),
    ensures
        r == can_castle_short(*board, piece),
{
    if piece.has_moved {
        return false;
    }
    if piece.kind != ChessPieceKind::King {
        return false;
    }
    if is_checked(piece.colour, board) {
        return false;
    }
    let rook_mask = shifted_sq(piece.pos, 3);
    if rook_mask == 0 {
        proof {
            lemma_sq_of(piece.pos);
        }
        return false;
    }
    proof {
        lemma_sq_of(piece.pos);
        crate::bits::lemma_one_nonzero(sq_of(piece.pos) - 3);
        lemma_lookup_occupant(*board, rook_mask);
        assert forall|k: int|
            0 <= k < 32 && occupies(#[trigger] board.pieces[k], sq_of(piece.pos)
                - 3) implies lookup(*board, rook_mask) == Some(k) by {
            assert(any_occupies(*board, sq_of(piece.pos) - 3));
            let j = lookup(*board, rook_mask)->Some_0;
            assert(occupies(board.pieces[j], sq_of(piece.pos) - 3));
        }
    }
    let other_o = get_piece_bit_mask(rook_mask, board);
    if other_o.is_none() {
        return false;
    }
    let other = other_o.unwrap();
    if other.has_moved || other.kind != ChessPieceKind::Rook || other.colour != piece.colour {
        return false;
    }
    let all = get_all_piece_map(board);
    let danger = get_capture_map_king_check(get_op_col(piece.colour), board);
    let t1 = shifted_sq(piece.pos, 1);
    let t2 = shifted_sq(piece.pos, 2);
    transit_clear(t1, all, danger) && transit_clear(t2, all, danger)
}

/// Whether `piece` may castle long: as the short side, with the rook four
/// files over and its extra path square empty.
pub fn get_long_castle_move(piece: ChessPiece, board: &ChessBoard) -> (r: bool)
    requires
        pieces_wf(*board),
        distinct_alive(*board),
        kings_unique(*board),
        !piece.is_captured,
        is_sq(piece.pos),
    ensures
        r == can_castle_long(*board, piece),
{
    if piece.has_moved {
        return false;
    }
    if piece.kind != ChessPieceKind::King {
        return false;
    }
    if is_checked(piece.colour, board) {
        return false;
    }
    let rook_mask = shifted_sq_up(piece.pos, 4);
    if rook_mask == 0 {
        proof {
            lemma_sq_of(piece.pos);
        }
        return false;
    }
    proof {
        lemma_sq_of(piece.pos);
        crate::bits::lemma_one_nonzero(sq_of(piece.pos) + 4);
        lemma_lookup_occupant(*board, rook_mask);
        assert forall|k: int|
            0 <= k < 32 && occupies(#[trigger] board.pieces[k], sq_of(piece.pos)
                + 4) implies lookup(*board, rook_mask) == Some(k) by {
            assert(any_occupies(*board, sq_of(piece.pos) + 4));
            let j = lookup(*board, rook_mask)->Some_0;
            assert(occupies(board.pieces[j], sq_of(piece.pos) + 4));
        }
    }
    let other_o = get_piece_bit_mask(rook_mask, board);
    if other_o.is_none() {
        return false;
    }
    let other = other_o.unwrap();
    if other.has_moved || other.kind != ChessPieceKind::Rook || other.colour != piece.colour {
        return false;
    }
    let all = get_all_piece_map(board);
    let danger = get_capture_map_king_check(get_op_col(piece.colour), board);
    let t1 = shifted_sq_up(piece.pos, 1);
    let t2 = shifted_sq_up(piece.pos, 2);
    let t3 = shifted_sq_up(piece.pos, 3);
    proof {
        lemma_sq_of(t3);
        crate::bits::lemma_one_and(all, sq_of(t3));
    }
    transit_clear(t1, all, danger) && transit_clear(t2, all, danger) && (t3 & all) == 0
}

/// The back rank a pawn of colour `c` promotes on.
pub open spec fn promote_rank(c: ChessColour) -> int {
    if c == ChessColour::White {
        8
    } else {
        1
    }
}

/// The piece found at `pos` is an uncaptured pawn standing on its
/// promotion rank.
pub open spec fn can_promote_spec(board: ChessBoard, pos: u64) -> bool {
    match lookup(board, pos) {
        Some(j) => board.pieces[j].kind == ChessPieceKind::Pawn && rank_of(
            sq_of(board.pieces[j].pos),
        ) == promote_rank(board.pieces[j].colour),
        None => false,
    }
}

/// Whether the piece on `pos` is a pawn on its back rank, eligible to be
/// promoted.
pub fn can_promote(pos: u64, board: &ChessBoard) -> (r: bool)
    requires
        pieces_wf(*board),
    ensures
        r == can_promote_spec(*board, pos),
{
    proof {
        lemma_lookup(*board, pos);
    }
    let other_o = get_piece_bit_mask(pos, board);
    match other_o {
        None => false,
        Some(piece) => {
            if piece.kind != ChessPieceKind::Pawn {
                false
            } else {
                let r = get_rank(piece);
                proof {
                    let j = lookup(*board, pos)->Some_0;
                    assert(!board.pieces[j].is_captured);
                    assert(is_sq(board.pieces[j].pos));
                }
                if piece.colour == ChessColour::White {
                    r == 8
                } else {
                    r == 1
                }
            }
        },
    }
}

/// A square two files away on the same rank is not adjacent to the king:
/// the castling destinations are never ordinary king moves.
pub proof fn lemma_two_files_not_adjacent(a: int)
    requires
        0 <= a < 64,
    ensures
        a - 2 >= 0 ==> !crate::movegen::king_adj(a, a - 2),
        a + 2 < 64 ==> !crate::movegen::king_adj(a, a + 2),
{
    vstd::arithmetic::div_mod::lemma_fundamental_div_mod(a, 8);
    if a - 2 >= 0 {
        vstd::arithmetic::div_mod::lemma_fundamental_div_mod(a - 2, 8);
    }
    if a + 2 < 64 {
        vstd::arithmetic::div_mod::lemma_fundamental_div_mod(a + 2, 8);
    }
}

/// No piece's generated destinations include its own square.
pub proof fn lemma_moves_not_self(board: ChessBoard, p: ChessPiece, b: int)
    requires
        !p.is_captured,
        is_sq(p.pos),
        moves_spec(board, p, b),
    ensures
        b != sq_of(p.pos),
{
    lemma_sq_of(p.pos);
    let a = sq_of(p.pos);
    lemma_coords(a);
    if b == a {
        match p.kind {
            ChessPieceKind::King => {
                assert(crate::movegen::king_adj(a, b) ==> b != a);
            },
            _ => {},
        }
    }
}

} // verus!
