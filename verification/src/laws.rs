//! The library's laws: properties that span several functions, stated and
//! proved over the same specifications the functions' contracts use.
use vstd::prelude::*;
use crate::bits::{is_sq, one_sq, sq_of, lemma_sq_of, group_squares};
use crate::piece::{ChessPiece, ChessColour, ChessPieceKind, sq_index, on_board, rank_of, file_of,
    lemma_sq_index, lemma_coords, op_colour, spec_rank, spec_file};
use crate::board::{ChessBoard, occupies, colour_occupies, any_occupies, pieces_wf, distinct_alive,
    board_wf};
use crate::movegen::{knight_jump, knight_reach, pawn_rank_dir, pawn_home_rank, pawn_move_reach, ep_pawn_target, ep_target, rook_aligned, between_clear, rook_reach};
use crate::attack::{attacks_simple};
use crate::rules::{moves_spec, can_castle_short, can_castle_long};
use crate::transition::{mover_index, can_commit, commit_result, captured_at,
    stepped_piece, moved_piece, is_short_castle, is_long_castle};
use vstd::arithmetic::div_mod::lemma_fundamental_div_mod;

verus! {

broadcast use group_squares, vstd::set::group_set_axioms;

/// Coordinate round trip: an uncaptured piece's rank and file, re-encoded
/// as a square mask, give back exactly the piece's position mask.
pub proof fn lemma_coordinate_round_trip(p: ChessPiece)
    requires
        !p.is_captured,
        is_sq(p.pos),
    ensures
        one_sq(sq_index(spec_rank(p), spec_file(p))) == p.pos,
        on_board(spec_rank(p), spec_file(p)),
{
    lemma_sq_of(p.pos);
    lemma_coords(sq_of(p.pos));
}

/// The set of squares a knight may jump to from square `a`.
pub open spec fn knight_jump_set(a: int) -> Set<int> {
    Set::new(|b: int| knight_jump(a, b))
}

/// A knight's destinations are its jump squares minus its own side's
/// occupancy.
pub proof fn lemma_knight_moves_shape(board: ChessBoard, p: ChessPiece)
    requires
        !p.is_captured,
        is_sq(p.pos),
        p.kind == ChessPieceKind::Knight,
    ensures
        forall|b: int|
            #[trigger] knight_reach(board, p, b) == (knight_jump_set(sq_of(p.pos)).contains(b)
                && !colour_occupies(board, p.colour, b)),
{
}

/// From a central square (ranks and files 3 through 6) a knight has
/// exactly 8 jump squares.
pub proof fn lemma_knight_central_eight(a: int)
    requires
        0 <= a < 64,
        3 <= rank_of(a) <= 6,
        3 <= file_of(a) <= 6,
    ensures
        knight_jump_set(a) =~= set![a - 17, a - 15, a - 10, a - 6, a + 6, a + 10, a + 15, a + 17],
        knight_jump_set(a).len() == 8,
{
    lemma_fundamental_div_mod(a, 8);
    assert forall|b: int| #[trigger] knight_jump(a, b) implies set![a - 17, a - 15, a - 10, a - 6, a
        + 6, a + 10, a + 15, a + 17].contains(b) by {
        lemma_fundamental_div_mod(b, 8);
    }
    assert forall|b: int| set![a - 17, a - 15, a - 10, a - 6, a + 6, a + 10, a + 15, a
        + 17].contains(b) implies #[trigger] knight_jump(a, b) by {
        lemma_fundamental_div_mod(b, 8);
        assert(0 <= b < 64);
    }
    let s1 = Set::<int>::empty().insert(a - 17);
    let s2 = s1.insert(a - 15);
    let s3 = s2.insert(a - 10);
    let s4 = s3.insert(a - 6);
    let s5 = s4.insert(a + 6);
    let s6 = s5.insert(a + 10);
    let s7 = s6.insert(a + 15);
    let s8 = s7.insert(a + 17);
    assert(s1.len() == 1);
    assert(s2.len() == 2);
    assert(s3.len() == 3);
    assert(s4.len() == 4);
    assert(s5.len() == 5);
    assert(s6.len() == 6);
    assert(s7.len() == 7);
    assert(s8.len() == 8);
    assert(knight_jump_set(a) =~= s8);
}

/// From a corner square a knight has exactly 2 jump squares.
pub proof fn lemma_knight_corner_two(a: int)
    requires
        0 <= a < 64,
        rank_of(a) == 1 || rank_of(a) == 8,
        file_of(a) == 1 || file_of(a) == 8,
    ensures
        knight_jump_set(a).len() == 2,
{
    lemma_fundamental_div_mod(a, 8);
    if rank_of(a) == 1 && file_of(a) == 1 {
        assert(a == 63);
        assert forall|b: int| #[trigger] knight_jump(a, b) implies set![a - 17, a - 10].contains(
            b,
        ) by {
            lemma_fundamental_div_mod(b, 8);
        }
        assert forall|b: int| set![a - 17, a - 10].contains(b) implies #[trigger] knight_jump(
            a,
            b,
        ) by {
            lemma_fundamental_div_mod(b, 8);
        }
        assert(knight_jump_set(a) =~= set![a - 17, a - 10]);
        assert(knight_jump_set(a).len() == 2);
    } else if rank_of(a) == 1 && file_of(a) == 8 {
        assert(a == 56);
        assert forall|b: int| #[trigger] knight_jump(a, b) implies set![a - 15, a - 6].contains(
            b,
        ) by {
            lemma_fundamental_div_mod(b, 8);
        }
        assert forall|b: int| set![a - 15, a - 6].contains(b) implies #[trigger] knight_jump(
            a,
            b,
        ) by {
            lemma_fundamental_div_mod(b, 8);
        }
        assert(knight_jump_set(a) =~= set![a - 15, a - 6]);
        assert(knight_jump_set(a).len() == 2);
    } else if rank_of(a) == 8 && file_of(a) == 1 {
        assert(a == 7);
        assert forall|b: int| #[trigger] knight_jump(a, b) implies set![a + 15, a + 6].contains(
            b,
        ) by {
            lemma_fundamental_div_mod(b, 8);
        }
        assert forall|b: int| set![a + 15, a + 6].contains(b) implies #[trigger] knight_jump(
            a,
            b,
        ) by {
            lemma_fundamental_div_mod(b, 8);
        }
        assert(knight_jump_set(a) =~= set![a + 15, a + 6]);
        assert(knight_jump_set(a).len() == 2);
    } else {
        assert(a == 0);
        assert forall|b: int| #[trigger] knight_jump(a, b) implies set![a + 17, a + 10].contains(
            b,
        ) by {
            lemma_fundamental_div_mod(b, 8);
        }
        assert forall|b: int| set![a + 17, a + 10].contains(b) implies #[trigger] knight_jump(
            a,
            b,
        ) by {
            lemma_fundamental_div_mod(b, 8);
        }
        assert(knight_jump_set(a) =~= set![a + 17, a + 10]);
        assert(knight_jump_set(a).len() == 2);
    }
}

/// A rook facing a piece along a clear line reaches that piece's square
/// exactly when it holds an opponent, and reaches nothing beyond it
/// either way.
pub proof fn lemma_rook_stops_at_blocker(
    board: ChessBoard,
    p: ChessPiece,
    t: int,
    u: int,
)
    requires
        pieces_wf(board),
        distinct_alive(board),
        !p.is_captured,
        is_sq(p.pos),
        p.kind == ChessPieceKind::Rook,
        rook_aligned(sq_of(p.pos), t),
        between_clear(board, sq_of(p.pos), t),
        any_occupies(board, t),
        crate::rays::seg_between(sq_of(p.pos), u, t),
    ensures
        colour_occupies(board, op_colour(p.colour), t) ==> rook_reach(board, p, t),
        colour_occupies(board, p.colour, t) ==> !rook_reach(board, p, t),
        !rook_reach(board, p, u),
{
    if colour_occupies(board, op_colour(p.colour), t) && colour_occupies(board, p.colour, t) {
        let k1 = choose|k: int|
            0 <= k < 32 && board.pieces[k].colour == op_colour(p.colour) && occupies(
                board.pieces[k],
                t,
            );
        let k2 = choose|k: int|
            0 <= k < 32 && board.pieces[k].colour == p.colour && occupies(board.pieces[k], t);
        assert(board.pieces[k1].pos == board.pieces[k2].pos);
        assert(false);
    }
    assert(!between_clear(board, sq_of(p.pos), u));
}

/// A pawn on its home rank: with both squares ahead empty it has the
/// single and the double push; with the square directly ahead occupied it
/// has neither.
pub proof fn lemma_pawn_pushes(board: ChessBoard, p: ChessPiece)
    requires
        !p.is_captured,
        is_sq(p.pos),
        p.kind == ChessPieceKind::Pawn,
        rank_of(sq_of(p.pos)) == pawn_home_rank(p.colour),
    ensures
        ({
            let a = sq_of(p.pos);
            let mid = sq_index(rank_of(a) + pawn_rank_dir(p.colour), file_of(a));
            let dbl = sq_index(rank_of(a) + 2 * pawn_rank_dir(p.colour), file_of(a));
            &&& (!any_occupies(board, mid) && !any_occupies(board, dbl)) ==> (pawn_move_reach(
                board,
                p,
                mid,
            ) && pawn_move_reach(board, p, dbl))
            &&& any_occupies(board, mid) ==> (!pawn_move_reach(board, p, mid)
                && !pawn_move_reach(board, p, dbl))
        }),
{
    let a = sq_of(p.pos);
    lemma_sq_of(p.pos);
    lemma_coords(a);
    let mid = sq_index(rank_of(a) + pawn_rank_dir(p.colour), file_of(a));
    let dbl = sq_index(rank_of(a) + 2 * pawn_rank_dir(p.colour), file_of(a));
    lemma_sq_index(rank_of(a) + pawn_rank_dir(p.colour), file_of(a));
    lemma_sq_index(rank_of(a) + 2 * pawn_rank_dir(p.colour), file_of(a));
}

/// A king never moves onto a square in the opponent's king-safety attack
/// map: the filter is part of its generator.
pub proof fn lemma_king_avoids_attack(board: ChessBoard, p: ChessPiece, b: int)
    requires
        p.kind == ChessPieceKind::King,
        moves_spec(board, p, b),
    ensures
        !attacks_simple(board, op_colour(p.colour), b),
{
}

/// A king never castles through or onto a square in the opponent's
/// king-safety attack map: each transit square, final square included, is
/// checked against it.
pub proof fn lemma_castle_avoids_attack(board: ChessBoard, p: ChessPiece)
    ensures
        can_castle_short(board, p) ==> !attacks_simple(
            board,
            op_colour(p.colour),
            sq_of(p.pos) - 1,
        ) && !attacks_simple(board, op_colour(p.colour), sq_of(p.pos) - 2),
        can_castle_long(board, p) ==> !attacks_simple(
            board,
            op_colour(p.colour),
            sq_of(p.pos) + 1,
        ) && !attacks_simple(board, op_colour(p.colour), sq_of(p.pos) + 2),
{
}

/// After any committed half-move the half-move clock is 0 exactly when
/// the move was a pawn move or a capture, and the old clock plus one
/// otherwise.
pub proof fn lemma_half_move_clock(b0: ChessBoard, b1: ChessBoard, from: u64, to: u64)
    requires
        board_wf(b0),
        can_commit(b0, from, to),
        commit_result(b0, b1, from, to),
    ensures
        ({
            let p = b0.pieces[mover_index(b0, from)];
            b1.rule_50_moves == if p.kind == ChessPieceKind::Pawn || captured_at(
                b0,
                mover_index(b0, from),
                to,
            ) {
                0int
            } else {
                b0.rule_50_moves + 1
            }
        }),
{
    let k = mover_index(b0, from);
    let p = b0.pieces[k];
    if is_short_castle(b0, from, to) {
        assert(p.kind == ChessPieceKind::King);
        assert(!captured_at(b0, k, to)) by {
            if captured_at(b0, k, to) {
                let j = choose|j: int|
                    0 <= j < 32 && j != k && !#[trigger] b0.pieces[j].is_captured
                        && b0.pieces[j].pos == to;
                crate::bits::lemma_one_nonzero(sq_of(p.pos) - 2);
                assert(occupies(b0.pieces[j], sq_of(p.pos) - 2));
                assert(any_occupies(b0, sq_of(p.pos) - 2));
            }
        }
    } else if is_long_castle(b0, from, to) {
        assert(p.kind == ChessPieceKind::King);
        assert(!captured_at(b0, k, to)) by {
            if captured_at(b0, k, to) {
                let j = choose|j: int|
                    0 <= j < 32 && j != k && !#[trigger] b0.pieces[j].is_captured
                        && b0.pieces[j].pos == to;
                crate::bits::lemma_one_nonzero(sq_of(p.pos) + 2);
                assert(occupies(b0.pieces[j], sq_of(p.pos) + 2));
                assert(any_occupies(b0, sq_of(p.pos) + 2));
            }
        }
    }
}

/// En passant eligibility after a committed half-move by side `c` is
/// exact: a capture square exists against `c` if and only if the move
/// just made was a pawn double-step, and then only the skipped square.
/// It therefore expires as soon as `c` commits its next half-move.
pub proof fn lemma_ep_exact_after_commit(b0: ChessBoard, b1: ChessBoard, from: u64, to: u64)
    requires
        board_wf(b0),
        can_commit(b0, from, to),
        commit_result(b0, b1, from, to),
    ensures
        forall|b: int|
            #[trigger] ep_target(b1, b0.current_move, b) == ({
                let k = mover_index(b0, from);
                let p = b0.pieces[k];
                p.kind == ChessPieceKind::Pawn && (if b0.current_move == ChessColour::White {
                    sq_of(from) == sq_of(to) + 16 && b == sq_of(to) + 8
                } else {
                    sq_of(from) == sq_of(to) - 16 && b == sq_of(to) - 8
                })
            }),
{
    let c = b0.current_move;
    let k = mover_index(b0, from);
    let p = b0.pieces[k];
    lemma_sq_of(from);
    lemma_sq_of(to);
    assert(occupies(p, sq_of(from)));
    lemma_sq_of(p.pos);
    assert forall|b: int|
        #[trigger] ep_target(b1, c, b) == (p.kind == ChessPieceKind::Pawn && (if c
            == ChessColour::White {
            sq_of(from) == sq_of(to) + 16 && b == sq_of(to) + 8
        } else {
            sq_of(from) == sq_of(to) - 16 && b == sq_of(to) - 8
        })) by {
        let castle = is_short_castle(b0, from, to) || is_long_castle(b0, from, to);
        if ep_target(b1, c, b) {
            let j = choose|j: int| 0 <= j < 32 && ep_pawn_target(#[trigger] b1.pieces[j], c, b);
            let q1 = b1.pieces[j];
            assert(!q1.is_captured && q1.kind == ChessPieceKind::Pawn && q1.colour == c);
            if castle {
                assert(p.kind == ChessPieceKind::King);
                let rk = if is_short_castle(b0, from, to) {
                    mover_index(b0, one_sq(sq_of(p.pos) - 3))
                } else {
                    mover_index(b0, one_sq(sq_of(p.pos) + 4))
                };
                if j != k && j != rk {
                    assert(q1 == stepped_piece(b0.pieces[j], c, to));
                    assert(q1.prev_pos == q1.pos);
                    lemma_sq_of(q1.pos);
                    assert(false);
                } else {
                    assert(q1.kind != ChessPieceKind::Pawn);
                    assert(false);
                }
            } else {
                if j != k {
                    assert(q1 == stepped_piece(b0.pieces[j], c, to));
                    assert(q1.prev_pos == q1.pos);
                    lemma_sq_of(q1.pos);
                    assert(false);
                } else {
                    assert(q1 == moved_piece(stepped_piece(p, c, to), to));
                    assert(q1.pos == to && q1.prev_pos == p.pos);
                    assert(p.pos == one_sq(sq_of(from)));
                }
            }
        }
        if p.kind == ChessPieceKind::Pawn && (if c == ChessColour::White {
            sq_of(from) == sq_of(to) + 16 && b == sq_of(to) + 8
        } else {
            sq_of(from) == sq_of(to) - 16 && b == sq_of(to) - 8
        }) {
            assert(!castle);
            let q1 = b1.pieces[k];
            assert(q1 == moved_piece(stepped_piece(p, c, to), to));
            assert(ep_pawn_target(q1, c, b));
            assert(ep_target(b1, c, b));
        }
    }
}

} // verus!
