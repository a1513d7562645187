//! The committed move transition and its hypothetical counterpart.
//!
//! `ChessBoard::move_piece` is the only committed mutation: it validates a
//! candidate move (normal moves through the generators, castling through
//! the validators), snapshots the moving side's previous positions, applies
//! capture, clock, repetition-history and turn bookkeeping, and leaves the
//! board untouched when the move is rejected.  The simulate / revert pair
//! performs only the position change, for king-safety lookahead.
use vstd::prelude::*;
use crate::bits::{is_sq, one_sq, sq_of, lemma_sq_of, is_single_square, group_squares};
use crate::piece::{ChessPiece, ChessColour, ChessPieceKind, rank_of, op_colour, get_rank, get_op_col};
use crate::board::{ChessBoard, occupies, any_occupies, pieces_wf, distinct_alive,
    kings_unique, clock_wf, board_wf, lookup, lemma_lookup_occupant,
    get_piece_bit_mask};
use crate::attack::{in_check, is_checked};
use crate::rules::{moves_spec, can_castle_short, can_castle_long, get_moves,
    get_short_castle_move, get_long_castle_move, promote_rank, rook_ready_at};

verus! {

broadcast use group_squares, vstd::array::group_array_axioms;

/// Some uncaptured piece stands on the square mask `from`.
pub open spec fn has_mover(board: ChessBoard, from: u64) -> bool {
    is_sq(from) && exists|k: int| 0 <= k < 32 && occupies(#[trigger] board.pieces[k], sq_of(from))
}

/// The index of the uncaptured piece standing on `from` (unique on a
/// well-formed board).
pub open spec fn mover_index(board: ChessBoard, from: u64) -> int {
    choose|k: int| 0 <= k < 32 && occupies(#[trigger] board.pieces[k], sq_of(from))
}

/// `lookup` and the occupant index agree on well-formed boards.
pub proof fn lemma_mover(board: ChessBoard, from: u64)
    requires
        pieces_wf(board),
        distinct_alive(board),
        is_sq(from),
    ensures
        match lookup(board, from) {
            Some(j) => has_mover(board, from) && mover_index(board, from) == j,
            None => !has_mover(board, from),
        },
{
    lemma_lookup_occupant(board, from);
    match lookup(board, from) {
        Some(j) => {
            assert(occupies(board.pieces[j], sq_of(from)));
            assert(has_mover(board, from));
            let k = mover_index(board, from);
            assert(occupies(board.pieces[k], sq_of(from)));
            assert(board.pieces[k].pos == board.pieces[j].pos);
        },
        None => {
            if has_mover(board, from) {
                let k = choose|k: int|
                    0 <= k < 32 && occupies(#[trigger] board.pieces[k], sq_of(from));
                assert(any_occupies(board, sq_of(from)));
            }
        },
    }
}

/// A piece after the snapshot-and-capture sweep of a committed move: its
/// previous position is advanced if it belongs to the moving side, and it
/// is captured if it stood on the destination square.
pub open spec fn stepped_piece(q0: ChessPiece, cur: ChessColour, to: u64) -> ChessPiece {
    ChessPiece {
        prev_pos: if !q0.is_captured && q0.colour == cur {
            q0.pos
        } else {
            q0.prev_pos
        },
        is_captured: q0.is_captured || q0.pos == to,
        ..q0
    }
}

/// The acting piece after a committed move: on the destination, its old
/// square recorded as previous position, and marked as having moved.
pub open spec fn moved_piece(q0: ChessPiece, to: u64) -> ChessPiece {
    ChessPiece { pos: to, prev_pos: q0.pos, has_moved: true, ..q0 }
}

/// An opposing piece stands on `to`, so the move is a capture.
pub open spec fn captured_at(board: ChessBoard, k: int, to: u64) -> bool {
    exists|j: int|
        0 <= j < 32 && j != k && !#[trigger] board.pieces[j].is_captured && board.pieces[j].pos
            == to
}

/// The numeric code of a colour.
pub open spec fn colour_code(c: ChessColour) -> u8 {
    if c == ChessColour::White {
        1
    } else {
        0
    }
}

/// The numeric code of a piece kind.
pub open spec fn kind_code(k: ChessPieceKind) -> u8 {
    match k {
        ChessPieceKind::King => 0,
        ChessPieceKind::Queen => 1,
        ChessPieceKind::Rook => 2,
        ChessPieceKind::Bishop => 3,
        ChessPieceKind::Knight => 4,
        ChessPieceKind::Pawn => 5,
    }
}

/// The nonzero code of an occupying piece: kind and colour packed together.
pub open spec fn piece_code(p: ChessPiece) -> u8 {
    (kind_code(p.kind) * 2 + colour_code(p.colour) + 1) as u8
}

/// The code recorded for square `b`: 0 when empty, the occupant's code
/// otherwise.
pub open spec fn square_code(pieces: [ChessPiece; 32], b: int) -> u8 {
    if exists|k: int| 0 <= k < 32 && occupies(#[trigger] pieces[k], b) {
        piece_code(pieces[choose|k: int| 0 <= k < 32 && occupies(#[trigger] pieces[k], b)])
    } else {
        0
    }
}

/// The position encoding pushed onto the repetition history: one code per
/// square, then the side to move.  Equal positions give equal encodings.
pub open spec fn board_code(pieces: [ChessPiece; 32], turn: ChessColour) -> Seq<u8> {
    Seq::new(64, |i: int| square_code(pieces, i)).push(colour_code(turn))
}

/// The code of a colour.
pub fn get_colour_hash(col: ChessColour) -> (r: u8)
    ensures
        r == colour_code(col),
{
    match col {
        ChessColour::White => 1,
        ChessColour::Black => 0,
    }
}

/// The code of a piece kind.
pub fn get_piece_hash(p_kind: ChessPieceKind) -> (r: u8)
    ensures
        r == kind_code(p_kind),
        r <= 5,
{
    match p_kind {
        ChessPieceKind::King => 0,
        ChessPieceKind::Queen => 1,
        ChessPieceKind::Rook => 2,
        ChessPieceKind::Bishop => 3,
        ChessPieceKind::Knight => 4,
        ChessPieceKind::Pawn => 5,
    }
}

/// The position encoding of the board as it stands: 64 square codes and
/// the side to move.
#[verifier::loop_isolation(false)]
pub fn hash_board_state(board: &ChessBoard) -> (r: Vec<u8>)
    requires
        pieces_wf(*board),
        distinct_alive(*board),
    ensures
        r@ == board_code(board.pieces, board.current_move),
{
    let mut out: Vec<u8> = Vec::new();
    let mut i: u8 = 0;
    while i < 64
        invariant
            i <= 64,
            out@.len() == i as int,
            forall|j: int| 0 <= j < i ==> out@[j] == square_code(board.pieces, j),
        decreases 64 - i,
    {
        let mask = 1u64 << (i as u64);
        proof {
            crate::bits::lemma_one_nonzero(i as int);
            lemma_lookup_occupant(*board, mask);
            if exists|k: int| 0 <= k < 32 && occupies(#[trigger] board.pieces[k], i as int) {
                let k0 = choose|k: int|
                    0 <= k < 32 && occupies(#[trigger] board.pieces[k], i as int);
                assert(any_occupies(*board, i as int));
                let j = lookup(*board, mask)->Some_0;
                assert(occupies(board.pieces[j], i as int));
                assert(board.pieces[j].pos == board.pieces[k0].pos);
                assert(j == k0);
            }
        }
        match get_piece_bit_mask(mask, board) {
            Some(p) => {
                let c = get_piece_hash(p.kind) * 2 + get_colour_hash(p.colour) + 1;
                out.push(c);
            },
            None => {
                out.push(0);
            },
        }
        i = i + 1;
    }
    out.push(get_colour_hash(board.current_move));
    proof {
        assert(out@ =~= board_code(board.pieces, board.current_move));
    }
    out
}

/// How many entries of the history `h` hold exactly the encoding `code`.
pub open spec fn count_code(h: Seq<Vec<u8>>, code: Seq<u8>) -> nat
    decreases h.len(),
{
    if h.len() == 0 {
        0
    } else {
        count_code(h.drop_last(), code) + if h.last()@ == code {
            1nat
        } else {
            0nat
        }
    }
}

/// Whether two byte strings are equal.
#[verifier::loop_isolation(false)]
fn bytes_equal(a: &Vec<u8>, b: &Vec<u8>) -> (r: bool)
    ensures
        r == (a@ == b@),
{
    if a.len() != b.len() {
        return false;
    }
    let mut i: usize = 0;
    while i < a.len()
        invariant
            i <= a@.len(),
            forall|j: int| 0 <= j < i ==> a@[j] == b@[j],
        decreases a@.len() - i,
    {
        if a[i] != b[i] {
            return false;
        }
        i = i + 1;
    }
    proof {
        assert(a@ =~= b@);
    }
    true
}

/// How often the position encoded by `code` has occurred in this game: its
/// occurrence count in the repetition history (threefold repetition is a
/// count reaching 3).
#[verifier::loop_isolation(false)]
pub fn repetition_count(board: &ChessBoard, code: &Vec<u8>) -> (n: usize)
    ensures
        n == count_code(board.rule_repetition@, code@),
{
    proof {
        assert(board.rule_repetition@.subrange(0, 0) =~= Seq::<Vec<u8>>::empty());
    }
    let mut n: usize = 0;
    let mut i: usize = 0;
    while i < board.rule_repetition.len()
        invariant
            i <= board.rule_repetition@.len(),
            n <= i,
            n == count_code(board.rule_repetition@.subrange(0, i as int), code@),
        decreases board.rule_repetition@.len() - i,
    {
        let ghost pre = board.rule_repetition@.subrange(0, i as int);
        if bytes_equal(&board.rule_repetition[i], code) {
            n = n + 1;
        }
        proof {
            let post = board.rule_repetition@.subrange(0, i as int + 1);
            assert(post.drop_last() =~= pre);
            assert(post.last() == board.rule_repetition@[i as int]);
        }
        i = i + 1;
    }
    proof {
        assert(board.rule_repetition@.subrange(0, board.rule_repetition@.len() as int)
            =~= board.rule_repetition@);
    }
    n
}

/// Index of the first uncaptured piece whose position intersects `mask`,
/// as an index into the piece array.
#[verifier::loop_isolation(false)]
fn find_alive_index(board: &ChessBoard, mask: u64) -> (r: Option<usize>)
    ensures
        match r {
            Some(j) => j < 32 && lookup(*board, mask) == Some(j as int),
            None => lookup(*board, mask) == None::<int>,
        },
{
    let mut k: usize = 0;
    while k < 32
        invariant
            k <= 32,
            lookup(*board, mask) == crate::board::lookup_from(*board, mask, k as int),
        decreases 32 - k,
    {
        let p = board.pieces[k];
        if !p.is_captured && (p.pos & mask) != 0 {
            return Some(k);
        }
        k = k + 1;
    }
    None
}

/// The move `(from, to)` is accepted by the committed transition: a live
/// piece of the side to move stands on `from`, and `to` is one of its
/// generated destinations, or the move is a recognised castle.
pub open spec fn can_commit(board: ChessBoard, from: u64, to: u64) -> bool {
    is_sq(from) && is_sq(to) && has_mover(board, from) && {
        let p = board.pieces[mover_index(board, from)];
        p.colour == board.current_move && (moves_spec(board, p, sq_of(to)) || is_short_castle(
            board,
            from,
            to,
        ) || is_long_castle(board, from, to))
    }
}

/// The move is a valid short castle: the mover is an eligible king and
/// `to` is two files towards file 8.
pub open spec fn is_short_castle(board: ChessBoard, from: u64, to: u64) -> bool {
    has_mover(board, from) && {
        let p = board.pieces[mover_index(board, from)];
        p.kind == ChessPieceKind::King && sq_of(p.pos) >= 2 && to == one_sq(sq_of(p.pos) - 2)
            && can_castle_short(board, p)
    }
}

/// The move is a valid long castle: the mover is an eligible king and `to`
/// is two files towards file 1.
pub open spec fn is_long_castle(board: ChessBoard, from: u64, to: u64) -> bool {
    has_mover(board, from) && {
        let p = board.pieces[mover_index(board, from)];
        p.kind == ChessPieceKind::King && sq_of(p.pos) + 2 < 64 && to == one_sq(sq_of(p.pos) + 2)
            && can_castle_long(board, p)
    }
}

/// What a committed non-castling move does: the mover lands on `to` with
/// its history updated, the moving side's previous positions advance, any
/// piece on `to` is captured, the clock resets on a pawn move or capture
/// and ticks otherwise, the position is recorded, and the turn passes.
pub open spec fn normal_commit(b0: ChessBoard, b1: ChessBoard, k: int, to: u64) -> bool {
    &&& b1.pieces[k] == moved_piece(stepped_piece(b0.pieces[k], b0.current_move, to), to)
    &&& forall|j: int|
        0 <= j < 32 && j != k ==> b1.pieces[j] == stepped_piece(
            #[trigger] b0.pieces[j],
            b0.current_move,
            to,
        )
    &&& b1.current_move == op_colour(b0.current_move)
    &&& b1.rule_50_moves == if b0.pieces[k].kind == ChessPieceKind::Pawn || captured_at(
        b0,
        k,
        to,
    ) {
        0
    } else {
        b0.rule_50_moves + 1
    }
    &&& b1.rule_repetition@.len() == b0.rule_repetition@.len() + 1
    &&& b1.rule_repetition@.subrange(0, b0.rule_repetition@.len() as int) == b0.rule_repetition@
    &&& b1.rule_repetition@.last()@ == board_code(b1.pieces, b0.current_move)
}

/// What a committed castle does: king and rook both move with their
/// history updated, the moving side's previous positions advance, nothing
/// is captured, the clock ticks, the position is recorded, and the turn
/// passes.
pub open spec fn castle_commit(
    b0: ChessBoard,
    b1: ChessBoard,
    k: int,
    rk: int,
    to: u64,
    rook_to: u64,
) -> bool {
    &&& b1.pieces[k] == moved_piece(stepped_piece(b0.pieces[k], b0.current_move, to), to)
    &&& b1.pieces[rk] == moved_piece(stepped_piece(b0.pieces[rk], b0.current_move, to), rook_to)
    &&& forall|j: int|
        0 <= j < 32 && j != k && j != rk ==> b1.pieces[j] == stepped_piece(
            #[trigger] b0.pieces[j],
            b0.current_move,
            to,
        )
    &&& b1.current_move == op_colour(b0.current_move)
    &&& b1.rule_50_moves == b0.rule_50_moves + 1
    &&& b1.rule_repetition@.len() == b0.rule_repetition@.len() + 1
    &&& b1.rule_repetition@.subrange(0, b0.rule_repetition@.len() as int) == b0.rule_repetition@
    &&& b1.rule_repetition@.last()@ == board_code(b1.pieces, b0.current_move)
}

/// What a successful `move_piece` did, castle or not.
pub open spec fn commit_result(b0: ChessBoard, b1: ChessBoard, from: u64, to: u64) -> bool {
    let k = mover_index(b0, from);
    let p = b0.pieces[k];
    if is_short_castle(b0, from, to) {
        castle_commit(
            b0,
            b1,
            k,
            mover_index(b0, one_sq(sq_of(p.pos) - 3)),
            to,
            one_sq(sq_of(p.pos) - 1),
        )
    } else if is_long_castle(b0, from, to) {
        castle_commit(
            b0,
            b1,
            k,
            mover_index(b0, one_sq(sq_of(p.pos) + 4)),
            to,
            one_sq(sq_of(p.pos) + 1),
        )
    } else {
        normal_commit(b0, b1, k, to)
    }
}

impl ChessBoard {
    /// The snapshot-capture-move core of a committed non-castling move.
    #[verifier::loop_isolation(false)]
    fn commit_normal(&mut self, k: usize, to_c: u64)
        requires
            board_wf(*old(self)),
            k < 32,
            !old(self).pieces[k as int].is_captured,
            old(self).pieces[k as int].colour == old(self).current_move,
            is_sq(to_c),
            old(self).pieces[k as int].pos != to_c,
        ensures
            normal_commit(*old(self), *final(self), k as int, to_c),
            board_wf(*final(self)),
    {
        let ghost b0 = *old(self);
        let cur = self.current_move;
        let mut captured_any = false;
        let mut j: usize = 0;
        while j < 32
            invariant
                j <= 32,
                self.current_move == b0.current_move,
                self.rule_50_moves == b0.rule_50_moves,
                self.rule_repetition == b0.rule_repetition,
                forall|i: int| j <= i < 32 ==> self.pieces[i] == b0.pieces[i],
                forall|i: int|
                    0 <= i < j ==> self.pieces[i] == stepped_piece(
                        #[trigger] b0.pieces[i],
                        cur,
                        to_c,
                    ),
                captured_any == exists|i: int|
                    0 <= i < j && i != k && !#[trigger] b0.pieces[i].is_captured && b0.pieces[i].pos
                        == to_c,
            decreases 32 - j,
        {
            let mut q = self.pieces[j];
            if !q.is_captured && q.colour == cur {
                q.prev_pos = q.pos;
            }
            if j != k && !q.is_captured && q.pos == to_c {
                q.is_captured = true;
                captured_any = true;
            }
            self.pieces[j] = q;
            proof {
                if j != k && !b0.pieces[j as int].is_captured && b0.pieces[j as int].pos == to_c {
                    assert(captured_any);
                }
            }
            j = j + 1;
        }
        let mut m = self.pieces[k];
        m.pos = to_c;
        m.has_moved = true;
        self.pieces[k] = m;
        proof {
            lemma_sq_of(to_c);
            assert forall|i: int|
                0 <= i < 32 && !#[trigger] self.pieces[i].is_captured implies is_sq(
                self.pieces[i].pos,
            ) && is_sq(self.pieces[i].prev_pos) by {
                assert(!b0.pieces[i].is_captured ==> is_sq(b0.pieces[i].pos) && is_sq(
                    b0.pieces[i].prev_pos,
                ));
                if i != k as int {
                    assert(self.pieces[i] == stepped_piece(b0.pieces[i], cur, to_c));
                }
            }
            assert(pieces_wf(*self));
            assert forall|k1: int, k2: int|
                0 <= k1 < 32 && 0 <= k2 < 32 && k1 != k2 && !#[trigger] self.pieces[k1].is_captured
                && !#[trigger] self.pieces[k2].is_captured implies self.pieces[k1].pos
                != self.pieces[k2].pos by {
                if k1 != k as int && k2 != k as int {
                    assert(self.pieces[k1].pos == b0.pieces[k1].pos);
                    assert(self.pieces[k2].pos == b0.pieces[k2].pos);
                } else {
                    let other = if k1 == k as int {
                        k2
                    } else {
                        k1
                    };
                    assert(self.pieces[other].pos == b0.pieces[other].pos);
                    assert(!b0.pieces[other].is_captured && b0.pieces[other].pos != to_c);
                }
            }
            assert forall|k1: int, k2: int|
                0 <= k1 < 32 && 0 <= k2 < 32 && !self.pieces[k1].is_captured
                && !self.pieces[k2].is_captured && #[trigger] self.pieces[k1].kind
                == ChessPieceKind::King && #[trigger] self.pieces[k2].kind == ChessPieceKind::King
                && self.pieces[k1].colour == self.pieces[k2].colour implies k1 == k2 by {
                if k1 != k as int {
                    assert(self.pieces[k1] == stepped_piece(b0.pieces[k1], cur, to_c));
                }
                if k2 != k as int {
                    assert(self.pieces[k2] == stepped_piece(b0.pieces[k2], cur, to_c));
                }
                assert(!b0.pieces[k1].is_captured && !b0.pieces[k2].is_captured
                    && b0.pieces[k1].kind == ChessPieceKind::King && b0.pieces[k2].kind
                    == ChessPieceKind::King && b0.pieces[k1].colour == b0.pieces[k2].colour);
            }
            assert(kings_unique(*self));
        }
        let was_pawn = self.pieces[k].kind == ChessPieceKind::Pawn;
        let code = hash_board_state(self);
        self.rule_repetition.push(code);
        let n = self.rule_repetition.len();
        if was_pawn || captured_any {
            self.rule_50_moves = 0;
        } else {
            proof {
                assert(self.rule_50_moves < n);
            }
            self.rule_50_moves = self.rule_50_moves + 1;
        }
        self.current_move = get_op_col(cur);
        proof {
            assert(self.rule_repetition@.subrange(0, b0.rule_repetition@.len() as int)
                =~= b0.rule_repetition@);
            assert(normal_commit(b0, *self, k as int, to_c));
            assert(clock_wf(*self));
        }
    }

    /// The snapshot-and-double-move core of a committed castle.
    #[verifier::loop_isolation(false)]
    fn commit_castle(&mut self, k: usize, rk: usize, to_c: u64, rook_to: u64)
        requires
            board_wf(*old(self)),
            k < 32,
            rk < 32,
            k != rk,
            !old(self).pieces[k as int].is_captured,
            !old(self).pieces[rk as int].is_captured,
            old(self).pieces[k as int].colour == old(self).current_move,
            old(self).pieces[rk as int].colour == old(self).current_move,
            old(self).pieces[k as int].kind != ChessPieceKind::Pawn,
            is_sq(to_c),
            is_sq(rook_to),
            to_c != rook_to,
            forall|j: int|
                0 <= j < 32 && !#[trigger] old(self).pieces[j].is_captured ==> old(
                    self,
                ).pieces[j].pos != to_c && old(self).pieces[j].pos != rook_to,
        ensures
            castle_commit(*old(self), *final(self), k as int, rk as int, to_c, rook_to),
            board_wf(*final(self)),
    {
        let ghost b0 = *old(self);
        let cur = self.current_move;
        let mut j: usize = 0;
        while j < 32
            invariant
                j <= 32,
                self.current_move == b0.current_move,
                self.rule_50_moves == b0.rule_50_moves,
                self.rule_repetition == b0.rule_repetition,
                forall|i: int| j <= i < 32 ==> self.pieces[i] == b0.pieces[i],
                forall|i: int|
                    0 <= i < j ==> self.pieces[i] == stepped_piece(
                        #[trigger] b0.pieces[i],
                        cur,
                        to_c,
                    ),
            decreases 32 - j,
        {
            let mut q = self.pieces[j];
            if !q.is_captured && q.colour == cur {
                q.prev_pos = q.pos;
            }
            self.pieces[j] = q;
            proof {
                assert(b0.pieces[j as int].pos != to_c || b0.pieces[j as int].is_captured);
            }
            j = j + 1;
        }
        let mut m = self.pieces[k];
        m.pos = to_c;
        m.has_moved = true;
        self.pieces[k] = m;
        let mut r = self.pieces[rk];
        r.pos = rook_to;
        r.has_moved = true;
        self.pieces[rk] = r;
        proof {
            lemma_sq_of(to_c);
            lemma_sq_of(rook_to);
            assert forall|i: int|
                0 <= i < 32 && !#[trigger] self.pieces[i].is_captured implies is_sq(
                self.pieces[i].pos,
            ) && is_sq(self.pieces[i].prev_pos) by {
                assert(!b0.pieces[i].is_captured ==> is_sq(b0.pieces[i].pos) && is_sq(
                    b0.pieces[i].prev_pos,
                ));
                if i != k as int && i != rk as int {
                    assert(self.pieces[i] == stepped_piece(b0.pieces[i], cur, to_c));
                }
            }
            assert(pieces_wf(*self));
            assert forall|k1: int, k2: int|
                0 <= k1 < 32 && 0 <= k2 < 32 && k1 != k2 && !#[trigger] self.pieces[k1].is_captured
                && !#[trigger] self.pieces[k2].is_captured implies self.pieces[k1].pos
                != self.pieces[k2].pos by {
                if k1 != k as int && k1 != rk as int && k2 != k as int && k2 != rk as int {
                    assert(self.pieces[k1].pos == b0.pieces[k1].pos);
                    assert(self.pieces[k2].pos == b0.pieces[k2].pos);
                }
            }
            assert forall|k1: int, k2: int|
                0 <= k1 < 32 && 0 <= k2 < 32 && !self.pieces[k1].is_captured
                && !self.pieces[k2].is_captured && #[trigger] self.pieces[k1].kind
                == ChessPieceKind::King && #[trigger] self.pieces[k2].kind == ChessPieceKind::King
                && self.pieces[k1].colour == self.pieces[k2].colour implies k1 == k2 by {
                if k1 != k as int && k1 != rk as int {
                    assert(self.pieces[k1] == stepped_piece(b0.pieces[k1], cur, to_c));
                }
                if k2 != k as int && k2 != rk as int {
                    assert(self.pieces[k2] == stepped_piece(b0.pieces[k2], cur, to_c));
                }
                assert(!b0.pieces[k1].is_captured && !b0.pieces[k2].is_captured
                    && b0.pieces[k1].kind == ChessPieceKind::King && b0.pieces[k2].kind
                    == ChessPieceKind::King && b0.pieces[k1].colour == b0.pieces[k2].colour);
            }
            assert(kings_unique(*self));
        }
        let code = hash_board_state(self);
        self.rule_repetition.push(code);
        let n = self.rule_repetition.len();
        proof {
            assert(self.rule_50_moves < n);
        }
        self.rule_50_moves = self.rule_50_moves + 1;
        self.current_move = get_op_col(cur);
        proof {
            assert(self.rule_repetition@.subrange(0, b0.rule_repetition@.len() as int)
                =~= b0.rule_repetition@);
            assert(castle_commit(b0, *self, k as int, rk as int, to_c, rook_to));
            assert(clock_wf(*self));
        }
    }

    /// Validate and commit one half-move: resolve the piece on `from_c`,
    /// check that `to_c` is one of its generated destinations or a valid
    /// castle, and apply the transition; reject anything else without
    /// touching the board.  Capture applies to whatever stands on the
    /// destination square; a pawn reaching the back rank stays a pawn
    /// until the caller decides its promotion with `promote_piece`.
    pub fn move_piece(&mut self, from_c: u64, to_c: u64) -> (r: bool)
        requires
            board_wf(*old(self)),
        ensures
            board_wf(*final(self)),
            r == can_commit(*old(self), from_c, to_c),
            !r ==> *final(self) == *old(self),
            r ==> commit_result(*old(self), *final(self), from_c, to_c),
    {
        let ghost b0 = *old(self);
        if !is_single_square(from_c) {
            return false;
        }
        if !is_single_square(to_c) {
            return false;
        }
        proof {
            lemma_mover(b0, from_c);
            lemma_sq_of(from_c);
            lemma_sq_of(to_c);
        }
        let ko = find_alive_index(self, from_c);
        if ko.is_none() {
            return false;
        }
        let k = ko.unwrap();
        let p = self.pieces[k];
        proof {
            assert(mover_index(b0, from_c) == k as int);
            assert(occupies(p, sq_of(from_c)));
            lemma_sq_of(p.pos);
        }
        if p.colour != self.current_move {
            return false;
        }
        if p.kind == ChessPieceKind::King {
            let short_dest = crate::rules::shifted_sq(p.pos, 2);
            let long_dest = crate::rules::shifted_sq_up(p.pos, 2);
            if short_dest != 0 && to_c == short_dest {
                proof {
                    crate::rules::lemma_two_files_not_adjacent(sq_of(p.pos));
                }
                if get_short_castle_move(p, self) {
                    let rm = crate::rules::shifted_sq(p.pos, 3);
                    proof {
                        crate::bits::lemma_one_nonzero(sq_of(p.pos) - 3);
                        lemma_mover(b0, rm);
                        let a = sq_of(p.pos);
                        assert(rook_ready_at(b0, p.colour, a - 3));
                        let rkx = choose|kk: int|
                            0 <= kk < 32 && occupies(#[trigger] b0.pieces[kk], a - 3)
                                && b0.pieces[kk].kind == ChessPieceKind::Rook && b0.pieces[kk].colour
                                == p.colour && !b0.pieces[kk].has_moved;
                        assert(occupies(b0.pieces[rkx], sq_of(rm)));
                        assert(has_mover(b0, rm));
                        assert(mover_index(b0, rm) == rkx) by {
                            let m = mover_index(b0, rm);
                            assert(occupies(b0.pieces[m], sq_of(rm)));
                        }
                    }
                    let rko = find_alive_index(self, rm);
                    let rk = rko.unwrap();
                    let rook_to = crate::rules::shifted_sq(p.pos, 1);
                    proof {
                        let a = sq_of(p.pos);
                        crate::bits::lemma_one_nonzero(a - 1);
                        crate::bits::lemma_one_nonzero(a - 2);
                        assert(occupies(b0.pieces[rk as int], a - 3));
                        assert(b0.pieces[rk as int].kind == ChessPieceKind::Rook) by {
                            let rkx = choose|kk: int|
                                0 <= kk < 32 && occupies(#[trigger] b0.pieces[kk], a - 3)
                                    && b0.pieces[kk].kind == ChessPieceKind::Rook
                                    && b0.pieces[kk].colour == p.colour
                                    && !b0.pieces[kk].has_moved;
                            assert(rk as int == rkx);
                        }
                        assert(rk as int != k as int);
                        assert forall|j: int|
                            0 <= j < 32 && !#[trigger] b0.pieces[j].is_captured implies b0.pieces[j].pos
                            != to_c && b0.pieces[j].pos != rook_to by {
                            if b0.pieces[j].pos == to_c {
                                assert(occupies(b0.pieces[j], a - 2));
                                assert(any_occupies(b0, a - 2));
                            }
                            if b0.pieces[j].pos == rook_to {
                                assert(occupies(b0.pieces[j], a - 1));
                                assert(any_occupies(b0, a - 1));
                            }
                        }
                    }
                    self.commit_castle(k, rk, to_c, rook_to);
                    proof {
                        assert(is_short_castle(b0, from_c, to_c));
                        assert(commit_result(b0, *self, from_c, to_c));
                    }
                    return true;
                } else {
                    proof {
                        let a = sq_of(p.pos);
                        crate::bits::lemma_one_nonzero(a - 2);
                        if a + 2 < 64 {
                            crate::bits::lemma_one_nonzero(a + 2);
                        }
                        assert(!moves_spec(b0, p, sq_of(to_c)));
                    }
                    return false;
                }
            }
            if long_dest != 0 && to_c == long_dest {
                proof {
                    crate::rules::lemma_two_files_not_adjacent(sq_of(p.pos));
                }
                if get_long_castle_move(p, self) {
                    let rm = crate::rules::shifted_sq_up(p.pos, 4);
                    proof {
                        crate::bits::lemma_one_nonzero(sq_of(p.pos) + 4);
                        lemma_mover(b0, rm);
                        let a = sq_of(p.pos);
                        assert(rook_ready_at(b0, p.colour, a + 4));
                        let rkx = choose|kk: int|
                            0 <= kk < 32 && occupies(#[trigger] b0.pieces[kk], a + 4)
                                && b0.pieces[kk].kind == ChessPieceKind::Rook && b0.pieces[kk].colour
                                == p.colour && !b0.pieces[kk].has_moved;
                        assert(occupies(b0.pieces[rkx], sq_of(rm)));
                        assert(has_mover(b0, rm));
                        assert(mover_index(b0, rm) == rkx) by {
                            let m = mover_index(b0, rm);
                            assert(occupies(b0.pieces[m], sq_of(rm)));
                        }
                    }
                    let rko = find_alive_index(self, rm);
                    let rk = rko.unwrap();
                    let rook_to = crate::rules::shifted_sq_up(p.pos, 1);
                    proof {
                        let a = sq_of(p.pos);
                        crate::bits::lemma_one_nonzero(a + 1);
                        crate::bits::lemma_one_nonzero(a + 2);
                        assert(occupies(b0.pieces[rk as int], a + 4));
                        assert(b0.pieces[rk as int].kind == ChessPieceKind::Rook) by {
                            let rkx = choose|kk: int|
                                0 <= kk < 32 && occupies(#[trigger] b0.pieces[kk], a + 4)
                                    && b0.pieces[kk].kind == ChessPieceKind::Rook
                                    && b0.pieces[kk].colour == p.colour
                                    && !b0.pieces[kk].has_moved;
                            assert(rk as int == rkx);
                        }
                        assert(rk as int != k as int);
                        assert forall|j: int|
                            0 <= j < 32 && !#[trigger] b0.pieces[j].is_captured implies b0.pieces[j].pos
                            != to_c && b0.pieces[j].pos != rook_to by {
                            if b0.pieces[j].pos == to_c {
                                assert(occupies(b0.pieces[j], a + 2));
                                assert(any_occupies(b0, a + 2));
                            }
                            if b0.pieces[j].pos == rook_to {
                                assert(occupies(b0.pieces[j], a + 1));
                                assert(any_occupies(b0, a + 1));
                            }
                        }
                    }
                    self.commit_castle(k, rk, to_c, rook_to);
                    proof {
                        assert(is_long_castle(b0, from_c, to_c));
                        assert(!is_short_castle(b0, from_c, to_c)) by {
                            let a = sq_of(p.pos);
                            crate::bits::lemma_one_nonzero(a + 2);
                            if a - 2 >= 0 {
                                crate::bits::lemma_one_nonzero(a - 2);
                            }
                        }
                        assert(commit_result(b0, *self, from_c, to_c));
                    }
                    return true;
                } else {
                    proof {
                        let a = sq_of(p.pos);
                        crate::bits::lemma_one_nonzero(a + 2);
                        if a - 2 >= 0 {
                            crate::bits::lemma_one_nonzero(a - 2);
                        }
                        assert(!moves_spec(b0, p, sq_of(to_c)));
                    }
                    return false;
                }
            }
        }
        let moves = get_moves(p, self);
        proof {
            crate::bits::lemma_one_and(moves, sq_of(to_c));
        }
        if to_c & moves == 0 {
            proof {
                assert(!moves_spec(b0, p, sq_of(to_c)));
                if is_short_castle(b0, from_c, to_c) {
                    let a = sq_of(p.pos);
                    crate::bits::lemma_one_nonzero(a - 2);
                }
                if is_long_castle(b0, from_c, to_c) {
                    let a = sq_of(p.pos);
                    crate::bits::lemma_one_nonzero(a + 2);
                }
            }
            return false;
        }
        proof {
            crate::rules::lemma_moves_not_self(b0, p, sq_of(to_c));
            assert(p.pos == one_sq(sq_of(from_c)));
            assert(p.pos != to_c) by {
                crate::bits::lemma_one_nonzero(sq_of(p.pos));
            }
            if p.kind == ChessPieceKind::King {
                if is_short_castle(b0, from_c, to_c) {
                    let a = sq_of(p.pos);
                    crate::bits::lemma_one_nonzero(a - 2);
                }
                if is_long_castle(b0, from_c, to_c) {
                    let a = sq_of(p.pos);
                    crate::bits::lemma_one_nonzero(a + 2);
                }
                crate::rules::lemma_two_files_not_adjacent(sq_of(p.pos));
            }
        }
        self.commit_normal(k, to_c);
        proof {
            assert(commit_result(b0, *self, from_c, to_c));
        }
        true
    }

    /// Hypothetically move the piece on `from_c` to `to_c`: snapshot the
    /// moving side's previous positions and change the one position,
    /// with no capture, clock, history or turn bookkeeping.
    #[verifier::loop_isolation(false)]
    pub fn simulate_move_piece(&mut self, from_c: u64, to_c: u64) -> (r: bool)
        requires
            board_wf(*old(self)),
        ensures
            r == can_simulate(*old(self), from_c, to_c),
            !r ==> *final(self) == *old(self),
            r ==> sim_result(*old(self), *final(self), from_c, to_c),
            pieces_wf(*final(self)),
            kings_unique(*final(self)),
            clock_wf(*final(self)),
    {
        let ghost b0 = *old(self);
        if !is_single_square(from_c) {
            return false;
        }
        if !is_single_square(to_c) {
            return false;
        }
        proof {
            lemma_mover(b0, from_c);
            lemma_sq_of(from_c);
            lemma_sq_of(to_c);
        }
        let ko = find_alive_index(self, from_c);
        if ko.is_none() {
            return false;
        }
        let k = ko.unwrap();
        let p = self.pieces[k];
        proof {
            assert(mover_index(b0, from_c) == k as int);
            assert(occupies(p, sq_of(from_c)));
            lemma_sq_of(p.pos);
        }
        if p.colour != self.current_move {
            return false;
        }
        let moves = get_moves(p, self);
        proof {
            crate::bits::lemma_one_and(moves, sq_of(to_c));
        }
        if to_c & moves == 0 {
            return false;
        }
        let cur = self.current_move;
        let mut j: usize = 0;
        while j < 32
            invariant
                j <= 32,
                self.current_move == b0.current_move,
                self.rule_50_moves == b0.rule_50_moves,
                self.rule_repetition == b0.rule_repetition,
                forall|i: int| j <= i < 32 ==> self.pieces[i] == b0.pieces[i],
                forall|i: int|
                    0 <= i < j ==> self.pieces[i] == sim_stepped(#[trigger] b0.pieces[i], cur),
            decreases 32 - j,
        {
            let mut q = self.pieces[j];
            if !q.is_captured && q.colour == cur {
                q.prev_pos = q.pos;
            }
            self.pieces[j] = q;
            j = j + 1;
        }
        let mut m = self.pieces[k];
        m.pos = to_c;
        self.pieces[k] = m;
        proof {
            assert forall|i: int|
                0 <= i < 32 && !#[trigger] self.pieces[i].is_captured implies is_sq(
                self.pieces[i].pos,
            ) && is_sq(self.pieces[i].prev_pos) by {
                assert(!b0.pieces[i].is_captured ==> is_sq(b0.pieces[i].pos) && is_sq(
                    b0.pieces[i].prev_pos,
                ));
                if i != k as int {
                    assert(self.pieces[i] == sim_stepped(b0.pieces[i], cur));
                }
            }
            assert(pieces_wf(*self));
            assert forall|k1: int, k2: int|
                0 <= k1 < 32 && 0 <= k2 < 32 && !self.pieces[k1].is_captured
                && !self.pieces[k2].is_captured && #[trigger] self.pieces[k1].kind
                == ChessPieceKind::King && #[trigger] self.pieces[k2].kind == ChessPieceKind::King
                && self.pieces[k1].colour == self.pieces[k2].colour implies k1 == k2 by {
                if k1 != k as int {
                    assert(self.pieces[k1] == sim_stepped(b0.pieces[k1], cur));
                }
                if k2 != k as int {
                    assert(self.pieces[k2] == sim_stepped(b0.pieces[k2], cur));
                }
                assert(!b0.pieces[k1].is_captured && !b0.pieces[k2].is_captured
                    && b0.pieces[k1].kind == ChessPieceKind::King && b0.pieces[k2].kind
                    == ChessPieceKind::King && b0.pieces[k1].colour == b0.pieces[k2].colour);
            }
            assert(kings_unique(*self));
            assert(sim_result(b0, *self, from_c, to_c));
        }
        true
    }

    /// Undo a simulated move: every uncaptured piece of the side to move
    /// takes back its snapshotted previous position.
    #[verifier::loop_isolation(false)]
    pub fn revert_simulate_move_piece(&mut self) -> (r: bool)
        requires
            pieces_wf(*old(self)),
            kings_unique(*old(self)),
            clock_wf(*old(self)),
        ensures
            r,
            revert_result(*old(self), *final(self)),
            pieces_wf(*final(self)),
            kings_unique(*final(self)),
            clock_wf(*final(self)),
    {
        let ghost b0 = *old(self);
        let cur = self.current_move;
        let mut j: usize = 0;
        while j < 32
            invariant
                j <= 32,
                self.current_move == b0.current_move,
                self.rule_50_moves == b0.rule_50_moves,
                self.rule_repetition == b0.rule_repetition,
                forall|i: int| j <= i < 32 ==> self.pieces[i] == b0.pieces[i],
                forall|i: int|
                    0 <= i < j ==> self.pieces[i] == reverted_piece(#[trigger] b0.pieces[i], cur),
            decreases 32 - j,
        {
            let mut q = self.pieces[j];
            if !q.is_captured && q.colour == cur {
                q.pos = q.prev_pos;
            }
            self.pieces[j] = q;
            j = j + 1;
        }
        proof {
            assert forall|i: int|
                0 <= i < 32 && !#[trigger] self.pieces[i].is_captured implies is_sq(
                self.pieces[i].pos,
            ) && is_sq(self.pieces[i].prev_pos) by {
                assert(!b0.pieces[i].is_captured ==> is_sq(b0.pieces[i].pos) && is_sq(
                    b0.pieces[i].prev_pos,
                ));
                assert(self.pieces[i] == reverted_piece(b0.pieces[i], cur));
            }
            assert(pieces_wf(*self));
            assert forall|k1: int, k2: int|
                0 <= k1 < 32 && 0 <= k2 < 32 && !self.pieces[k1].is_captured
                && !self.pieces[k2].is_captured && #[trigger] self.pieces[k1].kind
                == ChessPieceKind::King && #[trigger] self.pieces[k2].kind == ChessPieceKind::King
                && self.pieces[k1].colour == self.pieces[k2].colour implies k1 == k2 by {
                assert(self.pieces[k1] == reverted_piece(b0.pieces[k1], cur));
                assert(self.pieces[k2] == reverted_piece(b0.pieces[k2], cur));
                assert(!b0.pieces[k1].is_captured && !b0.pieces[k2].is_captured
                    && b0.pieces[k1].kind == ChessPieceKind::King && b0.pieces[k2].kind
                    == ChessPieceKind::King && b0.pieces[k1].colour == b0.pieces[k2].colour);
            }
            assert(kings_unique(*self));
        }
        true
    }

    /// Replace an eligible pawn of the side to move by the chosen kind
    /// (any kind but king or pawn); the caller decides the promotion, the
    /// committed transition never promotes silently.
    pub fn promote_piece(&mut self, pos_c: u64, n_kind: ChessPieceKind) -> (r: bool)
        requires
            board_wf(*old(self)),
        ensures
            board_wf(*final(self)),
            r == can_promote_commit(*old(self), pos_c, n_kind),
            !r ==> *final(self) == *old(self),
            r ==> promote_result(*old(self), *final(self), pos_c, n_kind),
    {
        let ghost b0 = *old(self);
        if n_kind == ChessPieceKind::King || n_kind == ChessPieceKind::Pawn {
            return false;
        }
        if !is_single_square(pos_c) {
            return false;
        }
        proof {
            lemma_mover(b0, pos_c);
            lemma_sq_of(pos_c);
        }
        let ko = find_alive_index(self, pos_c);
        if ko.is_none() {
            return false;
        }
        let k = ko.unwrap();
        let p = self.pieces[k];
        proof {
            assert(mover_index(b0, pos_c) == k as int);
            assert(occupies(p, sq_of(pos_c)));
            lemma_sq_of(p.pos);
        }
        if p.kind != ChessPieceKind::Pawn || p.colour != self.current_move {
            return false;
        }
        let r = get_rank(p);
        let target: u8 = if p.colour == ChessColour::White {
            8
        } else {
            1
        };
        if r != target {
            return false;
        }
        let mut m = self.pieces[k];
        m.kind = n_kind;
        self.pieces[k] = m;
        proof {
            assert(pieces_wf(*self));
            assert(distinct_alive(*self));
            assert forall|k1: int, k2: int|
                0 <= k1 < 32 && 0 <= k2 < 32 && !self.pieces[k1].is_captured
                && !self.pieces[k2].is_captured && #[trigger] self.pieces[k1].kind
                == ChessPieceKind::King && #[trigger] self.pieces[k2].kind == ChessPieceKind::King
                && self.pieces[k1].colour == self.pieces[k2].colour implies k1 == k2 by {
                assert(k1 != k as int && k2 != k as int);
                assert(self.pieces[k1] == b0.pieces[k1]);
                assert(self.pieces[k2] == b0.pieces[k2]);
            }
            assert(kings_unique(*self));
        }
        true
    }
}

/// The piece-snapshot applied by a simulated move: previous positions of
/// the side to move advance, nothing else changes.
pub open spec fn sim_stepped(q0: ChessPiece, cur: ChessColour) -> ChessPiece {
    ChessPiece {
        prev_pos: if !q0.is_captured && q0.colour == cur {
            q0.pos
        } else {
            q0.prev_pos
        },
        ..q0
    }
}

/// A piece after the revert sweep: uncaptured pieces of the side to move
/// return to their previous position.
pub open spec fn reverted_piece(q0: ChessPiece, cur: ChessColour) -> ChessPiece {
    if !q0.is_captured && q0.colour == cur {
        ChessPiece { pos: q0.prev_pos, ..q0 }
    } else {
        q0
    }
}

/// The move `(from, to)` is accepted by the simulation: as `can_commit`
/// but without the castling branch.
pub open spec fn can_simulate(board: ChessBoard, from: u64, to: u64) -> bool {
    is_sq(from) && is_sq(to) && has_mover(board, from) && {
        let p = board.pieces[mover_index(board, from)];
        p.colour == board.current_move && moves_spec(board, p, sq_of(to))
    }
}

/// What a successful simulation did: previous positions of the side to
/// move snapshotted, the mover's position changed, nothing else touched.
pub open spec fn sim_result(b0: ChessBoard, b1: ChessBoard, from: u64, to: u64) -> bool {
    let k = mover_index(b0, from);
    &&& b1.pieces[k] == ChessPiece { pos: to, prev_pos: b0.pieces[k].pos, ..b0.pieces[k] }
    &&& forall|j: int|
        0 <= j < 32 && j != k ==> b1.pieces[j] == sim_stepped(
            #[trigger] b0.pieces[j],
            b0.current_move,
        )
    &&& b1.current_move == b0.current_move
    &&& b1.rule_50_moves == b0.rule_50_moves
    &&& b1.rule_repetition == b0.rule_repetition
}

/// What the revert did: every uncaptured piece of the side to move is
/// back on its previous position, and nothing else changed.
pub open spec fn revert_result(b0: ChessBoard, b1: ChessBoard) -> bool {
    &&& forall|j: int|
        0 <= j < 32 ==> b1.pieces[j] == reverted_piece(#[trigger] b0.pieces[j], b0.current_move)
    &&& b1.current_move == b0.current_move
    &&& b1.rule_50_moves == b0.rule_50_moves
    &&& b1.rule_repetition == b0.rule_repetition
}

/// Reverting a simulated move restores the pre-simulation board: every
/// piece is back on its square with all its flags, and the board's
/// bookkeeping never changed; only the recorded previous positions of the
/// moving side now equal their current positions.
pub proof fn lemma_simulate_revert(
    b0: ChessBoard,
    b1: ChessBoard,
    b2: ChessBoard,
    from: u64,
    to: u64,
)
    requires
        board_wf(b0),
        can_simulate(b0, from, to),
        sim_result(b0, b1, from, to),
        revert_result(b1, b2),
    ensures
        forall|j: int|
            0 <= j < 32 ==> (#[trigger] b2.pieces[j].pos == b0.pieces[j].pos
                && b2.pieces[j].kind == b0.pieces[j].kind && b2.pieces[j].colour
                == b0.pieces[j].colour && b2.pieces[j].has_moved == b0.pieces[j].has_moved
                && b2.pieces[j].is_captured == b0.pieces[j].is_captured),
        b2.current_move == b0.current_move,
        b2.rule_50_moves == b0.rule_50_moves,
        b2.rule_repetition == b0.rule_repetition,
{
    let k = mover_index(b0, from);
    assert forall|j: int|
        0 <= j < 32 implies (#[trigger] b2.pieces[j].pos == b0.pieces[j].pos && b2.pieces[j].kind
        == b0.pieces[j].kind && b2.pieces[j].colour == b0.pieces[j].colour
        && b2.pieces[j].has_moved == b0.pieces[j].has_moved && b2.pieces[j].is_captured
        == b0.pieces[j].is_captured) by {
        assert(b2.pieces[j] == reverted_piece(b1.pieces[j], b1.current_move));
        if j != k {
            assert(b1.pieces[j] == sim_stepped(b0.pieces[j], b0.current_move));
        }
    }
}

/// Promotion is allowed: the piece on `pos` is an uncaptured pawn of the
/// side to move standing on its back rank, and the chosen kind is neither
/// king nor pawn.
pub open spec fn can_promote_commit(board: ChessBoard, pos: u64, n_kind: ChessPieceKind) -> bool {
    is_sq(pos) && n_kind != ChessPieceKind::King && n_kind != ChessPieceKind::Pawn && has_mover(
        board,
        pos,
    ) && {
        let p = board.pieces[mover_index(board, pos)];
        p.kind == ChessPieceKind::Pawn && p.colour == board.current_move && rank_of(sq_of(p.pos))
            == promote_rank(p.colour)
    }
}

/// What a successful promotion did: the pawn's kind is replaced in place,
/// its position, colour and flags untouched, and nothing else changed.
pub open spec fn promote_result(
    b0: ChessBoard,
    b1: ChessBoard,
    pos: u64,
    n_kind: ChessPieceKind,
) -> bool {
    let k = mover_index(b0, pos);
    &&& b1.pieces[k] == ChessPiece { kind: n_kind, ..b0.pieces[k] }
    &&& forall|j: int| 0 <= j < 32 && j != k ==> b1.pieces[j] == #[trigger] b0.pieces[j]
    &&& b1.current_move == b0.current_move
    &&& b1.rule_50_moves == b0.rule_50_moves
    &&& b1.rule_repetition == b0.rule_repetition
}

/// Validate and commit one half-move on a board given by value; on
/// rejection the board comes back unchanged with `false`.
pub fn move_piece(board: ChessBoard, from_c: u64, to_c: u64) -> (r: (ChessBoard, bool))
    requires
        board_wf(board),
    ensures
        board_wf(r.0),
        r.1 == can_commit(board, from_c, to_c),
        !r.1 ==> r.0 == board,
        r.1 ==> commit_result(board, r.0, from_c, to_c),
{
    let mut b = board;
    let ok = b.move_piece(from_c, to_c);
    (b, ok)
}

/// Whether the candidate move is pseudo-legal and leaves the mover's own
/// king out of check: the move is simulated, the king tested, and the
/// simulation reverted.
pub fn simulate_pice_moves_check(board: ChessBoard, from_c: u64, to_c: u64) -> (r: bool)
    requires
        board_wf(board),
    ensures
        r == (can_simulate(board, from_c, to_c) && exists|b1: ChessBoard|
            sim_result(board, b1, from_c, to_c) && !in_check(b1, board.current_move)),
{
    let ghost b0 = board;
    let mut b = board;
    let ok = b.simulate_move_piece(from_c, to_c);
    if !ok {
        return false;
    }
    let ghost bsim = b;
    let checked = is_checked(b.current_move, &b);
    b.revert_simulate_move_piece();
    proof {
        assert forall|b1: ChessBoard|
            sim_result(b0, b1, from_c, to_c) implies in_check(b1, b0.current_move) == in_check(
            bsim,
            b0.current_move,
        ) by {
            let k = mover_index(b0, from_c);
            assert forall|i: int| 0 <= i < 32 implies b1.pieces[i] == bsim.pieces[i] by {
                if i != k {
                    assert(b1.pieces[i] == sim_stepped(b0.pieces[i], b0.current_move));
                    assert(bsim.pieces[i] == sim_stepped(b0.pieces[i], b0.current_move));
                }
            }
            assert(b1.pieces =~= bsim.pieces);
            assert(b1 == bsim);
        }
        if !checked {
            assert(sim_result(b0, bsim, from_c, to_c) && !in_check(bsim, b0.current_move));
        }
    }
    !checked
}

} // verus!
