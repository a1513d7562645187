//! The board: a fixed collection of 32 pieces plus the bookkeeping for the
//! draw rules, with its well-formedness invariant and the occupancy queries
//! every move generator builds on.
use vstd::prelude::*;
use crate::bits::{is_sq, one_sq, sq_of, sq_in, lemma_sq_of, group_squares};
use crate::piece::{ChessPiece, ChessColour, ChessPieceKind, sq_index, on_board, lemma_sq_index,
    new_piece};

verus! {

broadcast use group_squares;

#[derive(Clone, PartialEq)]
pub struct ChessBoard {
    /// All 32 pieces of the game; captured pieces stay here with
    /// `is_captured` set rather than being removed.
    pub pieces: [ChessPiece; 32],
    /// The side to act.
    pub current_move: ChessColour,
    /// Half-moves since the last pawn move or capture (the 50-move rule).
    pub rule_50_moves: usize,
    /// Repetition history: one position encoding per committed half-move,
    /// so that any position's occurrence count can be read off.
    pub rule_repetition: Vec<Vec<u8>>,
}

/// Piece `p` stands, uncaptured, on the square with bit index `b`.
pub open spec fn occupies(p: ChessPiece, b: int) -> bool {
    !p.is_captured && 0 <= b < 64 && p.pos == one_sq(b)
}

/// Some uncaptured piece of colour `col` stands on square `b`.
pub open spec fn colour_occupies(board: ChessBoard, col: ChessColour, b: int) -> bool {
    exists|k: int|
        0 <= k < 32 && board.pieces[k].colour == col && occupies(board.pieces[k], b)
}

/// Some uncaptured piece stands on square `b`.
pub open spec fn any_occupies(board: ChessBoard, b: int) -> bool {
    exists|k: int| 0 <= k < 32 && occupies(board.pieces[k], b)
}

/// Every uncaptured piece carries a single-square position and a
/// single-square previous position.
pub open spec fn pieces_wf(board: ChessBoard) -> bool {
    forall|k: int|
        0 <= k < 32 && !#[trigger] board.pieces[k].is_captured ==> is_sq(board.pieces[k].pos)
            && is_sq(board.pieces[k].prev_pos)
}

/// No two uncaptured pieces share a square.
pub open spec fn distinct_alive(board: ChessBoard) -> bool {
    forall|k1: int, k2: int|
        0 <= k1 < 32 && 0 <= k2 < 32 && k1 != k2 && !#[trigger] board.pieces[k1].is_captured
            && !#[trigger] board.pieces[k2].is_captured ==> board.pieces[k1].pos
            != board.pieces[k2].pos
}

/// Each side has at most one uncaptured king.
pub open spec fn kings_unique(board: ChessBoard) -> bool {
    forall|k1: int, k2: int|
        0 <= k1 < 32 && 0 <= k2 < 32 && !board.pieces[k1].is_captured
            && !board.pieces[k2].is_captured && #[trigger] board.pieces[k1].kind
            == ChessPieceKind::King && #[trigger] board.pieces[k2].kind == ChessPieceKind::King
            && board.pieces[k1].colour == board.pieces[k2].colour ==> k1 == k2
}

/// The half-move clock never exceeds the number of recorded positions.
pub open spec fn clock_wf(board: ChessBoard) -> bool {
    board.rule_50_moves <= board.rule_repetition@.len()
}

/// The board invariant: established by `new_board` and preserved by every
/// committed move.
pub open spec fn board_wf(board: ChessBoard) -> bool {
    pieces_wf(board) && distinct_alive(board) && kings_unique(board) && clock_wf(board)
}

/// Union of the position masks of the uncaptured pieces of one colour.
#[verifier::loop_isolation(false)]
pub fn get_piece_map(col: ChessColour, board: &ChessBoard) -> (r: u64)
    requires
        pieces_wf(*board),
    ensures
        forall|b: int| sq_in(r, b) == colour_occupies(*board, col, b),
{
    let mut out: u64 = 0;
    let mut k: usize = 0;
    while k < 32
        invariant
            k <= 32,
            forall|b: int|
                sq_in(out, b) == exists|j: int|
                    0 <= j < k && board.pieces[j].colour == col && occupies(board.pieces[j], b),
        decreases 32 - k,
    {
        let p = board.pieces[k];
        if !p.is_captured && p.colour == col {
            proof {
                lemma_sq_of(p.pos);
            }
            out = out | p.pos;
        }
        proof {
            assert forall|b: int|
                sq_in(out, b) == exists|j: int|
                    0 <= j < k + 1 && board.pieces[j].colour == col && occupies(
                        board.pieces[j],
                        b,
                    ) by {
                if !p.is_captured && p.colour == col && occupies(p, b) {
                    assert(0 <= k < k + 1 && board.pieces[k as int].colour == col && occupies(
                        board.pieces[k as int],
                        b,
                    ));
                }
            }
        }
        k = k + 1;
    }
    out
}

/// Union of the position masks of all uncaptured pieces.
#[verifier::loop_isolation(false)]
pub fn get_all_piece_map(board: &ChessBoard) -> (r: u64)
    requires
        pieces_wf(*board),
    ensures
        forall|b: int| sq_in(r, b) == any_occupies(*board, b),
{
    let mut out: u64 = 0;
    let mut k: usize = 0;
    while k < 32
        invariant
            k <= 32,
            forall|b: int|
                sq_in(out, b) == exists|j: int| 0 <= j < k && occupies(board.pieces[j], b),
        decreases 32 - k,
    {
        let p = board.pieces[k];
        if !p.is_captured {
            proof {
                lemma_sq_of(p.pos);
            }
            out = out | p.pos;
        }
        proof {
            assert forall|b: int|
                sq_in(out, b) == exists|j: int| 0 <= j < k + 1 && occupies(board.pieces[j], b) by {
                if occupies(p, b) {
                    assert(0 <= k < k + 1 && occupies(board.pieces[k as int], b));
                }
            }
        }
        k = k + 1;
    }
    out
}

/// Index of the first uncaptured piece whose position intersects `mask`,
/// scanning from piece `k` on.
pub open spec fn lookup_from(board: ChessBoard, mask: u64, k: int) -> Option<int>
    decreases 32 - k,
{
    if k < 0 || k >= 32 {
        None
    } else if !board.pieces[k].is_captured && board.pieces[k].pos & mask != 0 {
        Some(k)
    } else {
        lookup_from(board, mask, k + 1)
    }
}

/// Index of the first uncaptured piece whose position intersects `mask`.
pub open spec fn lookup(board: ChessBoard, mask: u64) -> Option<int> {
    lookup_from(board, mask, 0)
}

proof fn lemma_lookup_from(board: ChessBoard, mask: u64, k: int)
    requires
        0 <= k <= 32,
    ensures
        match lookup_from(board, mask, k) {
            Some(j) => k <= j < 32 && !board.pieces[j].is_captured && board.pieces[j].pos & mask
                != 0 && forall|i: int|
                k <= i < j ==> (#[trigger] board.pieces[i].is_captured || board.pieces[i].pos
                    & mask == 0),
            None => forall|i: int|
                k <= i < 32 ==> (#[trigger] board.pieces[i].is_captured || board.pieces[i].pos
                    & mask == 0),
        },
    decreases 32 - k,
{
    if k < 32 {
        lemma_lookup_from(board, mask, k + 1);
    }
}

/// What `lookup` finds: the first live piece intersecting the mask, and
/// nothing before it; `None` exactly when no live piece intersects.
pub proof fn lemma_lookup(board: ChessBoard, mask: u64)
    ensures
        match lookup(board, mask) {
            Some(j) => 0 <= j < 32 && !board.pieces[j].is_captured && board.pieces[j].pos & mask
                != 0 && forall|i: int|
                0 <= i < j ==> (#[trigger] board.pieces[i].is_captured || board.pieces[i].pos
                    & mask == 0),
            None => forall|i: int|
                0 <= i < 32 ==> (#[trigger] board.pieces[i].is_captured || board.pieces[i].pos
                    & mask == 0),
        },
{
    lemma_lookup_from(board, mask, 0);
}

/// For a single-square mask on a well-formed board, `lookup` finds exactly
/// the occupant of that square.
pub proof fn lemma_lookup_occupant(board: ChessBoard, mask: u64)
    requires
        pieces_wf(board),
        is_sq(mask),
    ensures
        match lookup(board, mask) {
            Some(j) => 0 <= j < 32 && occupies(board.pieces[j], sq_of(mask)),
            None => !any_occupies(board, sq_of(mask)),
        },
{
    let b = sq_of(mask);
    lemma_sq_of(mask);
    lemma_lookup(board, mask);
    assert forall|k: int| 0 <= k < 32 implies ((!board.pieces[k].is_captured
        && board.pieces[k].pos & mask != 0) == occupies(#[trigger] board.pieces[k], b)) by {
        let p = board.pieces[k];
        if !p.is_captured {
            lemma_sq_of(p.pos);
            crate::bits::lemma_one_and(p.pos, b);
            if sq_in(p.pos, b) {
                assert(p.pos == one_sq(b));
            }
            assert((p.pos & mask != 0) == sq_in(p.pos, b)) by {
                assert(mask == one_sq(b));
            }
        }
    }
    match lookup(board, mask) {
        Some(j) => {
            assert(occupies(board.pieces[j], b));
        },
        None => {
            if any_occupies(board, b) {
                let k = choose|k: int| 0 <= k < 32 && occupies(board.pieces[k], b);
                assert(!board.pieces[k].is_captured && board.pieces[k].pos & mask != 0);
            }
        },
    }
}

/// The first uncaptured piece whose position intersects `pos`, if any.
#[verifier::loop_isolation(false)]
pub fn get_piece_bit_mask(pos: u64, board: &ChessBoard) -> (r: Option<ChessPiece>)
    ensures
        r == match lookup(*board, pos) {
            Some(j) => Some(board.pieces[j]),
            None => None::<ChessPiece>,
        },
{
    let mut k: usize = 0;
    while k < 32
        invariant
            k <= 32,
            lookup(*board, pos) == lookup_from(*board, pos, k as int),
        decreases 32 - k,
    {
        let p = board.pieces[k];
        if !p.is_captured && (p.pos & pos) != 0 {
            return Some(p);
        }
        k = k + 1;
    }
    None
}

/// The colour a piece template in the starting array belongs to.
pub open spec fn start_colour(k: int) -> ChessColour {
    if k < 16 {
        ChessColour::White
    } else {
        ChessColour::Black
    }
}

/// The kind of the `k`-th piece of the starting array.
pub open spec fn start_kind(k: int) -> ChessPieceKind {
    let j = k % 16;
    if j < 2 {
        ChessPieceKind::Rook
    } else if j < 4 {
        ChessPieceKind::Knight
    } else if j < 6 {
        ChessPieceKind::Bishop
    } else if j == 6 {
        ChessPieceKind::King
    } else if j == 7 {
        ChessPieceKind::Queen
    } else {
        ChessPieceKind::Pawn
    }
}

/// The rank of the `k`-th piece of the starting array.
pub open spec fn start_rank(k: int) -> int {
    if k < 8 {
        1
    } else if k < 16 {
        2
    } else if k < 24 {
        8
    } else {
        7
    }
}

/// The file of the `k`-th piece of the starting array.
pub open spec fn start_file(k: int) -> int {
    let j = k % 16;
    if j >= 8 {
        j - 7
    } else if j == 0 {
        1
    } else if j == 1 {
        8
    } else if j == 2 {
        2
    } else if j == 3 {
        7
    } else if j == 4 {
        3
    } else if j == 5 {
        6
    } else if j == 6 {
        5
    } else {
        4
    }
}

/// The `k`-th piece of the standard starting position.
pub open spec fn start_piece(k: int) -> ChessPiece {
    ChessPiece {
        pos: one_sq(sq_index(start_rank(k), start_file(k))),
        prev_pos: one_sq(sq_index(start_rank(k), start_file(k))),
        colour: start_colour(k),
        kind: start_kind(k),
        has_moved: false,
        is_captured: false,
    }
}

/// The 32 starting pieces stand on valid squares, all distinct, and only
/// pieces 6 and 22 are kings.
proof fn lemma_start_layout()
    ensures
        forall|k: int|
            0 <= k < 32 ==> on_board(start_rank(k), start_file(k)) && 0 <= #[trigger] sq_index(
                start_rank(k),
                start_file(k),
            ) < 64,
        forall|k1: int, k2: int|
            0 <= k1 < 32 && 0 <= k2 < 32 && k1 != k2 ==> #[trigger] start_piece(k1).pos
                != #[trigger] start_piece(k2).pos,
        forall|k: int| 0 <= k < 32 && start_kind(k) == ChessPieceKind::King ==> (k == 6 || k == 22),
{
    assert forall|k: int| 0 <= k < 32 implies on_board(start_rank(k), start_file(k)) && 0
        <= #[trigger] sq_index(start_rank(k), start_file(k)) < 64 by {
        lemma_sq_index(start_rank(k), start_file(k));
    }
    assert forall|k1: int, k2: int|
        0 <= k1 < 32 && 0 <= k2 < 32 && k1 != k2 implies #[trigger] start_piece(k1).pos
        != #[trigger] start_piece(k2).pos by {
        lemma_sq_index(start_rank(k1), start_file(k1));
        lemma_sq_index(start_rank(k2), start_file(k2));
        let b1 = sq_index(start_rank(k1), start_file(k1));
        let b2 = sq_index(start_rank(k2), start_file(k2));
        assert(b1 != b2);
        crate::bits::lemma_sq_in_one(b1, b1);
        crate::bits::lemma_sq_in_one(b2, b1);
    }
}

/// The `k`-th entry of the starting template, as a freshly placed piece.
fn make_start_piece(k: usize) -> (p: ChessPiece)
    requires
        k < 32,
    ensures
        p == start_piece(k as int),
{
    proof {
        lemma_start_layout();
    }
    let j: usize = k % 16;
    let colour = if k < 16 {
        ChessColour::White
    } else {
        ChessColour::Black
    };
    let kind = if j < 2 {
        ChessPieceKind::Rook
    } else if j < 4 {
        ChessPieceKind::Knight
    } else if j < 6 {
        ChessPieceKind::Bishop
    } else if j == 6 {
        ChessPieceKind::King
    } else if j == 7 {
        ChessPieceKind::Queen
    } else {
        ChessPieceKind::Pawn
    };
    let rank: u8 = if k < 8 {
        1
    } else if k < 16 {
        2
    } else if k < 24 {
        8
    } else {
        7
    };
    let file: u8 = if j >= 8 {
        (j - 7) as u8
    } else if j == 0 {
        1
    } else if j == 1 {
        8
    } else if j == 2 {
        2
    } else if j == 3 {
        7
    } else if j == 4 {
        3
    } else if j == 5 {
        6
    } else if j == 6 {
        5
    } else {
        4
    };
    new_piece(rank, file, kind, colour)
}

/// The standard starting position: 32 pieces at their standard squares,
/// White to move, a zero half-move clock and an empty repetition history.
#[verifier::loop_isolation(false)]
pub fn new_board() -> (board: ChessBoard)
    ensures
        forall|k: int| 0 <= k < 32 ==> board.pieces[k] == start_piece(k),
        board.current_move == ChessColour::White,
        board.rule_50_moves == 0,
        board.rule_repetition@.len() == 0,
        board_wf(board),
{
    let filler = new_piece(2, 1, ChessPieceKind::Pawn, ChessColour::White);
    let mut pieces: [ChessPiece; 32] = [filler;32];
    let mut k: usize = 0;
    while k < 32
        invariant
            k <= 32,
            forall|j: int| 0 <= j < k ==> pieces[j] == start_piece(j),
        decreases 32 - k,
    {
        pieces[k] = make_start_piece(k);
        k = k + 1;
    }
    let board = ChessBoard {
        pieces: pieces,
        current_move: ChessColour::White,
        rule_50_moves: 0,
        rule_repetition: Vec::new(),
    };
    proof {
        lemma_start_layout();
        assert forall|k: int|
            0 <= k < 32 && !#[trigger] board.pieces[k].is_captured implies is_sq(
            board.pieces[k].pos,
        ) && is_sq(board.pieces[k].prev_pos) by {
            assert(board.pieces[k] == start_piece(k));
            crate::bits::lemma_one_nonzero(sq_index(start_rank(k), start_file(k)));
        }
        assert forall|k1: int, k2: int|
            0 <= k1 < 32 && 0 <= k2 < 32 && k1 != k2 && !#[trigger] board.pieces[k1].is_captured
            && !#[trigger] board.pieces[k2].is_captured implies board.pieces[k1].pos
            != board.pieces[k2].pos by {
            assert(board.pieces[k1] == start_piece(k1));
            assert(board.pieces[k2] == start_piece(k2));
            assert(start_piece(k1).pos != start_piece(k2).pos);
        }
        assert forall|k1: int, k2: int|
            0 <= k1 < 32 && 0 <= k2 < 32 && !board.pieces[k1].is_captured
            && !board.pieces[k2].is_captured && #[trigger] board.pieces[k1].kind
            == ChessPieceKind::King && #[trigger] board.pieces[k2].kind == ChessPieceKind::King
            && board.pieces[k1].colour == board.pieces[k2].colour implies k1 == k2 by {
            assert(board.pieces[k1] == start_piece(k1));
            assert(board.pieces[k2] == start_piece(k2));
            assert(start_kind(k1) == ChessPieceKind::King ==> (k1 == 6 || k1 == 22));
            assert(start_kind(k2) == ChessPieceKind::King ==> (k2 == 6 || k2 == 22));
        }
    }
    board
}

} // verus!
