//! Pieces and the square coordinate system.
//!
//! A square mask's bit index `b` encodes rank `8 - b / 8` and file
//! `8 - b % 8`, both 1-based.  Rank 1 is White's home rank and sits in the
//! high byte of the mask; White pawns therefore advance towards lower bit
//! indices and Black pawns towards higher ones.
use vstd::prelude::*;
use crate::bits::{is_sq, one_sq, sq_of, lemma_sq_of, lemma_row_scan, lemma_col_scan};
use vstd::arithmetic::div_mod::{lemma_fundamental_div_mod, lemma_fundamental_div_mod_converse};

verus! {

#[derive(Copy, Clone, PartialEq, Eq, Structural, Debug)]
pub enum ChessPieceKind {
    Rook,
    Pawn,
    Knight,
    Bishop,
    Queen,
    King,
}

#[derive(Copy, Clone, PartialEq, Eq, Structural, Debug)]
pub enum ChessColour {
    Black,
    White,
}

#[derive(Copy, Clone, PartialEq, Eq, Structural, Debug)]
pub struct ChessPiece {
    /// Square mask of the square the piece stands on (kept even after
    /// capture, as a record of where it fell).
    pub pos: u64,
    /// Square mask of the square the piece stood on before the last
    /// committed half-move of its own side; equals `pos` otherwise.
    pub prev_pos: u64,
    pub colour: ChessColour,
    pub kind: ChessPieceKind,
    pub has_moved: bool,
    pub is_captured: bool,
}

/// Both coordinates on the board.
pub open spec fn on_board(r: int, f: int) -> bool {
    1 <= r <= 8 && 1 <= f <= 8
}

/// The bit index of the square at `(r, f)`.
pub open spec fn sq_index(r: int, f: int) -> int {
    8 * (8 - r) + (8 - f)
}

/// The 1-based rank encoded by bit index `b`.
pub open spec fn rank_of(b: int) -> int {
    8 - b / 8
}

/// The 1-based file encoded by bit index `b`.
pub open spec fn file_of(b: int) -> int {
    8 - b % 8
}

/// Rank and file of a bit index are on the board, and re-encoding them
/// yields the same index: the coordinate mapping is a bijection.
pub proof fn lemma_coords(b: int)
    requires
        0 <= b < 64,
    ensures
        on_board(rank_of(b), file_of(b)),
        sq_index(rank_of(b), file_of(b)) == b,
{
    lemma_fundamental_div_mod(b, 8);
}

/// The bit index of an on-board coordinate pair is a valid square index and
/// decodes back to the same rank and file.
pub proof fn lemma_sq_index(r: int, f: int)
    requires
        on_board(r, f),
    ensures
        0 <= sq_index(r, f) < 64,
        rank_of(sq_index(r, f)) == r,
        file_of(sq_index(r, f)) == f,
{
    lemma_fundamental_div_mod_converse(sq_index(r, f), 8, 8 - r, 8 - f);
}

/// The rank reported for a piece: 0 for a captured piece or an empty mask,
/// otherwise the rank of its square.
pub open spec fn spec_rank(piece: ChessPiece) -> int {
    if piece.is_captured || !is_sq(piece.pos) {
        0
    } else {
        rank_of(sq_of(piece.pos))
    }
}

/// The file reported for a piece: 0 for a captured piece or an empty mask,
/// otherwise the file of its square.
pub open spec fn spec_file(piece: ChessPiece) -> int {
    if piece.is_captured || !is_sq(piece.pos) {
        0
    } else {
        file_of(sq_of(piece.pos))
    }
}

/// Rank of the square a piece stands on, or 0 when it is captured or its
/// mask holds no square.
#[verifier::loop_isolation(false)]
pub fn get_rank(piece: ChessPiece) -> (r: u8)
    ensures
        piece.is_captured || piece.pos == 0 ==> r == 0,
        !piece.is_captured && is_sq(piece.pos) ==> r == rank_of(sq_of(piece.pos)) && r == spec_rank(
            piece,
        ),
{
    if piece.is_captured {
        return 0;
    }
    proof {
        if is_sq(piece.pos) {
            lemma_sq_of(piece.pos);
        }
    }
    let mut k: u8 = 0;
    while k < 8
        invariant
            k <= 8,
            is_sq(piece.pos) ==> !(sq_of(piece.pos) < 8 * k),
        decreases 8 - k,
    {
        let scanner: u64 = 0xFFu64 << ((8 * k) as u64);
        if (scanner & piece.pos) != 0 {
            proof {
                if is_sq(piece.pos) {
                    let b = sq_of(piece.pos);
                    lemma_sq_of(piece.pos);
                    crate::bits::lemma_one_nonzero(b);
                    lemma_row_scan((8 * k) as u64, b);
                    lemma_fundamental_div_mod(b, 8);
                }
            }
            if piece.pos != 0 {
                return 8 - k;
            } else {
                return 0;
            }
        }
        proof {
            if is_sq(piece.pos) {
                let b = sq_of(piece.pos);
                lemma_row_scan((8 * k) as u64, b);
                lemma_fundamental_div_mod(b, 8);
            }
        }
        k = k + 1;
    }
    proof {
        if is_sq(piece.pos) {
            lemma_sq_of(piece.pos);
        }
    }
    0
}

/// File of the square a piece stands on, or 0 when it is captured or its
/// mask holds no square.
#[verifier::loop_isolation(false)]
pub fn get_file(piece: ChessPiece) -> (r: u8)
    ensures
        piece.is_captured || piece.pos == 0 ==> r == 0,
        !piece.is_captured && is_sq(piece.pos) ==> r == file_of(sq_of(piece.pos)) && r == spec_file(
            piece,
        ),
{
    if piece.is_captured {
        return 0;
    }
    proof {
        if is_sq(piece.pos) {
            lemma_sq_of(piece.pos);
        }
    }
    let mut s: u8 = 0;
    while s < 8
        invariant
            s <= 8,
            is_sq(piece.pos) ==> !(7 - sq_of(piece.pos) % 8 < s),
        decreases 8 - s,
    {
        let scanner: u64 = 0x8080808080808080u64 >> (s as u64);
        if (scanner & piece.pos) != 0 {
            proof {
                if is_sq(piece.pos) {
                    let b = sq_of(piece.pos);
                    lemma_sq_of(piece.pos);
                    crate::bits::lemma_one_nonzero(b);
                    lemma_col_scan(s as u64, b);
                    lemma_fundamental_div_mod(b, 8);
                }
            }
            if piece.pos != 0 {
                return s + 1;
            } else {
                return 0;
            }
        }
        proof {
            if is_sq(piece.pos) {
                let b = sq_of(piece.pos);
                lemma_col_scan(s as u64, b);
                lemma_fundamental_div_mod(b, 8);
            }
        }
        s = s + 1;
    }
    proof {
        if is_sq(piece.pos) {
            let b = sq_of(piece.pos);
            lemma_fundamental_div_mod(b, 8);
        }
    }
    0
}

/// The square mask of the square at `(rank, file)`.
pub fn get_u64_pos(rank: u8, file: u8) -> (r: u64)
    requires
        on_board(rank as int, file as int),
    ensures
        r == one_sq(sq_index(rank as int, file as int)),
        is_sq(r),
        sq_of(r) == sq_index(rank as int, file as int),
        rank_of(sq_of(r)) == rank as int,
        file_of(sq_of(r)) == file as int,
{
    proof {
        lemma_sq_index(rank as int, file as int);
    }
    let idx: u64 = 8 * (8 - rank as u64) + (8 - file as u64);
    let r = 1u64 << idx;
    proof {
        crate::bits::lemma_one_nonzero(idx as int);
    }
    r
}

/// A freshly placed piece: on its square, never moved, not captured, with
/// its previous position equal to its position.
pub fn new_piece(rank: u8, file: u8, kind: ChessPieceKind, col: ChessColour) -> (p: ChessPiece)
    requires
        on_board(rank as int, file as int),
    ensures
        p.pos == one_sq(sq_index(rank as int, file as int)),
        p.prev_pos == p.pos,
        p.colour == col,
        p.kind == kind,
        !p.has_moved,
        !p.is_captured,
        is_sq(p.pos),
{
    let pos = get_u64_pos(rank, file);
    ChessPiece {
        pos: pos,
        prev_pos: pos,
        colour: col,
        kind: kind,
        has_moved: false,
        is_captured: false,
    }
}

/// Rank encoded by a bare square mask, or 0 for the empty mask.
pub fn get_rank_u64(pos: u64) -> (r: u8)
    ensures
        pos == 0 ==> r == 0,
        is_sq(pos) ==> r == rank_of(sq_of(pos)),
{
    get_rank(
        ChessPiece {
            pos: pos,
            prev_pos: pos,
            colour: ChessColour::White,
            kind: ChessPieceKind::Pawn,
            has_moved: false,
            is_captured: false,
        },
    )
}

/// File encoded by a bare square mask, or 0 for the empty mask.
pub fn get_file_u64(pos: u64) -> (r: u8)
    ensures
        pos == 0 ==> r == 0,
        is_sq(pos) ==> r == file_of(sq_of(pos)),
{
    get_file(
        ChessPiece {
            pos: pos,
            prev_pos: pos,
            colour: ChessColour::White,
            kind: ChessPieceKind::Pawn,
            has_moved: false,
            is_captured: false,
        },
    )
}

/// The side that moves after `col`.
pub open spec fn op_colour(col: ChessColour) -> ChessColour {
    match col {
        ChessColour::White => ChessColour::Black,
        ChessColour::Black => ChessColour::White,
    }
}

/// The opposite colour.
pub fn get_op_col(col: ChessColour) -> (r: ChessColour)
    ensures
        r == op_colour(col),
{
    match col {
        ChessColour::White => ChessColour::Black,
        ChessColour::Black => ChessColour::White,
    }
}

} // verus!
