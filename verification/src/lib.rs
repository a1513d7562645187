//! A chess rules engine over a bitboard representation: each of the 64
//! squares is one bit of a `u64`, pieces carry their square as a single-bit
//! mask, and move generation, check detection, castling, en passant,
//! promotion and the committed move transition are all specified and
//! verified at the level of individual squares.
use vstd::prelude::*;

pub mod bits;
pub mod piece;
pub mod board;
pub mod rays;
pub mod movegen;
pub mod attack;
pub mod rules;
pub mod transition;
pub mod laws;

verus! {

pub use crate::bits::is_single_square;
pub use crate::piece::ChessPieceKind;
pub use crate::piece::ChessColour;
pub use crate::piece::ChessPiece;
pub use crate::piece::get_rank;
pub use crate::piece::get_file;
pub use crate::piece::get_u64_pos;
pub use crate::piece::new_piece;
pub use crate::piece::get_rank_u64;
pub use crate::piece::get_file_u64;
pub use crate::piece::get_op_col;
pub use crate::board::ChessBoard;
pub use crate::board::new_board;
pub use crate::board::get_piece_map;
pub use crate::board::get_all_piece_map;
pub use crate::board::get_piece_bit_mask;
pub use crate::movegen::get_pawn_captures;
pub use crate::movegen::get_pawn_moves;
pub use crate::movegen::get_knight_moves;
pub use crate::movegen::get_rook_moves;
pub use crate::movegen::get_bishop_moves;
pub use crate::movegen::get_queen_moves;
pub use crate::movegen::get_king_moves_colour;
pub use crate::movegen::get_ep_capture_spots;
pub use crate::attack::get_capture_map_king_check;
pub use crate::attack::get_capture_map;
pub use crate::attack::get_king_moves;
pub use crate::attack::is_checked;
pub use crate::rules::get_moves;
pub use crate::rules::get_short_castle_move;
pub use crate::rules::get_long_castle_move;
pub use crate::rules::can_promote;
pub use crate::transition::get_colour_hash;
pub use crate::transition::get_piece_hash;
pub use crate::transition::hash_board_state;
pub use crate::transition::repetition_count;
pub use crate::transition::move_piece;
pub use crate::transition::simulate_pice_moves_check;

} // verus!
