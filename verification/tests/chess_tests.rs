use chess_core::ChessBoard;
use chess_core::ChessColour;
use chess_core::ChessPiece;
use chess_core::ChessPieceKind;
use chess_core::can_promote;
use chess_core::get_file;
use chess_core::get_file_u64;
use chess_core::get_knight_moves;
use chess_core::get_moves;
use chess_core::get_rank;
use chess_core::get_rank_u64;
use chess_core::get_rook_moves;
use chess_core::get_short_castle_move;
use chess_core::get_u64_pos;
use chess_core::hash_board_state;
use chess_core::is_checked;
use chess_core::move_piece;
use chess_core::new_board;
use chess_core::new_piece;
use chess_core::repetition_count;
use chess_core::simulate_pice_moves_check;

fn sq(rank: u8, file: u8) -> u64 {
    get_u64_pos(rank, file)
}

fn find_piece(board: &ChessBoard, mask: u64) -> ChessPiece {
    for p in board.pieces.iter() {
        if !p.is_captured && p.pos == mask {
            return *p;
        }
    }
    panic!("no piece on that square");
}

#[test]
fn test_with_piece() {
    let test_piece = ChessPiece {
        pos: 0b0000000000000000000000000000000000000000000000000001000000000000,
        prev_pos: 0b0000000000000000000000000000000000000000000000000001000000000000,
        colour: ChessColour::Black,
        kind: ChessPieceKind::Queen,
        has_moved: false,
        is_captured: false,
    };
    assert_eq!(get_rank(test_piece), 7);
    assert_eq!(get_file(test_piece), 4);
}

#[test]
fn test_edge_right() {
    let pos = 0b0000000000000000000000000000000100000000000000000000000000000000;
    assert_eq!(get_rank_u64(pos), 4);
    assert_eq!(get_file_u64(pos), 8);
}

#[test]
fn test_edge_left() {
    let pos = 0b0000000000000000000000001000000000000000000000000000000000000000;
    assert_eq!(get_rank_u64(pos), 4);
    assert_eq!(get_file_u64(pos), 1);
}

#[test]
fn test_no_pos() {
    let pos = 0b0000000000000000000000000000000000000000000000000000000000000000;
    assert_eq!(get_rank_u64(pos), 0);
}

#[test]
fn round_trip_on_every_start_piece() {
    let board = new_board();
    for p in board.pieces.iter() {
        let r = get_rank(*p);
        let f = get_file(*p);
        assert_eq!(get_u64_pos(r, f), p.pos);
    }
}

#[test]
fn round_trip_exact_values() {
    assert_eq!(get_u64_pos(7, 4), 0x1000u64);
    assert_eq!(get_u64_pos(1, 1), 1u64 << 63);
    assert_eq!(get_u64_pos(8, 8), 1u64);
    let p = new_piece(3, 6, ChessPieceKind::Rook, ChessColour::White);
    assert_eq!(get_rank(p), 3);
    assert_eq!(get_file(p), 6);
}

#[test]
fn captured_piece_has_no_coordinates() {
    let mut p = new_piece(4, 4, ChessPieceKind::Rook, ChessColour::White);
    p.is_captured = true;
    assert_eq!(get_rank(p), 0);
    assert_eq!(get_file(p), 0);
}

#[test]
fn knight_central_has_eight_moves() {
    let mut board = new_board();
    // move the b1 knight to e5: all eight jump squares are free of White
    // pieces (two hold capturable Black pawns)
    board.pieces[2].pos = sq(5, 5);
    board.pieces[2].prev_pos = sq(5, 5);
    let knight = board.pieces[2];
    let moves = get_knight_moves(knight, &board);
    assert_eq!(moves.count_ones(), 8);
    assert!(moves & sq(7, 4) != 0);
    assert!(moves & sq(3, 4) != 0);
}

#[test]
fn knight_corner_has_two_moves() {
    let mut board = new_board();
    // clear the a8 corner and put the White knight there
    board.pieces[16].is_captured = true;
    board.pieces[2].pos = sq(8, 1);
    board.pieces[2].prev_pos = sq(8, 1);
    let knight = board.pieces[2];
    let moves = get_knight_moves(knight, &board);
    assert_eq!(moves.count_ones(), 2);
    assert!(moves & sq(6, 2) != 0);
    assert!(moves & sq(7, 3) != 0);
}

#[test]
fn knight_moves_exclude_own_pieces() {
    let board = new_board();
    // from b1 the knight jumps to a3, c3 and d2, but d2 is its own pawn
    let knight = board.pieces[2];
    let moves = get_knight_moves(knight, &board);
    assert_eq!(moves.count_ones(), 2);
    assert!(moves & sq(3, 1) != 0);
    assert!(moves & sq(3, 3) != 0);
    assert!(moves & sq(2, 4) == 0);
}

#[test]
fn rook_stops_at_enemy_and_includes_it() {
    let mut board = new_board();
    // clear the a2 pawn: the a1 rook now faces the a7 pawn up the file
    board.pieces[8].is_captured = true;
    let rook = board.pieces[0];
    let moves = get_rook_moves(rook, &board);
    assert!(moves & sq(2, 1) != 0);
    assert!(moves & sq(6, 1) != 0);
    assert!(moves & sq(7, 1) != 0, "the enemy square is included");
    assert!(moves & sq(8, 1) == 0, "nothing beyond the enemy piece");
    assert_eq!(moves.count_ones(), 6);
}

#[test]
fn rook_stops_before_own_piece() {
    let mut board = new_board();
    board.pieces[8].is_captured = true;
    // put a White knight on a6: the rook must stop below it
    board.pieces[2].pos = sq(6, 1);
    board.pieces[2].prev_pos = sq(6, 1);
    let rook = board.pieces[0];
    let moves = get_rook_moves(rook, &board);
    assert!(moves & sq(5, 1) != 0);
    assert!(moves & sq(6, 1) == 0, "own piece excluded");
    assert!(moves & sq(7, 1) == 0, "nothing beyond it");
    assert!(moves & sq(1, 2) != 0, "the square the knight left is reachable");
    assert_eq!(moves.count_ones(), 5);
}

#[test]
fn pawn_pushes_from_home_rank() {
    let board = new_board();
    let pawn = find_piece(&board, sq(2, 5));
    let moves = get_moves(pawn, &board);
    assert!(moves & sq(3, 5) != 0, "single push");
    assert!(moves & sq(4, 5) != 0, "double push");
    assert_eq!(moves.count_ones(), 2);
}

#[test]
fn pawn_blocked_directly_ahead_has_no_push() {
    let mut board = new_board();
    // a Black knight on e3 blocks the e2 pawn completely
    board.pieces[18].pos = sq(3, 5);
    board.pieces[18].prev_pos = sq(3, 5);
    let pawn = find_piece(&board, sq(2, 5));
    let moves = get_moves(pawn, &board);
    assert!(moves & sq(3, 5) == 0, "single push blocked");
    assert!(moves & sq(4, 5) == 0, "double push blocked even with e4 empty");
}

#[test]
fn en_passant_available_immediately_after_double_step() {
    let mut b = new_board();
    assert!(b.move_piece(sq(2, 5), sq(4, 5)));
    assert!(b.move_piece(sq(7, 4), sq(5, 4)));
    assert!(b.move_piece(sq(4, 5), sq(5, 5)));
    assert!(b.move_piece(sq(7, 6), sq(5, 6)));
    // the Black f-pawn just double-stepped past the White e5 pawn
    let pawn = find_piece(&b, sq(5, 5));
    let moves = get_moves(pawn, &b);
    assert!(moves & sq(6, 6) != 0, "en passant capture square available");
    assert!(b.move_piece(sq(5, 5), sq(6, 6)));
    assert_eq!(b.rule_50_moves, 0, "a pawn move resets the clock");
}

#[test]
fn en_passant_expires_after_one_half_move() {
    let mut b = new_board();
    assert!(b.move_piece(sq(2, 5), sq(4, 5)));
    assert!(b.move_piece(sq(7, 4), sq(5, 4)));
    assert!(b.move_piece(sq(4, 5), sq(5, 5)));
    assert!(b.move_piece(sq(7, 6), sq(5, 6)));
    // White declines the capture; Black moves; the chance is gone
    assert!(b.move_piece(sq(2, 1), sq(3, 1)));
    assert!(b.move_piece(sq(7, 1), sq(6, 1)));
    let pawn = find_piece(&b, sq(5, 5));
    let moves = get_moves(pawn, &b);
    assert!(moves & sq(6, 6) == 0, "en passant no longer available");
}

#[test]
fn king_cannot_move_into_attack() {
    let mut board = new_board();
    // clear d1 and d2, and post a Black rook on d3: d1 and d2 are attacked
    board.pieces[7].is_captured = true;
    board.pieces[11].is_captured = true;
    board.pieces[17].pos = sq(3, 4);
    board.pieces[17].prev_pos = sq(3, 4);
    let king = find_piece(&board, sq(1, 5));
    let moves = get_moves(king, &board);
    assert!(moves & sq(1, 4) == 0, "d1 is attacked");
    assert!(moves & sq(2, 4) == 0, "d2 is attacked");
    assert_eq!(moves, 0);
}

#[test]
fn castle_blocked_by_attack_on_transit_square() {
    let mut board = new_board();
    // clear f1, g1 and the g2 pawn; a Black rook on g3 attacks g1
    board.pieces[5].is_captured = true;
    board.pieces[3].is_captured = true;
    board.pieces[14].is_captured = true;
    board.pieces[17].pos = sq(3, 7);
    board.pieces[17].prev_pos = sq(3, 7);
    let king = find_piece(&board, sq(1, 5));
    assert!(!get_short_castle_move(king, &board));
    // with the rook back home the same castle is available
    board.pieces[17].pos = sq(8, 8);
    board.pieces[17].prev_pos = sq(8, 8);
    let king = find_piece(&board, sq(1, 5));
    assert!(get_short_castle_move(king, &board));
}

#[test]
fn castle_commits_king_and_rook() {
    let mut b = new_board();
    // clear the White king's side and castle short
    b.pieces[5].is_captured = true;
    b.pieces[3].is_captured = true;
    assert!(b.move_piece(sq(1, 5), sq(1, 7)));
    assert_eq!(find_piece(&b, sq(1, 7)).kind, ChessPieceKind::King);
    assert_eq!(find_piece(&b, sq(1, 6)).kind, ChessPieceKind::Rook);
    assert!(find_piece(&b, sq(1, 7)).has_moved);
    assert!(find_piece(&b, sq(1, 6)).has_moved);
    assert_eq!(b.current_move, ChessColour::Black);
}

#[test]
fn castle_fails_after_rook_moved() {
    let mut b = new_board();
    // file cleared, but the rook has already moved: castling must fail
    b.pieces[5].is_captured = true;
    b.pieces[3].is_captured = true;
    b.pieces[1].has_moved = true;
    let king = find_piece(&b, sq(1, 5));
    assert!(!get_short_castle_move(king, &b));
    assert!(!b.move_piece(sq(1, 5), sq(1, 7)));
    assert_eq!(b.current_move, ChessColour::White, "rejected move changes nothing");
}

#[test]
fn illegal_move_leaves_board_unchanged() {
    let board = new_board();
    let (after, ok) = move_piece(board.clone(), sq(2, 5), sq(5, 5));
    assert!(!ok);
    assert!(after == board);
    // wrong side to move is rejected the same way
    let (after, ok) = move_piece(board.clone(), sq(7, 5), sq(5, 5));
    assert!(!ok);
    assert!(after == board);
    // an empty source square is rejected too
    let (after, ok) = move_piece(board.clone(), sq(4, 4), sq(5, 4));
    assert!(!ok);
    assert!(after == board);
}

#[test]
fn half_move_clock_resets_and_ticks() {
    let mut b = new_board();
    assert!(b.move_piece(sq(1, 2), sq(3, 3)));
    assert_eq!(b.rule_50_moves, 1, "a knight move ticks the clock");
    assert!(b.move_piece(sq(8, 2), sq(6, 3)));
    assert_eq!(b.rule_50_moves, 2);
    assert!(b.move_piece(sq(2, 5), sq(4, 5)));
    assert_eq!(b.rule_50_moves, 0, "a pawn move resets it");
    assert!(b.move_piece(sq(7, 4), sq(5, 4)));
    assert_eq!(b.rule_50_moves, 0);
    assert!(b.move_piece(sq(4, 5), sq(5, 4)));
    assert_eq!(b.rule_50_moves, 0, "a capture resets it");
    assert!(b.move_piece(sq(8, 4), sq(5, 4)));
    assert_eq!(b.rule_50_moves, 0);
    assert!(b.move_piece(sq(1, 7), sq(3, 6)));
    assert_eq!(b.rule_50_moves, 1);
}

#[test]
fn double_push_from_start_succeeds() {
    let mut b = new_board();
    assert!(b.move_piece(sq(2, 5), sq(4, 5)));
    assert_eq!(b.rule_50_moves, 0);
    assert_eq!(find_piece(&b, sq(4, 5)).kind, ChessPieceKind::Pawn);
    assert_eq!(b.current_move, ChessColour::Black);
}

#[test]
fn capture_marks_piece_captured() {
    let mut b = new_board();
    assert!(b.move_piece(sq(2, 5), sq(4, 5)));
    assert!(b.move_piece(sq(7, 4), sq(5, 4)));
    assert!(b.move_piece(sq(4, 5), sq(5, 4)));
    // the Black d-pawn fell
    let victim = b.pieces[27];
    assert!(victim.is_captured);
    assert_eq!(find_piece(&b, sq(5, 4)).colour, ChessColour::White);
}

#[test]
fn promotion_on_back_rank_only() {
    let mut board = new_board();
    assert!(!can_promote(sq(2, 5), &board), "a pawn on its home rank cannot promote");
    // clear a8 and put a White pawn there
    board.pieces[16].is_captured = true;
    board.pieces[12].pos = sq(8, 1);
    board.pieces[12].prev_pos = sq(8, 1);
    assert!(can_promote(sq(8, 1), &board));
    assert!(!board.promote_piece(sq(8, 1), ChessPieceKind::King), "promotion to king refused");
    assert!(!board.promote_piece(sq(8, 1), ChessPieceKind::Pawn), "promotion to pawn refused");
    assert!(board.promote_piece(sq(8, 1), ChessPieceKind::Queen));
    assert_eq!(board.pieces[12].kind, ChessPieceKind::Queen);
    assert!(!can_promote(sq(1, 5), &board), "a king is not a pawn");
}

#[test]
fn check_detection() {
    let mut board = new_board();
    assert!(!is_checked(ChessColour::White, &board));
    assert!(!is_checked(ChessColour::Black, &board));
    // clear the e2 pawn and drop a Black rook on e3: the king is in check
    board.pieces[12].is_captured = true;
    board.pieces[17].pos = sq(3, 5);
    board.pieces[17].prev_pos = sq(3, 5);
    assert!(is_checked(ChessColour::White, &board));
    assert!(!is_checked(ChessColour::Black, &board));
}

#[test]
fn checked_side_without_king_is_fail_safe() {
    let mut board = new_board();
    board.pieces[6].is_captured = true;
    assert!(is_checked(ChessColour::White, &board));
}

#[test]
fn repetition_history_counts_recurring_positions() {
    let mut b = new_board();
    assert!(b.move_piece(sq(1, 2), sq(3, 3)));
    assert!(b.move_piece(sq(8, 2), sq(6, 3)));
    assert!(b.move_piece(sq(3, 3), sq(1, 2)));
    assert!(b.move_piece(sq(6, 3), sq(8, 2)));
    assert!(b.move_piece(sq(1, 2), sq(3, 3)));
    assert!(b.move_piece(sq(8, 2), sq(6, 3)));
    assert!(b.move_piece(sq(3, 3), sq(1, 2)));
    assert!(b.move_piece(sq(6, 3), sq(8, 2)));
    assert_eq!(b.rule_repetition.len(), 8);
    // the position after Black's fourth move equals the one after its
    // eighth: its encoding occurs twice in the history
    let code = b.rule_repetition[3].clone();
    assert_eq!(repetition_count(&b, &code), 2);
    let fresh = hash_board_state(&new_board());
    assert_eq!(repetition_count(&b, &fresh), 0);
}

#[test]
fn hash_distinguishes_side_to_move() {
    let b1 = new_board();
    let mut b2 = new_board();
    b2.current_move = ChessColour::Black;
    assert_ne!(hash_board_state(&b1), hash_board_state(&b2));
}

#[test]
fn simulate_check_filter() {
    let mut board = new_board();
    // clear the e2 pawn and post a Black rook on e5: the e1 king is not
    // yet in check only because the rook is blocked by nothing — it is
    // check, so any move that fails to resolve it is filtered out
    board.pieces[12].is_captured = true;
    board.pieces[17].pos = sq(5, 5);
    board.pieces[17].prev_pos = sq(5, 5);
    // moving the a2 pawn leaves the king in check
    assert!(!simulate_pice_moves_check(board.clone(), sq(2, 1), sq(3, 1)));
    // interposing the d1 queen on e2 resolves it
    assert!(simulate_pice_moves_check(board.clone(), sq(1, 4), sq(2, 5)));
    // the board handed in is unchanged by the simulation round trip
    assert!(!board.pieces[7].has_moved);
    assert_eq!(find_piece(&board, sq(1, 4)).kind, ChessPieceKind::Queen);
}

#[test]
fn simulate_and_revert_restore_positions() {
    let mut b = new_board();
    let before = b.clone();
    assert!(b.simulate_move_piece(sq(1, 2), sq(3, 3)));
    assert_eq!(find_piece(&b, sq(3, 3)).kind, ChessPieceKind::Knight);
    assert!(b.revert_simulate_move_piece());
    for (p, q) in b.pieces.iter().zip(before.pieces.iter()) {
        assert_eq!(p.pos, q.pos);
        assert_eq!(p.kind, q.kind);
        assert_eq!(p.colour, q.colour);
        assert_eq!(p.is_captured, q.is_captured);
        assert_eq!(p.has_moved, q.has_moved);
    }
    assert_eq!(b.current_move, before.current_move);
}

#[test]
fn bishop_runs_the_open_diagonal() {
    let mut board = new_board();
    // clear the d2 pawn: the c1 bishop sees the whole d2-h6 diagonal
    board.pieces[11].is_captured = true;
    let bishop = find_piece(&board, sq(1, 3));
    let moves = chess_core::get_bishop_moves(bishop, &board);
    assert!(moves & sq(2, 4) != 0);
    assert!(moves & sq(6, 8) != 0, "the far end of the open diagonal");
    assert!(moves & sq(2, 2) == 0, "own pawn blocks the other way");
    assert_eq!(moves.count_ones(), 5);
}

#[test]
fn sliders_are_boxed_in_at_the_start() {
    let board = new_board();
    let bishop = find_piece(&board, sq(1, 6));
    let queen = find_piece(&board, sq(1, 4));
    let rook = find_piece(&board, sq(1, 1));
    assert_eq!(chess_core::get_bishop_moves(bishop, &board), 0);
    assert_eq!(chess_core::get_queen_moves(queen, &board), 0);
    assert_eq!(chess_core::get_rook_moves(rook, &board), 0);
}
