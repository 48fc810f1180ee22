use mogen::board::color::Color;
use mogen::board::moves::Move;
use mogen::board::piece::Piece;
use mogen::board::square::Square;
use mogen::board::Board;
use mogen::comparison::{perft_reply_line, Handshake, ReplyLine};
use mogen::{comparison, perft, MoveGen};

#[test]
fn start_position_has_twenty_moves() {
    let mut moves = Vec::new();
    MoveGen::new().pseudolegal_moves(&Board::default(), &mut moves);
    assert_eq!(moves.len(), 20);
    // Knights first, then pawn single steps, then double steps.
    assert_eq!(moves[0], Move::new(Square::B1, Square::A3, None));
    assert_eq!(moves[1], Move::new(Square::B1, Square::C3, None));
    assert_eq!(moves[4], Move::new(Square::A2, Square::A3, None));
    assert_eq!(moves[12], Move::new(Square::A2, Square::A4, None));
    assert_eq!(moves[19], Move::new(Square::H2, Square::H4, None));
}

#[test]
fn perft_counts_from_the_start_position() {
    let board = Board::default();
    assert_eq!(perft::perft(&board, 0), 1);
    assert_eq!(perft::perft(&board, 1), 20);
    assert_eq!(perft::perft(&board, 2), 400);
}

#[test]
fn perft_inner_with_a_given_generator() {
    let move_gen = MoveGen::new();
    let board = Board::default();
    assert_eq!(perft::perft_inner(&board, 2, &move_gen), 400);
    let after = board.make_move(Move::new(Square::E2, Square::E4, None));
    assert_eq!(perft::perft_inner(&after, 1, &move_gen), 20);
}

#[test]
fn divide_pairs_each_move_with_the_count_below_the_board_itself() {
    let board = Board::default();
    let results = perft::divide(&board, 2);
    assert_eq!(results.len(), 20);
    for (count, _) in &results {
        assert_eq!(*count, 20);
    }
    assert_eq!(results[0].1, Move::new(Square::B1, Square::A3, None));
    let move_gen = MoveGen::new();
    let inner = perft::divide_inner(&board, 1, &move_gen);
    assert_eq!(inner.len(), 20);
    assert!(inner.iter().all(|(count, _)| *count == 1));
}

#[test]
fn comparison_perft_and_divide() {
    let board = Board::default();
    assert_eq!(comparison::perft(&board, 0), 1);
    assert_eq!(comparison::perft(&board, 2), 400);
    let (results, total) = comparison::divide(&board, 2);
    assert_eq!(total, 400);
    assert_eq!(results.len(), 20);
    assert!(results.iter().all(|(_, count)| *count == 20));
    let (results, total) = comparison::divide(&board, 0);
    assert!(results.is_empty());
    assert_eq!(total, 1);
}

#[test]
fn comparison_perft_at_depth_zero_needs_no_king() {
    let board = Board::new();
    assert_eq!(comparison::perft(&board, 0), 1);
}

#[test]
fn pseudolegal_moves_of_a_lone_king_and_pawn() {
    let mut board = Board::new();
    board.add_piece(Piece::King, Color::Black, Square::A8);
    board.add_piece(Piece::Pawn, Color::Black, Square::H2);
    board.active_color = Color::Black;
    let mut moves = Vec::new();
    MoveGen::new().pseudolegal_moves(&board, &mut moves);
    // Three king moves, then the four promotions of the pawn.
    assert_eq!(moves.len(), 7);
    assert_eq!(moves[0], Move::new(Square::A8, Square::A7, None));
    assert_eq!(moves[3].promotion(), Some(Piece::Knight));
    assert_eq!(moves[6].promotion(), Some(Piece::Queen));
    assert_eq!(moves[6].to(), Square::H1);
}

#[test]
fn queen_moves_are_rook_then_bishop_moves() {
    let move_gen = MoveGen::new();
    let board = Board::new();
    let mut queen = Vec::new();
    move_gen.queen_moves(&board, Color::White, Square::D4, &mut queen);
    let mut rook = Vec::new();
    move_gen.rook_moves(&board, Color::White, Square::D4, &mut rook);
    move_gen.bishop_moves(&board, Color::White, Square::D4, &mut rook);
    assert_eq!(queen, rook);
    assert_eq!(queen.len(), 27);
}

#[test]
fn reading_reply_lines() {
    assert_eq!(perft_reply_line(""), ReplyLine::Skip);
    assert_eq!(perft_reply_line("   \n"), ReplyLine::Skip);
    assert_eq!(perft_reply_line("info depth 1 nodes 20"), ReplyLine::Skip);
    assert_eq!(
        perft_reply_line("e2e4: 20\n"),
        ReplyLine::Count(Move::new(Square::E2, Square::E4, None), 20)
    );
    assert_eq!(
        perft_reply_line(" a7a8q : +7 \n"),
        ReplyLine::Count(Move::new(Square::A7, Square::A8, Some(Piece::Queen)), 7)
    );
    assert_eq!(perft_reply_line("Nodes searched: 400\n"), ReplyLine::Total(400));
    assert_eq!(perft_reply_line("\u{a0}Nodes searched: 8902\u{3000}"), ReplyLine::Total(8902));
    assert_eq!(perft_reply_line("e2e4: 1: 2"), ReplyLine::Count(Move::new(Square::E2, Square::E4, None), 1));
    assert_eq!(perft_reply_line("bestmove e2e4"), ReplyLine::Malformed);
    assert_eq!(perft_reply_line("e2e4: many"), ReplyLine::Malformed);
    assert_eq!(perft_reply_line("e2e4: 4294967296"), ReplyLine::Malformed);
    assert_eq!(perft_reply_line("e2e4:"), ReplyLine::Malformed);
    assert_eq!(perft_reply_line("aé4: 3"), ReplyLine::Malformed);
}

#[test]
fn handshake_reads_until_uciok() {
    assert_eq!(comparison::handshake_step(1, "uciok\n"), Handshake::Ready);
    assert_eq!(comparison::handshake_step(998, "uciok\n"), Handshake::Ready);
    assert_eq!(comparison::handshake_step(1, "id name Stockfish\n"), Handshake::ReadOn);
    assert_eq!(comparison::handshake_step(998, "option name Hash\n"), Handshake::ReadOn);
    assert_eq!(comparison::handshake_step(1, "uciok"), Handshake::ReadOn);
    assert_eq!(comparison::handshake_step(1, " uciok\n"), Handshake::ReadOn);
}

#[test]
fn handshake_gives_up_before_the_limit_line() {
    assert_eq!(comparison::HANDSHAKE_LIMIT, 1000);
    assert_eq!(comparison::handshake_step(999, "readyok\n"), Handshake::GiveUp);
    assert_eq!(comparison::handshake_step(999, "uciok\n"), Handshake::Ready);
}
