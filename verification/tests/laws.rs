use mogen::board::bitboard::Bitboard;
use mogen::board::color::Color;
use mogen::board::moves::Move;
use mogen::board::piece::Piece;
use mogen::board::square::Square;
use mogen::board::Board;
use mogen::generation::{bishop_move_mask, rook_move_mask};
use mogen::magic::Direction;
use mogen::{comparison, MoveGen};

#[test]
fn inverse_twice_is_the_same_side() {
    for color in [Color::White, Color::Black] {
        assert_eq!(color.inverse().inverse(), color);
        assert_ne!(color.inverse(), color);
        assert_eq!(color.inverse().direction(), -color.direction());
    }
}

#[test]
fn square_names_read_back() {
    for square in Square::ALL {
        assert_eq!(Square::try_from(square.to_string().as_str()).unwrap(), square);
    }
}

#[test]
fn empty_board_slides_are_the_line_masks() {
    for square in Square::ALL {
        assert_eq!(Direction::Orthogonal.moves(square, Bitboard(0)), rook_move_mask(square));
        assert_eq!(Direction::Diagonal.moves(square, Bitboard(0)), bishop_move_mask(square));
    }
}

#[test]
fn pseudolegal_moves_keep_to_the_side_to_move() {
    let boards = [
        Board::default(),
        Board::from_fen("r3k2r/pppq1ppp/2n2n2/3pp3/3PP3/2N2N2/PPPQ1PPP/R3K2R b KQkq - 0 1").unwrap(),
        Board::from_fen("4k3/8/8/3pP3/8/8/8/4K3 w K - 0 1").unwrap(),
    ];
    let move_gen = MoveGen::new();
    for board in boards {
        let own = board.color_bitboard(board.active_color).0;
        let mut moves = Vec::new();
        move_gen.pseudolegal_moves(&board, &mut moves);
        assert!(!moves.is_empty());
        for mv in moves {
            assert!(own & mv.source().bitboard().0 != 0);
            assert!(own & mv.target().bitboard().0 == 0);
        }
    }
}

#[test]
fn moving_back_restores_the_bitboards() {
    let board = Board::from_fen("4k3/8/8/8/8/8/8/R3K1N1 w K - 0 1").unwrap();
    for (from, to) in [(Square::A1, Square::A5), (Square::G1, Square::F3), (Square::E1, Square::D2)] {
        assert!(board.can_make_move(Move::new(from, to, None)));
        let there = board.make_move(Move::new(from, to, None));
        assert!(there.can_make_move(Move::new(to, from, None)));
        let back = there.make_move(Move::new(to, from, None));
        assert_eq!(back.bitboards, board.bitboards);
        assert_eq!(back.active_color, board.active_color);
    }
}

#[test]
fn divide_total_is_the_perft_count() {
    let board = Board::from_fen("4k3/8/8/3pP3/8/8/8/4K3 w K - 0 1").unwrap();
    let move_gen = MoveGen::new();
    for depth in 1..4u8 {
        let (results, total) = comparison::divide_inner(&board, depth, &move_gen);
        assert_eq!(total, comparison::perft_inner(&board, depth, &move_gen));
        assert_eq!(results.iter().map(|(_, n)| *n).sum::<u32>(), total);
    }
}

#[test]
fn fen_texts_that_would_run_off_the_board() {
    assert!(!Board::fen_would_panic("rnbqkbnr/pppppppp/8/8/8/8/PPPPPPPP/RNBQKBNR w KQkq - 0 1"));
    assert!(Board::fen_would_panic("8p w K - 0 1"));
    assert!(Board::fen_would_panic("8/8/8/8/8/8/8/8/p w K - 0 1"));
    assert!(Board::fen_would_panic("88888888888888888 w K - 0 1"));
    assert!(!Board::fen_would_panic("8x/8/8/8/8/8/8/8/8/p w K - 0 1"));
    assert!(!Board::fen_would_panic(""));
}

#[test]
fn lookups_that_piece_at_can_make() {
    let mut board = Board::default();
    assert!(board.piece_at_is_defined(Square::E1));
    assert!(board.piece_at_is_defined(Square::E4));
    // A square held by a side's bitboard alone has no piece kind.
    board.color_bitboard_mut(Color::White).0 |= Square::E4.bitboard().0;
    assert!(!board.piece_at_is_defined(Square::E4));
    assert!(!board.can_make_move(Move::new(Square::E4, Square::E5, None)));
    assert!(!board.can_make_move(Move::new(Square::D1, Square::E4, None)));
    assert!(board.can_make_move(Move::new(Square::D5, Square::E4, None)));
}

#[test]
fn checked_counts() {
    let move_gen = MoveGen::new();
    let board = Board::default();
    assert_eq!(comparison::checked_count(&board, 0, &move_gen), Some(1));
    assert_eq!(comparison::checked_count(&board, 2, &move_gen), Some(400));
    // Without a king to move nothing can be counted.
    assert_eq!(comparison::checked_count(&Board::new(), 1, &move_gen), None);
    // A king can be taken two plies down, and the position below has no king to move.
    let bare = Board::from_fen("k7/8/8/8/8/8/8/K6Q w K - 0 1").unwrap();
    assert_eq!(comparison::checked_count(&bare, 3, &move_gen), None);
    let mut moves = Vec::new();
    move_gen.pseudolegal_moves(&board, &mut moves);
    assert_eq!(comparison::checked_sum(&board, &moves, 1, &move_gen), Some(400));
    assert_eq!(comparison::checked_sum(&board, &moves, 0, &move_gen), Some(20));
}

#[test]
fn knight_promotion_notation_is_not_read_back() {
    let mv = Move::new(Square::A7, Square::A8, Some(Piece::Knight));
    assert_eq!(mv.to_string(), "a7a8k");
    assert!(Move::parse(&mv.to_string()).is_err());
    let mv = Move::new(Square::A7, Square::A8, Some(Piece::Bishop));
    assert_eq!(Move::parse(&mv.to_string()).unwrap(), mv);
}

fn is_consistent(board: &Board) -> bool {
    let b = board.bitboards;
    let mut pieces = 0u64;
    for i in 0..6 {
        if pieces & b[i].0 != 0 {
            return false;
        }
        pieces |= b[i].0;
    }
    b[6].0 & b[7].0 == 0 && pieces == b[6].0 | b[7].0
}

#[test]
fn moves_keep_a_position_consistent() {
    let mut board = Board::default();
    let line = [
        (Square::E2, Square::E4, None),
        (Square::D7, Square::D5, None),
        (Square::E4, Square::D5, None),
        (Square::C7, Square::C5, None),
        (Square::D5, Square::C6, None),
        (Square::B8, Square::C6, None),
        (Square::D1, Square::H5, None),
        (Square::C6, Square::D4, None),
        (Square::H5, Square::F7, None),
    ];
    assert!(is_consistent(&board));
    for (from, to, promotion) in line {
        let mv = Move::new(from, to, promotion);
        assert!(board.can_make_move(mv));
        board = board.make_move(mv);
        assert!(is_consistent(&board));
    }
    // The pawn taken en passant on c5 is gone.
    assert_eq!(board.piece_at(Square::C5), None);
    assert_eq!(board.piece_at(Square::F7), Some(Piece::Queen));
}

#[test]
fn placing_a_piece_on_an_empty_square_keeps_a_position_consistent() {
    let mut board = Board::default();
    board.add_piece(Piece::Knight, Color::Black, Square::E4);
    assert!(is_consistent(&board));
    assert_eq!(board.piece_at(Square::E4), Some(Piece::Knight));
    assert_eq!(board.color_bitboard(Color::Black).0 & (1u64 << 28), 1u64 << 28);
    assert_eq!(board.color_bitboard(Color::White).0 & (1u64 << 28), 0);

    let mut empty = Board::new();
    empty.add_piece(Piece::King, Color::White, Square::A1);
    empty.add_piece(Piece::Queen, Color::White, Square::H8);
    assert!(is_consistent(&empty));
    assert_eq!(empty.piece_at(Square::A1), Some(Piece::King));
    assert_eq!(empty.piece_at(Square::H8), Some(Piece::Queen));
    assert_eq!(empty.color_bitboard(Color::White).0, 1 | (1u64 << 63));
}
