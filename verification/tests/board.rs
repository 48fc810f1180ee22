use mogen::board::bitboard::Bitboard;
use mogen::board::color::Color;
use mogen::board::flags::Flags;
use mogen::board::moves::Move;
use mogen::board::piece::Piece;
use mogen::board::square::Square;
use mogen::board::{Board, ParseFenError};

#[test]
fn test_fen_startpos() {
    let fen_board =
        Board::from_fen("rnbqkbnr/pppppppp/8/8/8/8/PPPPPPPP/RNBQKBNR w KQkq - 0 1").unwrap();
    let startpos = Board::default();

    assert_eq!(fen_board, startpos);
}

#[test]
fn test_piece_at() {
    let board = Board::default();

    assert_eq!(board.piece_at(Square::A1), Some(Piece::Rook));
    assert_eq!(board.piece_at(Square::B1), Some(Piece::Knight));
    assert_eq!(board.piece_at(Square::C1), Some(Piece::Bishop));
    assert_eq!(board.piece_at(Square::D1), Some(Piece::Queen));
    assert_eq!(board.piece_at(Square::E1), Some(Piece::King));
    assert_eq!(board.piece_at(Square::A2), Some(Piece::Pawn));
    assert_eq!(board.piece_at(Square::E4), None);
}

#[test]
fn test_make_move_quiet() {
    let mut initial = Board::new();
    initial.add_piece(Piece::Rook, Color::White, Square::E4);
    let after = initial.make_move(Move::new(Square::E4, Square::E7, None));

    assert_eq!(
        after.bitboard(Piece::Rook, Color::White),
        Square::E7.bitboard()
    );
}

#[test]
fn test_make_move_capture() {
    let mut initial = Board::new();
    initial.add_piece(Piece::Rook, Color::White, Square::E4);
    initial.add_piece(Piece::Bishop, Color::Black, Square::E7);
    let after = initial.make_move(Move::new(Square::E4, Square::E7, None));

    assert_eq!(
        after.bitboard(Piece::Rook, Color::White),
        Square::E7.bitboard()
    );
    assert_eq!(after.bitboard(Piece::Bishop, Color::Black), Bitboard::empty());
}

#[test]
fn test_white_en_passant() {
    let mut board = Board::new();

    board.add_piece(Piece::Pawn, Color::White, Square::E2);
    board.add_piece(Piece::Pawn, Color::Black, Square::D4);

    let board = board.make_move(Move::new(Square::E2, Square::E4, None));

    assert!(board.flags.can_en_passant());
    assert_eq!(board.flags.en_passant_file(), 4);

    let board = board.make_move(Move::new(Square::D4, Square::E3, None));

    assert!(!board.flags.can_en_passant());

    assert_eq!(board.piece_bitboard(Piece::Pawn), Bitboard(0x100000));
    assert_eq!(board.color_bitboard(Color::White), Bitboard::empty());
    assert_eq!(board.color_bitboard(Color::Black), Bitboard(0x100000));
}

#[test]
fn test_black_en_passant() {
    let mut board = Board::new();

    board.add_piece(Piece::Pawn, Color::Black, Square::E7);
    board.add_piece(Piece::Pawn, Color::White, Square::D5);

    let board = board.make_move(Move::new(Square::E7, Square::E5, None));

    assert!(board.flags.can_en_passant());
    assert_eq!(board.flags.en_passant_file(), 4);

    let board = board.make_move(Move::new(Square::D5, Square::E6, None));

    assert!(!board.flags.can_en_passant());

    assert_eq!(board.piece_bitboard(Piece::Pawn), Bitboard(0x100000000000));
    assert_eq!(board.color_bitboard(Color::White), Bitboard(0x100000000000));
    assert_eq!(board.color_bitboard(Color::Black), Bitboard::empty());
}

#[test]
fn make_move_flips_the_side_to_move_and_keeps_counters() {
    let board = Board::default();
    let after = board.make_move(Move::new(Square::G1, Square::F3, None));
    assert_eq!(after.active_color, Color::Black);
    assert_eq!(after.halfmoves, board.halfmoves);
    assert_eq!(after.fullmoves, board.fullmoves);
    assert_eq!(after.piece_at(Square::F3), Some(Piece::Knight));
    assert_eq!(after.piece_at(Square::G1), None);
    let back = after.make_move(Move::new(Square::F3, Square::G1, None));
    assert_eq!(back.active_color, Color::White);
    assert_eq!(back.bitboards, board.bitboards);
}

#[test]
fn make_move_promotes() {
    let mut board = Board::new();
    board.add_piece(Piece::Pawn, Color::White, Square::B7);
    let after = board.make_move(Move::new(Square::B7, Square::B8, Some(Piece::Queen)));
    assert_eq!(after.bitboard(Piece::Queen, Color::White), Square::B8.bitboard());
    assert_eq!(after.piece_bitboard(Piece::Pawn), Bitboard(0));
}

#[test]
fn en_passant_square_follows_the_side_to_move() {
    let mut board = Board::new();
    board.add_piece(Piece::Pawn, Color::White, Square::C2);
    let board = board.make_move(Move::new(Square::C2, Square::C4, None));
    assert_eq!(board.en_passant_square(), Some(Square::C3));
    assert_eq!(Board::default().en_passant_square(), None);
}

#[test]
fn from_fen_reads_every_field() {
    let board = Board::from_fen("8/8/8/8/4P3/8/8/4K2k b Kq - 12 34").unwrap();
    assert_eq!(board.active_color, Color::Black);
    assert_eq!(board.halfmoves, 12);
    assert_eq!(board.fullmoves, 34);
    assert!(board.flags.kingside(Color::White));
    assert!(!board.flags.queenside(Color::White));
    assert!(!board.flags.kingside(Color::Black));
    assert!(board.flags.queenside(Color::Black));
    assert_eq!(board.piece_at(Square::E4), Some(Piece::Pawn));
    assert_eq!(board.piece_at(Square::E1), Some(Piece::King));
    assert_eq!(board.piece_at(Square::H1), Some(Piece::King));
    assert_eq!(board.color_bitboard(Color::Black), Square::H1.bitboard());
}

#[test]
fn from_fen_en_passant_sets_the_en_passant_bits() {
    let board = Board::from_fen("8/8/8/8/8/8/8/8 w K e3 0 1").unwrap();
    assert!(board.flags.can_en_passant());
    assert_eq!(board.flags.en_passant_file(), 4);
    assert_eq!(board.flags.0, Flags::WHITE_KINGSIDE | Flags::EN_PASSANT_MASK | (4 << 5));
}

#[test]
fn from_fen_after_e4_matches_make_move() {
    let board = Board::from_fen("rnbqkbnr/pppppppp/8/8/4P3/8/PPPP1PPP/RNBQKBNR b KQkq e3 0 1").unwrap();
    assert!(board.flags.can_en_passant());
    assert_eq!(board.flags.en_passant_file(), 4);
    assert_eq!(board.flags.0 & Flags::CASTLING_MASK, 0b1111);
    let played = Board::default().make_move(Move::new(Square::E2, Square::E4, None));
    assert_eq!(board.flags, played.flags);
    assert_eq!(board.bitboards, played.bitboards);
    assert_eq!(board.active_color, played.active_color);
    assert_eq!(board.en_passant_square(), Some(Square::E3));
}

#[test]
fn from_fen_errors() {
    assert!(matches!(Board::from_fen(""), Err(ParseFenError::WrongSectionCount)));
    assert!(matches!(Board::from_fen("8/8/8/8/8/8/8/8"), Err(ParseFenError::WrongSectionCount)));
    assert!(matches!(Board::from_fen("8/8/8/8/8/8/8/7x w KQkq - 0 1"), Err(ParseFenError::BadPosition)));
    assert!(matches!(Board::from_fen("8/8/8/8/8/8/8/8 x KQkq - 0 1"), Err(ParseFenError::BadActiveColor)));
    assert!(matches!(Board::from_fen("8/8/8/8/8/8/8/8 wb KQkq - 0 1"), Err(ParseFenError::BadActiveColor)));
    assert!(matches!(Board::from_fen("8/8/8/8/8/8/8/8 w"), Err(ParseFenError::WrongSectionCount)));
    assert!(matches!(Board::from_fen("8/8/8/8/8/8/8/8 w - - 0 1"), Err(ParseFenError::BadCastlingRights)));
    assert!(matches!(Board::from_fen("8/8/8/8/8/8/8/8 w KQkq"), Err(ParseFenError::WrongSectionCount)));
    assert!(matches!(Board::from_fen("8/8/8/8/8/8/8/8 w KQkq zz 0 1"), Err(ParseFenError::BadEnPassant)));
    assert!(matches!(Board::from_fen("8/8/8/8/8/8/8/8 w KQkq e5 0 1"), Err(ParseFenError::BadEnPassant)));
    assert!(matches!(Board::from_fen("8/8/8/8/8/8/8/8 w KQkq e33 0 1"), Err(ParseFenError::BadEnPassant)));
    assert!(matches!(Board::from_fen("8/8/8/8/8/8/8/8 w KQkq -"), Err(ParseFenError::WrongSectionCount)));
    assert!(matches!(Board::from_fen("8/8/8/8/8/8/8/8 w KQkq - x 1"), Err(ParseFenError::BadHalfmoves)));
    assert!(matches!(Board::from_fen("8/8/8/8/8/8/8/8 w KQkq - 256 1"), Err(ParseFenError::BadHalfmoves)));
    assert!(matches!(Board::from_fen("8/8/8/8/8/8/8/8 w KQkq - 0"), Err(ParseFenError::WrongSectionCount)));
    assert!(matches!(Board::from_fen("8/8/8/8/8/8/8/8 w KQkq - 0 x"), Err(ParseFenError::BadFullmoves)));
    assert!(matches!(Board::from_fen("8/8/8/8/8/8/8/8 w KQkq - 0 70000"), Err(ParseFenError::BadFullmoves)));
}

#[test]
fn flags_set_and_read_en_passant() {
    let mut flags = Flags::new(0b0000_0101);
    assert!(flags.kingside(Color::White));
    assert!(flags.kingside(Color::Black));
    assert!(!flags.queenside(Color::White));
    assert!(!flags.can_en_passant());
    flags.set_en_passant(true);
    flags.set_en_passant_file(6);
    assert!(flags.can_en_passant());
    assert_eq!(flags.en_passant_file(), 6);
    assert_eq!(flags.0, 0b1101_0101);
    flags.set_en_passant(false);
    assert!(!flags.can_en_passant());
    assert_eq!(flags.en_passant_file(), 6);
}
