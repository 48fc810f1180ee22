use mogen::board::bitboard::Bitboard;
use mogen::board::color::Color;
use mogen::board::moves::Move;
use mogen::board::piece::Piece;
use mogen::board::square::Square;
use mogen::board::Board;
use mogen::MoveGen;

#[test]
fn test_knight_moves() {
    let mut moves = Vec::new();
    MoveGen::knight_moves(&Board::new(), Color::White, Square::E4, &mut moves);

    assert_eq!(moves.len(), 8);

    let mask = moves[0].bitboard()
        | moves[1].bitboard()
        | moves[2].bitboard()
        | moves[3].bitboard()
        | moves[4].bitboard()
        | moves[5].bitboard()
        | moves[6].bitboard()
        | moves[7].bitboard();

    assert_eq!(
        mask,
        Square::E4.bitboard()
            | Square::D2.bitboard()
            | Square::C3.bitboard()
            | Square::C5.bitboard()
            | Square::D6.bitboard()
            | Square::F6.bitboard()
            | Square::G5.bitboard()
            | Square::G3.bitboard()
            | Square::F2.bitboard()
    );
}

#[test]
fn test_knight_captures() {
    let mut board = Board::new();
    board.add_piece(Piece::Pawn, Color::White, Square::D2);
    board.add_piece(Piece::Pawn, Color::Black, Square::C3);
    board.add_piece(Piece::Pawn, Color::Black, Square::C5);
    board.add_piece(Piece::Pawn, Color::Black, Square::D6);
    board.add_piece(Piece::Pawn, Color::White, Square::F6);
    board.add_piece(Piece::Pawn, Color::White, Square::G5);
    board.add_piece(Piece::Pawn, Color::Black, Square::G3);
    board.add_piece(Piece::Pawn, Color::Black, Square::F2);

    let mut moves = vec![];
    MoveGen::knight_moves(&board, Color::White, Square::E4, &mut moves);

    assert_eq!(moves.len(), 5);

    let mask = moves[0].bitboard()
        | moves[1].bitboard()
        | moves[2].bitboard()
        | moves[3].bitboard()
        | moves[4].bitboard();

    assert_eq!(
        mask,
        Square::E4.bitboard()
            | Square::C3.bitboard()
            | Square::C5.bitboard()
            | Square::D6.bitboard()
            | Square::G3.bitboard()
            | Square::F2.bitboard()
    );
}

#[test]
fn test_bishop_moves() {
    let mut board = Board::new();
    let move_gen = MoveGen::new();

    let mut moves = Vec::new();
    move_gen.bishop_moves(&board, Color::White, Square::E4, &mut moves);

    assert_eq!(moves.len(), 13);

    let mut mask = Bitboard(0);
    for mv in &moves {
        mask |= mv.to().bitboard();
    }

    assert_eq!(mask, Bitboard(0x182442800284482));

    board.add_piece(Piece::Pawn, Color::White, Square::C6);
    board.add_piece(Piece::Pawn, Color::White, Square::G6);
    board.add_piece(Piece::Pawn, Color::Black, Square::C2);
    board.add_piece(Piece::Pawn, Color::Black, Square::H1);

    moves.clear();
    move_gen.bishop_moves(&board, Color::White, Square::E4, &mut moves);

    assert_eq!(moves.len(), 7);

    let mut mask = Bitboard(0);
    for mv in moves {
        mask |= mv.to().bitboard();
    }

    assert_eq!(mask, Bitboard(0x2800284480));
}

#[test]
fn test_rook_moves() {
    let mut board = Board::new();
    let move_gen = MoveGen::new();

    let mut moves = Vec::new();
    move_gen.rook_moves(&board, Color::White, Square::E1, &mut moves);

    assert_eq!(moves.len(), 14);

    let mut mask = Bitboard(0);
    for mv in &moves {
        mask |= mv.to().bitboard();
    }

    assert_eq!(mask, Bitboard(0x10101010101010ef));

    moves.clear();
    board.add_piece(Piece::Knight, Color::White, Square::B1);
    board.add_piece(Piece::Knight, Color::White, Square::E5);
    board.add_piece(Piece::Knight, Color::Black, Square::H1);

    move_gen.rook_moves(&board, Color::White, Square::E1, &mut moves);

    assert_eq!(moves.len(), 8);

    mask = Bitboard(0);
    for mv in &moves {
        mask |= mv.to().bitboard();
    }

    assert_eq!(mask, Bitboard(0x101010ec));
}

#[test]
fn test_king_moves() {
    let mut board = Board::new();

    board.add_piece(Piece::Knight, Color::White, Square::D3);
    board.add_piece(Piece::Knight, Color::Black, Square::E5);

    let mut moves = Vec::new();
    MoveGen::king_moves(&board, Color::White, Square::E4, &mut moves);

    let mut mask = Bitboard(0);
    for mv in moves {
        mask |= mv.to().bitboard();
    }

    assert_eq!(mask, Bitboard(0x3828300000));
}

#[test]
fn test_pawn_moves() {
    let mut board = Board::new();

    board.add_piece(Piece::Pawn, Color::White, Square::E2);
    board.add_piece(Piece::Pawn, Color::Black, Square::D7);

    let mut moves = Vec::new();

    MoveGen::pawn_moves(&board, board.active_color, &mut moves);
    assert_eq!(moves.len(), 2);

    for mv in &moves {
        assert!(
            *mv == Move::new(Square::E2, Square::E4, None)
                || *mv == Move::new(Square::E2, Square::E3, None)
        );
    }

    board = board.make_move(Move::new(Square::E2, Square::E4, None));
    moves.clear();

    MoveGen::pawn_moves(&board, board.active_color, &mut moves);
    assert_eq!(moves.len(), 2);

    for mv in &moves {
        assert!(
            *mv == Move::new(Square::D7, Square::D5, None)
                || *mv == Move::new(Square::D7, Square::D6, None)
        );
    }

    board = board.make_move(Move::new(Square::D7, Square::D6, None));
    moves.clear();

    MoveGen::pawn_moves(&board, board.active_color, &mut moves);
    assert_eq!(moves.len(), 1);
    assert_eq!(moves[0], Move::new(Square::E4, Square::E5, None));

    board = board.make_move(moves[0]);
    moves.clear();

    MoveGen::pawn_moves(&board, board.active_color, &mut moves);
    assert_eq!(moves.len(), 1);
    assert_eq!(moves[0], Move::new(Square::D6, Square::D5, None));
}

#[test]
fn test_pawn_captures() {
    let mut board = Board::new();
    board.add_piece(Piece::Pawn, Color::White, Square::A2);
    board.add_piece(Piece::Pawn, Color::Black, Square::B3);
    board.add_piece(Piece::Pawn, Color::Black, Square::H3);

    let mut moves = Vec::new();

    MoveGen::pawn_captures(&board, board.active_color, &mut moves);
    assert_eq!(moves.len(), 1);

    assert_eq!(moves[0], Move::new(Square::A2, Square::B3, None));

    board.active_color = Color::Black;
    moves.clear();

    MoveGen::pawn_captures(&board, board.active_color, &mut moves);
    assert_eq!(moves.len(), 1);

    assert_eq!(moves[0], Move::new(Square::B3, Square::A2, None));
}

#[test]
fn test_pawn_en_passant() {
    let mut board = Board::new();
    board.add_piece(Piece::Pawn, Color::White, Square::E2);
    board.add_piece(Piece::Pawn, Color::Black, Square::D4);

    board = board.make_move(Move::new(Square::E2, Square::E4, None));

    let mut moves = Vec::new();

    MoveGen::pawn_captures(&board, board.active_color, &mut moves);
    assert_eq!(moves.len(), 1);

    assert_eq!(moves[0], Move::new(Square::D4, Square::E3, None));
}

#[test]
fn test_white_pawn_captures() {
    let mut board = Board::new();

    board.add_piece(Piece::Pawn, Color::White, Square::E6);
    board.add_piece(Piece::Knight, Color::Black, Square::E7);
    board.add_piece(Piece::Knight, Color::White, Square::D7);
    board.add_piece(Piece::Knight, Color::Black, Square::F7);

    let mut moves = Vec::new();
    MoveGen::pawn_captures(&board, Color::White, &mut moves);

    assert_eq!(moves.len(), 1);

    assert_eq!(moves[0].from(), Square::E6);
    assert_eq!(moves[0].to(), Square::F7);
    assert_eq!(moves[0].promotion(), None);

    moves.clear();
    board = Board::new();

    board.add_piece(Piece::Pawn, Color::White, Square::B7);
    board.add_piece(Piece::Knight, Color::Black, Square::C8);
    board.add_piece(Piece::Knight, Color::White, Square::A8);

    MoveGen::pawn_captures(&board, Color::White, &mut moves);

    assert_eq!(moves.len(), 4);

    let first = moves[0];

    assert_ne!(first.promotion(), None);

    for mv in &moves[1..] {
        assert_eq!(first.from(), mv.from());
        assert_eq!(first.to(), mv.to());
        assert_ne!(first.promotion(), mv.promotion());
        assert_ne!(mv.promotion(), None);
    }
}

#[test]
fn test_black_pawn_captures() {
    let mut board = Board::new();

    board.add_piece(Piece::Pawn, Color::Black, Square::E3);
    board.add_piece(Piece::Knight, Color::White, Square::E2);
    board.add_piece(Piece::Knight, Color::Black, Square::D2);
    board.add_piece(Piece::Knight, Color::White, Square::F2);

    let mut moves = Vec::new();
    MoveGen::pawn_captures(&board, Color::Black, &mut moves);

    assert_eq!(moves.len(), 1);

    assert_eq!(moves[0].from(), Square::E3);
    assert_eq!(moves[0].to(), Square::F2);
    assert_eq!(moves[0].promotion(), None);

    moves.clear();
    board = Board::new();

    board.add_piece(Piece::Pawn, Color::Black, Square::B2);
    board.add_piece(Piece::Knight, Color::White, Square::C1);
    board.add_piece(Piece::Knight, Color::Black, Square::A1);

    MoveGen::pawn_captures(&board, Color::Black, &mut moves);

    assert_eq!(moves.len(), 4);

    let first = moves[0];

    assert_ne!(first.promotion(), None);

    for mv in &moves[1..] {
        assert_eq!(first.from(), mv.from());
        assert_eq!(first.to(), mv.to());
        assert_ne!(first.promotion(), mv.promotion());
        assert_ne!(mv.promotion(), None);
    }
}
