use mogen::board::bitboard::Bitboard;
use mogen::board::color::Color;
use mogen::board::square::Square;
use mogen::generation::{
    bishop_move_mask, coords, generate_bishop_masks, generate_king_masks, generate_knight_masks,
    generate_pawn_capture_masks, generate_rook_masks, in_bounds, king_move_mask, knight_move_mask,
    pawn_capture_mask, rook_move_mask, sliding_move_mask, BISHOP_OFFSETS, ROOK_OFFSETS,
};

#[test]
fn test_coords() {
    assert_eq!(coords(Square::B7 as u8), (6, 1));
    assert_eq!(coords(Square::A8 as u8), (7, 0));
}

#[test]
fn test_knight_move_mask() {
    let e4_moves = Bitboard(
        1 << Square::D6 as u8
            | 1 << Square::F6 as u8
            | 1 << Square::C5 as u8
            | 1 << Square::G5 as u8
            | 1 << Square::C3 as u8
            | 1 << Square::G3 as u8
            | 1 << Square::D2 as u8
            | 1 << Square::F2 as u8,
    );
    assert_eq!(e4_moves, knight_move_mask(Square::E4));

    let a1_moves = Bitboard(1 << Square::B3 as u8 | 1 << Square::C2 as u8);
    assert_eq!(a1_moves, knight_move_mask(Square::A1));

    let h4_moves = Bitboard(
        1 << Square::G2 as u8
            | 1 << Square::F3 as u8
            | 1 << Square::F5 as u8
            | 1 << Square::G6 as u8,
    );
    assert_eq!(h4_moves, knight_move_mask(Square::H4));
}

#[test]
fn test_bishop_move_mask() {
    let e4_moves = Bitboard(
        1 << Square::A8 as u8
            | 1 << Square::B7 as u8
            | 1 << Square::C6 as u8
            | 1 << Square::D5 as u8
            | 1 << Square::F3 as u8
            | 1 << Square::G2 as u8
            | 1 << Square::H1 as u8
            | 1 << Square::B1 as u8
            | 1 << Square::C2 as u8
            | 1 << Square::D3 as u8
            | 1 << Square::F5 as u8
            | 1 << Square::G6 as u8
            | 1 << Square::H7 as u8,
    );
    assert_eq!(e4_moves, bishop_move_mask(Square::E4));

    let a1_moves = Bitboard(
        1 << Square::B2 as u8
            | 1 << Square::C3 as u8
            | 1 << Square::D4 as u8
            | 1 << Square::E5 as u8
            | 1 << Square::F6 as u8
            | 1 << Square::G7 as u8
            | 1 << Square::H8 as u8,
    );
    assert_eq!(a1_moves, bishop_move_mask(Square::A1));

    let h4_moves = Bitboard(
        1 << Square::E1 as u8
            | 1 << Square::F2 as u8
            | 1 << Square::G3 as u8
            | 1 << Square::D8 as u8
            | 1 << Square::E7 as u8
            | 1 << Square::F6 as u8
            | 1 << Square::G5 as u8,
    );
    assert_eq!(h4_moves, bishop_move_mask(Square::H4));
}

#[test]
fn test_rook_move_mask() {
    let e4_moves = Bitboard(
        1 << Square::A4 as u8
            | 1 << Square::B4 as u8
            | 1 << Square::C4 as u8
            | 1 << Square::D4 as u8
            | 1 << Square::F4 as u8
            | 1 << Square::G4 as u8
            | 1 << Square::H4 as u8
            | 1 << Square::E1 as u8
            | 1 << Square::E2 as u8
            | 1 << Square::E3 as u8
            | 1 << Square::E5 as u8
            | 1 << Square::E6 as u8
            | 1 << Square::E7 as u8
            | 1 << Square::E8 as u8,
    );
    assert_eq!(e4_moves, rook_move_mask(Square::E4));

    let a1_moves = Bitboard(
        1 << Square::A2 as u8
            | 1 << Square::A3 as u8
            | 1 << Square::A4 as u8
            | 1 << Square::A5 as u8
            | 1 << Square::A6 as u8
            | 1 << Square::A7 as u8
            | 1 << Square::A8 as u8
            | 1 << Square::B1 as u8
            | 1 << Square::C1 as u8
            | 1 << Square::D1 as u8
            | 1 << Square::E1 as u8
            | 1 << Square::F1 as u8
            | 1 << Square::G1 as u8
            | 1 << Square::H1 as u8,
    );
    assert_eq!(a1_moves, rook_move_mask(Square::A1));

    let h4_moves = Bitboard(
        1 << Square::H1 as u8
            | 1 << Square::H2 as u8
            | 1 << Square::H3 as u8
            | 1 << Square::H5 as u8
            | 1 << Square::H6 as u8
            | 1 << Square::H7 as u8
            | 1 << Square::H8 as u8
            | 1 << Square::A4 as u8
            | 1 << Square::B4 as u8
            | 1 << Square::C4 as u8
            | 1 << Square::D4 as u8
            | 1 << Square::E4 as u8
            | 1 << Square::F4 as u8
            | 1 << Square::G4 as u8,
    );
    assert_eq!(h4_moves, rook_move_mask(Square::H4));
}

#[test]
fn test_king_move_mask() {
    let a1_moves = Bitboard(0x302);
    let e4_moves = Bitboard(0x3828380000);
    let h4_moves = Bitboard(0xc040c00000);

    assert_eq!(a1_moves, king_move_mask(Square::A1));
    assert_eq!(e4_moves, king_move_mask(Square::E4));
    assert_eq!(h4_moves, king_move_mask(Square::H4));
}

#[test]
fn test_pawn_capture_mask() {
    assert_eq!(
        Square::D3.bitboard() | Square::F3.bitboard(),
        pawn_capture_mask(Square::E2, Color::White)
    );
    assert_eq!(
        Square::D1.bitboard() | Square::F1.bitboard(),
        pawn_capture_mask(Square::E2, Color::Black)
    );

    assert_eq!(
        Square::B8.bitboard(),
        pawn_capture_mask(Square::A7, Color::White)
    );
    assert_eq!(
        Square::B6.bitboard(),
        pawn_capture_mask(Square::A7, Color::Black)
    );

    assert_eq!(
        Square::D5.bitboard() | Square::F5.bitboard(),
        pawn_capture_mask(Square::E4, Color::White)
    );
    assert_eq!(
        Square::D3.bitboard() | Square::F3.bitboard(),
        pawn_capture_mask(Square::E4, Color::Black)
    );

    let first_rank = &Square::ALL[..8];
    for square in first_rank {
        assert_eq!(Bitboard(0), pawn_capture_mask(*square, Color::White));
        assert_eq!(Bitboard(0), pawn_capture_mask(*square, Color::Black));
    }

    let last_rank = &Square::ALL[56..];
    for square in last_rank {
        assert_eq!(Bitboard(0), pawn_capture_mask(*square, Color::White));
        assert_eq!(Bitboard(0), pawn_capture_mask(*square, Color::Black));
    }
}

#[test]
fn in_bounds_is_the_board_range() {
    assert!(in_bounds(0));
    assert!(in_bounds(63));
    assert!(!in_bounds(64));
    assert!(!in_bounds(-1));
}

#[test]
fn sliding_masks_by_offsets() {
    assert_eq!(sliding_move_mask(Square::E4, &ROOK_OFFSETS), rook_move_mask(Square::E4));
    assert_eq!(sliding_move_mask(Square::E4, &BISHOP_OFFSETS), bishop_move_mask(Square::E4));
    assert_eq!(sliding_move_mask(Square::H1, &[1]), Bitboard(0));
    assert_eq!(sliding_move_mask(Square::A1, &[9]), Bitboard(0x8040201008040200));
}

#[test]
fn generated_tables_hold_each_square_mask() {
    let knights = generate_knight_masks();
    let bishops = generate_bishop_masks();
    let rooks = generate_rook_masks();
    let kings = generate_king_masks();
    let white = generate_pawn_capture_masks(Color::White);
    let black = generate_pawn_capture_masks(Color::Black);
    for square in Square::ALL {
        let i = square as usize;
        assert_eq!(knights[i], knight_move_mask(square));
        assert_eq!(bishops[i], bishop_move_mask(square));
        assert_eq!(rooks[i], rook_move_mask(square));
        assert_eq!(kings[i], king_move_mask(square));
        assert_eq!(white[i], pawn_capture_mask(square, Color::White));
        assert_eq!(black[i], pawn_capture_mask(square, Color::Black));
    }
    assert_eq!(kings[0], Bitboard(0x302));
}
