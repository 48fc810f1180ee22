use mogen::board::bitboard::Bitboard;
use mogen::board::square::Square;
use mogen::magic::{Direction, SlidingMoveGen};

#[test]
fn test_rook_sliding_moves() {
    let square = Square::D4;
    let mask = Bitboard(0x38000a04012082c0);
    let expected_moves = Bitboard(0x808f7080808);

    assert_eq!(Direction::Orthogonal.moves(square, mask), expected_moves)
}

#[test]
fn test_bishop_sliding_moves() {
    let square = Square::D4;
    let mask = Bitboard(0x38000a04012082c0);
    let expected_moves = Bitboard(0x8040201400142240);

    assert_eq!(Direction::Diagonal.moves(square, mask), expected_moves);

    let square = Square::F1;
    let mask = Bitboard(0x1020);
    let expected_moves = Bitboard(0x805000);

    assert_eq!(Direction::Diagonal.moves(square, mask), expected_moves);
}

#[test]
fn relevant_blockers_leave_out_the_edges() {
    assert_eq!(Direction::rook_blockers(Square::A1), Bitboard(0x000101010101017e));
    assert_eq!(Direction::rook_blockers(Square::E4), Bitboard(0x001010106e101000));
    assert_eq!(Direction::bishop_blockers(Square::A1), Bitboard(0x0040201008040200));
    assert_eq!(Direction::Orthogonal.blockers(Square::E4), Direction::rook_blockers(Square::E4));
    assert_eq!(Direction::Diagonal.blockers(Square::D4), Direction::bishop_blockers(Square::D4));
}

#[test]
fn table_lookups_match_the_ray_walk() {
    // Blocker sets other than the lowest relevant square alone are found in the tables.
    let smg = SlidingMoveGen::new();
    let blockers = Bitboard(0x38000a04012082c0);
    assert_eq!(smg.rook_moves(Square::D4, blockers), Direction::Orthogonal.moves(Square::D4, blockers));
    assert_eq!(smg.bishop_moves(Square::D4, blockers), Direction::Diagonal.moves(Square::D4, blockers));
    assert_eq!(smg.rook_moves(Square::A1, Bitboard(0)), Bitboard(0x01010101010101fe));
    assert_eq!(smg.bishop_moves(Square::A1, Bitboard(0)), Bitboard(0x8040201008040200));
}
