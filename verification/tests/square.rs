use mogen::board::square::{ParseSquareStringError, Square};
use mogen::generation::coords;

#[test]
fn test_square_display() {
    assert_eq!(Square::E4.to_string(), "e4");
    assert_eq!(Square::A7.to_string(), "a7");
    assert_eq!(Square::B3.to_string(), "b3");
    assert_eq!(Square::H8.to_string(), "h8");
}

#[test]
fn test_square_from_coords() {
    let squares = [Square::E7, Square::A2, Square::C8, Square::H1, Square::F6];

    for square in squares {
        let (rank, file) = coords(square as u8);
        assert_eq!(square, Square::from_coords(rank, file));
    }
}

#[test]
fn square_parse() {
    assert_eq!(Square::try_from("e4").unwrap(), Square::E4);
    assert_eq!(Square::try_from("a1").unwrap(), Square::A1);
    assert_eq!(Square::try_from("h8").unwrap(), Square::H8);
    assert!(matches!(Square::try_from("e"), Err(ParseSquareStringError::BadSquare)));
    assert!(matches!(Square::try_from("e44"), Err(ParseSquareStringError::BadSquare)));
    assert!(matches!(Square::try_from("i4"), Err(ParseSquareStringError::BadSquare)));
    assert!(matches!(Square::try_from("E4"), Err(ParseSquareStringError::BadSquare)));
}

#[test]
fn square_bitboard_is_one_bit() {
    assert_eq!(Square::A1.bitboard().0, 1);
    assert_eq!(Square::H8.bitboard().0, 1 << 63);
    assert_eq!(Square::ALL[28], Square::E4);
}
