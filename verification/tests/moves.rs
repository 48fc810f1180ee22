use mogen::board::moves::Move;
use mogen::board::piece::Piece;
use mogen::board::square::Square;

#[test]
fn test_new_move() {
    let mv = Move::new(Square::E2, Square::E4, Some(Piece::Rook));

    assert_eq!(mv.source(), Square::E2);
    assert_eq!(mv.target(), Square::E4);
    assert_eq!(mv.promotion(), Some(Piece::Rook));
}

#[test]
fn test_display() {
    assert_eq!(Move::new(Square::E4, Square::B6, None).to_string(), "e4b6");
    assert_eq!(Move::new(Square::A1, Square::H8, None).to_string(), "a1h8");
    assert_eq!(
        Move::new(Square::F2, Square::F1, Some(Piece::Rook)).to_string(),
        "f2f1r"
    );
    assert_eq!(
        Move::new(Square::B7, Square::B8, Some(Piece::Knight)).to_string(),
        "b7b8k"
    );
}

#[test]
fn move_word_layout() {
    // Source in the top six bits, target in the next six, promotion in the low four.
    let mv = Move::new(Square::H8, Square::A1, Some(Piece::Queen));
    assert_eq!(*mv, (63u16 << 10) | 8);
    assert_eq!(mv.from(), Square::H8);
    assert_eq!(mv.to(), Square::A1);
    assert_eq!(mv.bitboard().0, (1u64 << 63) | 1);
    assert_eq!(Move::new(Square::A1, Square::A1, None).promotion(), None);
}

#[test]
fn promotion_masks() {
    assert_eq!(Piece::Knight.promotion_mask(), 1);
    assert_eq!(Piece::Bishop.promotion_mask(), 2);
    assert_eq!(Piece::Rook.promotion_mask(), 4);
    assert_eq!(Piece::Queen.promotion_mask(), 8);
    assert_eq!(Piece::Pawn.promotion_mask(), 0);
    assert_eq!(Piece::King.promotion_mask(), 0);
}

#[test]
fn parse_move_round_trip() {
    for text in ["e2e4", "a1h8", "f2f1r", "c7c8q", "d2d1b"] {
        let mv = Move::parse(text).unwrap();
        assert_eq!(mv.to_string(), text);
    }
    assert_eq!(
        Move::parse("e7e8q").unwrap(),
        Move::new(Square::E7, Square::E8, Some(Piece::Queen))
    );
    // A knight promotion is read as `n` but written as `k`.
    assert_eq!(Move::parse("b7b8n").unwrap().to_string(), "b7b8k");
    assert!(Move::parse("b7b8k").is_err());
}

#[test]
fn parse_move_errors() {
    assert!(Move::parse("").is_err());
    assert!(Move::parse("e2e").is_err());
    assert!(Move::parse("e2e4qq").is_err());
    assert!(Move::parse("i2e4").is_err());
    assert!(Move::parse("e2e9").is_err());
    assert!(Move::parse("e2e4x").is_err());
}

#[test]
fn piece_from_char() {
    assert_eq!(Piece::try_from('p').unwrap(), Piece::Pawn);
    assert_eq!(Piece::try_from('N').unwrap(), Piece::Knight);
    assert_eq!(Piece::try_from('b').unwrap(), Piece::Bishop);
    assert_eq!(Piece::try_from('R').unwrap(), Piece::Rook);
    assert_eq!(Piece::try_from('q').unwrap(), Piece::Queen);
    assert_eq!(Piece::try_from('K').unwrap(), Piece::King);
    assert!(Piece::try_from('x').is_err());
}
