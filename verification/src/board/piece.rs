use vstd::prelude::*;
use vstd::std_specs::convert::TryFromSpecImpl;

verus! {

/// A kind of chess piece.
#[derive(Debug, Clone, Copy, PartialEq, Eq, PartialOrd, Ord, Hash, Structural)]
pub enum Piece {
    Pawn,
    Knight,
    Bishop,
    Rook,
    Queen,
    King,
}

impl Piece {
    pub const ALL: [Piece; 6] = [
        Piece::Pawn,
        Piece::Knight,
        Piece::Bishop,
        Piece::Rook,
        Piece::Queen,
        Piece::King,
    ];

    /// The promotion code of this piece in a move's low four bits.
    pub open spec fn spec_promotion_mask(self) -> u16 {
        match self {
            Piece::Pawn => 0,
            Piece::Knight => 1,
            Piece::Bishop => 2,
            Piece::Rook => 4,
            Piece::Queen => 8,
            Piece::King => 0,
        }
    }

    pub fn promotion_mask(&self) -> (r: u16)
        ensures
            r == self.spec_promotion_mask(),
    {
        match self {
            Piece::Pawn => 0,
            Piece::Knight => 1,
            Piece::Bishop => 2,
            Piece::Rook => 4,
            Piece::Queen => 8,
            Piece::King => 0,
        }
    }

    /// The piece a letter names, in either case (`p n b r q k`).
    pub open spec fn from_char_spec(value: char) -> Result<Piece, ParsePieceCharError> {
        if value == 'p' || value == 'P' {
            Ok(Piece::Pawn)
        } else if value == 'n' || value == 'N' {
            Ok(Piece::Knight)
        } else if value == 'b' || value == 'B' {
            Ok(Piece::Bishop)
        } else if value == 'r' || value == 'R' {
            Ok(Piece::Rook)
        } else if value == 'q' || value == 'Q' {
            Ok(Piece::Queen)
        } else if value == 'k' || value == 'K' {
            Ok(Piece::King)
        } else {
            Err(ParsePieceCharError)
        }
    }

    pub fn from_char(value: char) -> (r: Result<Piece, ParsePieceCharError>)
        ensures
            r == Piece::from_char_spec(value),
    {
        match value {
            'p' | 'P' => Ok(Piece::Pawn),
            'n' | 'N' => Ok(Piece::Knight),
            'b' | 'B' => Ok(Piece::Bishop),
            'r' | 'R' => Ok(Piece::Rook),
            'q' | 'Q' => Ok(Piece::Queen),
            'k' | 'K' => Ok(Piece::King),
            _ => Err(ParsePieceCharError),
        }
    }
}

/// A character that names no piece.
#[derive(Debug, Clone, Copy, PartialEq, Eq, Structural)]
pub struct ParsePieceCharError;

impl TryFrom<char> for Piece {
    type Error = ParsePieceCharError;

    fn try_from(value: char) -> (r: Result<Piece, ParsePieceCharError>) {
        Piece::from_char(value)
    }
}

impl TryFromSpecImpl<char> for Piece {
    open spec fn obeys_try_from_spec() -> bool {
        true
    }

    open spec fn try_from_spec(value: char) -> Result<Piece, ParsePieceCharError> {
        Piece::from_char_spec(value)
    }
}

} // verus!
