use vstd::prelude::*;
use vstd::std_specs::convert::TryFromSpecImpl;
use crate::board::bitboard::{Bitboard, has_bit, lemma_single};
use crate::text::push_char;

verus! {

/// The rank (row, 0 for rank 1) of the square with index `i`.
pub open spec fn rank_of(i: int) -> int {
    i / 8
}

/// The file (column, 0 for the a-file) of the square with index `i`.
pub open spec fn file_of(i: int) -> int {
    i % 8
}

/// The character that names the file of square `i` (`a` to `h`).
pub open spec fn file_char(i: int) -> char {
    (file_of(i) + 97) as char
}

/// The character that names the rank of square `i` (`1` to `8`).
pub open spec fn rank_char(i: int) -> char {
    (rank_of(i) + 49) as char
}

/// A square of the board; squares are numbered from a1 (0) along the ranks to h8 (63).
#[derive(Debug, Clone, Copy, PartialEq, Eq, Structural)]
pub enum Square {
    A1,
    B1,
    C1,
    D1,
    E1,
    F1,
    G1,
    H1,
    A2,
    B2,
    C2,
    D2,
    E2,
    F2,
    G2,
    H2,
    A3,
    B3,
    C3,
    D3,
    E3,
    F3,
    G3,
    H3,
    A4,
    B4,
    C4,
    D4,
    E4,
    F4,
    G4,
    H4,
    A5,
    B5,
    C5,
    D5,
    E5,
    F5,
    G5,
    H5,
    A6,
    B6,
    C6,
    D6,
    E6,
    F6,
    G6,
    H6,
    A7,
    B7,
    C7,
    D7,
    E7,
    F7,
    G7,
    H7,
    A8,
    B8,
    C8,
    D8,
    E8,
    F8,
    G8,
    H8
}

impl Square {
    pub const ALL: [Square; 64] = [
        Square::A1,
        Square::B1,
        Square::C1,
        Square::D1,
        Square::E1,
        Square::F1,
        Square::G1,
        Square::H1,
        Square::A2,
        Square::B2,
        Square::C2,
        Square::D2,
        Square::E2,
        Square::F2,
        Square::G2,
        Square::H2,
        Square::A3,
        Square::B3,
        Square::C3,
        Square::D3,
        Square::E3,
        Square::F3,
        Square::G3,
        Square::H3,
        Square::A4,
        Square::B4,
        Square::C4,
        Square::D4,
        Square::E4,
        Square::F4,
        Square::G4,
        Square::H4,
        Square::A5,
        Square::B5,
        Square::C5,
        Square::D5,
        Square::E5,
        Square::F5,
        Square::G5,
        Square::H5,
        Square::A6,
        Square::B6,
        Square::C6,
        Square::D6,
        Square::E6,
        Square::F6,
        Square::G6,
        Square::H6,
        Square::A7,
        Square::B7,
        Square::C7,
        Square::D7,
        Square::E7,
        Square::F7,
        Square::G7,
        Square::H7,
        Square::A8,
        Square::B8,
        Square::C8,
        Square::D8,
        Square::E8,
        Square::F8,
        Square::G8,
        Square::H8
    ];

    /// The index of this square, 0 to 63.
    pub open spec fn index(self) -> int {
        self as int
    }

    /// The square with index `i`.
    pub open spec fn from_index(i: int) -> Square {
        Square::ALL[i]
    }

    pub proof fn lemma_from_index(i: int)
        requires
            0 <= i < 64,
        ensures
            Square::from_index(i) as int == i,
    {
    }

    pub proof fn lemma_index(self)
        ensures
            0 <= self as int <= 63,
            Square::from_index(self as int) == self,
    {
    }

    /// The set holding this square alone.
    pub fn bitboard(&self) -> (r: Bitboard)
        ensures
            r.0 == 1u64 << (*self as u64),
            forall|i: int| #[trigger] has_bit(r.0, i) <==> i == *self as int,
    {
        proof {
            lemma_single(*self as int);
        }
        Bitboard(1u64 << (*self as u8))
    }

    /// The square on rank `rank` and file `file` (both counted from 0).
    pub fn from_coords(rank: u8, file: u8) -> (r: Square)
        requires
            rank * 8 + file < 64,
        ensures
            r as int == rank * 8 + file,
    {
        Square::ALL[(rank * 8 + file) as usize]
    }

    /// The name of the square, such as `e4`.
    pub fn to_string(&self) -> (r: String)
        ensures
            r@ == seq![file_char(*self as int), rank_char(*self as int)],
    {
        let i = *self as u8;
        let file_ch = ((i % 8) + 97) as char;
        let rank_ch = ((i / 8) + 49) as char;
        let mut s = String::new();
        push_char(&mut s, file_ch);
        push_char(&mut s, rank_ch);
        s
    }

    /// The square named by `value` (`a1` to `h8`), if it names one.
    pub open spec fn parse_spec(value: Seq<char>) -> Result<Square, ParseSquareStringError> {
        if value.len() == 2 && 97 <= value[0] as int <= 104 && 49 <= value[1] as int <= 56 {
            Ok(Square::from_index((value[1] as int - 49) * 8 + (value[0] as int - 97)))
        } else {
            Err(ParseSquareStringError::BadSquare)
        }
    }

    /// Reading a square's name gives the square back.
    pub proof fn lemma_parse_name(self)
        ensures
            Square::parse_spec(seq![file_char(self as int), rank_char(self as int)]) == Ok::<Square, ParseSquareStringError>(self),
    {
        let i = self as int;
        self.lemma_index();
        assert(0 <= file_of(i) < 8 && 0 <= rank_of(i) < 8);
        assert((rank_of(i)) * 8 + file_of(i) == i);
    }

    /// Reads a square's name, such as `e4`.
    pub fn parse(value: &str) -> (r: Result<Square, ParseSquareStringError>)
        ensures
            r == Square::parse_spec(value@),
    {
        if value.unicode_len() != 2 {
            return Err(ParseSquareStringError::BadSquare);
        }
        let f = value.get_char(0);
        let rk = value.get_char(1);
        if 'a' <= f && f <= 'h' && '1' <= rk && rk <= '8' {
            let fi = (f as u32 - 97) as usize;
            let ri = (rk as u32 - 49) as usize;
            Ok(Square::ALL[ri * 8 + fi])
        } else {
            Err(ParseSquareStringError::BadSquare)
        }
    }
}

/// Why a square's name could not be read.
#[derive(Debug, Clone, Copy, PartialEq, Eq, Structural)]
pub enum ParseSquareStringError {
    WrongLength,
    BadSquare,
}

impl<'a> TryFrom<&'a str> for Square {
    type Error = ParseSquareStringError;

    fn try_from(value: &'a str) -> (r: Result<Square, ParseSquareStringError>) {
        Square::parse(value)
    }
}

impl<'a> TryFromSpecImpl<&'a str> for Square {
    open spec fn obeys_try_from_spec() -> bool {
        true
    }

    open spec fn try_from_spec(value: &'a str) -> Result<Square, ParseSquareStringError> {
        Square::parse_spec(value@)
    }
}

} // verus!
