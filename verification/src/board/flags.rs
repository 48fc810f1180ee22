use vstd::prelude::*;
use std::ops::Deref;
use crate::board::color::Color;

verus! {

/// Bit `i` of a byte.
pub open spec fn byte_bit(x: u8, i: u8) -> bool {
    (x >> i) & 1u8 == 1u8
}

/// The castling rights and en passant state of a position, packed in one byte:
/// bits 0-3 are the castling rights (white kingside, white queenside, black kingside,
/// black queenside), bit 4 says whether an en passant capture is possible, and bits 5-7
/// hold the file of the pawn that may be taken en passant.
#[derive(Debug, Clone, Copy, PartialEq, Eq, Structural)]
pub struct Flags(pub u8);

impl Flags {
    pub const WHITE_KINGSIDE: u8 = 0b000000001;
    pub const WHITE_QUEENSIDE: u8 = 0b000000010;
    pub const BLACK_KINGSIDE: u8 = 0b000000100;
    pub const BLACK_QUEENSIDE: u8 = 0b000001000;
    pub const CASTLING_MASK: u8 = 0b00001111;
    pub const EN_PASSANT_MASK: u8 = 0b00010000;
    pub const FILE_MASK: u8 = 0b11100000;

    pub fn new(value: u8) -> (r: Flags)
        ensures
            r.0 == value,
    {
        Flags(value)
    }

    pub open spec fn spec_kingside(self, color: Color) -> bool {
        match color {
            Color::White => byte_bit(self.0, 0),
            Color::Black => byte_bit(self.0, 2),
        }
    }

    pub open spec fn spec_queenside(self, color: Color) -> bool {
        match color {
            Color::White => byte_bit(self.0, 1),
            Color::Black => byte_bit(self.0, 3),
        }
    }

    pub open spec fn spec_can_en_passant(self) -> bool {
        byte_bit(self.0, 4)
    }

    pub open spec fn spec_en_passant_file(self) -> u8 {
        self.0 >> 5u8
    }

    /// Whether `color` may still castle kingside.
    pub fn kingside(&self, color: Color) -> (r: bool)
        ensures
            r == self.spec_kingside(color),
    {
        let mask = match color {
            Color::White => Self::WHITE_KINGSIDE,
            Color::Black => Self::BLACK_KINGSIDE,
        };
        let x = self.0;
        assert((x & 1u8 > 0) == ((x >> 0u8) & 1u8 == 1u8) && (x & 4u8 > 0) == ((x >> 2u8) & 1u8 == 1u8)) by (bit_vector);
        (self.0 & mask) > 0
    }

    /// Whether `color` may still castle queenside.
    pub fn queenside(&self, color: Color) -> (r: bool)
        ensures
            r == self.spec_queenside(color),
    {
        let mask = match color {
            Color::White => Self::WHITE_QUEENSIDE,
            Color::Black => Self::BLACK_QUEENSIDE,
        };
        let x = self.0;
        assert((x & 2u8 > 0) == ((x >> 1u8) & 1u8 == 1u8) && (x & 8u8 > 0) == ((x >> 3u8) & 1u8 == 1u8)) by (bit_vector);
        (self.0 & mask) > 0
    }

    /// Whether an en passant capture is possible.
    pub fn can_en_passant(&self) -> (r: bool)
        ensures
            r == self.spec_can_en_passant(),
    {
        let x = self.0;
        assert((x & 16u8 > 0) == ((x >> 4u8) & 1u8 == 1u8)) by (bit_vector);
        (self.0 & Self::EN_PASSANT_MASK) > 0
    }

    /// The file of the pawn that may be taken en passant.
    pub fn en_passant_file(&self) -> (r: u8)
        ensures
            r == self.spec_en_passant_file(),
            r < 8,
    {
        let x = self.0;
        assert(x >> 5u8 < 8u8) by (bit_vector);
        self.0 >> 5
    }

    /// Sets or clears the en passant bit; the other bits stay.
    pub fn set_en_passant(&mut self, value: bool)
        ensures
            final(self).0 == (old(self).0 & !Self::EN_PASSANT_MASK) | (if value { 16u8 } else { 0u8 }),
            final(self).spec_can_en_passant() == value,
            forall|i: u8| i < 8 && i != 4 ==> byte_bit(#[trigger] final(self).0, i) == byte_bit(old(self).0, i),
            final(self).spec_en_passant_file() == old(self).spec_en_passant_file(),
    {
        let bit: u8 = if value { 1 } else { 0 };
        let mask: u8 = bit << 4u8;
        let x = self.0;
        let y = (x & !Self::EN_PASSANT_MASK) | mask;
        assert((bit == 1u8 ==> mask == 16u8) && (bit == 0u8 ==> mask == 0u8)) by (bit_vector)
            requires mask == bit << 4u8;
        assert(((x & !16u8) | 16u8) >> 4u8 & 1u8 == 1u8 && ((x & !16u8) | 0u8) >> 4u8 & 1u8 == 0u8
            && ((x & !16u8) | 16u8) >> 5u8 == x >> 5u8 && ((x & !16u8) | 0u8) >> 5u8 == x >> 5u8) by (bit_vector);
        assert forall|i: u8| i < 8 && i != 4 implies byte_bit(#[trigger] ((x & !16u8) | mask), i) == byte_bit(x, i) by {
            assert(i < 8 && i != 4 && (mask == 16u8 || mask == 0u8) ==> (((x & !16u8) | mask) >> i) & 1u8 == (x >> i) & 1u8) by (bit_vector);
        }
        self.0 = y;
    }

    /// Writes `value` into the file bits (bits 5-7); the other bits stay.
    pub fn set_en_passant_file(&mut self, value: u8)
        ensures
            final(self).0 == (old(self).0 & !Self::FILE_MASK) | (value << 5u8),
            value < 8 ==> final(self).spec_en_passant_file() == value,
            forall|i: u8| i < 5 ==> byte_bit(#[trigger] final(self).0, i) == byte_bit(old(self).0, i),
    {
        let x = self.0;
        assert(value < 8 ==> ((x & !224u8) | (value << 5u8)) >> 5u8 == value) by (bit_vector);
        assert forall|i: u8| i < 5 implies byte_bit(#[trigger] ((x & !224u8) | (value << 5u8)), i) == byte_bit(x, i) by {
            assert(i < 5 ==> (((x & !224u8) | (value << 5u8)) >> i) & 1u8 == (x >> i) & 1u8) by (bit_vector);
        }
        self.0 = (self.0 & !Self::FILE_MASK) | (value << 5);
    }
}

impl Deref for Flags {
    type Target = u8;

    fn deref(&self) -> (r: &u8)
        ensures
            *r == self.0,
    {
        &self.0
    }
}

} // verus!
