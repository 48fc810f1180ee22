use vstd::prelude::*;
use std::ops::Deref;
use vstd::string::StringSliceAdditionalSpecFns;
use crate::board::bitboard::{Bitboard, has_bit};
use crate::board::piece::Piece;
use crate::board::square::{Square, file_char, rank_char, file_of, rank_of};
use crate::text::push_char;

verus! {

/// The promotion code that a move stores for `promotion`.
pub open spec fn promotion_code(promotion: Option<Piece>) -> u16 {
    match promotion {
        Some(piece) => piece.spec_promotion_mask(),
        None => 0,
    }
}

/// The promotion piece that a promotion code stands for.
pub open spec fn decode_promotion(code: u16) -> Option<Piece> {
    if code == 1 {
        Some(Piece::Knight)
    } else if code == 2 {
        Some(Piece::Bishop)
    } else if code == 4 {
        Some(Piece::Rook)
    } else if code == 8 {
        Some(Piece::Queen)
    } else {
        None
    }
}

/// The promotion a move made with `promotion` reports: pawns and kings are no promotion.
pub open spec fn effective_promotion(promotion: Option<Piece>) -> Option<Piece> {
    decode_promotion(promotion_code(promotion))
}

/// The letter that ends a promotion in coordinate notation.
pub open spec fn promotion_suffix(promotion: Option<Piece>) -> Seq<char> {
    match promotion {
        Some(Piece::Knight) => seq!['k'],
        Some(Piece::Bishop) => seq!['b'],
        Some(Piece::Rook) => seq!['r'],
        Some(Piece::Queen) => seq!['q'],
        _ => Seq::<char>::empty(),
    }
}

/// The bytes of ASCII text.
pub open spec fn ascii_bytes(text: Seq<char>) -> Seq<u8> {
    text.map_values(|c: char| c as u8)
}

/// The name of a square, such as `e4`.
pub open spec fn square_name(sq: Square) -> Seq<char> {
    seq![file_char(sq as int), rank_char(sq as int)]
}

/// Appends the name of `sq`, such as `e4`.
fn push_square_name(out: &mut String, sq: Square)
    ensures
        final(out)@ == old(out)@ + square_name(sq),
{
    let i = sq as u8;
    push_char(out, ((i % 8) + 97) as char);
    push_char(out, ((i / 8) + 49) as char);
    assert(out@ =~= old(out)@ + seq![file_char(sq as int), rank_char(sq as int)]);
}

/// The 16-bit word of a move: source square in bits 10-15, target square in bits 4-9,
/// promotion code in bits 0-3.
pub open spec fn encode_move(source: int, target: int, promotion: Option<Piece>) -> u16 {
    ((source as u16) << 10u16) | ((target as u16) << 4u16) | promotion_code(promotion)
}

proof fn lemma_encode(s: u16, t: u16, p: u16)
    by (bit_vector)
    requires
        s < 64,
        t < 64,
        p < 16,
    ensures
        ((s << 10u16) | (t << 4u16) | p) >> 10u16 == s,
        63u16 & (((s << 10u16) | (t << 4u16) | p) >> 4u16) == t,
        ((s << 10u16) | (t << 4u16) | p) & 15u16 == p,
{
}

proof fn lemma_fields(w: u16)
    by (bit_vector)
    ensures
        w >> 10u16 < 64,
        63u16 & (w >> 4u16) < 64,
        w & 15u16 < 16,
{
}

/// A move from one square to another, with an optional promotion piece, packed in 16 bits.
#[derive(Debug, Clone, Copy, PartialEq, Eq, PartialOrd, Ord, Hash, Structural)]
pub struct Move(u16);

impl Move {
    /// The move's 16-bit word.
    pub closed spec fn word(self) -> u16 {
        self.0
    }

    /// The move that `Move::new(source, target, promotion)` makes.
    pub closed spec fn spec_new(source: Square, target: Square, promotion: Option<Piece>) -> Move {
        Move(encode_move(source as int, target as int, promotion))
    }

    pub closed spec fn spec_source(self) -> Square {
        Square::from_index((self.0 >> 10u16) as int)
    }

    pub closed spec fn spec_target(self) -> Square {
        Square::from_index((63u16 & (self.0 >> 4u16)) as int)
    }

    pub closed spec fn spec_promotion(self) -> Option<Piece> {
        decode_promotion(self.0 & 15u16)
    }

    /// A move reads back the squares and the promotion it was made with.
    pub proof fn lemma_new(source: Square, target: Square, promotion: Option<Piece>)
        ensures
            Move::spec_new(source, target, promotion).spec_source() == source,
            Move::spec_new(source, target, promotion).spec_target() == target,
            Move::spec_new(source, target, promotion).spec_promotion() == effective_promotion(promotion),
            Move::spec_new(source, target, promotion).word() == encode_move(source as int, target as int, promotion),
    {
        source.lemma_index();
        target.lemma_index();
        lemma_encode(source as u16, target as u16, promotion_code(promotion));
    }

    pub fn new(source: Square, target: Square, promotion: Option<Piece>) -> (r: Move)
        ensures
            r == Move::spec_new(source, target, promotion),
            r.spec_source() == source,
            r.spec_target() == target,
            r.spec_promotion() == effective_promotion(promotion),
    {
        proof {
            Move::lemma_new(source, target, promotion);
        }
        let source = (source as u16) << 10;
        let target = (target as u16) << 4;
        let promotion = match promotion {
            Some(piece) => piece.promotion_mask(),
            None => 0,
        };
        Move(source | target | promotion)
    }

    /// The square the move starts from.
    pub fn source(&self) -> (r: Square)
        ensures
            r == self.spec_source(),
    {
        proof {
            lemma_fields(self.0);
        }
        Square::ALL[(self.0 >> 10) as usize]
    }

    /// The square the move goes to.
    pub fn target(&self) -> (r: Square)
        ensures
            r == self.spec_target(),
    {
        proof {
            lemma_fields(self.0);
        }
        Square::ALL[0b111111 & (self.0 >> 4) as usize]
    }

    /// The square the move starts from (same as `source`).
    pub fn from(&self) -> (r: Square)
        ensures
            r == self.spec_source(),
    {
        self.source()
    }

    /// The square the move goes to (same as `target`).
    pub fn to(&self) -> (r: Square)
        ensures
            r == self.spec_target(),
    {
        self.target()
    }

    /// The piece a pawn promotes to with this move, if any.
    pub fn promotion(&self) -> (r: Option<Piece>)
        ensures
            r == self.spec_promotion(),
    {
        match self.0 & 0b1111 {
            1 => Some(Piece::Knight),
            2 => Some(Piece::Bishop),
            4 => Some(Piece::Rook),
            8 => Some(Piece::Queen),
            _ => None,
        }
    }

    /// The set of the move's two squares.
    pub fn bitboard(&self) -> (r: Bitboard)
        ensures
            forall|i: int| #[trigger] has_bit(r.0, i) <==> (i == self.spec_source() as int || i == self.spec_target() as int),
    {
        let a = self.source().bitboard();
        let b = self.target().bitboard();
        proof {
            crate::board::bitboard::lemma_bits(a.0, b.0);
        }
        a | b
    }

    /// The move in coordinate notation: the two square names and the promotion letter.
    pub open spec fn notation(self) -> Seq<char> {
        square_name(self.spec_source()) + square_name(self.spec_target()) + promotion_suffix(self.spec_promotion())
    }

    /// Reading back the notation of a move gives the move; but a knight promotion is
    /// written with `k` and read with `n`, so that its notation names no move.
    pub proof fn lemma_parse_notation(source: Square, target: Square, promotion: Option<Piece>)
        ensures
            promotion != Some(Piece::Knight) ==> Move::parse_spec(ascii_bytes(Move::spec_new(source, target, promotion).notation()))
                == Ok::<Move, ParseMoveError>(Move::spec_new(source, target, promotion)),
            promotion == Some(Piece::Knight) ==> Move::parse_spec(ascii_bytes(Move::spec_new(source, target, promotion).notation())) is Err,
    {
        Move::lemma_new(source, target, promotion);
        source.lemma_index();
        target.lemma_index();
        let m = Move::spec_new(source, target, promotion);
        let b = ascii_bytes(m.notation());
        let s = source as int;
        let t = target as int;
        assert(b[0] == file_of(s) + 97);
        assert(b[1] == rank_of(s) + 49);
        assert(b[2] == file_of(t) + 97);
        assert(b[3] == rank_of(t) + 49);
        assert(Move::square_bytes(b, 0) == Some(source));
        assert(Move::square_bytes(b, 2) == Some(target));
        match promotion {
            Some(Piece::Bishop) => assert(b[4] == 98),
            Some(Piece::Rook) => assert(b[4] == 114),
            Some(Piece::Queen) => assert(b[4] == 113),
            Some(Piece::Knight) => assert(b[4] == 107),
            Some(Piece::Pawn) | Some(Piece::King) | None => {
                assert(b.len() == 4);
                assert(Move::spec_new(source, target, None) == m);
            },
        }
    }

    /// The move in coordinate notation, such as `e2e4` or `b7b8k` (promotions are named by
    /// `k`, `b`, `r` or `q`).
    pub fn to_string(&self) -> (r: String)
        ensures
            r@ == self.notation(),
    {
        let mut out = String::new();
        let src = self.source();
        let tgt = self.target();
        let p = self.promotion();
        push_square_name(&mut out, src);
        push_square_name(&mut out, tgt);
        let ghost before = out@;
        match p {
            Some(Piece::Knight) => push_char(&mut out, 'k'),
            Some(Piece::Bishop) => push_char(&mut out, 'b'),
            Some(Piece::Rook) => push_char(&mut out, 'r'),
            Some(Piece::Queen) => push_char(&mut out, 'q'),
            _ => {},
        }
        assert(out@ =~= before + promotion_suffix(p));
        out
    }

    /// The move that a square name's two bytes at `b[i]`, `b[i + 1]` and the other
    /// square name start; see `parse_spec`.
    pub open spec fn square_bytes(b: Seq<u8>, i: int) -> Option<Square> {
        if 97 <= b[i] <= 104 && 49 <= b[i + 1] <= 56 {
            Some(Square::from_index((b[i + 1] - 49) * 8 + (b[i] - 97)))
        } else {
            None
        }
    }

    /// Whether byte offset `i` of the UTF-8 text `b` starts a character (or ends the text).
    pub open spec fn char_boundary(b: Seq<u8>, i: int) -> bool {
        i == 0 || i == b.len() || (0 <= i < b.len() && !(128 <= b[i] < 192))
    }

    /// Whether reading the move text `b` (UTF-8 bytes) stops on a cut through a character.
    pub open spec fn parse_panics(b: Seq<u8>) -> bool {
        &&& (b.len() == 4 || b.len() == 5)
        &&& (!Move::char_boundary(b, 2) || (Move::square_bytes(b, 0) is Some && !Move::char_boundary(b, 4)))
    }

    /// The move that coordinate notation `b` (UTF-8 bytes) names: four or five bytes, two
    /// square names and an optional promotion letter `n`, `b`, `r` or `q`.
    pub open spec fn parse_spec(b: Seq<u8>) -> Result<Move, ParseMoveError> {
        if b.len() != 4 && b.len() != 5 {
            Err(ParseMoveError)
        } else if Move::square_bytes(b, 0) is None || Move::square_bytes(b, 2) is None {
            Err(ParseMoveError)
        } else if b.len() == 5 && !(b[4] == 110 || b[4] == 98 || b[4] == 114 || b[4] == 113) {
            Err(ParseMoveError)
        } else {
            let promotion = if b.len() == 5 {
                if b[4] == 110 {
                    Some(Piece::Knight)
                } else if b[4] == 98 {
                    Some(Piece::Bishop)
                } else if b[4] == 114 {
                    Some(Piece::Rook)
                } else {
                    Some(Piece::Queen)
                }
            } else {
                None
            };
            Ok(Move::spec_new(
                Move::square_bytes(b, 0).unwrap(),
                Move::square_bytes(b, 2).unwrap(),
                promotion,
            ))
        }
    }

    /// Whether reading `value` as a move would cut through a multi-byte character.
    pub fn cuts_character(value: &str) -> (r: bool)
        ensures
            r == Move::parse_panics(value.spec_bytes()),
    {
        Move::cuts_bytes(value.as_bytes())
    }

    /// Whether reading the UTF-8 bytes `b` as a move would cut through a character.
    pub(crate) fn cuts_bytes(b: &[u8]) -> (r: bool)
        ensures
            r == Move::parse_panics(b@),
    {
        let n = b.len();
        if n != 4 && n != 5 {
            return false;
        }
        let boundary2 = !(128 <= b[2] && b[2] < 192);
        let first_ok = 97 <= b[0] && b[0] <= 104 && 49 <= b[1] && b[1] <= 56;
        let boundary4 = n == 4 || !(128 <= b[4] && b[4] < 192);
        !boundary2 || (first_ok && !boundary4)
    }

    /// Reads a move in coordinate notation, such as `e2e4` or `e7e8q`.
    pub fn parse(value: &str) -> (r: Result<Move, ParseMoveError>)
        requires
            !Move::parse_panics(value.spec_bytes()),
        ensures
            r == Move::parse_spec(value.spec_bytes()),
    {
        Move::parse_bytes(value.as_bytes())
    }

    /// Reads a move in coordinate notation from its UTF-8 bytes.
    pub(crate) fn parse_bytes(b: &[u8]) -> (r: Result<Move, ParseMoveError>)
        requires
            !Move::parse_panics(b@),
        ensures
            r == Move::parse_spec(b@),
    {
        let length = b.len();
        if length != 4 && length != 5 {
            return Err(ParseMoveError);
        }
        let s0 = b[0];
        let s1 = b[1];
        if !(97 <= s0 && s0 <= 104 && 49 <= s1 && s1 <= 56) {
            return Err(ParseMoveError);
        }
        let t0 = b[2];
        let t1 = b[3];
        if !(97 <= t0 && t0 <= 104 && 49 <= t1 && t1 <= 56) {
            return Err(ParseMoveError);
        }
        let source = Square::ALL[((s1 - 49) * 8 + (s0 - 97)) as usize];
        let target = Square::ALL[((t1 - 49) * 8 + (t0 - 97)) as usize];
        let promotion = if length == 5 {
            let promotion_ch = b[4];
            if promotion_ch == 110 {
                Some(Piece::Knight)
            } else if promotion_ch == 98 {
                Some(Piece::Bishop)
            } else if promotion_ch == 114 {
                Some(Piece::Rook)
            } else if promotion_ch == 113 {
                Some(Piece::Queen)
            } else {
                return Err(ParseMoveError);
            }
        } else {
            None
        };
        Ok(Move::new(source, target, promotion))
    }
}

/// Text that names no move.
#[derive(Debug, Clone, Copy, PartialEq, Eq, Structural)]
pub struct ParseMoveError;

impl Deref for Move {
    type Target = u16;

    fn deref(&self) -> (r: &u16)
        ensures
            *r == self.word(),
    {
        &self.0
    }
}

} // verus!
