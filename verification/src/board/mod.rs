pub mod bitboard;
pub mod color;
pub mod consistency;
pub mod fen;
pub mod flags;
pub mod moves;
pub mod piece;
pub mod square;

use vstd::prelude::*;
use crate::board::bitboard::{Bitboard, has_bit, lemma_bits};
use crate::board::color::Color;
use crate::board::flags::Flags;
use crate::board::moves::Move;
use crate::board::piece::Piece;
use crate::board::square::{Square, rank_of, file_of};
use crate::generation::{abs_diff, coords};

verus! {

/// Why a FEN text could not be read.
#[derive(Debug, Clone, Copy, PartialEq, Eq, Structural)]
pub enum ParseFenError {
    WrongSectionCount,
    BadPosition,
    BadActiveColor,
    BadCastlingRights,
    BadEnPassant,
    BadHalfmoves,
    BadFullmoves,
}

/// The first of the piece bitboards of `bbs`, pawns to kings, that holds square `sq`, from
/// index `i` on.
pub open spec fn first_piece_from(bbs: Seq<u64>, sq: int, i: int) -> Option<Piece>
    decreases 6 - i,
{
    if i < 0 || i >= 6 {
        None
    } else if has_bit(bbs[i], sq) {
        Some(Piece::ALL[i])
    } else {
        first_piece_from(bbs, sq, i + 1)
    }
}

/// The bitboards `b0` after a piece `fp` of side `fc` moves from square `from` to square `to`,
/// taking `tp` there (and an en passant pawn on square `ep`) and becoming `promotion`: the
/// square `ep` leaves the pawns and the other side, `from` leaves `fp`, both squares toggle in
/// `fc`'s bitboard, `to` leaves `tp` and the other side, and `to` joins the promotion piece,
/// or `fp`.
pub open spec fn move_toggles(
    b0: Seq<u64>,
    fp: Piece,
    fc: Color,
    tp: Option<Piece>,
    promotion: Option<Piece>,
    ep: Option<u64>,
    from: u64,
    to: u64,
) -> Seq<u64> {
    let inv = fc.spec_inverse();
    let from_bb = 1u64 << from;
    let to_bb = 1u64 << to;
    let b1 = match ep {
        Some(e) => xor_at(xor_at(b0, 0, 1u64 << e), inv as int + 6, 1u64 << e),
        None => b0,
    };
    let b2 = xor_at(b1, fp as int, from_bb);
    let b3 = xor_at(b2, fc as int + 6, from_bb | to_bb);
    let b4 = match tp {
        Some(p) => xor_at(xor_at(b3, p as int, to_bb), inv as int + 6, to_bb),
        None => b3,
    };
    match promotion {
        Some(q) => xor_at(b4, q as int, to_bb),
        None => xor_at(b4, fp as int, to_bb),
    }
}

/// The en passant square for the side `active` to move under `flags`.
pub open spec fn en_passant_square_in(active: Color, flags: u8) -> Option<Square> {
    if Flags(flags).spec_can_en_passant() {
        Some(Square::from_index((if active == Color::White { 5int } else { 2int }) * 8 + Flags(flags).spec_en_passant_file() as int))
    } else {
        None
    }
}

/// The side that owns the piece on `sq` by the white bitboard of `bbs`: White when it holds
/// the square, Black otherwise.
pub open spec fn owner_in(bbs: Seq<u64>, sq: int) -> Color {
    if has_bit(bbs[6], sq) { Color::White } else { Color::Black }
}

/// `mv` is a pawn move that takes en passant: the moving piece is a pawn, it does not advance
/// two ranks, the flags allow en passant and it lands on the en passant square (rank 6 for
/// White, rank 3 for Black, on the flags' file).
pub open spec fn takes_en_passant_in(bbs: Seq<u64>, flags: u8, mv: Move) -> bool {
    let from = mv.spec_source() as int;
    let to = mv.spec_target() as int;
    &&& first_piece_from(bbs, from, 0) == Some(Piece::Pawn)
    &&& crate::generation::abs(rank_of(from) - rank_of(to)) != 2
    &&& Flags(flags).spec_can_en_passant()
    &&& rank_of(to) == (if owner_in(bbs, from) == Color::White { 5int } else { 2int })
    &&& file_of(to) == Flags(flags).spec_en_passant_file() as int
}

/// The bitboards after `mv`: every change is a toggle of a square in a bitboard, as the move
/// lifts the piece from its square, removes what stands on the target (and a pawn taken en
/// passant) and puts the piece, or its promotion, on the target. A move from an empty square
/// changes nothing.
pub open spec fn move_bbs(bbs: Seq<u64>, flags: u8, mv: Move) -> Seq<u64> {
    let from = mv.spec_source() as int;
    let to = mv.spec_target() as int;
    match first_piece_from(bbs, from, 0) {
        None => bbs,
        Some(fp) => move_toggles(
            bbs,
            fp,
            owner_in(bbs, from),
            first_piece_from(bbs, to, 0),
            mv.spec_promotion(),
            if takes_en_passant_in(bbs, flags, mv) { Some((rank_of(from) * 8 + file_of(to)) as u64) } else { None },
            from as u64,
            to as u64,
        ),
    }
}

/// The flags after `mv`: en passant is cleared, and a pawn that advances two ranks allows en
/// passant on its file.
pub open spec fn move_flags(bbs: Seq<u64>, flags: u8, mv: Move) -> u8 {
    let from = mv.spec_source() as int;
    let to = mv.spec_target() as int;
    let f0 = (flags & !16u8) | 0u8;
    if first_piece_from(bbs, from, 0) == Some(Piece::Pawn) && crate::generation::abs(rank_of(from) - rank_of(to)) == 2 {
        (((f0 & !16u8) | 16u8) & !224u8) | ((file_of(from) as u8) << 5u8)
    } else {
        f0
    }
}

/// Playing `mv` looks up pieces only where the lookup is defined.
pub open spec fn move_defined(bbs: Seq<u64>, mv: Move) -> bool {
    let from = mv.spec_source() as int;
    let to = mv.spec_target() as int;
    &&& piece_lookup_defined(bbs, from)
    &&& first_piece_from(bbs, from, 0) is Some ==> piece_lookup_defined(bbs, to)
}

/// Looking up square `sq` in `bbs` finds a piece, or finds the square empty in every bitboard.
pub open spec fn piece_lookup_defined(bbs: Seq<u64>, sq: int) -> bool {
    first_piece_from(bbs, sq, 0) is Some || !(has_bit(bbs[6], sq) || has_bit(bbs[7], sq))
}

/// The bitboards `bbs` with square `sq` added to the bitboard of `piece` and to that of `color`.
pub open spec fn place_in(bbs: Seq<u64>, piece: Piece, color: Color, sq: int) -> Seq<u64> {
    bbs.update(piece as int, bbs[piece as int] | (1u64 << (sq as u64)))
        .update(color as int + 6, bbs[color as int + 6] | (1u64 << (sq as u64)))
}

/// `s` with `m` toggled into entry `i`.
pub open spec fn xor_at(s: Seq<u64>, i: int, m: u64) -> Seq<u64> {
    s.update(i, s[i] ^ m)
}

/// A chess position: six piece bitboards (pawns to kings, both sides together), then the
/// white and black bitboards, the side to move, the castling and en passant flags, and the
/// move counters.
#[derive(Debug, Clone, PartialEq, Eq)]
pub struct Board {
    pub bitboards: [Bitboard; 8],
    pub active_color: Color,
    pub flags: Flags,
    pub halfmoves: u8,
    pub fullmoves: u16,
}

impl Board {
    /// The eight bitboards as numbers.
    pub open spec fn bbs(self) -> Seq<u64> {
        Seq::new(8, |i: int| self.bitboards[i].0)
    }

    /// An empty board with White to move and no flags set.
    pub fn new() -> (r: Board)
        ensures
            r.bbs() == Seq::new(8, |i: int| 0u64),
            r.active_color == Color::White,
            r.flags.0 == 0,
            r.halfmoves == 0,
            r.fullmoves == 0,
    {
        let r = Board {
            bitboards: [Bitboard(0); 8],
            active_color: Color::White,
            flags: Flags(0),
            halfmoves: 0,
            fullmoves: 0,
        };
        assert(r.bbs() =~= Seq::new(8, |i: int| 0u64));
        r
    }

    /// The squares of one kind of piece, of both sides.
    pub fn piece_bitboard(&self, piece: Piece) -> (r: Bitboard)
        ensures
            r == self.bitboards[piece as int],
    {
        self.bitboards[piece as usize]
    }

    pub fn piece_bitboard_mut(&mut self, piece: Piece) -> (r: &mut Bitboard)
        ensures
            *r == old(self).bitboards[piece as int],
            final(self).bitboards@ == old(self).bitboards@.update(piece as int, *final(r)),
            final(self).active_color == old(self).active_color,
            final(self).flags == old(self).flags,
            final(self).halfmoves == old(self).halfmoves,
            final(self).fullmoves == old(self).fullmoves,
    {
        &mut self.bitboards[piece as usize]
    }

    pub fn color_bitboard(&self, color: Color) -> (r: Bitboard)
        ensures
            r == self.bitboards[color as int + 6],
    {
        self.bitboards[color as usize + 6]
    }

    pub fn color_bitboard_mut(&mut self, color: Color) -> (r: &mut Bitboard)
        ensures
            *r == old(self).bitboards[color as int + 6],
            final(self).bitboards@ == old(self).bitboards@.update(color as int + 6, *final(r)),
            final(self).active_color == old(self).active_color,
            final(self).flags == old(self).flags,
            final(self).halfmoves == old(self).halfmoves,
            final(self).fullmoves == old(self).fullmoves,
    {
        &mut self.bitboards[color as usize + 6]
    }

    /// The occupied squares.
    pub fn all_pieces(&self) -> (r: Bitboard)
        ensures
            r.0 == self.bitboards[6].0 | self.bitboards[7].0,
            forall|t: int| #[trigger] has_bit(r.0, t) <==> has_bit(self.bitboards[6].0, t) || has_bit(self.bitboards[7].0, t),
    {
        proof {
            lemma_bits(self.bitboards[6].0, self.bitboards[7].0);
        }
        self.color_bitboard(Color::White) | self.color_bitboard(Color::Black)
    }

    /// The squares of `color`'s pieces of kind `piece`.
    pub fn bitboard(&self, piece: Piece, color: Color) -> (r: Bitboard)
        ensures
            r.0 == self.bitboards[piece as int].0 & self.bitboards[color as int + 6].0,
            forall|t: int| #[trigger] has_bit(r.0, t) <==> has_bit(self.bitboards[piece as int].0, t) && has_bit(self.bitboards[color as int + 6].0, t),
    {
        proof {
            lemma_bits(self.bitboards[piece as int].0, self.bitboards[color as int + 6].0);
        }
        self.piece_bitboard(piece) & self.color_bitboard(color)
    }

    /// Puts a `color` piece of kind `piece` on `square` (adding it to both bitboards; what else
    /// is on the square stays).
    pub fn add_piece(&mut self, piece: Piece, color: Color, square: Square)
        ensures
            final(self).bbs() == place_in(old(self).bbs(), piece, color, square as int),
            final(self).active_color == old(self).active_color,
            final(self).flags == old(self).flags,
            final(self).halfmoves == old(self).halfmoves,
            final(self).fullmoves == old(self).fullmoves,
    {
        let position = square.bitboard();
        let ghost b0 = self.bbs();
        let p = self.piece_bitboard_mut(piece);
        *p = *p | position;
        let ghost b1 = self.bbs();
        assert(b1 =~= b0.update(piece as int, b0[piece as int] | position.0));
        let c = self.color_bitboard_mut(color);
        *c = *c | position;
        assert(self.bbs() =~= b1.update(color as int + 6, b1[color as int + 6] | position.0));
    }

    /// The piece on square `sq`: the first piece bitboard that holds it.
    pub open spec fn spec_piece_at(self, sq: int) -> Option<Piece> {
        first_piece_from(self.bbs(), sq, 0)
    }

    /// Looking up square `sq` finds a piece, or finds the square empty in every bitboard (a
    /// square held by a side's bitboard alone has no piece kind to report).
    pub open spec fn piece_at_defined(self, sq: int) -> bool {
        piece_lookup_defined(self.bbs(), sq)
    }

    /// The kind of the piece on `square`, if any.
    pub fn piece_at(&self, square: Square) -> (r: Option<Piece>)
        requires
            self.piece_at_defined(square as int),
        ensures
            r == self.spec_piece_at(square as int),
    {
        let mask = square.bitboard();
        let mut i: usize = 0;
        while i < 8
            invariant
                0 <= i <= 8,
                mask.0 == 1u64 << (square as u64),
                self.piece_at_defined(square as int),
                self.spec_piece_at(square as int) == first_piece_from(self.bbs(), square as int, i as int),
                forall|j: int| 0 <= j < i ==> !has_bit(self.bitboards[j].0, square as int),
            decreases 8 - i,
        {
            let bitboard = self.bitboards[i];
            proof {
                crate::board::bitboard::lemma_meets_single(bitboard.0, square as u64);
            }
            if !(Bitboard(bitboard.0 & mask.0)).is_empty() {
                return Some(Piece::ALL[i]);
            }
            i = i + 1;
        }
        None
    }

    /// Whether `piece_at` can look up `square`: a piece bitboard holds it, or no bitboard at all.
    pub fn piece_at_is_defined(&self, square: Square) -> (r: bool)
        ensures
            r == self.piece_at_defined(square as int),
    {
        let mask = square.bitboard();
        let mut i: usize = 0;
        while i < 8
            invariant
                0 <= i <= 8,
                mask.0 == 1u64 << (square as u64),
                self.spec_piece_at(square as int) == first_piece_from(self.bbs(), square as int, i as int),
                forall|j: int| 0 <= j < i ==> !has_bit(self.bitboards[j].0, square as int),
            decreases 8 - i,
        {
            let bitboard = self.bitboards[i];
            proof {
                crate::board::bitboard::lemma_meets_single(bitboard.0, square as u64);
            }
            if !(Bitboard(bitboard.0 & mask.0)).is_empty() {
                return i < 6;
            }
            i = i + 1;
        }
        true
    }

    /// Whether `make_move` accepts `mv`: the squares it looks up are defined.
    pub fn can_make_move(&self, mv: Move) -> (r: bool)
        ensures
            r == move_defined(self.bbs(), mv),
    {
        let from = mv.from();
        if !self.piece_at_is_defined(from) {
            return false;
        }
        match self.piece_at(from) {
            None => true,
            Some(_) => self.piece_at_is_defined(mv.to()),
        }
    }

    /// The square a pawn of the side to move can take en passant on, if the flags allow it:
    /// on the flags' file, rank 6 when White is to move and rank 3 when Black is.
    pub open spec fn spec_en_passant_square(self) -> Option<Square> {
        en_passant_square_in(self.active_color, self.flags.0)
    }

    pub fn en_passant_square(&self) -> (r: Option<Square>)
        ensures
            r == self.spec_en_passant_square(),
    {
        if self.flags.can_en_passant() {
            let file = self.flags.en_passant_file();
            let rank: u8 = match self.active_color {
                Color::White => 5,
                Color::Black => 2,
            };
            Some(Square::from_coords(rank, file))
        } else {
            None
        }
    }

    /// The side that owns the piece on `sq` by the white bitboard.
    pub open spec fn owner(self, sq: int) -> Color {
        owner_in(self.bbs(), sq)
    }

    /// `mv` takes a pawn en passant on this board.
    pub open spec fn takes_en_passant(self, mv: Move) -> bool {
        takes_en_passant_in(self.bbs(), self.flags.0, mv)
    }

    /// The bitboards after `mv`.
    pub open spec fn spec_make_move_bbs(self, mv: Move) -> Seq<u64> {
        move_bbs(self.bbs(), self.flags.0, mv)
    }

    /// The flags after `mv`.
    pub open spec fn spec_make_move_flags(self, mv: Move) -> u8 {
        move_flags(self.bbs(), self.flags.0, mv)
    }

    /// The effects of a pawn move from `from` to `to` by `from_color` on `board`: a double
    /// step allows en passant on its file; a capture en passant removes the pawn beside the
    /// start square. Returns the square of the pawn taken, if any.
    fn pawn_effects(&self, board: &mut Board, from: Square, to: Square, from_color: Color) -> (ep: Ghost<Option<u64>>)
        requires
            old(board).bbs() == self.bbs(),
            old(board).flags.0 == (self.flags.0 & !16u8) | 0u8,
        ensures
            ep@ == if crate::generation::abs(rank_of(from as int) - rank_of(to as int)) != 2
                && self.flags.spec_can_en_passant()
                && rank_of(to as int) == (if from_color == Color::White { 5int } else { 2int })
                && file_of(to as int) == self.flags.spec_en_passant_file() as int {
                Some((rank_of(from as int) * 8 + file_of(to as int)) as u64)
            } else {
                None::<u64>
            },
            final(board).bbs() == match ep@ {
                Some(e) => xor_at(xor_at(self.bbs(), 0, 1u64 << e), from_color.spec_inverse() as int + 6, 1u64 << e),
                None => self.bbs(),
            },
            final(board).flags.0 == if crate::generation::abs(rank_of(from as int) - rank_of(to as int)) == 2 {
                (((old(board).flags.0 & !16u8) | 16u8) & !224u8) | ((file_of(from as int) as u8) << 5u8)
            } else {
                old(board).flags.0
            },
            final(board).active_color == old(board).active_color,
            final(board).halfmoves == old(board).halfmoves,
            final(board).fullmoves == old(board).fullmoves,
    {
        let (from_rank, from_file) = coords(from as u8);
        let (to_rank, to_file) = coords(to as u8);

        let rank_diff = abs_diff(from_rank, to_rank);

        let ep_rank: u8 = match from_color {
            Color::White => 5,
            Color::Black => 2,
        };
        let ep_file = self.flags.en_passant_file();

        if rank_diff == 2 {
            board.flags.set_en_passant(true);
            board.flags.set_en_passant_file(from_file);
            Ghost(None)
        } else if self.flags.can_en_passant() && to_rank == ep_rank && to_file == ep_file {
            let captured_pawn_rank = from_rank;
            let captured_pawn_file = to_file;
            let captured_pawn_i = (captured_pawn_rank * 8) + captured_pawn_file;
            let mask = Bitboard(1u64 << captured_pawn_i);

            let ghost c0 = board.bbs();
            let p = board.piece_bitboard_mut(Piece::Pawn);
            *p = *p ^ mask;
            let ghost c1 = board.bbs();
            assert(c1 =~= xor_at(c0, 0, mask.0));
            let c = board.color_bitboard_mut(from_color.inverse());
            *c = *c ^ mask;
            assert(board.bbs() =~= xor_at(c1, from_color.spec_inverse() as int + 6, mask.0));
            Ghost(Some(captured_pawn_i as u64))
        } else {
            Ghost(None)
        }
    }

    #[verifier::spinoff_prover]
    #[verifier::rlimit(60)]
    /// The position after playing `mv` (no legality check): the piece moves, the other side
    /// is to move, and the move counters stay as they are.
    pub fn make_move(&self, mv: Move) -> (r: Board)
        requires
            move_defined(self.bbs(), mv),
        ensures
            r.bbs() == self.spec_make_move_bbs(mv),
            r.flags.0 == self.spec_make_move_flags(mv),
            r.active_color == self.active_color.spec_inverse(),
            r.halfmoves == self.halfmoves,
            r.fullmoves == self.fullmoves,
    {
        let mut board = Board {
            bitboards: self.bitboards,
            active_color: self.active_color,
            flags: self.flags,
            halfmoves: self.halfmoves,
            fullmoves: self.fullmoves,
        };
        board.active_color = self.active_color.inverse();
        board.flags.set_en_passant(false);
        assert(board.bitboards == self.bitboards);
        assert(board.bbs() =~= self.bbs());

        let from = mv.from();
        let to = mv.to();
        let promotion = mv.promotion();

        let from_bb = from.bitboard();
        let to_bb = to.bitboard();
        proof {
            crate::board::bitboard::lemma_meets_single(self.bitboards[6].0, from as u64);
        }
        let from_color = if (board.color_bitboard(Color::White) & from_bb).is_empty() {
            Color::Black
        } else {
            Color::White
        };
        assert(board.bbs() =~= self.bbs());
        assert(from_color == self.owner(from as int));

        let from_piece = match board.piece_at(from) {
            Some(p) => p,
            None => {
                return board;
            },
        };
        let to_piece = board.piece_at(to);
        let ghost fp = from_piece;
        let ghost inv = from_color.spec_inverse();
        let ghost b0 = board.bbs();
        let ghost mut ep: Option<u64> = None;

        if from_piece == Piece::Pawn {
            let e = self.pawn_effects(&mut board, from, to, from_color);
            proof {
                ep = e@;
            }
        }
        let ghost b1 = board.bbs();
        assert(b1 == match ep {
            Some(e) => xor_at(xor_at(b0, 0, 1u64 << e), inv as int + 6, 1u64 << e),
            None => b0,
        });

        let p = board.piece_bitboard_mut(from_piece);
        *p = *p ^ from_bb;
        let ghost d1 = board.bbs();
        assert(d1 =~= xor_at(b1, fp as int, from_bb.0));
        let c = board.color_bitboard_mut(from_color);
        *c = *c ^ (from_bb | to_bb);
        let ghost d2 = board.bbs();
        assert(d2 =~= xor_at(d1, from_color as int + 6, from_bb.0 | to_bb.0));

        if let Some(piece) = to_piece {
            let p = board.piece_bitboard_mut(piece);
            *p = *p ^ to_bb;
            let ghost d3 = board.bbs();
            assert(d3 =~= xor_at(d2, piece as int, to_bb.0));
            let c = board.color_bitboard_mut(from_color.inverse());
            *c = *c ^ to_bb;
            assert(board.bbs() =~= xor_at(d3, inv as int + 6, to_bb.0));
        }

        let ghost d4 = board.bbs();
        if let Some(piece) = promotion {
            let p = board.piece_bitboard_mut(piece);
            *p = *p ^ to_bb;
            assert(board.bbs() =~= xor_at(d4, piece as int, to_bb.0));
        } else {
            let p = board.piece_bitboard_mut(from_piece);
            *p = *p ^ to_bb;
            assert(board.bbs() =~= xor_at(d4, fp as int, to_bb.0));
        }
        assert(board.bbs() == move_toggles(b0, fp, from_color, to_piece, promotion, ep, from as u64, to as u64));
        assert(ep == if self.takes_en_passant(mv) {
            Some((rank_of(from as int) * 8 + file_of(to as int)) as u64)
        } else {
            None::<u64>
        });

        board
    }
}

impl Default for Board {
    /// The standard starting position.
    fn default() -> (r: Board)
        ensures
            r.bbs() == seq![
                0xff00000000ff00u64,
                0x4200000000000042u64,
                0x2400000000000024u64,
                0x8100000000000081u64,
                0x800000000000008u64,
                0x1000000000000010u64,
                0xffffu64,
                0xffff000000000000u64,
            ],
            r.active_color == Color::White,
            r.flags.0 == 0b00001111,
            r.halfmoves == 0,
            r.fullmoves == 1,
    {
        let r = Board {
            bitboards: [
                Bitboard(0xff00000000ff00),
                Bitboard(0x4200000000000042),
                Bitboard(0x2400000000000024),
                Bitboard(0x8100000000000081),
                Bitboard(0x800000000000008),
                Bitboard(0x1000000000000010),
                Bitboard(0xffff),
                Bitboard(0xffff000000000000),
            ],
            active_color: Color::White,
            flags: Flags(0b00001111),
            halfmoves: 0,
            fullmoves: 1,
        };
        assert(r.bbs() =~= seq![
            0xff00000000ff00u64,
            0x4200000000000042u64,
            0x2400000000000024u64,
            0x8100000000000081u64,
            0x800000000000008u64,
            0x1000000000000010u64,
            0xffffu64,
            0xffff000000000000u64,
        ]);
        r
    }
}

/// `first_piece_from` finds the first piece bitboard from `i` on that holds `sq`.
proof fn lemma_first_piece(b: Seq<u64>, sq: int, i: int, p: int)
    requires
        0 <= i <= p < 6,
        has_bit(b[p], sq),
        forall|j: int| i <= j < p ==> !has_bit(b[j], sq),
    ensures
        first_piece_from(b, sq, i) == Some(Piece::ALL[p]),
    decreases p - i,
{
    if i < p {
        lemma_first_piece(b, sq, i + 1, p);
    }
}

/// `first_piece_from` finds nothing when no piece bitboard from `i` on holds `sq`.
proof fn lemma_no_piece(b: Seq<u64>, sq: int, i: int)
    requires
        0 <= i <= 6,
        forall|j: int| i <= j < 6 ==> !has_bit(b[j], sq),
    ensures
        first_piece_from(b, sq, i) is None,
    decreases 6 - i,
{
    if i < 6 {
        lemma_no_piece(b, sq, i + 1);
    }
}

/// Toggling `m` twice into entry `i` gives `s` back.
proof fn lemma_xor_twice(s: Seq<u64>, i: int, m: u64)
    requires
        0 <= i < s.len(),
    ensures
        xor_at(xor_at(s, i, m), i, m) == s,
{
    lemma_bits(s[i], m);
    lemma_bits(s[i] ^ m, m);
    crate::board::bitboard::lemma_bits_ext((s[i] ^ m) ^ m, s[i]);
    assert(xor_at(xor_at(s, i, m), i, m) =~= s);
}

/// The bitboards after a piece other than a pawn, alone on `source` among the piece
/// bitboards, moves without promotion to `target`, which no piece bitboard holds: the piece
/// leaves `source`, both squares toggle in its side's bitboard, and the piece joins `target`.
#[verifier::spinoff_prover]
#[verifier::rlimit(30)]
proof fn lemma_quiet_toggles(bbs: Seq<u64>, flags: u8, source: Square, target: Square, piece: Piece)
    requires
        bbs.len() == 8,
        source != target,
        piece != Piece::Pawn,
        has_bit(bbs[piece as int], source as int),
        forall|j: int| 0 <= j < 6 && j != piece as int ==> !has_bit(bbs[j], source as int),
        forall|j: int| 0 <= j < 6 ==> !has_bit(bbs[j], target as int),
    ensures
        first_piece_from(bbs, source as int, 0) == Some(piece),
        first_piece_from(bbs, target as int, 0) is None,
        move_bbs(bbs, flags, Move::spec_new(source, target, None)) == xor_at(
            xor_at(
                xor_at(bbs, piece as int, 1u64 << (source as u64)),
                owner_in(bbs, source as int) as int + 6,
                (1u64 << (source as u64)) | (1u64 << (target as u64)),
            ),
            piece as int,
            1u64 << (target as u64),
        ),
{
    let s = source as int;
    let t = target as int;
    let p = piece as int;
    let mv = Move::spec_new(source, target, None);
    Move::lemma_new(source, target, None);
    source.lemma_index();
    target.lemma_index();
    lemma_first_piece(bbs, s, 0, p);
    assert(Piece::ALL[p] == piece) by {
        match piece {
            Piece::Pawn => {},
            Piece::Knight => {},
            Piece::Bishop => {},
            Piece::Rook => {},
            Piece::Queen => {},
            Piece::King => {},
        }
    }
    lemma_no_piece(bbs, t, 0);
    assert(mv.spec_source() == source && mv.spec_target() == target && mv.spec_promotion() is None);
    assert(!takes_en_passant_in(bbs, flags, mv));
    assert(move_bbs(bbs, flags, mv) == move_toggles(bbs, piece, owner_in(bbs, s), None, None, None, s as u64, t as u64));
}

/// Moving a piece back undoes its move: when a piece other than a pawn, alone on its square
/// among the piece bitboards and held by one side's bitboard, moves without promotion to a
/// square that no bitboard holds, the move back from there restores every bitboard; both
/// moves can be played.
pub proof fn lemma_move_back(bbs: Seq<u64>, flags: u8, source: Square, target: Square, piece: Piece)
    requires
        bbs.len() == 8,
        source != target,
        piece != Piece::Pawn,
        has_bit(bbs[piece as int], source as int),
        forall|j: int| 0 <= j < 6 && j != piece as int ==> !has_bit(bbs[j], source as int),
        has_bit(bbs[6], source as int) != has_bit(bbs[7], source as int),
        forall|j: int| 0 <= j < 8 ==> !has_bit(bbs[j], target as int),
    ensures
        move_defined(bbs, Move::spec_new(source, target, None)),
        move_defined(move_bbs(bbs, flags, Move::spec_new(source, target, None)), Move::spec_new(target, source, None)),
        move_bbs(
            move_bbs(bbs, flags, Move::spec_new(source, target, None)),
            move_flags(bbs, flags, Move::spec_new(source, target, None)),
            Move::spec_new(target, source, None),
        ) == bbs,
{
    let s = source as int;
    let t = target as int;
    let p = piece as int;
    source.lemma_index();
    target.lemma_index();
    Move::lemma_new(source, target, None);
    Move::lemma_new(target, source, None);
    let fc = owner_in(bbs, s);
    let fb = 1u64 << (s as u64);
    let tb = 1u64 << (t as u64);
    lemma_quiet_toggles(bbs, flags, source, target, piece);
    let b2 = xor_at(bbs, p, fb);
    let b3 = xor_at(b2, fc as int + 6, fb | tb);
    let b1 = xor_at(b3, p, tb);
    crate::board::bitboard::lemma_single(s);
    crate::board::bitboard::lemma_single(t);
    lemma_bits(fb, tb);
    lemma_bits(bbs[p], fb);
    lemma_bits(bbs[p] ^ fb, tb);
    lemma_bits(bbs[6], fb | tb);
    lemma_bits(bbs[7], fb | tb);
    assert(has_bit(b1[p], t) && !has_bit(b1[p], s));
    assert(forall|j: int| 0 <= j < 6 && j != p ==> b1[j] == bbs[j]);
    assert(owner_in(b1, t) == fc);
    assert(!has_bit(b1[6], s) && !has_bit(b1[7], s));
    lemma_quiet_toggles(b1, move_flags(bbs, flags, Move::spec_new(source, target, None)), target, source, piece);
    assert(tb | fb == fb | tb) by (bit_vector);
    lemma_xor_twice(b3, p, tb);
    lemma_xor_twice(b2, fc as int + 6, fb | tb);
    lemma_xor_twice(bbs, p, fb);
}

/// After a pawn of side `c` advances two ranks from its start rank, the other side may take
/// en passant, on the square the pawn passed over.
pub proof fn lemma_double_step_en_passant(bbs: Seq<u64>, flags: u8, source: Square, target: Square, c: Color)
    requires
        first_piece_from(bbs, source as int, 0) == Some(Piece::Pawn),
        owner_in(bbs, source as int) == c,
        c == Color::White ==> rank_of(source as int) == 1 && target as int == source as int + 16,
        c == Color::Black ==> rank_of(source as int) == 6 && target as int == source as int - 16,
    ensures
        en_passant_square_in(c.spec_inverse(), move_flags(bbs, flags, Move::spec_new(source, target, None)))
            == Some(Square::from_index((source as int + target as int) / 2)),
{
    let mv = Move::spec_new(source, target, None);
    Move::lemma_new(source, target, None);
    source.lemma_index();
    target.lemma_index();
    let s = source as int;
    let t = target as int;
    assert(crate::generation::abs(rank_of(s) - rank_of(t)) == 2);
    let file = file_of(s) as u8;
    assert(file < 8);
    let f0 = (flags & !16u8) | 0u8;
    let f1 = (((f0 & !16u8) | 16u8) & !224u8) | (file << 5u8);
    assert(move_flags(bbs, flags, mv) == f1);
    assert(f1 >> 5u8 == file && (f1 >> 4u8) & 1u8 == 1u8) by (bit_vector)
        requires
            file < 8,
            f1 == (((f0 & !16u8) | 16u8) & !224u8) | (file << 5u8);
    assert(Flags(f1).spec_can_en_passant());
    assert(Flags(f1).spec_en_passant_file() == file);
    assert((s + t) / 2 == (if c.spec_inverse() == Color::White { 5int } else { 2int }) * 8 + file_of(s));
}

} // verus!
