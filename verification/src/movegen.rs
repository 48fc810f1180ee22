use vstd::prelude::*;
use std::ops::Not;
use crate::board::{Board, en_passant_square_in, first_piece_from, move_bbs, move_defined, owner_in, takes_en_passant_in};
use crate::board::consistency::{
    piece_bits, consistent, lemma_consistent_square, lemma_consistent_moves_defined, lemma_move_keeps_consistent,
};
use crate::board::flags::Flags;
use crate::board::bitboard::{
    Bitboard, has_bit, lemma_mask_of_bits, squares_of, clear_lowest, lemma_bits, lemma_squares_of, lemma_clear_lowest,
    lemma_shift8,
};
use crate::board::color::Color;
use crate::board::moves::Move;
use crate::board::piece::Piece;
use crate::board::square::{Square, rank_of, file_of};
use crate::generation::{
    knight_move_mask, king_move_mask, pawn_capture_mask, knight_mask, king_mask, pawn_mask, knight_reach, king_reach,
    pawn_reach, rook_line, bishop_line,
};
use crate::magic::{SlidingMoveGen, Direction, lowest_bit, lemma_attacks_on_lines};
use vstd::std_specs::bits::u64_trailing_zeros;

verus! {

/// The moves `f(i)` for each square `i` of `sqs`, in order.
pub open spec fn flat_moves(sqs: Seq<int>, f: spec_fn(int) -> Seq<Move>) -> Seq<Move>
    decreases sqs.len(),
{
    if sqs.len() == 0 {
        seq![]
    } else {
        f(sqs[0]) + flat_moves(sqs.drop_first(), f)
    }
}

/// Taking the lowest square off a set takes its moves off the front of the list.
pub proof fn lemma_flat_pop(x: u64, i: int, rest: u64, f: spec_fn(int) -> Seq<Move>)
    requires
        squares_of(x) == seq![i] + squares_of(rest),
    ensures
        flat_moves(squares_of(x), f) == f(i) + flat_moves(squares_of(rest), f),
{
    assert(squares_of(x).drop_first() =~= squares_of(rest));
}

/// The plain move from `source` to the square `t`.
pub open spec fn quiet_move(source: Square) -> spec_fn(int) -> Seq<Move> {
    |t: int| seq![Move::spec_new(source, Square::from_index(t), None)]
}

/// The moves of a pawn from `source` to `target`: one plain move on ranks 2 to 7, four
/// promotions (knight, bishop, rook, queen) on the first and last rank.
pub open spec fn pawn_move_seq(source: Square, target: Square) -> Seq<Move> {
    if 8 <= target as int && (target as int) < 56 {
        seq![Move::spec_new(source, target, None)]
    } else {
        seq![
            Move::spec_new(source, target, Some(Piece::Knight)),
            Move::spec_new(source, target, Some(Piece::Bishop)),
            Move::spec_new(source, target, Some(Piece::Rook)),
            Move::spec_new(source, target, Some(Piece::Queen)),
        ]
    }
}

/// The squares of `color`'s pieces in `bbs`.
pub open spec fn own(bbs: Seq<u64>, color: Color) -> u64 {
    bbs[color as int + 6]
}

/// The occupied squares of `bbs`.
pub open spec fn occupied(bbs: Seq<u64>) -> u64 {
    bbs[6] | bbs[7]
}

/// The squares of `color`'s pieces of kind `piece`.
pub open spec fn pieces(bbs: Seq<u64>, piece: Piece, color: Color) -> u64 {
    bbs[piece as int] & bbs[color as int + 6]
}

/// Appends the plain moves from `source` to each square of `move_mask`, lowest square first.
fn push_quiet_moves(source: Square, move_mask: Bitboard, moves: &mut Vec<Move>)
    ensures
        final(moves)@ == old(moves)@ + flat_moves(squares_of(move_mask.0), quiet_move(source)),
{
    let mut mask = move_mask;
    let ghost f = quiet_move(source);
    assert(old(moves)@ + flat_moves(squares_of(mask.0), f) =~= old(moves)@ + flat_moves(squares_of(move_mask.0), f));
    while !mask.is_empty()
        invariant
            f == quiet_move(source),
            moves@ + flat_moves(squares_of(mask.0), f) == old(moves)@ + flat_moves(squares_of(move_mask.0), f),
        decreases mask.0,
    {
        let ghost before = mask.0;
        let i = mask.pop_lsb();
        proof {
            lemma_clear_lowest(before);
            lemma_flat_pop(before, i as int, mask.0, f);
        }
        let target = Square::ALL[i];
        let ghost m0 = moves@;
        moves.push(Move::new(source, target, None));
        assert(f(i as int) == seq![Move::spec_new(source, target, None)]);
        assert(moves@ + flat_moves(squares_of(mask.0), f) =~= m0 + flat_moves(squares_of(before), f));
    }
    assert(squares_of(mask.0) == Seq::<int>::empty());
    assert(moves@ =~= moves@ + flat_moves(squares_of(mask.0), f));
}

/// The pawn moves from `source` to the square `t`, with promotions on the last rank.
pub open spec fn pawn_move_to(source: Square) -> spec_fn(int) -> Seq<Move> {
    |t: int| pawn_move_seq(source, Square::from_index(t))
}

/// Appends the pawn moves from `source` to each square of `targets`, lowest square first.
fn push_pawn_moves(source: Square, targets: Bitboard, moves: &mut Vec<Move>)
    ensures
        final(moves)@ == old(moves)@ + flat_moves(squares_of(targets.0), pawn_move_to(source)),
{
    let mut mask = targets;
    let ghost f = pawn_move_to(source);
    while !mask.is_empty()
        invariant
            f == pawn_move_to(source),
            moves@ + flat_moves(squares_of(mask.0), f) == old(moves)@ + flat_moves(squares_of(targets.0), f),
        decreases mask.0,
    {
        let ghost before = mask.0;
        let i = mask.pop_lsb();
        proof {
            lemma_clear_lowest(before);
            lemma_flat_pop(before, i as int, mask.0, f);
        }
        let target = Square::ALL[i];
        let ghost m0 = moves@;
        MoveGen::moves_with_possible_promotions(source, target, moves);
        assert(f(i as int) == pawn_move_seq(source, target));
        assert(moves@ + flat_moves(squares_of(mask.0), f) =~= m0 + flat_moves(squares_of(before), f));
    }
    proof {
        lemma_squares_of(mask.0);
    }
    assert(moves@ =~= moves@ + flat_moves(squares_of(mask.0), f));
}

/// The en passant square of the side `active` to move under `flags`, as a set.
pub open spec fn ep_mask(active: Color, flags: u8) -> u64 {
    match en_passant_square_in(active, flags) {
        Some(sq) => 1u64 << (sq as u64),
        None => 0u64,
    }
}

/// The squares a `color` pawn on `s` captures on: enemy pieces in its reach, and the squares
/// of `ep` in its reach.
pub open spec fn capture_targets(bbs: Seq<u64>, color: Color, ep: u64, s: int) -> u64 {
    (pawn_mask(s, color) & own(bbs, color.spec_inverse())) | (pawn_mask(s, color) & ep)
}

/// The captures of a `color` pawn on the square `s`.
pub open spec fn capture_moves(bbs: Seq<u64>, color: Color, ep: u64) -> spec_fn(int) -> Seq<Move> {
    |s: int| flat_moves(squares_of(capture_targets(bbs, color, ep, s)), pawn_move_to(Square::from_index(s)))
}

/// The pawn captures of `color`, pawn by pawn from a1 up, where `active` is the side to move
/// and `flags` the board's flags (which give the en passant square).
pub open spec fn pawn_capture_seq(bbs: Seq<u64>, color: Color, active: Color, flags: u8) -> Seq<Move> {
    flat_moves(squares_of(pieces(bbs, Piece::Pawn, color)), capture_moves(bbs, color, ep_mask(active, flags)))
}

/// Pseudo-legal move generation: moves that follow how each piece moves, without checking
/// whether the mover's king is left in check.
#[derive(Debug)]
pub struct MoveGen {
    smg: SlidingMoveGen,
}

impl MoveGen {
    /// What the rook lookup gives for a rook on `s` with `blockers`.
    pub closed spec fn rook_lookup(self, s: int, blockers: u64) -> u64 {
        self.smg.rook_lookup(s, blockers)
    }

    /// What the bishop lookup gives for a bishop on `s` with `blockers`.
    pub closed spec fn bishop_lookup(self, s: int, blockers: u64) -> u64 {
        self.smg.bishop_lookup(s, blockers)
    }

    /// Every lookup gives the slider's moves, except for blockers whose relevant part is the
    /// lowest relevant square alone (the one subset the table fill never visits).
    pub open spec fn tables_usable(self) -> bool {
        &&& forall|s: int, b: u64| 0 <= s < 64 && b & Direction::Orthogonal.relevant_mask(s)
            != lowest_bit(Direction::Orthogonal.relevant_mask(s))
            ==> #[trigger] self.rook_lookup(s, b) == Direction::Orthogonal.attacks(s, b)
        &&& forall|s: int, b: u64| 0 <= s < 64 && b & Direction::Diagonal.relevant_mask(s)
            != lowest_bit(Direction::Diagonal.relevant_mask(s))
            ==> #[trigger] self.bishop_lookup(s, b) == Direction::Diagonal.attacks(s, b)
    }

    /// A move generator whose rook and bishop lookups are exact, apart from the one blocker
    /// subset per square that the table fill never visits.
    pub fn new() -> (r: MoveGen)
        ensures
            r.tables_usable(),
    {
        let smg = SlidingMoveGen::new();
        let r = MoveGen { smg };
        assert(r.tables_usable());
        r
    }

    /// The squares a knight of `color` on `s` may move to: its attacks off its own pieces.
    pub open spec fn knight_targets(bbs: Seq<u64>, color: Color, s: int) -> u64 {
        knight_mask(s) & !own(bbs, color)
    }

    /// The squares a king of `color` on `s` may move to.
    pub open spec fn king_targets(bbs: Seq<u64>, color: Color, s: int) -> u64 {
        king_mask(s) & !own(bbs, color)
    }

    /// The squares a bishop of `color` on `s` may move to, by the tables.
    pub open spec fn bishop_targets(self, bbs: Seq<u64>, color: Color, s: int) -> u64 {
        self.bishop_lookup(s, occupied(bbs)) & !own(bbs, color)
    }

    /// The squares a rook of `color` on `s` may move to, by the tables.
    pub open spec fn rook_targets(self, bbs: Seq<u64>, color: Color, s: int) -> u64 {
        self.rook_lookup(s, occupied(bbs)) & !own(bbs, color)
    }

    /// Appends the moves of a `color` knight on `square`, by target square from a1 up.
    pub fn knight_moves(board: &Board, color: Color, square: Square, moves: &mut Vec<Move>)
        ensures
            final(moves)@ == old(moves)@ + flat_moves(
                squares_of(MoveGen::knight_targets(board.bbs(), color, square as int)),
                quiet_move(square),
            ),
    {
        let blocker_mask = board.color_bitboard(color);
        let move_mask = knight_move_mask(square) & blocker_mask.not();
        push_quiet_moves(square, move_mask, moves);
    }

    /// Appends the moves of a `color` bishop on `square`.
    pub fn bishop_moves(&self, board: &Board, color: Color, square: Square, moves: &mut Vec<Move>)
        ensures
            final(moves)@ == old(moves)@ + flat_moves(squares_of(self.bishop_targets(board.bbs(), color, square as int)), quiet_move(square)),
            occupied(board.bbs()) & Direction::Diagonal.relevant_mask(square as int)
                != lowest_bit(Direction::Diagonal.relevant_mask(square as int))
                ==> self.bishop_targets(board.bbs(), color, square as int)
                    == Direction::Diagonal.attacks(square as int, occupied(board.bbs())) & !own(board.bbs(), color),
    {
        let blockers = board.all_pieces();
        let friendly_pieces = board.color_bitboard(color);
        let move_mask = self.smg.bishop_moves(square, blockers) & friendly_pieces.not();
        push_quiet_moves(square, move_mask, moves);
    }

    /// Appends the moves of a `color` rook on `square`.
    pub fn rook_moves(&self, board: &Board, color: Color, square: Square, moves: &mut Vec<Move>)
        ensures
            final(moves)@ == old(moves)@ + flat_moves(squares_of(self.rook_targets(board.bbs(), color, square as int)), quiet_move(square)),
            occupied(board.bbs()) & Direction::Orthogonal.relevant_mask(square as int)
                != lowest_bit(Direction::Orthogonal.relevant_mask(square as int))
                ==> self.rook_targets(board.bbs(), color, square as int)
                    == Direction::Orthogonal.attacks(square as int, occupied(board.bbs())) & !own(board.bbs(), color),
    {
        let blockers = board.all_pieces();
        let friendly_pieces = board.color_bitboard(color);
        let move_mask = self.smg.rook_moves(square, blockers) & friendly_pieces.not();
        push_quiet_moves(square, move_mask, moves);
    }

    /// Appends the moves of a `color` queen on `square`: its rook moves, then its bishop moves.
    pub fn queen_moves(&self, board: &Board, color: Color, square: Square, moves: &mut Vec<Move>)
        ensures
            final(moves)@ == old(moves)@
                + flat_moves(squares_of(self.rook_targets(board.bbs(), color, square as int)), quiet_move(square))
                + flat_moves(squares_of(self.bishop_targets(board.bbs(), color, square as int)), quiet_move(square)),
            occupied(board.bbs()) & Direction::Orthogonal.relevant_mask(square as int)
                != lowest_bit(Direction::Orthogonal.relevant_mask(square as int))
                ==> self.rook_targets(board.bbs(), color, square as int)
                    == Direction::Orthogonal.attacks(square as int, occupied(board.bbs())) & !own(board.bbs(), color),
            occupied(board.bbs()) & Direction::Diagonal.relevant_mask(square as int)
                != lowest_bit(Direction::Diagonal.relevant_mask(square as int))
                ==> self.bishop_targets(board.bbs(), color, square as int)
                    == Direction::Diagonal.attacks(square as int, occupied(board.bbs())) & !own(board.bbs(), color),
    {
        self.rook_moves(board, color, square, moves);
        self.bishop_moves(board, color, square, moves);
    }

    /// Appends the moves of a `color` king on `square`.
    pub fn king_moves(board: &Board, color: Color, square: Square, moves: &mut Vec<Move>)
        ensures
            final(moves)@ == old(moves)@ + flat_moves(
                squares_of(MoveGen::king_targets(board.bbs(), color, square as int)),
                quiet_move(square),
            ),
    {
        let friendly_pieces = board.color_bitboard(color);
        let move_mask = king_move_mask(square) & friendly_pieces.not();
        push_quiet_moves(square, move_mask, moves);
    }

    /// Appends the moves of a pawn from `source` to `target`, with the four promotions on the
    /// first and last rank.
    fn moves_with_possible_promotions(source: Square, target: Square, moves: &mut Vec<Move>)
        ensures
            final(moves)@ == old(moves)@ + pawn_move_seq(source, target),
    {
        let ghost m0 = moves@;
        if 8 <= (target as usize) && (target as usize) < 56 {
            moves.push(Move::new(source, target, None));
        } else {
            moves.push(Move::new(source, target, Some(Piece::Knight)));
            moves.push(Move::new(source, target, Some(Piece::Bishop)));
            moves.push(Move::new(source, target, Some(Piece::Rook)));
            moves.push(Move::new(source, target, Some(Piece::Queen)));
        }
        assert(moves@ =~= m0 + pawn_move_seq(source, target));
    }

    /// The squares `color`'s pawns advance one rank to: the next square up (White) or down
    /// (Black) when it is empty.
    pub open spec fn single_targets(bbs: Seq<u64>, color: Color) -> u64 {
        let pawns = pieces(bbs, Piece::Pawn, color);
        if color == Color::White {
            (pawns << 8u8) & !occupied(bbs)
        } else {
            (pawns >> 8u8) & !occupied(bbs)
        }
    }

    /// The squares `color`'s pawns on their start rank advance two ranks to, over an empty
    /// square onto an empty square.
    pub open spec fn double_targets(bbs: Seq<u64>, color: Color) -> u64 {
        let unmoved = pieces(bbs, Piece::Pawn, color) & (if color == Color::White { 0xff00u64 } else { 0x00ff000000000000u64 });
        if color == Color::White {
            (((unmoved << 8u8) & !occupied(bbs)) << 8u8) & !occupied(bbs)
        } else {
            (((unmoved >> 8u8) & !occupied(bbs)) >> 8u8) & !occupied(bbs)
        }
    }

    /// The rank step of `color`'s pawns in square numbers.
    pub open spec fn pawn_step(color: Color) -> int {
        if color == Color::White { 8 } else { -8 }
    }

    /// The moves of a pawn of `color` advancing one rank to square `t`.
    pub open spec fn single_push(color: Color) -> spec_fn(int) -> Seq<Move> {
        |t: int| pawn_move_seq(Square::from_index(t - MoveGen::pawn_step(color)), Square::from_index(t))
    }

    /// The move of a pawn of `color` advancing two ranks to square `t`.
    pub open spec fn double_push(color: Color) -> spec_fn(int) -> Seq<Move> {
        |t: int| seq![Move::spec_new(Square::from_index(t - 2 * MoveGen::pawn_step(color)), Square::from_index(t), None)]
    }

    /// The pawn advances of `color`: single steps (with promotions), then double steps.
    pub open spec fn pawn_pushes(bbs: Seq<u64>, color: Color) -> Seq<Move> {
        flat_moves(squares_of(MoveGen::single_targets(bbs, color)), MoveGen::single_push(color))
            + flat_moves(squares_of(MoveGen::double_targets(bbs, color)), MoveGen::double_push(color))
    }

    /// Appends the pawn advances of `color`: all single steps, by target square from a1 up,
    /// then all double steps.
    pub fn pawn_moves(board: &Board, color: Color, moves: &mut Vec<Move>)
        ensures
            final(moves)@ == old(moves)@ + MoveGen::pawn_pushes(board.bbs(), color),
    {
        let all_pieces = board.all_pieces();
        let pawns = board.bitboard(Piece::Pawn, color);
        let start_rank = match color {
            Color::White => Bitboard(0x000000000000ff00),
            Color::Black => Bitboard(0x00ff000000000000),
        };
        let unmoved_pawns = pawns & start_rank;

        let mut single_move_targets = match color {
            Color::White => (pawns << 8_u8) & all_pieces.not(),
            Color::Black => (pawns >> 8_u8) & all_pieces.not(),
        };

        let mut double_move_targets = match color {
            Color::White => (((unmoved_pawns << 8_u8) & all_pieces.not()) << 8_u8) & all_pieces.not(),
            Color::Black => (((unmoved_pawns >> 8_u8) & all_pieces.not()) >> 8_u8) & all_pieces.not(),
        };
        let ghost bbs = board.bbs();
        let ghost occ = occupied(bbs);
        assert(single_move_targets.0 == MoveGen::single_targets(bbs, color));
        assert(double_move_targets.0 == MoveGen::double_targets(bbs, color));
        let ghost f = MoveGen::single_push(color);
        let ghost g = MoveGen::double_push(color);
        let ghost m0 = moves@;
        let ghost single0 = single_move_targets.0;
        let ghost double0 = double_move_targets.0;

        // Single moves
        while !single_move_targets.is_empty()
            invariant
                f == MoveGen::single_push(color),
                single0 == MoveGen::single_targets(bbs, color),
                occ == occupied(bbs),
                forall|t: int| has_bit(single_move_targets.0, t) ==> #[trigger] has_bit(single0, t),
                moves@ + flat_moves(squares_of(single_move_targets.0), f) == m0 + flat_moves(squares_of(single0), f),
            decreases single_move_targets.0,
        {
            let ghost before = single_move_targets.0;
            let target_i = single_move_targets.pop_lsb();
            proof {
                lemma_clear_lowest(before);
                lemma_flat_pop(before, target_i as int, single_move_targets.0, f);
                let pawns = pieces(bbs, Piece::Pawn, color);
                lemma_bits(pawns << 8u8, !occ);
                lemma_bits(pawns >> 8u8, !occ);
                lemma_shift8(pawns);
                assert(has_bit(single0, target_i as int));
                if color == Color::White {
                    assert(single0 == (pawns << 8u8) & !occ);
                    assert(has_bit((pawns << 8u8) & !occ, target_i as int));
                    assert(has_bit(pawns << 8u8, target_i as int));
                    assert(8 <= target_i);
                } else {
                    assert(single0 == (pawns >> 8u8) & !occ);
                    assert(has_bit((pawns >> 8u8) & !occ, target_i as int));
                    assert(has_bit(pawns >> 8u8, target_i as int));
                    assert(target_i < 56);
                }
            }
            let source_i = (target_i as i8 - (8 * color.direction())) as usize;
            assert(source_i as int == target_i as int - MoveGen::pawn_step(color));

            let target = Square::ALL[target_i];
            let source = Square::ALL[source_i];

            let ghost mm = moves@;
            Self::moves_with_possible_promotions(source, target, moves);
            proof {
                Square::lemma_from_index(target_i as int);
                assert(f(target_i as int) == pawn_move_seq(source, target));
                assert(moves@ + flat_moves(squares_of(single_move_targets.0), f)
                    =~= mm + flat_moves(squares_of(before), f));
            }
        }
        proof {
            lemma_squares_of(single_move_targets.0);
            assert(moves@ =~= m0 + flat_moves(squares_of(single0), f));
        }
        let ghost m1 = moves@;

        // Double moves
        while !double_move_targets.is_empty()
            invariant
                g == MoveGen::double_push(color),
                double0 == MoveGen::double_targets(bbs, color),
                occ == occupied(bbs),
                forall|t: int| has_bit(double_move_targets.0, t) ==> #[trigger] has_bit(double0, t),
                moves@ + flat_moves(squares_of(double_move_targets.0), g) == m1 + flat_moves(squares_of(double0), g),
            decreases double_move_targets.0,
        {
            let ghost before = double_move_targets.0;
            let target_i = double_move_targets.pop_lsb();
            proof {
                lemma_clear_lowest(before);
                lemma_flat_pop(before, target_i as int, double_move_targets.0, g);
                let unmoved = pieces(bbs, Piece::Pawn, color) & (if color == Color::White { 0xff00u64 } else { 0x00ff000000000000u64 });
                lemma_shift8(unmoved);
                lemma_bits(unmoved << 8u8, !occ);
                lemma_bits(unmoved >> 8u8, !occ);
                lemma_shift8((unmoved << 8u8) & !occ);
                lemma_shift8((unmoved >> 8u8) & !occ);
                lemma_bits(((unmoved << 8u8) & !occ) << 8u8, !occ);
                lemma_bits(((unmoved >> 8u8) & !occ) >> 8u8, !occ);
                assert(has_bit(double0, target_i as int));
                if color == Color::White {
                    assert(double0 == (((unmoved << 8u8) & !occ) << 8u8) & !occ);
                    assert(has_bit((((unmoved << 8u8) & !occ) << 8u8) & !occ, target_i as int));
                    assert(has_bit(((unmoved << 8u8) & !occ) << 8u8, target_i as int));
                    assert(16 <= target_i);
                } else {
                    assert(double0 == (((unmoved >> 8u8) & !occ) >> 8u8) & !occ);
                    assert(has_bit((((unmoved >> 8u8) & !occ) >> 8u8) & !occ, target_i as int));
                    assert(has_bit(((unmoved >> 8u8) & !occ) >> 8u8, target_i as int));
                    assert(target_i < 48);
                }
            }
            let source_i = (target_i as i8 - (16 * color.direction())) as usize;
            assert(source_i as int == target_i as int - 2 * MoveGen::pawn_step(color));

            let target = Square::ALL[target_i];
            let source = Square::ALL[source_i];

            let ghost mm = moves@;
            moves.push(Move::new(source, target, None));
            proof {
                Square::lemma_from_index(target_i as int);
                assert(g(target_i as int) == seq![Move::spec_new(source, target, None)]);
                assert(moves@ + flat_moves(squares_of(double_move_targets.0), g)
                    =~= mm + flat_moves(squares_of(before), g));
            }
        }
        proof {
            lemma_squares_of(double_move_targets.0);
            assert(moves@ =~= m0 + MoveGen::pawn_pushes(bbs, color));
        }
    }

    /// Appends the captures of `color`'s pawns, pawn by pawn from a1 up: onto enemy pieces,
    /// and onto the en passant square of the side to move, with promotions on the last rank.
    pub fn pawn_captures(board: &Board, color: Color, moves: &mut Vec<Move>)
        ensures
            final(moves)@ == old(moves)@ + pawn_capture_seq(board.bbs(), color, board.active_color, board.flags.0),
    {
        let enemy_pieces = board.color_bitboard(color.inverse());
        let en_passant = match board.en_passant_square() {
            Some(square) => square.bitboard(),
            None => Bitboard(0),
        };
        let ghost bbs = board.bbs();
        let ghost ep = ep_mask(board.active_color, board.flags.0);
        assert(en_passant.0 == ep);
        let ghost f = capture_moves(bbs, color, ep);
        let mut pawns = board.bitboard(Piece::Pawn, color);
        let ghost pawns0 = pawns.0;
        assert(pawns0 == pieces(bbs, Piece::Pawn, color));
        while !pawns.is_empty()
            invariant
                f == capture_moves(bbs, color, ep),
                en_passant.0 == ep,
                enemy_pieces.0 == own(bbs, color.spec_inverse()),
                moves@ + flat_moves(squares_of(pawns.0), f) == old(moves)@ + flat_moves(squares_of(pawns0), f),
            decreases pawns.0,
        {
            let ghost before = pawns.0;
            let source_i = pawns.pop_lsb();
            proof {
                lemma_clear_lowest(before);
                lemma_flat_pop(before, source_i as int, pawns.0, f);
            }
            let source = Square::ALL[source_i];
            let capture_mask = pawn_capture_mask(source, color);
            let targets = (capture_mask & enemy_pieces) | (capture_mask & en_passant);
            let ghost m0 = moves@;
            push_pawn_moves(source, targets, moves);
            proof {
                Square::lemma_from_index(source_i as int);
                assert(targets.0 == capture_targets(bbs, color, ep, source_i as int));
                assert(f(source_i as int) == flat_moves(squares_of(targets.0), pawn_move_to(source)));
                assert(moves@ + flat_moves(squares_of(pawns.0), f) =~= m0 + flat_moves(squares_of(before), f));
            }
        }
        proof {
            lemma_squares_of(pawns.0);
        }
        assert(moves@ =~= moves@ + flat_moves(squares_of(pawns.0), f));
    }


    /// The moves of a `color` knight on the square `s`.
    pub open spec fn knight_moves_from(bbs: Seq<u64>, color: Color) -> spec_fn(int) -> Seq<Move> {
        |s: int| flat_moves(squares_of(MoveGen::knight_targets(bbs, color, s)), quiet_move(Square::from_index(s)))
    }

    /// The moves of a `color` bishop on the square `s`.
    pub open spec fn bishop_moves_from(self, bbs: Seq<u64>, color: Color) -> spec_fn(int) -> Seq<Move> {
        |s: int| flat_moves(squares_of(self.bishop_targets(bbs, color, s)), quiet_move(Square::from_index(s)))
    }

    /// The moves of a `color` rook on the square `s`.
    pub open spec fn rook_moves_from(self, bbs: Seq<u64>, color: Color) -> spec_fn(int) -> Seq<Move> {
        |s: int| flat_moves(squares_of(self.rook_targets(bbs, color, s)), quiet_move(Square::from_index(s)))
    }

    /// The moves of a `color` queen on the square `s`: its rook moves, then its bishop moves.
    pub open spec fn queen_moves_from(self, bbs: Seq<u64>, color: Color) -> spec_fn(int) -> Seq<Move> {
        |s: int| self.rook_moves_from(bbs, color)(s) + self.bishop_moves_from(bbs, color)(s)
    }

    /// The square of `color`'s king: the lowest square of its king bitboard.
    pub open spec fn king_square(bbs: Seq<u64>, color: Color) -> int {
        u64_trailing_zeros(pieces(bbs, Piece::King, color)) as int
    }

    /// The pseudo-legal moves of side `c` to move on bitboards `bbs` with flags `flags`, in
    /// the order they are generated: knights, bishops, rooks, queens (each piece from a1 up),
    /// the king, pawn advances, pawn captures.
    pub open spec fn pseudolegal(self, bbs: Seq<u64>, c: Color, flags: u8) -> Seq<Move> {
        flat_moves(squares_of(pieces(bbs, Piece::Knight, c)), MoveGen::knight_moves_from(bbs, c))
            + flat_moves(squares_of(pieces(bbs, Piece::Bishop, c)), self.bishop_moves_from(bbs, c))
            + flat_moves(squares_of(pieces(bbs, Piece::Rook, c)), self.rook_moves_from(bbs, c))
            + flat_moves(squares_of(pieces(bbs, Piece::Queen, c)), self.queen_moves_from(bbs, c))
            + flat_moves(
                squares_of(MoveGen::king_targets(bbs, c, MoveGen::king_square(bbs, c))),
                quiet_move(Square::from_index(MoveGen::king_square(bbs, c))),
            )
            + MoveGen::pawn_pushes(bbs, c)
            + pawn_capture_seq(bbs, c, c, flags)
    }

    /// Appends the moves of every `color` knight, from a1 up.
    fn all_knight_moves(board: &Board, color: Color, moves: &mut Vec<Move>)
        ensures
            final(moves)@ == old(moves)@ + flat_moves(squares_of(pieces(board.bbs(), Piece::Knight, color)), MoveGen::knight_moves_from(board.bbs(), color)),
    {
        let ghost bbs = board.bbs();
        let ghost f = MoveGen::knight_moves_from(board.bbs(), color);
        let mut bitboard = board.bitboard(Piece::Knight, color);
        let ghost b0 = bitboard.0;
        while !bitboard.is_empty()
            invariant
                f == MoveGen::knight_moves_from(bbs, color),
                bbs == board.bbs(),
                moves@ + flat_moves(squares_of(bitboard.0), f) == old(moves)@ + flat_moves(squares_of(b0), f),
            decreases bitboard.0,
        {
            let ghost before = bitboard.0;
            let i = bitboard.pop_lsb();
            proof {
                lemma_clear_lowest(before);
                lemma_flat_pop(before, i as int, bitboard.0, f);
            }
            let from_square = Square::ALL[i];
            let ghost mm = moves@;
            Self::knight_moves(board, color, from_square, moves);
            proof {
                Square::lemma_from_index(i as int);
                assert(moves@ + flat_moves(squares_of(bitboard.0), f) =~= mm + flat_moves(squares_of(before), f));
            }
        }
        proof {
            lemma_squares_of(bitboard.0);
        }
        assert(moves@ =~= moves@ + flat_moves(squares_of(bitboard.0), f));
    }

    /// Appends the moves of every `color` bishop, from a1 up.
    fn all_bishop_moves(&self, board: &Board, color: Color, moves: &mut Vec<Move>)
        ensures
            final(moves)@ == old(moves)@ + flat_moves(squares_of(pieces(board.bbs(), Piece::Bishop, color)), self.bishop_moves_from(board.bbs(), color)),
    {
        let ghost bbs = board.bbs();
        let ghost f = self.bishop_moves_from(board.bbs(), color);
        let mut bitboard = board.bitboard(Piece::Bishop, color);
        let ghost b0 = bitboard.0;
        while !bitboard.is_empty()
            invariant
                f == self.bishop_moves_from(bbs, color),
                bbs == board.bbs(),
                moves@ + flat_moves(squares_of(bitboard.0), f) == old(moves)@ + flat_moves(squares_of(b0), f),
            decreases bitboard.0,
        {
            let ghost before = bitboard.0;
            let i = bitboard.pop_lsb();
            proof {
                lemma_clear_lowest(before);
                lemma_flat_pop(before, i as int, bitboard.0, f);
            }
            let from_square = Square::ALL[i];
            let ghost mm = moves@;
            self.bishop_moves(board, color, from_square, moves);
            proof {
                Square::lemma_from_index(i as int);
                assert(moves@ + flat_moves(squares_of(bitboard.0), f) =~= mm + flat_moves(squares_of(before), f));
            }
        }
        proof {
            lemma_squares_of(bitboard.0);
        }
        assert(moves@ =~= moves@ + flat_moves(squares_of(bitboard.0), f));
    }

    /// Appends the moves of every `color` rook, from a1 up.
    fn all_rook_moves(&self, board: &Board, color: Color, moves: &mut Vec<Move>)
        ensures
            final(moves)@ == old(moves)@ + flat_moves(squares_of(pieces(board.bbs(), Piece::Rook, color)), self.rook_moves_from(board.bbs(), color)),
    {
        let ghost bbs = board.bbs();
        let ghost f = self.rook_moves_from(board.bbs(), color);
        let mut bitboard = board.bitboard(Piece::Rook, color);
        let ghost b0 = bitboard.0;
        while !bitboard.is_empty()
            invariant
                f == self.rook_moves_from(bbs, color),
                bbs == board.bbs(),
                moves@ + flat_moves(squares_of(bitboard.0), f) == old(moves)@ + flat_moves(squares_of(b0), f),
            decreases bitboard.0,
        {
            let ghost before = bitboard.0;
            let i = bitboard.pop_lsb();
            proof {
                lemma_clear_lowest(before);
                lemma_flat_pop(before, i as int, bitboard.0, f);
            }
            let from_square = Square::ALL[i];
            let ghost mm = moves@;
            self.rook_moves(board, color, from_square, moves);
            proof {
                Square::lemma_from_index(i as int);
                assert(moves@ + flat_moves(squares_of(bitboard.0), f) =~= mm + flat_moves(squares_of(before), f));
            }
        }
        proof {
            lemma_squares_of(bitboard.0);
        }
        assert(moves@ =~= moves@ + flat_moves(squares_of(bitboard.0), f));
    }

    /// Appends the moves of every `color` queen, from a1 up.
    fn all_queen_moves(&self, board: &Board, color: Color, moves: &mut Vec<Move>)
        ensures
            final(moves)@ == old(moves)@ + flat_moves(squares_of(pieces(board.bbs(), Piece::Queen, color)), self.queen_moves_from(board.bbs(), color)),
    {
        let ghost bbs = board.bbs();
        let ghost f = self.queen_moves_from(board.bbs(), color);
        let mut bitboard = board.bitboard(Piece::Queen, color);
        let ghost b0 = bitboard.0;
        while !bitboard.is_empty()
            invariant
                f == self.queen_moves_from(bbs, color),
                bbs == board.bbs(),
                moves@ + flat_moves(squares_of(bitboard.0), f) == old(moves)@ + flat_moves(squares_of(b0), f),
            decreases bitboard.0,
        {
            let ghost before = bitboard.0;
            let i = bitboard.pop_lsb();
            proof {
                lemma_clear_lowest(before);
                lemma_flat_pop(before, i as int, bitboard.0, f);
            }
            let from_square = Square::ALL[i];
            let ghost mm = moves@;
            self.queen_moves(board, color, from_square, moves);
            proof {
                Square::lemma_from_index(i as int);
                assert(f(i as int) == self.rook_moves_from(bbs, color)(i as int) + self.bishop_moves_from(bbs, color)(i as int));
                assert(moves@ + flat_moves(squares_of(bitboard.0), f) =~= mm + flat_moves(squares_of(before), f));
            }
        }
        proof {
            lemma_squares_of(bitboard.0);
        }
        assert(moves@ =~= moves@ + flat_moves(squares_of(bitboard.0), f));
    }

    /// Appends the pseudo-legal moves of the side to move. The side to move must have a king.
    #[verifier::spinoff_prover]
    #[verifier::rlimit(40)]
    pub fn pseudolegal_moves(&self, board: &Board, moves: &mut Vec<Move>)
        requires
            pieces(board.bbs(), Piece::King, board.active_color) != 0,
        ensures
            final(moves)@ == old(moves)@ + self.pseudolegal(board.bbs(), board.active_color, board.flags.0),
    {
        let friendly_color = board.active_color;
        let ghost bbs = board.bbs();
        let ghost c = friendly_color;
        let ghost m0 = moves@;

        // Knight moves
        Self::all_knight_moves(board, friendly_color, moves);
        let ghost acc = flat_moves(squares_of(pieces(bbs, Piece::Knight, c)), MoveGen::knight_moves_from(bbs, c));

        // Bishop moves
        self.all_bishop_moves(board, friendly_color, moves);
        let ghost x = flat_moves(squares_of(pieces(bbs, Piece::Bishop, c)), self.bishop_moves_from(bbs, c));
        assert(moves@ =~= m0 + (acc + x));
        let ghost acc = acc + x;

        // Rook moves
        self.all_rook_moves(board, friendly_color, moves);
        let ghost x = flat_moves(squares_of(pieces(bbs, Piece::Rook, c)), self.rook_moves_from(bbs, c));
        assert(moves@ =~= m0 + (acc + x));
        let ghost acc = acc + x;

        // Queen moves
        self.all_queen_moves(board, friendly_color, moves);
        let ghost x = flat_moves(squares_of(pieces(bbs, Piece::Queen, c)), self.queen_moves_from(bbs, c));
        assert(moves@ =~= m0 + (acc + x));
        let ghost acc = acc + x;

        // King moves
        let king_bitboard = board.bitboard(Piece::King, friendly_color);
        proof {
            lemma_clear_lowest(king_bitboard.0);
        }
        let king_i = king_bitboard.0.trailing_zeros() as usize;
        let king_square = Square::ALL[king_i];
        proof {
            Square::lemma_from_index(king_i as int);
        }
        Self::king_moves(board, friendly_color, king_square, moves);
        let ghost x = flat_moves(
            squares_of(MoveGen::king_targets(bbs, c, MoveGen::king_square(bbs, c))),
            quiet_move(Square::from_index(MoveGen::king_square(bbs, c))),
        );
        assert(moves@ =~= m0 + (acc + x));
        let ghost acc = acc + x;

        // Pawn moves
        Self::pawn_moves(board, friendly_color, moves);
        let ghost x = MoveGen::pawn_pushes(bbs, c);
        assert(moves@ =~= m0 + (acc + x));
        let ghost acc = acc + x;

        // Pawn captures
        Self::pawn_captures(board, friendly_color, moves);
        let ghost x = pawn_capture_seq(bbs, c, c, board.flags.0);
        assert(moves@ =~= m0 + (acc + x));
        assert(acc + x == self.pseudolegal(bbs, c, board.flags.0));
    }

}

impl Default for MoveGen {
    fn default() -> (r: MoveGen)
        ensures
            r.tables_usable(),
    {
        Self::new()
    }
}

/// `m` starts on a square of `color`'s pieces and does not end on one.
pub open spec fn keeps_to_own(bbs: Seq<u64>, color: Color, m: Move) -> bool {
    &&& has_bit(own(bbs, color), m.spec_source() as int)
    &&& !has_bit(own(bbs, color), m.spec_target() as int)
}

/// Every move of `moves` starts on a square of `color`'s pieces and ends off them.
pub open spec fn all_keep_to_own(bbs: Seq<u64>, color: Color, moves: Seq<Move>) -> bool {
    forall|j: int| 0 <= j < moves.len() ==> keeps_to_own(bbs, color, #[trigger] moves[j])
}

proof fn lemma_concat_keeps(bbs: Seq<u64>, color: Color, a: Seq<Move>, b: Seq<Move>)
    requires
        all_keep_to_own(bbs, color, a),
        all_keep_to_own(bbs, color, b),
    ensures
        all_keep_to_own(bbs, color, a + b),
{
    assert forall|j: int| 0 <= j < (a + b).len() implies keeps_to_own(bbs, color, #[trigger] (a + b)[j]) by {
        if j < a.len() {
            assert((a + b)[j] == a[j]);
        } else {
            assert((a + b)[j] == b[j - a.len()]);
        }
    }
}

proof fn lemma_flat_keeps(bbs: Seq<u64>, color: Color, sqs: Seq<int>, f: spec_fn(int) -> Seq<Move>)
    requires
        forall|k: int| 0 <= k < sqs.len() ==> all_keep_to_own(bbs, color, #[trigger] f(sqs[k])),
    ensures
        all_keep_to_own(bbs, color, flat_moves(sqs, f)),
    decreases sqs.len(),
{
    if sqs.len() > 0 {
        let rest = sqs.drop_first();
        assert forall|k: int| 0 <= k < rest.len() implies all_keep_to_own(bbs, color, #[trigger] f(rest[k])) by {
            assert(rest[k] == sqs[k + 1]);
        }
        lemma_flat_keeps(bbs, color, rest, f);
        assert(all_keep_to_own(bbs, color, f(sqs[0])));
        lemma_concat_keeps(bbs, color, f(sqs[0]), flat_moves(rest, f));
    }
}

/// The plain moves from a square of `color`'s pieces to squares off them keep to `color`.
proof fn lemma_quiet_keeps(bbs: Seq<u64>, color: Color, source: Square, x: u64)
    requires
        has_bit(own(bbs, color), source as int),
        forall|t: int| has_bit(x, t) ==> !has_bit(own(bbs, color), t),
    ensures
        all_keep_to_own(bbs, color, flat_moves(squares_of(x), quiet_move(source))),
{
    lemma_squares_of(x);
    let sqs = squares_of(x);
    assert forall|k: int| 0 <= k < sqs.len() implies all_keep_to_own(bbs, color, #[trigger] quiet_move(source)(sqs[k])) by {
        let t = sqs[k];
        assert(sqs.contains(t));
        Square::lemma_from_index(t);
        Move::lemma_new(source, Square::from_index(t), None);
        assert(quiet_move(source)(t)[0] == Move::spec_new(source, Square::from_index(t), None));
    }
    lemma_flat_keeps(bbs, color, sqs, quiet_move(source));
}

/// The moves of a pawn from a square of `color`'s pieces to a square off them keep to `color`.
proof fn lemma_pawn_seq_keeps(bbs: Seq<u64>, color: Color, source: Square, target: Square)
    requires
        has_bit(own(bbs, color), source as int),
        !has_bit(own(bbs, color), target as int),
    ensures
        all_keep_to_own(bbs, color, pawn_move_seq(source, target)),
{
    Move::lemma_new(source, target, None);
    Move::lemma_new(source, target, Some(Piece::Knight));
    Move::lemma_new(source, target, Some(Piece::Bishop));
    Move::lemma_new(source, target, Some(Piece::Rook));
    Move::lemma_new(source, target, Some(Piece::Queen));
}

/// The pawn moves from a square of `color`'s pieces to squares off them keep to `color`.
proof fn lemma_pawn_to_keeps(bbs: Seq<u64>, color: Color, source: Square, x: u64)
    requires
        has_bit(own(bbs, color), source as int),
        forall|t: int| has_bit(x, t) ==> !has_bit(own(bbs, color), t),
    ensures
        all_keep_to_own(bbs, color, flat_moves(squares_of(x), pawn_move_to(source))),
{
    lemma_squares_of(x);
    let sqs = squares_of(x);
    assert forall|k: int| 0 <= k < sqs.len() implies all_keep_to_own(bbs, color, #[trigger] pawn_move_to(source)(sqs[k])) by {
        let t = sqs[k];
        assert(sqs.contains(t));
        Square::lemma_from_index(t);
        lemma_pawn_seq_keeps(bbs, color, source, Square::from_index(t));
    }
    lemma_flat_keeps(bbs, color, sqs, pawn_move_to(source));
}

/// The moves of every piece of kind `piece`, by `f`, keep to `color` when the moves of each
/// one do.
proof fn lemma_pieces_keep(bbs: Seq<u64>, color: Color, piece: Piece, f: spec_fn(int) -> Seq<Move>)
    requires
        forall|s: int| has_bit(pieces(bbs, piece, color), s) ==> all_keep_to_own(bbs, color, #[trigger] f(s)),
    ensures
        all_keep_to_own(bbs, color, flat_moves(squares_of(pieces(bbs, piece, color)), f)),
{
    let x = pieces(bbs, piece, color);
    lemma_squares_of(x);
    assert forall|k: int| 0 <= k < squares_of(x).len() implies all_keep_to_own(bbs, color, #[trigger] f(squares_of(x)[k])) by {
        assert(squares_of(x).contains(squares_of(x)[k]));
    }
    lemma_flat_keeps(bbs, color, squares_of(x), f);
}

/// The pawn advances of `color` keep to `color`.
proof fn lemma_pushes_keep(bbs: Seq<u64>, color: Color)
    requires
        bbs.len() == 8,
    ensures
        all_keep_to_own(bbs, color, MoveGen::pawn_pushes(bbs, color)),
{
    let occ = occupied(bbs);
    let o = own(bbs, color);
    let pawns = pieces(bbs, Piece::Pawn, color);
    let unmoved = pawns & (if color == Color::White { 0xff00u64 } else { 0x00ff000000000000u64 });
    lemma_bits(bbs[6], bbs[7]);
    lemma_bits(occ, occ);
    lemma_bits(bbs[0], o);
    lemma_bits(pawns << 8u8, !occ);
    lemma_bits(pawns >> 8u8, !occ);
    lemma_shift8(pawns);
    lemma_bits(pawns, if color == Color::White { 0xff00u64 } else { 0x00ff000000000000u64 });
    lemma_shift8(unmoved);
    lemma_bits(unmoved << 8u8, !occ);
    lemma_bits(unmoved >> 8u8, !occ);
    lemma_shift8((unmoved << 8u8) & !occ);
    lemma_shift8((unmoved >> 8u8) & !occ);
    lemma_bits(((unmoved << 8u8) & !occ) << 8u8, !occ);
    lemma_bits(((unmoved >> 8u8) & !occ) >> 8u8, !occ);
    assert(forall|t: int| has_bit(o, t) ==> has_bit(occ, t));

    let single = MoveGen::single_targets(bbs, color);
    let f = MoveGen::single_push(color);
    lemma_squares_of(single);
    assert forall|k: int| 0 <= k < squares_of(single).len() implies all_keep_to_own(bbs, color, #[trigger] f(squares_of(single)[k])) by {
        let t = squares_of(single)[k];
        assert(squares_of(single).contains(t));
        assert(has_bit(single, t));
        let src = t - MoveGen::pawn_step(color);
        if color == Color::White {
            assert(has_bit((pawns << 8u8) & !occ, t));
        } else {
            assert(has_bit((pawns >> 8u8) & !occ, t));
        }
        assert(has_bit(pawns, src));
        Square::lemma_from_index(t);
        Square::lemma_from_index(src);
        lemma_pawn_seq_keeps(bbs, color, Square::from_index(src), Square::from_index(t));
    }
    lemma_flat_keeps(bbs, color, squares_of(single), f);

    let double = MoveGen::double_targets(bbs, color);
    let g = MoveGen::double_push(color);
    lemma_squares_of(double);
    assert forall|k: int| 0 <= k < squares_of(double).len() implies all_keep_to_own(bbs, color, #[trigger] g(squares_of(double)[k])) by {
        let t = squares_of(double)[k];
        assert(squares_of(double).contains(t));
        assert(has_bit(double, t));
        let src = t - 2 * MoveGen::pawn_step(color);
        if color == Color::White {
            assert(has_bit((((unmoved << 8u8) & !occ) << 8u8) & !occ, t));
            assert(has_bit((unmoved << 8u8) & !occ, t - 8));
        } else {
            assert(has_bit((((unmoved >> 8u8) & !occ) >> 8u8) & !occ, t));
            assert(has_bit((unmoved >> 8u8) & !occ, t + 8));
        }
        assert(has_bit(unmoved, src));
        assert(has_bit(pawns, src));
        Square::lemma_from_index(t);
        Square::lemma_from_index(src);
        Move::lemma_new(Square::from_index(src), Square::from_index(t), None);
        assert(g(t)[0] == Move::spec_new(Square::from_index(src), Square::from_index(t), None));
    }
    lemma_flat_keeps(bbs, color, squares_of(double), g);
    lemma_concat_keeps(bbs, color, flat_moves(squares_of(single), f), flat_moves(squares_of(double), g));
}

/// The pawn captures of the side `color` to move keep to `color` when the two sides' squares
/// are apart and the en passant square holds none of `color`'s pieces.
proof fn lemma_captures_keep(bbs: Seq<u64>, color: Color, flags: u8)
    requires
        bbs.len() == 8,
        forall|t: int| !(has_bit(bbs[6], t) && has_bit(bbs[7], t)),
        forall|t: int| has_bit(ep_mask(color, flags), t) ==> !has_bit(own(bbs, color), t),
    ensures
        all_keep_to_own(bbs, color, pawn_capture_seq(bbs, color, color, flags)),
{
    let ep = ep_mask(color, flags);
    let f = capture_moves(bbs, color, ep);
    let o = own(bbs, color);
    let enemy = own(bbs, color.spec_inverse());
    lemma_bits(bbs[0], o);
    assert forall|s: int| has_bit(pieces(bbs, Piece::Pawn, color), s) implies all_keep_to_own(bbs, color, #[trigger] f(s)) by {
        let x = capture_targets(bbs, color, ep, s);
        let m = pawn_mask(s, color);
        lemma_bits(m & enemy, m & ep);
        lemma_bits(m, enemy);
        lemma_bits(m, ep);
        assert forall|t: int| has_bit(x, t) implies !has_bit(o, t) by {
            if has_bit(m & enemy, t) {
                assert(has_bit(enemy, t));
            }
        }
        Square::lemma_from_index(s);
        lemma_pawn_to_keeps(bbs, color, Square::from_index(s), x);
    }
    lemma_pieces_keep(bbs, color, Piece::Pawn, f);
}

/// Pseudo-legal moves keep to the side to move: each starts on a square of one of its
/// pieces, and none ends on one. This holds when the side has a king, the two sides' squares
/// are apart, and the en passant square, if any, holds none of the side's pieces.
pub proof fn lemma_pseudolegal_keeps_to_own(mg: MoveGen, bbs: Seq<u64>, c: Color, flags: u8)
    requires
        bbs.len() == 8,
        pieces(bbs, Piece::King, c) != 0,
        forall|t: int| !(has_bit(bbs[6], t) && has_bit(bbs[7], t)),
        forall|t: int| has_bit(ep_mask(c, flags), t) ==> !has_bit(own(bbs, c), t),
    ensures
        all_keep_to_own(bbs, c, mg.pseudolegal(bbs, c, flags)),
{
    let o = own(bbs, c);
    let occ = occupied(bbs);
    lemma_bits(o, o);

    let fk = MoveGen::knight_moves_from(bbs, c);
    lemma_bits(bbs[1], o);
    assert forall|s: int| has_bit(pieces(bbs, Piece::Knight, c), s) implies all_keep_to_own(bbs, c, #[trigger] fk(s)) by {
        lemma_bits(knight_mask(s), !o);
        Square::lemma_from_index(s);
        lemma_quiet_keeps(bbs, c, Square::from_index(s), MoveGen::knight_targets(bbs, c, s));
    }
    lemma_pieces_keep(bbs, c, Piece::Knight, fk);

    let fb = mg.bishop_moves_from(bbs, c);
    lemma_bits(bbs[2], o);
    assert forall|s: int| has_bit(pieces(bbs, Piece::Bishop, c), s) implies all_keep_to_own(bbs, c, #[trigger] fb(s)) by {
        lemma_bits(mg.bishop_lookup(s, occ), !o);
        Square::lemma_from_index(s);
        lemma_quiet_keeps(bbs, c, Square::from_index(s), mg.bishop_targets(bbs, c, s));
    }
    lemma_pieces_keep(bbs, c, Piece::Bishop, fb);

    let fr = mg.rook_moves_from(bbs, c);
    lemma_bits(bbs[3], o);
    assert forall|s: int| has_bit(pieces(bbs, Piece::Rook, c), s) implies all_keep_to_own(bbs, c, #[trigger] fr(s)) by {
        lemma_bits(mg.rook_lookup(s, occ), !o);
        Square::lemma_from_index(s);
        lemma_quiet_keeps(bbs, c, Square::from_index(s), mg.rook_targets(bbs, c, s));
    }
    lemma_pieces_keep(bbs, c, Piece::Rook, fr);

    let fq = mg.queen_moves_from(bbs, c);
    lemma_bits(bbs[4], o);
    assert forall|s: int| has_bit(pieces(bbs, Piece::Queen, c), s) implies all_keep_to_own(bbs, c, #[trigger] fq(s)) by {
        lemma_bits(mg.rook_lookup(s, occ), !o);
        lemma_bits(mg.bishop_lookup(s, occ), !o);
        Square::lemma_from_index(s);
        lemma_quiet_keeps(bbs, c, Square::from_index(s), mg.rook_targets(bbs, c, s));
        lemma_quiet_keeps(bbs, c, Square::from_index(s), mg.bishop_targets(bbs, c, s));
        lemma_concat_keeps(bbs, c, fr(s), fb(s));
    }
    lemma_pieces_keep(bbs, c, Piece::Queen, fq);

    let kings = pieces(bbs, Piece::King, c);
    let ks = MoveGen::king_square(bbs, c);
    lemma_clear_lowest(kings);
    lemma_bits(bbs[5], o);
    lemma_bits(king_mask(ks), !o);
    Square::lemma_from_index(ks);
    lemma_quiet_keeps(bbs, c, Square::from_index(ks), MoveGen::king_targets(bbs, c, ks));

    lemma_pushes_keep(bbs, c);
    lemma_captures_keep(bbs, c, flags);

    let a1 = flat_moves(squares_of(pieces(bbs, Piece::Knight, c)), fk);
    let a2 = flat_moves(squares_of(pieces(bbs, Piece::Bishop, c)), fb);
    let a3 = flat_moves(squares_of(pieces(bbs, Piece::Rook, c)), fr);
    let a4 = flat_moves(squares_of(pieces(bbs, Piece::Queen, c)), fq);
    let a5 = flat_moves(squares_of(MoveGen::king_targets(bbs, c, ks)), quiet_move(Square::from_index(ks)));
    let a6 = MoveGen::pawn_pushes(bbs, c);
    let a7 = pawn_capture_seq(bbs, c, c, flags);
    lemma_concat_keeps(bbs, c, a1, a2);
    lemma_concat_keeps(bbs, c, a1 + a2, a3);
    lemma_concat_keeps(bbs, c, a1 + a2 + a3, a4);
    lemma_concat_keeps(bbs, c, a1 + a2 + a3 + a4, a5);
    lemma_concat_keeps(bbs, c, a1 + a2 + a3 + a4 + a5, a6);
    lemma_concat_keeps(bbs, c, a1 + a2 + a3 + a4 + a5 + a6, a7);
}

/// A pawn move of `color` advances one or two ranks toward the other side: `m` starts on a
/// square whose first piece is not a pawn, or it advances so.
pub open spec fn pawn_advances(bbs: Seq<u64>, color: Color, m: Move) -> bool {
    let d = rank_of(m.spec_target() as int) - rank_of(m.spec_source() as int);
    first_piece_from(bbs, m.spec_source() as int, 0) == Some(Piece::Pawn)
        ==> if color == Color::White { d == 1 || d == 2 } else { d == -1 || d == -2 }
}

/// Every move of `moves` is a pawn move that advances, or a move of another piece.
pub open spec fn all_advance(bbs: Seq<u64>, color: Color, moves: Seq<Move>) -> bool {
    forall|j: int| 0 <= j < moves.len() ==> pawn_advances(bbs, color, #[trigger] moves[j])
}

proof fn lemma_concat_advance(bbs: Seq<u64>, color: Color, a: Seq<Move>, b: Seq<Move>)
    requires
        all_advance(bbs, color, a),
        all_advance(bbs, color, b),
    ensures
        all_advance(bbs, color, a + b),
{
    assert forall|j: int| 0 <= j < (a + b).len() implies pawn_advances(bbs, color, #[trigger] (a + b)[j]) by {
        if j < a.len() {
            assert((a + b)[j] == a[j]);
        } else {
            assert((a + b)[j] == b[j - a.len()]);
        }
    }
}

proof fn lemma_flat_advance(bbs: Seq<u64>, color: Color, sqs: Seq<int>, f: spec_fn(int) -> Seq<Move>)
    requires
        forall|k: int| 0 <= k < sqs.len() ==> all_advance(bbs, color, #[trigger] f(sqs[k])),
    ensures
        all_advance(bbs, color, flat_moves(sqs, f)),
    decreases sqs.len(),
{
    if sqs.len() > 0 {
        let rest = sqs.drop_first();
        assert forall|k: int| 0 <= k < rest.len() implies all_advance(bbs, color, #[trigger] f(rest[k])) by {
            assert(rest[k] == sqs[k + 1]);
        }
        lemma_flat_advance(bbs, color, rest, f);
        assert(all_advance(bbs, color, f(sqs[0])));
        lemma_concat_advance(bbs, color, f(sqs[0]), flat_moves(rest, f));
    }
}

/// Moves from a square whose first piece is not a pawn advance trivially.
proof fn lemma_quiet_advance(bbs: Seq<u64>, color: Color, source: Square, x: u64)
    requires
        first_piece_from(bbs, source as int, 0) != Some(Piece::Pawn),
    ensures
        all_advance(bbs, color, flat_moves(squares_of(x), quiet_move(source))),
{
    lemma_squares_of(x);
    let sqs = squares_of(x);
    assert forall|k: int| 0 <= k < sqs.len() implies all_advance(bbs, color, #[trigger] quiet_move(source)(sqs[k])) by {
        let t = sqs[k];
        assert(sqs.contains(t));
        Square::lemma_from_index(t);
        Move::lemma_new(source, Square::from_index(t), None);
        assert(quiet_move(source)(t)[0] == Move::spec_new(source, Square::from_index(t), None));
    }
    lemma_flat_advance(bbs, color, sqs, quiet_move(source));
}

/// The moves of a pawn that steps `d` ranks from `source` to `target` advance when `d` is one
/// or two ranks toward the other side.
proof fn lemma_pawn_seq_advance(bbs: Seq<u64>, color: Color, source: Square, target: Square)
    requires
        ({
            let d = rank_of(target as int) - rank_of(source as int);
            if color == Color::White { d == 1 || d == 2 } else { d == -1 || d == -2 }
        }),
    ensures
        all_advance(bbs, color, pawn_move_seq(source, target)),
{
    Move::lemma_new(source, target, None);
    Move::lemma_new(source, target, Some(Piece::Knight));
    Move::lemma_new(source, target, Some(Piece::Bishop));
    Move::lemma_new(source, target, Some(Piece::Rook));
    Move::lemma_new(source, target, Some(Piece::Queen));
}

/// From the second piece bitboard on, the piece found is never a pawn.
proof fn lemma_not_pawn_from(bbs: Seq<u64>, s: int, i: int)
    requires
        1 <= i,
    ensures
        first_piece_from(bbs, s, i) != Some(Piece::Pawn),
    decreases 6 - i,
{
    if i < 6 {
        lemma_not_pawn_from(bbs, s, i + 1);
        assert(Piece::ALL[i] != Piece::Pawn);
    }
}

/// The moves of every piece of kind `piece`, by `f`, advance when the moves of each one do.
proof fn lemma_pieces_advance(bbs: Seq<u64>, color: Color, piece: Piece, f: spec_fn(int) -> Seq<Move>)
    requires
        forall|s: int| has_bit(pieces(bbs, piece, color), s) ==> all_advance(bbs, color, #[trigger] f(s)),
    ensures
        all_advance(bbs, color, flat_moves(squares_of(pieces(bbs, piece, color)), f)),
{
    let x = pieces(bbs, piece, color);
    lemma_squares_of(x);
    assert forall|k: int| 0 <= k < squares_of(x).len() implies all_advance(bbs, color, #[trigger] f(squares_of(x)[k])) by {
        assert(squares_of(x).contains(squares_of(x)[k]));
    }
    lemma_flat_advance(bbs, color, squares_of(x), f);
}

/// The pawn advances of `color` advance.
proof fn lemma_pushes_advance(bbs: Seq<u64>, color: Color)
    requires
        bbs.len() == 8,
    ensures
        all_advance(bbs, color, MoveGen::pawn_pushes(bbs, color)),
{
    let occ = occupied(bbs);
    let pawns = pieces(bbs, Piece::Pawn, color);
    let unmoved = pawns & (if color == Color::White { 0xff00u64 } else { 0x00ff000000000000u64 });
    lemma_bits(pawns << 8u8, !occ);
    lemma_bits(pawns >> 8u8, !occ);
    lemma_shift8(pawns);
    lemma_shift8(unmoved);
    lemma_bits(unmoved << 8u8, !occ);
    lemma_bits(unmoved >> 8u8, !occ);
    lemma_shift8((unmoved << 8u8) & !occ);
    lemma_shift8((unmoved >> 8u8) & !occ);
    lemma_bits(((unmoved << 8u8) & !occ) << 8u8, !occ);
    lemma_bits(((unmoved >> 8u8) & !occ) >> 8u8, !occ);

    let single = MoveGen::single_targets(bbs, color);
    let f = MoveGen::single_push(color);
    lemma_squares_of(single);
    assert forall|k: int| 0 <= k < squares_of(single).len() implies all_advance(bbs, color, #[trigger] f(squares_of(single)[k])) by {
        let t = squares_of(single)[k];
        assert(squares_of(single).contains(t));
        assert(has_bit(single, t));
        let src = t - MoveGen::pawn_step(color);
        if color == Color::White {
            assert(has_bit((pawns << 8u8) & !occ, t));
        } else {
            assert(has_bit((pawns >> 8u8) & !occ, t));
        }
        assert(0 <= src < 64);
        Square::lemma_from_index(t);
        Square::lemma_from_index(src);
        lemma_pawn_seq_advance(bbs, color, Square::from_index(src), Square::from_index(t));
    }
    lemma_flat_advance(bbs, color, squares_of(single), f);

    let double = MoveGen::double_targets(bbs, color);
    let g = MoveGen::double_push(color);
    lemma_squares_of(double);
    assert forall|k: int| 0 <= k < squares_of(double).len() implies all_advance(bbs, color, #[trigger] g(squares_of(double)[k])) by {
        let t = squares_of(double)[k];
        assert(squares_of(double).contains(t));
        assert(has_bit(double, t));
        let src = t - 2 * MoveGen::pawn_step(color);
        if color == Color::White {
            assert(has_bit((((unmoved << 8u8) & !occ) << 8u8) & !occ, t));
            assert(has_bit((unmoved << 8u8) & !occ, t - 8));
        } else {
            assert(has_bit((((unmoved >> 8u8) & !occ) >> 8u8) & !occ, t));
            assert(has_bit((unmoved >> 8u8) & !occ, t + 8));
        }
        assert(0 <= src < 64);
        Square::lemma_from_index(t);
        Square::lemma_from_index(src);
        Move::lemma_new(Square::from_index(src), Square::from_index(t), None);
        assert(g(t)[0] == Move::spec_new(Square::from_index(src), Square::from_index(t), None));
    }
    lemma_flat_advance(bbs, color, squares_of(double), g);
    lemma_concat_advance(bbs, color, flat_moves(squares_of(single), f), flat_moves(squares_of(double), g));
}

/// The pawn captures of `color` advance one rank.
proof fn lemma_captures_advance(bbs: Seq<u64>, color: Color, ep: u64)
    requires
        bbs.len() == 8,
    ensures
        all_advance(bbs, color, flat_moves(squares_of(pieces(bbs, Piece::Pawn, color)), capture_moves(bbs, color, ep))),
{
    let f = capture_moves(bbs, color, ep);
    let enemy = own(bbs, color.spec_inverse());
    assert forall|s: int| has_bit(pieces(bbs, Piece::Pawn, color), s) implies all_advance(bbs, color, #[trigger] f(s)) by {
        let x = capture_targets(bbs, color, ep, s);
        let m = pawn_mask(s, color);
        lemma_bits(m & enemy, m & ep);
        lemma_bits(m, enemy);
        lemma_bits(m, ep);
        lemma_mask_of_bits(|t: int| crate::generation::pawn_reach(s, color, t));
        lemma_squares_of(x);
        let sqs = squares_of(x);
        let source = Square::from_index(s);
        Square::lemma_from_index(s);
        assert forall|k: int| 0 <= k < sqs.len() implies all_advance(bbs, color, #[trigger] pawn_move_to(source)(sqs[k])) by {
            let t = sqs[k];
            assert(sqs.contains(t));
            assert(has_bit(m, t));
            Square::lemma_from_index(t);
            lemma_pawn_seq_advance(bbs, color, source, Square::from_index(t));
        }
        lemma_flat_advance(bbs, color, sqs, pawn_move_to(source));
    }
    lemma_pieces_advance(bbs, color, Piece::Pawn, f);
}

/// A square held by a piece bitboard other than the pawns' has no pawn first.
proof fn lemma_no_pawn_here(bbs: Seq<u64>, s: int)
    requires
        !has_bit(bbs[0], s),
    ensures
        first_piece_from(bbs, s, 0) != Some(Piece::Pawn),
{
    lemma_not_pawn_from(bbs, s, 1);
}

/// Every pseudo-legal move that starts on a pawn advances it one or two ranks, when no square
/// holds two kinds of pieces and the side to move has a king.
proof fn lemma_pseudolegal_advance(mg: MoveGen, bbs: Seq<u64>, c: Color, flags: u8)
    requires
        bbs.len() == 8,
        pieces(bbs, Piece::King, c) != 0,
        forall|t: int| 0 <= t < 64 ==> #[trigger] piece_bits(bbs, t) <= 1,
    ensures
        all_advance(bbs, c, mg.pseudolegal(bbs, c, flags)),
{
    let o = own(bbs, c);
    let occ = occupied(bbs);

    let fk = MoveGen::knight_moves_from(bbs, c);
    lemma_bits(bbs[1], o);
    assert forall|s: int| has_bit(pieces(bbs, Piece::Knight, c), s) implies all_advance(bbs, c, #[trigger] fk(s)) by {
        assert(piece_bits(bbs, s) <= 1);
        lemma_no_pawn_here(bbs, s);
        Square::lemma_from_index(s);
        lemma_quiet_advance(bbs, c, Square::from_index(s), MoveGen::knight_targets(bbs, c, s));
    }
    lemma_pieces_advance(bbs, c, Piece::Knight, fk);

    let fb = mg.bishop_moves_from(bbs, c);
    lemma_bits(bbs[2], o);
    assert forall|s: int| has_bit(pieces(bbs, Piece::Bishop, c), s) implies all_advance(bbs, c, #[trigger] fb(s)) by {
        assert(piece_bits(bbs, s) <= 1);
        lemma_no_pawn_here(bbs, s);
        Square::lemma_from_index(s);
        lemma_quiet_advance(bbs, c, Square::from_index(s), mg.bishop_targets(bbs, c, s));
    }
    lemma_pieces_advance(bbs, c, Piece::Bishop, fb);

    let fr = mg.rook_moves_from(bbs, c);
    lemma_bits(bbs[3], o);
    assert forall|s: int| has_bit(pieces(bbs, Piece::Rook, c), s) implies all_advance(bbs, c, #[trigger] fr(s)) by {
        assert(piece_bits(bbs, s) <= 1);
        lemma_no_pawn_here(bbs, s);
        Square::lemma_from_index(s);
        lemma_quiet_advance(bbs, c, Square::from_index(s), mg.rook_targets(bbs, c, s));
    }
    lemma_pieces_advance(bbs, c, Piece::Rook, fr);

    let fq = mg.queen_moves_from(bbs, c);
    lemma_bits(bbs[4], o);
    assert forall|s: int| has_bit(pieces(bbs, Piece::Queen, c), s) implies all_advance(bbs, c, #[trigger] fq(s)) by {
        assert(piece_bits(bbs, s) <= 1);
        lemma_no_pawn_here(bbs, s);
        Square::lemma_from_index(s);
        lemma_quiet_advance(bbs, c, Square::from_index(s), mg.rook_targets(bbs, c, s));
        lemma_quiet_advance(bbs, c, Square::from_index(s), mg.bishop_targets(bbs, c, s));
        lemma_concat_advance(bbs, c, fr(s), fb(s));
    }
    lemma_pieces_advance(bbs, c, Piece::Queen, fq);

    let kings = pieces(bbs, Piece::King, c);
    let ks = MoveGen::king_square(bbs, c);
    lemma_clear_lowest(kings);
    lemma_bits(bbs[5], o);
    assert(piece_bits(bbs, ks) <= 1);
    lemma_no_pawn_here(bbs, ks);
    Square::lemma_from_index(ks);
    lemma_quiet_advance(bbs, c, Square::from_index(ks), MoveGen::king_targets(bbs, c, ks));

    lemma_pushes_advance(bbs, c);
    lemma_captures_advance(bbs, c, ep_mask(c, flags));

    let a1 = flat_moves(squares_of(pieces(bbs, Piece::Knight, c)), fk);
    let a2 = flat_moves(squares_of(pieces(bbs, Piece::Bishop, c)), fb);
    let a3 = flat_moves(squares_of(pieces(bbs, Piece::Rook, c)), fr);
    let a4 = flat_moves(squares_of(pieces(bbs, Piece::Queen, c)), fq);
    let a5 = flat_moves(squares_of(MoveGen::king_targets(bbs, c, ks)), quiet_move(Square::from_index(ks)));
    let a6 = MoveGen::pawn_pushes(bbs, c);
    let a7 = pawn_capture_seq(bbs, c, c, flags);
    lemma_concat_advance(bbs, c, a1, a2);
    lemma_concat_advance(bbs, c, a1 + a2, a3);
    lemma_concat_advance(bbs, c, a1 + a2 + a3, a4);
    lemma_concat_advance(bbs, c, a1 + a2 + a3 + a4, a5);
    lemma_concat_advance(bbs, c, a1 + a2 + a3 + a4 + a5, a6);
    lemma_concat_advance(bbs, c, a1 + a2 + a3 + a4 + a5 + a6, a7);
}

/// En passant in `flags` fits the position: when the side `c` to move may take en passant,
/// its en passant square holds none of its pieces, and a pawn of the other side stands on the
/// square behind it.
pub open spec fn en_passant_fits(bbs: Seq<u64>, c: Color, flags: u8) -> bool {
    Flags(flags).spec_can_en_passant() ==> {
        let file = Flags(flags).spec_en_passant_file() as int;
        let target = (if c == Color::White { 5int } else { 2int }) * 8 + file;
        let victim = (if c == Color::White { 4int } else { 3int }) * 8 + file;
        &&& !has_bit(own(bbs, c), target)
        &&& has_bit(bbs[0], victim)
        &&& has_bit(own(bbs, c.spec_inverse()), victim)
    }
}

/// A move that keeps to the side `c` to move and advances if it is a pawn move can be played
/// on a consistent position and gives a consistent position, when en passant fits it.
#[verifier::spinoff_prover]
proof fn lemma_fitting_move(bbs: Seq<u64>, c: Color, flags: u8, m: Move)
    requires
        consistent(bbs),
        en_passant_fits(bbs, c, flags),
        keeps_to_own(bbs, c, m),
        pawn_advances(bbs, c, m),
    ensures
        move_defined(bbs, m),
        consistent(move_bbs(bbs, flags, m)),
{
    let from = m.spec_source() as int;
    let to = m.spec_target() as int;
    m.spec_source().lemma_index();
    m.spec_target().lemma_index();
    lemma_consistent_square(bbs, from);
    lemma_consistent_square(bbs, to);
    assert(owner_in(bbs, from) == c);
    assert(first_piece_from(bbs, from, 0) is Some);
    assert(m.spec_source() != m.spec_target());
    lemma_consistent_moves_defined(bbs, m);
    if takes_en_passant_in(bbs, flags, m) {
        let v = rank_of(from) * 8 + file_of(to);
        assert(rank_of(to) - rank_of(from) == if c == Color::White { 1int } else { -1int });
        assert(v != to);
        assert(has_bit(bbs[0], v));
        assert(has_bit(bbs[c.spec_inverse() as int + 6], v));
    }
    lemma_move_keeps_consistent(bbs, flags, m);
}

/// Every pseudo-legal move of a consistent position can be played and gives a consistent
/// position, when the side to move has a king and en passant fits the position.
#[verifier::spinoff_prover]
pub proof fn lemma_pseudolegal_keeps_consistent(mg: MoveGen, bbs: Seq<u64>, c: Color, flags: u8)
    requires
        consistent(bbs),
        pieces(bbs, Piece::King, c) != 0,
        en_passant_fits(bbs, c, flags),
    ensures
        forall|j: int| 0 <= j < mg.pseudolegal(bbs, c, flags).len() ==> {
            &&& move_defined(bbs, #[trigger] mg.pseudolegal(bbs, c, flags)[j])
            &&& consistent(move_bbs(bbs, flags, mg.pseudolegal(bbs, c, flags)[j]))
        },
{
    let ps = mg.pseudolegal(bbs, c, flags);
    lemma_consistent_square(bbs, 0);
    assert forall|t: int| 0 <= t < 64 implies #[trigger] piece_bits(bbs, t) <= 1 by {
        lemma_consistent_square(bbs, t);
    }
    assert forall|t: int| !(has_bit(bbs[6], t) && has_bit(bbs[7], t)) by {
        if 0 <= t < 64 {
            lemma_consistent_square(bbs, t);
        }
    }
    let fl = Flags(flags);
    assert(fl.spec_en_passant_file() < 8) by {
        assert(flags >> 5u8 < 8u8) by (bit_vector);
    }
    assert forall|t: int| has_bit(ep_mask(c, flags), t) implies !has_bit(own(bbs, c), t) by {
        if fl.spec_can_en_passant() {
            let sq = (if c == Color::White { 5int } else { 2int }) * 8 + fl.spec_en_passant_file() as int;
            Square::lemma_from_index(sq);
            crate::board::bitboard::lemma_single(sq);
        } else {
            lemma_bits(0, 0);
        }
    }
    lemma_pseudolegal_keeps_to_own(mg, bbs, c, flags);
    lemma_pseudolegal_advance(mg, bbs, c, flags);
    assert forall|j: int| 0 <= j < ps.len() implies {
        &&& move_defined(bbs, #[trigger] ps[j])
        &&& consistent(move_bbs(bbs, flags, ps[j]))
    } by {
        assert(keeps_to_own(bbs, c, ps[j]));
        assert(pawn_advances(bbs, c, ps[j]));
        lemma_fitting_move(bbs, c, flags, ps[j]);
    }
}

/// A list holding `m` in either part of a concatenation holds it.
proof fn lemma_concat_has(a: Seq<Move>, b: Seq<Move>, m: Move)
    ensures
        a.contains(m) || b.contains(m) ==> (a + b).contains(m),
{
    if a.contains(m) {
        let k = choose|k: int| 0 <= k < a.len() && a[k] == m;
        assert((a + b)[k] == m);
    } else if b.contains(m) {
        let k = choose|k: int| 0 <= k < b.len() && b[k] == m;
        assert((a + b)[a.len() + k] == m);
    }
}

/// The moves of square `i` are among the moves of a list of squares that holds `i`.
proof fn lemma_flat_has(sqs: Seq<int>, f: spec_fn(int) -> Seq<Move>, i: int, m: Move)
    requires
        sqs.contains(i),
        f(i).contains(m),
    ensures
        flat_moves(sqs, f).contains(m),
    decreases sqs.len(),
{
    let k = choose|k: int| 0 <= k < sqs.len() && sqs[k] == i;
    if k == 0 {
        lemma_concat_has(f(i), flat_moves(sqs.drop_first(), f), m);
    } else {
        assert(sqs.drop_first()[k - 1] == i);
        lemma_flat_has(sqs.drop_first(), f, i, m);
        lemma_concat_has(f(sqs[0]), flat_moves(sqs.drop_first(), f), m);
    }
}

/// The plain move from `from` to a square of `targets` is among the plain moves to `targets`.
proof fn lemma_quiet_has(from: Square, targets: u64, to: Square)
    requires
        has_bit(targets, to as int),
    ensures
        flat_moves(squares_of(targets), quiet_move(from)).contains(Move::spec_new(from, to, None)),
{
    lemma_squares_of(targets);
    to.lemma_index();
    let m = Move::spec_new(from, to, None);
    assert(quiet_move(from)(to as int)[0] == m);
    lemma_flat_has(squares_of(targets), quiet_move(from), to as int, m);
}

/// The moves of a piece on a square of `x` are among the moves of all the pieces of `x`.
proof fn lemma_piece_has(x: u64, s: Square, f: spec_fn(int) -> Seq<Move>, m: Move)
    requires
        has_bit(x, s as int),
        f(s as int).contains(m),
    ensures
        flat_moves(squares_of(x), f).contains(m),
{
    lemma_squares_of(x);
    lemma_flat_has(squares_of(x), f, s as int, m);
}

/// A square in `x` and not in `own` is in `x & !own`.
proof fn lemma_off_own(x: u64, own: u64, t: int)
    requires
        0 <= t < 64,
        has_bit(x, t),
        !has_bit(own, t),
    ensures
        has_bit(x & !own, t),
{
    lemma_bits(x, !own);
    lemma_bits(own, own);
}

/// Every part of the pseudo-legal moves (each kind of piece, the king, the pawn advances and
/// the pawn captures) is among them.
proof fn lemma_parts_in_pseudolegal(mg: MoveGen, bbs: Seq<u64>, c: Color, flags: u8)
    ensures
        forall|m: Move| flat_moves(squares_of(pieces(bbs, Piece::Knight, c)), MoveGen::knight_moves_from(bbs, c)).contains(m)
            || flat_moves(squares_of(pieces(bbs, Piece::Bishop, c)), mg.bishop_moves_from(bbs, c)).contains(m)
            || flat_moves(squares_of(pieces(bbs, Piece::Rook, c)), mg.rook_moves_from(bbs, c)).contains(m)
            || flat_moves(squares_of(pieces(bbs, Piece::Queen, c)), mg.queen_moves_from(bbs, c)).contains(m)
            || flat_moves(
                squares_of(MoveGen::king_targets(bbs, c, MoveGen::king_square(bbs, c))),
                quiet_move(Square::from_index(MoveGen::king_square(bbs, c))),
            ).contains(m)
            || MoveGen::pawn_pushes(bbs, c).contains(m)
            || pawn_capture_seq(bbs, c, c, flags).contains(m)
            ==> #[trigger] mg.pseudolegal(bbs, c, flags).contains(m),
{
    let a1 = flat_moves(squares_of(pieces(bbs, Piece::Knight, c)), MoveGen::knight_moves_from(bbs, c));
    let a2 = flat_moves(squares_of(pieces(bbs, Piece::Bishop, c)), mg.bishop_moves_from(bbs, c));
    let a3 = flat_moves(squares_of(pieces(bbs, Piece::Rook, c)), mg.rook_moves_from(bbs, c));
    let a4 = flat_moves(squares_of(pieces(bbs, Piece::Queen, c)), mg.queen_moves_from(bbs, c));
    let a5 = flat_moves(
        squares_of(MoveGen::king_targets(bbs, c, MoveGen::king_square(bbs, c))),
        quiet_move(Square::from_index(MoveGen::king_square(bbs, c))),
    );
    let a6 = MoveGen::pawn_pushes(bbs, c);
    let a7 = pawn_capture_seq(bbs, c, c, flags);
    assert(mg.pseudolegal(bbs, c, flags) == a1 + a2 + a3 + a4 + a5 + a6 + a7);
    assert forall|m: Move| a1.contains(m) || a2.contains(m) || a3.contains(m) || a4.contains(m)
        || a5.contains(m) || a6.contains(m) || a7.contains(m)
        implies #[trigger] mg.pseudolegal(bbs, c, flags).contains(m) by {
        lemma_concat_has(a1, a2, m);
        lemma_concat_has(a1 + a2, a3, m);
        lemma_concat_has(a1 + a2 + a3, a4, m);
        lemma_concat_has(a1 + a2 + a3 + a4, a5, m);
        lemma_concat_has(a1 + a2 + a3 + a4 + a5, a6, m);
        lemma_concat_has(a1 + a2 + a3 + a4 + a5 + a6, a7, m);
    }
}

/// A piece of `c` on `from` whose own-side-free squares include `to` lists the move there.
proof fn lemma_targets_has(bbs: Seq<u64>, c: Color, piece: Piece, reach: u64, f: spec_fn(int) -> Seq<Move>, from: Square, to: Square)
    requires
        bbs.len() == 8,
        has_bit(bbs[piece as int], from as int),
        has_bit(bbs[c as int + 6], from as int),
        !has_bit(bbs[c as int + 6], to as int),
        has_bit(reach, to as int),
        f(from as int) == flat_moves(squares_of(reach & !own(bbs, c)), quiet_move(from)),
    ensures
        flat_moves(squares_of(pieces(bbs, piece, c)), f).contains(Move::spec_new(from, to, None)),
{
    to.lemma_index();
    lemma_bits(bbs[piece as int], bbs[c as int + 6]);
    lemma_off_own(reach, own(bbs, c), to as int);
    lemma_quiet_has(from, reach & !own(bbs, c), to);
    lemma_piece_has(pieces(bbs, piece, c), from, f, Move::spec_new(from, to, None));
}

/// A knight's move to a square of its pattern not held by its own side is generated.
proof fn lemma_knight_complete(mg: MoveGen, bbs: Seq<u64>, c: Color, flags: u8, from: Square, to: Square)
    requires
        bbs.len() == 8,
        has_bit(bbs[c as int + 6], from as int),
        !has_bit(bbs[c as int + 6], to as int),
        has_bit(bbs[Piece::Knight as int], from as int),
        knight_reach(from as int, to as int),
    ensures
        mg.pseudolegal(bbs, c, flags).contains(Move::spec_new(from, to, None)),
{
    let s = from as int;
    from.lemma_index();
    lemma_mask_of_bits(|u: int| knight_reach(s, u));
    lemma_targets_has(bbs, c, Piece::Knight, knight_mask(s), MoveGen::knight_moves_from(bbs, c), from, to);
    lemma_parts_in_pseudolegal(mg, bbs, c, flags);
}

/// A bishop's or queen's move along a diagonal ray to a square not held by its own side is
/// generated, when the lookup for the occupancy is exact.
proof fn lemma_diagonal_complete(mg: MoveGen, bbs: Seq<u64>, c: Color, flags: u8, from: Square, to: Square)
    requires
        mg.tables_usable(),
        bbs.len() == 8,
        has_bit(bbs[c as int + 6], from as int),
        !has_bit(bbs[c as int + 6], to as int),
        has_bit(bbs[Piece::Bishop as int], from as int) || has_bit(bbs[Piece::Queen as int], from as int),
        has_bit(Direction::Diagonal.attacks(from as int, bbs[6] | bbs[7]), to as int),
        (bbs[6] | bbs[7]) & Direction::Diagonal.relevant_mask(from as int)
            != lowest_bit(Direction::Diagonal.relevant_mask(from as int)),
    ensures
        mg.pseudolegal(bbs, c, flags).contains(Move::spec_new(from, to, None)),
{
    let s = from as int;
    let m = Move::spec_new(from, to, None);
    from.lemma_index();
    let occ = occupied(bbs);
    assert(mg.bishop_lookup(s, occ) == Direction::Diagonal.attacks(s, occ));
    let reach = Direction::Diagonal.attacks(s, occ);
    if has_bit(bbs[Piece::Bishop as int], s) {
        lemma_targets_has(bbs, c, Piece::Bishop, reach, mg.bishop_moves_from(bbs, c), from, to);
    } else {
        let g = mg.bishop_moves_from(bbs, c);
        to.lemma_index();
        lemma_off_own(reach, own(bbs, c), to as int);
        lemma_quiet_has(from, reach & !own(bbs, c), to);
        lemma_concat_has(mg.rook_moves_from(bbs, c)(s), g(s), m);
        lemma_bits(bbs[Piece::Queen as int], bbs[c as int + 6]);
        lemma_piece_has(pieces(bbs, Piece::Queen, c), from, mg.queen_moves_from(bbs, c), m);
    }
    lemma_parts_in_pseudolegal(mg, bbs, c, flags);
}

/// A rook's or queen's move along a straight ray to a square not held by its own side is
/// generated, when the lookup for the occupancy is exact.
proof fn lemma_orthogonal_complete(mg: MoveGen, bbs: Seq<u64>, c: Color, flags: u8, from: Square, to: Square)
    requires
        mg.tables_usable(),
        bbs.len() == 8,
        has_bit(bbs[c as int + 6], from as int),
        !has_bit(bbs[c as int + 6], to as int),
        has_bit(bbs[Piece::Rook as int], from as int) || has_bit(bbs[Piece::Queen as int], from as int),
        has_bit(Direction::Orthogonal.attacks(from as int, bbs[6] | bbs[7]), to as int),
        (bbs[6] | bbs[7]) & Direction::Orthogonal.relevant_mask(from as int)
            != lowest_bit(Direction::Orthogonal.relevant_mask(from as int)),
    ensures
        mg.pseudolegal(bbs, c, flags).contains(Move::spec_new(from, to, None)),
{
    let s = from as int;
    let m = Move::spec_new(from, to, None);
    from.lemma_index();
    let occ = occupied(bbs);
    assert(mg.rook_lookup(s, occ) == Direction::Orthogonal.attacks(s, occ));
    let reach = Direction::Orthogonal.attacks(s, occ);
    if has_bit(bbs[Piece::Rook as int], s) {
        lemma_targets_has(bbs, c, Piece::Rook, reach, mg.rook_moves_from(bbs, c), from, to);
    } else {
        let g = mg.rook_moves_from(bbs, c);
        to.lemma_index();
        lemma_off_own(reach, own(bbs, c), to as int);
        lemma_quiet_has(from, reach & !own(bbs, c), to);
        lemma_concat_has(g(s), mg.bishop_moves_from(bbs, c)(s), m);
        lemma_bits(bbs[Piece::Queen as int], bbs[c as int + 6]);
        lemma_piece_has(pieces(bbs, Piece::Queen, c), from, mg.queen_moves_from(bbs, c), m);
    }
    lemma_parts_in_pseudolegal(mg, bbs, c, flags);
}

/// The only king of a side gets the move to each neighbouring square its side does not hold.
proof fn lemma_king_complete(mg: MoveGen, bbs: Seq<u64>, c: Color, flags: u8, from: Square, to: Square)
    requires
        bbs.len() == 8,
        !has_bit(bbs[c as int + 6], to as int),
        bbs[Piece::King as int] & bbs[c as int + 6] == 1u64 << (from as u64),
        king_reach(from as int, to as int),
    ensures
        mg.pseudolegal(bbs, c, flags).contains(Move::spec_new(from, to, None)),
{
    let s = from as int;
    from.lemma_index();
    to.lemma_index();
    let kb = pieces(bbs, Piece::King, c);
    crate::board::bitboard::lemma_single(s);
    assert(has_bit(kb, s));
    lemma_bits(0u64, 0u64);
    assert(kb != 0);
    lemma_clear_lowest(kb);
    assert(MoveGen::king_square(bbs, c) == s);
    assert(Square::from_index(s) == from);
    lemma_mask_of_bits(|u: int| king_reach(s, u));
    lemma_off_own(king_mask(s), own(bbs, c), to as int);
    lemma_quiet_has(from, MoveGen::king_targets(bbs, c, s), to);
    lemma_parts_in_pseudolegal(mg, bbs, c, flags);
}

/// Law: generation is complete for the pieces. A knight, bishop, rook or queen of the side to
/// move on `from` gets the plain move to every square `to` that its move pattern reaches and
/// that holds no piece of its own side; a slider reaches the squares of its rays up to and
/// including the first occupied square (for every occupancy but the one blocker set per square
/// that the tables leave out). The king gets the same for its neighbouring squares when it is
/// its side's only king.
#[verifier::spinoff_prover]
pub proof fn lemma_pseudolegal_complete(mg: MoveGen, bbs: Seq<u64>, c: Color, flags: u8, from: Square, to: Square)
    requires
        mg.tables_usable(),
        bbs.len() == 8,
        has_bit(bbs[c as int + 6], from as int),
        !has_bit(bbs[c as int + 6], to as int),
    ensures
        has_bit(bbs[Piece::Knight as int], from as int) && knight_reach(from as int, to as int)
            ==> mg.pseudolegal(bbs, c, flags).contains(Move::spec_new(from, to, None)),
        has_bit(bbs[Piece::Bishop as int], from as int)
            && has_bit(Direction::Diagonal.attacks(from as int, bbs[6] | bbs[7]), to as int)
            && (bbs[6] | bbs[7]) & Direction::Diagonal.relevant_mask(from as int)
                != lowest_bit(Direction::Diagonal.relevant_mask(from as int))
            ==> mg.pseudolegal(bbs, c, flags).contains(Move::spec_new(from, to, None)),
        has_bit(bbs[Piece::Rook as int], from as int)
            && has_bit(Direction::Orthogonal.attacks(from as int, bbs[6] | bbs[7]), to as int)
            && (bbs[6] | bbs[7]) & Direction::Orthogonal.relevant_mask(from as int)
                != lowest_bit(Direction::Orthogonal.relevant_mask(from as int))
            ==> mg.pseudolegal(bbs, c, flags).contains(Move::spec_new(from, to, None)),
        has_bit(bbs[Piece::Queen as int], from as int)
            && has_bit(Direction::Orthogonal.attacks(from as int, bbs[6] | bbs[7]), to as int)
            && (bbs[6] | bbs[7]) & Direction::Orthogonal.relevant_mask(from as int)
                != lowest_bit(Direction::Orthogonal.relevant_mask(from as int))
            ==> mg.pseudolegal(bbs, c, flags).contains(Move::spec_new(from, to, None)),
        has_bit(bbs[Piece::Queen as int], from as int)
            && has_bit(Direction::Diagonal.attacks(from as int, bbs[6] | bbs[7]), to as int)
            && (bbs[6] | bbs[7]) & Direction::Diagonal.relevant_mask(from as int)
                != lowest_bit(Direction::Diagonal.relevant_mask(from as int))
            ==> mg.pseudolegal(bbs, c, flags).contains(Move::spec_new(from, to, None)),
        bbs[Piece::King as int] & bbs[c as int + 6] == 1u64 << (from as u64) && king_reach(from as int, to as int)
            ==> mg.pseudolegal(bbs, c, flags).contains(Move::spec_new(from, to, None)),
{
    if has_bit(bbs[Piece::Knight as int], from as int) && knight_reach(from as int, to as int) {
        lemma_knight_complete(mg, bbs, c, flags, from, to);
    }
    if (has_bit(bbs[Piece::Bishop as int], from as int) || has_bit(bbs[Piece::Queen as int], from as int))
        && has_bit(Direction::Diagonal.attacks(from as int, bbs[6] | bbs[7]), to as int)
        && (bbs[6] | bbs[7]) & Direction::Diagonal.relevant_mask(from as int)
            != lowest_bit(Direction::Diagonal.relevant_mask(from as int)) {
        lemma_diagonal_complete(mg, bbs, c, flags, from, to);
    }
    if (has_bit(bbs[Piece::Rook as int], from as int) || has_bit(bbs[Piece::Queen as int], from as int))
        && has_bit(Direction::Orthogonal.attacks(from as int, bbs[6] | bbs[7]), to as int)
        && (bbs[6] | bbs[7]) & Direction::Orthogonal.relevant_mask(from as int)
            != lowest_bit(Direction::Orthogonal.relevant_mask(from as int)) {
        lemma_orthogonal_complete(mg, bbs, c, flags, from, to);
    }
    if bbs[Piece::King as int] & bbs[c as int + 6] == 1u64 << (from as u64) && king_reach(from as int, to as int) {
        lemma_king_complete(mg, bbs, c, flags, from, to);
    }
}

/// `ps` holds the pawn moves from `from` to `to`: the plain move when `to` is below the last
/// rank, and the four promotions (knight, bishop, rook, queen) when it is on the first or last.
pub open spec fn pawn_arrivals_in(ps: Seq<Move>, from: Square, to: Square) -> bool {
    if 8 <= to as int && (to as int) < 56 {
        ps.contains(Move::spec_new(from, to, None))
    } else {
        &&& ps.contains(Move::spec_new(from, to, Some(Piece::Knight)))
        &&& ps.contains(Move::spec_new(from, to, Some(Piece::Bishop)))
        &&& ps.contains(Move::spec_new(from, to, Some(Piece::Rook)))
        &&& ps.contains(Move::spec_new(from, to, Some(Piece::Queen)))
    }
}

/// Every move of square `i` is among the moves of a list of squares that holds `i`.
proof fn lemma_flat_covers(sqs: Seq<int>, f: spec_fn(int) -> Seq<Move>, i: int)
    requires
        sqs.contains(i),
    ensures
        forall|m: Move| f(i).contains(m) ==> #[trigger] flat_moves(sqs, f).contains(m),
{
    assert forall|m: Move| f(i).contains(m) implies #[trigger] flat_moves(sqs, f).contains(m) by {
        lemma_flat_has(sqs, f, i, m);
    }
}

/// The pawn moves from `from` to a square of `x` are among the pawn moves to `x`.
proof fn lemma_pawn_to_has(from: Square, x: u64, to: Square)
    requires
        has_bit(x, to as int),
    ensures
        pawn_arrivals_in(flat_moves(squares_of(x), pawn_move_to(from)), from, to),
{
    lemma_squares_of(x);
    to.lemma_index();
    let f = pawn_move_to(from);
    let q = f(to as int);
    assert(q == pawn_move_seq(from, to));
    lemma_flat_covers(squares_of(x), f, to as int);
    if 8 <= to as int && (to as int) < 56 {
        assert(q[0] == Move::spec_new(from, to, None));
    } else {
        assert(q[0] == Move::spec_new(from, to, Some(Piece::Knight)));
        assert(q[1] == Move::spec_new(from, to, Some(Piece::Bishop)));
        assert(q[2] == Move::spec_new(from, to, Some(Piece::Rook)));
        assert(q[3] == Move::spec_new(from, to, Some(Piece::Queen)));
    }
}

/// The start ranks of the pawns as sets.
proof fn lemma_start_ranks(t: u64)
    by (bit_vector)
    requires
        t < 64,
    ensures
        ((0xff00u64 >> t) & 1u64 == 1u64) == (8 <= t < 16),
        ((0x00ff000000000000u64 >> t) & 1u64 == 1u64) == (48 <= t < 56),
{
}

/// A pawn of `c` on `from` advancing one rank onto the empty square `to` gets its moves.
proof fn lemma_single_push_complete(mg: MoveGen, bbs: Seq<u64>, c: Color, flags: u8, from: Square, to: Square)
    requires
        bbs.len() == 8,
        has_bit(bbs[Piece::Pawn as int], from as int),
        has_bit(bbs[c as int + 6], from as int),
        to as int == from as int + (if c == Color::White { 8int } else { -8int }),
        !has_bit(bbs[6] | bbs[7], to as int),
    ensures
        pawn_arrivals_in(mg.pseudolegal(bbs, c, flags), from, to),
{
    let s = from as int;
    let t = to as int;
    from.lemma_index();
    to.lemma_index();
    let pawns = pieces(bbs, Piece::Pawn, c);
    let occ = occupied(bbs);
    lemma_bits(bbs[Piece::Pawn as int], bbs[c as int + 6]);
    lemma_shift8(pawns);
    let x = MoveGen::single_targets(bbs, c);
    if c == Color::White {
        lemma_off_own(pawns << 8u8, occ, t);
    } else {
        lemma_off_own(pawns >> 8u8, occ, t);
    }
    assert(has_bit(x, t));
    lemma_squares_of(x);
    let f = MoveGen::single_push(c);
    assert(Square::from_index(t - MoveGen::pawn_step(c)) == from);
    assert(Square::from_index(t) == to);
    lemma_flat_covers(squares_of(x), f, t);
    let q = f(t);
    assert(q == pawn_move_seq(from, to));
    if 8 <= t && t < 56 {
        assert(q[0] == Move::spec_new(from, to, None));
    } else {
        assert(q[0] == Move::spec_new(from, to, Some(Piece::Knight)));
        assert(q[1] == Move::spec_new(from, to, Some(Piece::Bishop)));
        assert(q[2] == Move::spec_new(from, to, Some(Piece::Rook)));
        assert(q[3] == Move::spec_new(from, to, Some(Piece::Queen)));
    }
    let a = flat_moves(squares_of(x), f);
    let b = flat_moves(squares_of(MoveGen::double_targets(bbs, c)), MoveGen::double_push(c));
    assert forall|m: Move| a.contains(m) implies #[trigger] MoveGen::pawn_pushes(bbs, c).contains(m) by {
        lemma_concat_has(a, b, m);
    }
    lemma_parts_in_pseudolegal(mg, bbs, c, flags);
}

/// A pawn of `c` on its start rank advancing two ranks over an empty square onto the empty
/// square `to` gets the plain move there.
proof fn lemma_double_push_complete(mg: MoveGen, bbs: Seq<u64>, c: Color, flags: u8, from: Square, to: Square)
    requires
        bbs.len() == 8,
        has_bit(bbs[Piece::Pawn as int], from as int),
        has_bit(bbs[c as int + 6], from as int),
        if c == Color::White { 8 <= from as int && (from as int) < 16 } else { 48 <= from as int && (from as int) < 56 },
        to as int == from as int + (if c == Color::White { 16int } else { -16int }),
        !has_bit(bbs[6] | bbs[7], from as int + (if c == Color::White { 8int } else { -8int })),
        !has_bit(bbs[6] | bbs[7], to as int),
    ensures
        mg.pseudolegal(bbs, c, flags).contains(Move::spec_new(from, to, None)),
{
    let s = from as int;
    let t = to as int;
    let mid = s + (if c == Color::White { 8int } else { -8int });
    from.lemma_index();
    to.lemma_index();
    let pawns = pieces(bbs, Piece::Pawn, c);
    let occ = occupied(bbs);
    let start: u64 = if c == Color::White { 0xff00u64 } else { 0x00ff000000000000u64 };
    let unmoved = pawns & start;
    lemma_start_ranks(s as u64);
    lemma_bits(bbs[Piece::Pawn as int], bbs[c as int + 6]);
    lemma_bits(pawns, start);
    assert(has_bit(unmoved, s));
    lemma_shift8(unmoved);
    let step1 = if c == Color::White { (unmoved << 8u8) & !occ } else { (unmoved >> 8u8) & !occ };
    if c == Color::White {
        lemma_off_own(unmoved << 8u8, occ, mid);
    } else {
        lemma_off_own(unmoved >> 8u8, occ, mid);
    }
    assert(has_bit(step1, mid));
    lemma_shift8(step1);
    if c == Color::White {
        lemma_off_own(step1 << 8u8, occ, t);
    } else {
        lemma_off_own(step1 >> 8u8, occ, t);
    }
    let x = MoveGen::double_targets(bbs, c);
    assert(has_bit(x, t));
    lemma_squares_of(x);
    let f = MoveGen::double_push(c);
    assert(Square::from_index(t - 2 * MoveGen::pawn_step(c)) == from);
    assert(Square::from_index(t) == to);
    let m = Move::spec_new(from, to, None);
    assert(f(t)[0] == m);
    lemma_flat_has(squares_of(x), f, t, m);
    let a = flat_moves(squares_of(MoveGen::single_targets(bbs, c)), MoveGen::single_push(c));
    lemma_concat_has(a, flat_moves(squares_of(x), f), m);
    lemma_parts_in_pseudolegal(mg, bbs, c, flags);
}

/// A pawn of `c` on `from` taking on a square `to` it attacks, where an enemy piece stands or
/// which is the en passant square, gets its moves.
proof fn lemma_pawn_capture_complete(mg: MoveGen, bbs: Seq<u64>, c: Color, flags: u8, from: Square, to: Square)
    requires
        bbs.len() == 8,
        has_bit(bbs[Piece::Pawn as int], from as int),
        has_bit(bbs[c as int + 6], from as int),
        pawn_reach(from as int, c, to as int),
        has_bit(bbs[c.spec_inverse() as int + 6], to as int) || en_passant_square_in(c, flags) == Some(to),
    ensures
        pawn_arrivals_in(mg.pseudolegal(bbs, c, flags), from, to),
{
    let s = from as int;
    let t = to as int;
    from.lemma_index();
    to.lemma_index();
    let ep = ep_mask(c, flags);
    let pm = pawn_mask(s, c);
    let enemy = own(bbs, c.spec_inverse());
    lemma_mask_of_bits(|u: int| pawn_reach(s, c, u));
    lemma_bits(pm & enemy, pm & ep);
    lemma_bits(pm, enemy);
    lemma_bits(pm, ep);
    if en_passant_square_in(c, flags) == Some(to) {
        crate::board::bitboard::lemma_single(t);
    }
    let x = capture_targets(bbs, c, ep, s);
    assert(has_bit(x, t));
    assert(Square::from_index(s) == from);
    lemma_pawn_to_has(from, x, to);
    let f = capture_moves(bbs, c, ep);
    lemma_bits(bbs[Piece::Pawn as int], bbs[c as int + 6]);
    lemma_squares_of(pieces(bbs, Piece::Pawn, c));
    lemma_flat_covers(squares_of(pieces(bbs, Piece::Pawn, c)), f, s);
    lemma_parts_in_pseudolegal(mg, bbs, c, flags);
}

/// Law: generation is complete for the pawns. A pawn of the side to move on `from` gets its
/// moves to `to` (the plain move below the last rank, the four promotions on it) when `to` is
/// the empty square one rank ahead, or a square it attacks that holds a piece of the other side
/// or is the en passant square; and a pawn on its start rank gets the plain move two ranks
/// ahead when both squares ahead are empty.
pub proof fn lemma_pawns_complete(mg: MoveGen, bbs: Seq<u64>, c: Color, flags: u8, from: Square, to: Square)
    requires
        bbs.len() == 8,
        has_bit(bbs[Piece::Pawn as int], from as int),
        has_bit(bbs[c as int + 6], from as int),
    ensures
        to as int == from as int + (if c == Color::White { 8int } else { -8int })
            && !has_bit(bbs[6] | bbs[7], to as int)
            ==> pawn_arrivals_in(mg.pseudolegal(bbs, c, flags), from, to),
        (if c == Color::White { 8 <= from as int && (from as int) < 16 } else { 48 <= from as int && (from as int) < 56 })
            && to as int == from as int + (if c == Color::White { 16int } else { -16int })
            && !has_bit(bbs[6] | bbs[7], from as int + (if c == Color::White { 8int } else { -8int }))
            && !has_bit(bbs[6] | bbs[7], to as int)
            ==> mg.pseudolegal(bbs, c, flags).contains(Move::spec_new(from, to, None)),
        pawn_reach(from as int, c, to as int)
            && (has_bit(bbs[c.spec_inverse() as int + 6], to as int) || en_passant_square_in(c, flags) == Some(to))
            ==> pawn_arrivals_in(mg.pseudolegal(bbs, c, flags), from, to),
{
    if to as int == from as int + (if c == Color::White { 8int } else { -8int })
        && !has_bit(bbs[6] | bbs[7], to as int) {
        lemma_single_push_complete(mg, bbs, c, flags, from, to);
    }
    if (if c == Color::White { 8 <= from as int && (from as int) < 16 } else { 48 <= from as int && (from as int) < 56 })
        && to as int == from as int + (if c == Color::White { 16int } else { -16int })
        && !has_bit(bbs[6] | bbs[7], from as int + (if c == Color::White { 8int } else { -8int }))
        && !has_bit(bbs[6] | bbs[7], to as int) {
        lemma_double_push_complete(mg, bbs, c, flags, from, to);
    }
    if pawn_reach(from as int, c, to as int)
        && (has_bit(bbs[c.spec_inverse() as int + 6], to as int) || en_passant_square_in(c, flags) == Some(to)) {
        lemma_pawn_capture_complete(mg, bbs, c, flags, from, to);
    }
}

/// The promotions a pawn arriving on `to` may make: none below the last rank, a knight, bishop,
/// rook or queen on the first or last rank.
pub open spec fn promotion_fits(to: Square, p: Option<Piece>) -> bool {
    if 8 <= to as int && (to as int) < 56 {
        p is None
    } else {
        p == Some(Piece::Knight) || p == Some(Piece::Bishop) || p == Some(Piece::Rook) || p == Some(Piece::Queen)
    }
}

/// The rules by which a piece of side `c` moves from `from` to `to` promoting to `p`, on
/// bitboards `bbs` with flags `flags`: a knight, bishop, rook, queen or king of `c` on `from`
/// moves by its pattern to a square its side does not hold, without promotion (a slider along
/// its rays up to the first occupied square, wherever its lookup is exact); a pawn of `c`
/// advances one rank onto an empty square, two ranks from its start rank over an empty square
/// onto an empty one, or takes on a square it attacks that holds a piece of the other side or is
/// the en passant square, promoting exactly when it arrives on the first or last rank.
pub open spec fn follows_pattern(bbs: Seq<u64>, c: Color, flags: u8, from: Square, to: Square, p: Option<Piece>) -> bool {
    let s = from as int;
    let t = to as int;
    let occ = bbs[6] | bbs[7];
    let own_t = has_bit(bbs[c as int + 6], t);
    let step = if c == Color::White { 8int } else { -8int };
    let diag = Direction::Diagonal.relevant_mask(s);
    let orth = Direction::Orthogonal.relevant_mask(s);
    &&& has_bit(bbs[c as int + 6], s)
    &&& {
        ||| has_bit(bbs[Piece::Knight as int], s) && knight_reach(s, t) && !own_t && p is None
        ||| (has_bit(bbs[Piece::Bishop as int], s) || has_bit(bbs[Piece::Queen as int], s)) && !own_t && p is None
            && (occ & diag != lowest_bit(diag) ==> has_bit(Direction::Diagonal.attacks(s, occ), t))
        ||| (has_bit(bbs[Piece::Rook as int], s) || has_bit(bbs[Piece::Queen as int], s)) && !own_t && p is None
            && (occ & orth != lowest_bit(orth) ==> has_bit(Direction::Orthogonal.attacks(s, occ), t))
        ||| has_bit(bbs[Piece::King as int], s) && king_reach(s, t) && !own_t && p is None
        ||| has_bit(bbs[Piece::Pawn as int], s) && promotion_fits(to, p) && {
            ||| t == s + step && !has_bit(occ, t)
            ||| (if c == Color::White { 8 <= s < 16 } else { 48 <= s < 56 }) && t == s + 2 * step
                && !has_bit(occ, s + step) && !has_bit(occ, t)
            ||| pawn_reach(s, c, t) && (has_bit(bbs[c.spec_inverse() as int + 6], t) || en_passant_square_in(c, flags) == Some(to))
        }
    }
}

/// `m` is a move the rules of movement give a piece of side `c`.
pub open spec fn patterned(bbs: Seq<u64>, c: Color, flags: u8, m: Move) -> bool {
    exists|from: Square, to: Square, p: Option<Piece>|
        #[trigger] follows_pattern(bbs, c, flags, from, to, p) && m == Move::spec_new(from, to, p)
}

/// A move of a concatenation is a move of one of its parts.
proof fn lemma_concat_in(a: Seq<Move>, b: Seq<Move>, m: Move)
    ensures
        (a + b).contains(m) ==> a.contains(m) || b.contains(m),
{
    if (a + b).contains(m) {
        let k = choose|k: int| 0 <= k < (a + b).len() && (a + b)[k] == m;
        if k < a.len() {
            assert(a[k] == m);
        } else {
            assert(b[k - a.len()] == m);
        }
    }
}

/// A move of the moves of the squares `sqs` is a move of one of those squares.
proof fn lemma_flat_in(sqs: Seq<int>, f: spec_fn(int) -> Seq<Move>, m: Move)
    requires
        flat_moves(sqs, f).contains(m),
    ensures
        exists|i: int| sqs.contains(i) && #[trigger] f(i).contains(m),
    decreases sqs.len(),
{
    let rest = sqs.drop_first();
    lemma_concat_in(f(sqs[0]), flat_moves(rest, f), m);
    if f(sqs[0]).contains(m) {
        assert(sqs.contains(sqs[0]));
    } else {
        lemma_flat_in(rest, f, m);
        let i = choose|i: int| rest.contains(i) && #[trigger] f(i).contains(m);
        let k = choose|k: int| 0 <= k < rest.len() && rest[k] == i;
        assert(sqs[k + 1] == i);
    }
}

/// A plain move to a square of `targets` is the move from `src` to that square.
proof fn lemma_quiet_in(src: Square, targets: u64, m: Move)
    requires
        flat_moves(squares_of(targets), quiet_move(src)).contains(m),
    ensures
        exists|t: int| 0 <= t < 64 && has_bit(targets, t) && m == #[trigger] Move::spec_new(src, Square::from_index(t), None),
{
    lemma_flat_in(squares_of(targets), quiet_move(src), m);
    lemma_squares_of(targets);
    let t = choose|t: int| squares_of(targets).contains(t) && #[trigger] quiet_move(src)(t).contains(m);
    let k = choose|k: int| 0 <= k < squares_of(targets).len() && squares_of(targets)[k] == t;
    assert(0 <= squares_of(targets)[k] < 64);
    assert(quiet_move(src)(t)[0] == m);
}

/// A move of a piece on a square of `x` is a move of a piece on a square of `x`.
proof fn lemma_pieces_in(x: u64, f: spec_fn(int) -> Seq<Move>, m: Move)
    requires
        flat_moves(squares_of(x), f).contains(m),
    ensures
        exists|i: int| 0 <= i < 64 && has_bit(x, i) && #[trigger] f(i).contains(m),
{
    lemma_flat_in(squares_of(x), f, m);
    lemma_squares_of(x);
    let i = choose|i: int| squares_of(x).contains(i) && #[trigger] f(i).contains(m);
    let k = choose|k: int| 0 <= k < squares_of(x).len() && squares_of(x)[k] == i;
    assert(0 <= squares_of(x)[k] < 64);
}

/// A pawn move from `from` to `to` promotes as the arrival square asks.
proof fn lemma_pawn_seq_in(from: Square, to: Square, m: Move)
    requires
        pawn_move_seq(from, to).contains(m),
    ensures
        exists|p: Option<Piece>| promotion_fits(to, p) && m == #[trigger] Move::spec_new(from, to, p),
{
    let q = pawn_move_seq(from, to);
    let k = choose|k: int| 0 <= k < q.len() && q[k] == m;
    if 8 <= to as int && (to as int) < 56 {
        assert(promotion_fits(to, None) && m == Move::spec_new(from, to, None));
    } else if k == 0 {
        assert(promotion_fits(to, Some(Piece::Knight)) && m == Move::spec_new(from, to, Some(Piece::Knight)));
    } else if k == 1 {
        assert(promotion_fits(to, Some(Piece::Bishop)) && m == Move::spec_new(from, to, Some(Piece::Bishop)));
    } else if k == 2 {
        assert(promotion_fits(to, Some(Piece::Rook)) && m == Move::spec_new(from, to, Some(Piece::Rook)));
    } else {
        assert(promotion_fits(to, Some(Piece::Queen)) && m == Move::spec_new(from, to, Some(Piece::Queen)));
    }
}

/// A knight's generated move from square `i` follows the knight's pattern.
proof fn lemma_knight_move_sound(bbs: Seq<u64>, c: Color, flags: u8, i: int, m: Move)
    requires
        bbs.len() == 8,
        0 <= i < 64,
        has_bit(bbs[c as int + 6], i),
        has_bit(bbs[Piece::Knight as int], i),
        MoveGen::knight_moves_from(bbs, c)(i).contains(m),
    ensures
        patterned(bbs, c, flags, m),
{
    let from = Square::from_index(i);
    Square::lemma_from_index(i);
    let targets = MoveGen::knight_targets(bbs, c, i);
    lemma_quiet_in(from, targets, m);
    let t = choose|t: int| 0 <= t < 64 && has_bit(targets, t) && m == #[trigger] Move::spec_new(from, Square::from_index(t), None);
    let to = Square::from_index(t);
    Square::lemma_from_index(t);
    lemma_bits(knight_mask(i), !own(bbs, c));
    lemma_bits(own(bbs, c), own(bbs, c));
    lemma_mask_of_bits(|u: int| knight_reach(i, u));
    assert(follows_pattern(bbs, c, flags, from, to, None));
}

/// A generated diagonal move from square `i` of a bishop or queen runs along its rays.
proof fn lemma_diagonal_move_sound(mg: MoveGen, bbs: Seq<u64>, c: Color, flags: u8, i: int, m: Move)
    requires
        mg.tables_usable(),
        bbs.len() == 8,
        0 <= i < 64,
        has_bit(bbs[c as int + 6], i),
        has_bit(bbs[Piece::Bishop as int], i) || has_bit(bbs[Piece::Queen as int], i),
        mg.bishop_moves_from(bbs, c)(i).contains(m),
    ensures
        patterned(bbs, c, flags, m),
{
    let from = Square::from_index(i);
    Square::lemma_from_index(i);
    let occ = occupied(bbs);
    let look = mg.bishop_lookup(i, occ);
    let targets = mg.bishop_targets(bbs, c, i);
    lemma_quiet_in(from, targets, m);
    let t = choose|t: int| 0 <= t < 64 && has_bit(targets, t) && m == #[trigger] Move::spec_new(from, Square::from_index(t), None);
    let to = Square::from_index(t);
    Square::lemma_from_index(t);
    lemma_bits(look, !own(bbs, c));
    lemma_bits(own(bbs, c), own(bbs, c));
    let diag = Direction::Diagonal.relevant_mask(i);
    if occ & diag != lowest_bit(diag) {
        assert(look == Direction::Diagonal.attacks(i, occ));
    }
    assert(follows_pattern(bbs, c, flags, from, to, None));
}

/// A generated straight move from square `i` of a rook or queen runs along its rays.
proof fn lemma_orthogonal_move_sound(mg: MoveGen, bbs: Seq<u64>, c: Color, flags: u8, i: int, m: Move)
    requires
        mg.tables_usable(),
        bbs.len() == 8,
        0 <= i < 64,
        has_bit(bbs[c as int + 6], i),
        has_bit(bbs[Piece::Rook as int], i) || has_bit(bbs[Piece::Queen as int], i),
        mg.rook_moves_from(bbs, c)(i).contains(m),
    ensures
        patterned(bbs, c, flags, m),
{
    let from = Square::from_index(i);
    Square::lemma_from_index(i);
    let occ = occupied(bbs);
    let look = mg.rook_lookup(i, occ);
    let targets = mg.rook_targets(bbs, c, i);
    lemma_quiet_in(from, targets, m);
    let t = choose|t: int| 0 <= t < 64 && has_bit(targets, t) && m == #[trigger] Move::spec_new(from, Square::from_index(t), None);
    let to = Square::from_index(t);
    Square::lemma_from_index(t);
    lemma_bits(look, !own(bbs, c));
    lemma_bits(own(bbs, c), own(bbs, c));
    let orth = Direction::Orthogonal.relevant_mask(i);
    if occ & orth != lowest_bit(orth) {
        assert(look == Direction::Orthogonal.attacks(i, occ));
    }
    assert(follows_pattern(bbs, c, flags, from, to, None));
}

/// The generated moves of the knights, bishops, rooks and queens follow their patterns.
proof fn lemma_pieces_sound(mg: MoveGen, bbs: Seq<u64>, c: Color, flags: u8, m: Move)
    requires
        mg.tables_usable(),
        bbs.len() == 8,
    ensures
        flat_moves(squares_of(pieces(bbs, Piece::Knight, c)), MoveGen::knight_moves_from(bbs, c)).contains(m)
            || flat_moves(squares_of(pieces(bbs, Piece::Bishop, c)), mg.bishop_moves_from(bbs, c)).contains(m)
            || flat_moves(squares_of(pieces(bbs, Piece::Rook, c)), mg.rook_moves_from(bbs, c)).contains(m)
            || flat_moves(squares_of(pieces(bbs, Piece::Queen, c)), mg.queen_moves_from(bbs, c)).contains(m)
            ==> patterned(bbs, c, flags, m),
{
    let own_c = bbs[c as int + 6];
    if flat_moves(squares_of(pieces(bbs, Piece::Knight, c)), MoveGen::knight_moves_from(bbs, c)).contains(m) {
        let f = MoveGen::knight_moves_from(bbs, c);
        lemma_pieces_in(pieces(bbs, Piece::Knight, c), f, m);
        let i = choose|i: int| 0 <= i < 64 && has_bit(pieces(bbs, Piece::Knight, c), i) && #[trigger] f(i).contains(m);
        lemma_bits(bbs[Piece::Knight as int], own_c);
        lemma_knight_move_sound(bbs, c, flags, i, m);
    }
    if flat_moves(squares_of(pieces(bbs, Piece::Bishop, c)), mg.bishop_moves_from(bbs, c)).contains(m) {
        let f = mg.bishop_moves_from(bbs, c);
        lemma_pieces_in(pieces(bbs, Piece::Bishop, c), f, m);
        let i = choose|i: int| 0 <= i < 64 && has_bit(pieces(bbs, Piece::Bishop, c), i) && #[trigger] f(i).contains(m);
        lemma_bits(bbs[Piece::Bishop as int], own_c);
        lemma_diagonal_move_sound(mg, bbs, c, flags, i, m);
    }
    if flat_moves(squares_of(pieces(bbs, Piece::Rook, c)), mg.rook_moves_from(bbs, c)).contains(m) {
        let f = mg.rook_moves_from(bbs, c);
        lemma_pieces_in(pieces(bbs, Piece::Rook, c), f, m);
        let i = choose|i: int| 0 <= i < 64 && has_bit(pieces(bbs, Piece::Rook, c), i) && #[trigger] f(i).contains(m);
        lemma_bits(bbs[Piece::Rook as int], own_c);
        lemma_orthogonal_move_sound(mg, bbs, c, flags, i, m);
    }
    if flat_moves(squares_of(pieces(bbs, Piece::Queen, c)), mg.queen_moves_from(bbs, c)).contains(m) {
        let f = mg.queen_moves_from(bbs, c);
        lemma_pieces_in(pieces(bbs, Piece::Queen, c), f, m);
        let i = choose|i: int| 0 <= i < 64 && has_bit(pieces(bbs, Piece::Queen, c), i) && #[trigger] f(i).contains(m);
        lemma_bits(bbs[Piece::Queen as int], own_c);
        lemma_concat_in(mg.rook_moves_from(bbs, c)(i), mg.bishop_moves_from(bbs, c)(i), m);
        if mg.rook_moves_from(bbs, c)(i).contains(m) {
            lemma_orthogonal_move_sound(mg, bbs, c, flags, i, m);
        } else {
            lemma_diagonal_move_sound(mg, bbs, c, flags, i, m);
        }
    }
}

/// The generated king moves follow the king's pattern.
proof fn lemma_king_sound(bbs: Seq<u64>, c: Color, flags: u8, m: Move)
    requires
        bbs.len() == 8,
        pieces(bbs, Piece::King, c) != 0,
        flat_moves(
            squares_of(MoveGen::king_targets(bbs, c, MoveGen::king_square(bbs, c))),
            quiet_move(Square::from_index(MoveGen::king_square(bbs, c))),
        ).contains(m),
    ensures
        patterned(bbs, c, flags, m),
{
    let kb = pieces(bbs, Piece::King, c);
    lemma_clear_lowest(kb);
    let i = MoveGen::king_square(bbs, c);
    lemma_bits(bbs[Piece::King as int], bbs[c as int + 6]);
    let from = Square::from_index(i);
    Square::lemma_from_index(i);
    let targets = MoveGen::king_targets(bbs, c, i);
    lemma_quiet_in(from, targets, m);
    let t = choose|t: int| 0 <= t < 64 && has_bit(targets, t) && m == #[trigger] Move::spec_new(from, Square::from_index(t), None);
    let to = Square::from_index(t);
    Square::lemma_from_index(t);
    lemma_bits(king_mask(i), !own(bbs, c));
    lemma_bits(own(bbs, c), own(bbs, c));
    lemma_mask_of_bits(|u: int| king_reach(i, u));
    assert(follows_pattern(bbs, c, flags, from, to, None));
}

/// The generated single pawn advances follow the pawns' pattern.
proof fn lemma_single_push_sound(bbs: Seq<u64>, c: Color, flags: u8, m: Move)
    requires
        bbs.len() == 8,
        flat_moves(squares_of(MoveGen::single_targets(bbs, c)), MoveGen::single_push(c)).contains(m),
    ensures
        patterned(bbs, c, flags, m),
{
    let x = MoveGen::single_targets(bbs, c);
    let f = MoveGen::single_push(c);
    lemma_pieces_in(x, f, m);
    let t = choose|t: int| 0 <= t < 64 && has_bit(x, t) && #[trigger] f(t).contains(m);
    let pawns = pieces(bbs, Piece::Pawn, c);
    let occ = occupied(bbs);
    lemma_shift8(pawns);
    lemma_bits(occ, occ);
    if c == Color::White {
        lemma_bits(pawns << 8u8, !occ);
    } else {
        lemma_bits(pawns >> 8u8, !occ);
    }
    let step = if c == Color::White { 8int } else { -8int };
    let s = t - step;
    assert(has_bit(pawns, s));
    lemma_bits(bbs[Piece::Pawn as int], bbs[c as int + 6]);
    assert(0 <= s < 64);
    let from = Square::from_index(s);
    let to = Square::from_index(t);
    Square::lemma_from_index(s);
    Square::lemma_from_index(t);
    assert(f(t) == pawn_move_seq(from, to));
    lemma_pawn_seq_in(from, to, m);
    let p = choose|p: Option<Piece>| promotion_fits(to, p) && m == #[trigger] Move::spec_new(from, to, p);
    assert(follows_pattern(bbs, c, flags, from, to, p));
}

/// The generated double pawn advances follow the pawns' pattern.
proof fn lemma_double_push_sound(bbs: Seq<u64>, c: Color, flags: u8, m: Move)
    requires
        bbs.len() == 8,
        flat_moves(squares_of(MoveGen::double_targets(bbs, c)), MoveGen::double_push(c)).contains(m),
    ensures
        patterned(bbs, c, flags, m),
{
    let x = MoveGen::double_targets(bbs, c);
    let f = MoveGen::double_push(c);
    lemma_pieces_in(x, f, m);
    let t = choose|t: int| 0 <= t < 64 && has_bit(x, t) && #[trigger] f(t).contains(m);
    let pawns = pieces(bbs, Piece::Pawn, c);
    let occ = occupied(bbs);
    let start: u64 = if c == Color::White { 0xff00u64 } else { 0x00ff000000000000u64 };
    let unmoved = pawns & start;
    let step1 = if c == Color::White { (unmoved << 8u8) & !occ } else { (unmoved >> 8u8) & !occ };
    lemma_bits(occ, occ);
    lemma_shift8(unmoved);
    lemma_shift8(step1);
    if c == Color::White {
        lemma_bits(unmoved << 8u8, !occ);
        lemma_bits(step1 << 8u8, !occ);
    } else {
        lemma_bits(unmoved >> 8u8, !occ);
        lemma_bits(step1 >> 8u8, !occ);
    }
    let step = if c == Color::White { 8int } else { -8int };
    let mid = t - step;
    let s = t - 2 * step;
    assert(has_bit(step1, mid));
    assert(!has_bit(occ, mid));
    assert(has_bit(unmoved, s));
    assert(0 <= s < 64);
    lemma_bits(pawns, start);
    lemma_start_ranks(s as u64);
    lemma_bits(bbs[Piece::Pawn as int], bbs[c as int + 6]);
    let from = Square::from_index(s);
    let to = Square::from_index(t);
    Square::lemma_from_index(s);
    Square::lemma_from_index(t);
    assert(f(t)[0] == Move::spec_new(from, to, None));
    assert(m == Move::spec_new(from, to, None));
    assert(promotion_fits(to, None));
    assert(follows_pattern(bbs, c, flags, from, to, None));
}

/// The generated pawn captures follow the pawns' pattern.
proof fn lemma_captures_sound(bbs: Seq<u64>, c: Color, flags: u8, m: Move)
    requires
        bbs.len() == 8,
        pawn_capture_seq(bbs, c, c, flags).contains(m),
    ensures
        patterned(bbs, c, flags, m),
{
    let ep = ep_mask(c, flags);
    let pawns = pieces(bbs, Piece::Pawn, c);
    let g = capture_moves(bbs, c, ep);
    lemma_pieces_in(pawns, g, m);
    let i = choose|i: int| 0 <= i < 64 && has_bit(pawns, i) && #[trigger] g(i).contains(m);
    lemma_bits(bbs[Piece::Pawn as int], bbs[c as int + 6]);
    let from = Square::from_index(i);
    Square::lemma_from_index(i);
    let x = capture_targets(bbs, c, ep, i);
    let h = pawn_move_to(from);
    lemma_pieces_in(x, h, m);
    let t = choose|t: int| 0 <= t < 64 && has_bit(x, t) && #[trigger] h(t).contains(m);
    let to = Square::from_index(t);
    Square::lemma_from_index(t);
    let pm = pawn_mask(i, c);
    let enemy = own(bbs, c.spec_inverse());
    lemma_mask_of_bits(|u: int| pawn_reach(i, c, u));
    lemma_bits(pm & enemy, pm & ep);
    lemma_bits(pm, enemy);
    lemma_bits(pm, ep);
    lemma_bits(0u64, 0u64);
    if has_bit(pm & ep, t) {
        let sq = en_passant_square_in(c, flags)->0;
        assert(en_passant_square_in(c, flags) is Some);
        sq.lemma_index();
        crate::board::bitboard::lemma_single(sq as int);
        assert(en_passant_square_in(c, flags) == Some(to));
    }
    lemma_pawn_seq_in(from, to, m);
    let p = choose|p: Option<Piece>| promotion_fits(to, p) && m == #[trigger] Move::spec_new(from, to, p);
    assert(follows_pattern(bbs, c, flags, from, to, p));
}

/// Law: generation is sound: every pseudo-legal move of the side to move is one the rules of
/// movement give one of its pieces (`follows_pattern`), from the square the piece stands on.
pub proof fn lemma_pseudolegal_sound(mg: MoveGen, bbs: Seq<u64>, c: Color, flags: u8, m: Move)
    requires
        mg.tables_usable(),
        bbs.len() == 8,
        pieces(bbs, Piece::King, c) != 0,
        mg.pseudolegal(bbs, c, flags).contains(m),
    ensures
        exists|from: Square, to: Square, p: Option<Piece>|
            #[trigger] follows_pattern(bbs, c, flags, from, to, p) && m == Move::spec_new(from, to, p),
{
    let a1 = flat_moves(squares_of(pieces(bbs, Piece::Knight, c)), MoveGen::knight_moves_from(bbs, c));
    let a2 = flat_moves(squares_of(pieces(bbs, Piece::Bishop, c)), mg.bishop_moves_from(bbs, c));
    let a3 = flat_moves(squares_of(pieces(bbs, Piece::Rook, c)), mg.rook_moves_from(bbs, c));
    let a4 = flat_moves(squares_of(pieces(bbs, Piece::Queen, c)), mg.queen_moves_from(bbs, c));
    let a5 = flat_moves(
        squares_of(MoveGen::king_targets(bbs, c, MoveGen::king_square(bbs, c))),
        quiet_move(Square::from_index(MoveGen::king_square(bbs, c))),
    );
    let b1 = flat_moves(squares_of(MoveGen::single_targets(bbs, c)), MoveGen::single_push(c));
    let b2 = flat_moves(squares_of(MoveGen::double_targets(bbs, c)), MoveGen::double_push(c));
    let a6 = MoveGen::pawn_pushes(bbs, c);
    let a7 = pawn_capture_seq(bbs, c, c, flags);
    assert(mg.pseudolegal(bbs, c, flags) == a1 + a2 + a3 + a4 + a5 + a6 + a7);
    assert(a6 == b1 + b2);
    lemma_concat_in(a1 + a2 + a3 + a4 + a5 + a6, a7, m);
    lemma_concat_in(a1 + a2 + a3 + a4 + a5, a6, m);
    lemma_concat_in(a1 + a2 + a3 + a4, a5, m);
    lemma_concat_in(a1 + a2 + a3, a4, m);
    lemma_concat_in(a1 + a2, a3, m);
    lemma_concat_in(a1, a2, m);
    lemma_concat_in(b1, b2, m);
    lemma_pieces_sound(mg, bbs, c, flags, m);
    if a5.contains(m) {
        lemma_king_sound(bbs, c, flags, m);
    }
    if b1.contains(m) {
        lemma_single_push_sound(bbs, c, flags, m);
    }
    if b2.contains(m) {
        lemma_double_push_sound(bbs, c, flags, m);
    }
    if a7.contains(m) {
        lemma_captures_sound(bbs, c, flags, m);
    }
}

/// Two lists without repeats that share no move make a concatenation without repeats.
proof fn lemma_concat_distinct(a: Seq<Move>, b: Seq<Move>)
    requires
        a.no_duplicates(),
        b.no_duplicates(),
        forall|m: Move| a.contains(m) ==> !b.contains(m),
    ensures
        (a + b).no_duplicates(),
{
    let c = a + b;
    assert forall|i: int, j: int| 0 <= i < c.len() && 0 <= j < c.len() && i != j implies c[i] != c[j] by {
        if i < a.len() && j >= a.len() {
            assert(a.contains(c[i]));
            assert(b[j - a.len()] == c[j]);
            assert(b.contains(c[j]));
        } else if j < a.len() && i >= a.len() {
            assert(a.contains(c[j]));
            assert(b[i - a.len()] == c[i]);
            assert(b.contains(c[i]));
        } else if i >= a.len() {
            assert(b[i - a.len()] == c[i]);
            assert(b[j - a.len()] == c[j]);
        }
    }
}

/// The squares of a set come without repeats.
proof fn lemma_squares_distinct(x: u64)
    ensures
        squares_of(x).no_duplicates(),
    decreases x,
{
    if x != 0 {
        lemma_clear_lowest(x);
        let r = clear_lowest(x);
        lemma_squares_distinct(r);
        lemma_squares_of(r);
        let t = u64_trailing_zeros(x) as int;
        assert(squares_of(x) == seq![t] + squares_of(r));
        assert(!squares_of(r).contains(t));
        let q = squares_of(x);
        assert forall|i: int, j: int| 0 <= i < q.len() && 0 <= j < q.len() && i != j implies q[i] != q[j] by {
            if i == 0 {
                assert(squares_of(r)[j - 1] == q[j]);
            } else if j == 0 {
                assert(squares_of(r)[i - 1] == q[i]);
            } else {
                assert(squares_of(r)[i - 1] == q[i]);
                assert(squares_of(r)[j - 1] == q[j]);
            }
        }
    }
}

/// The moves of distinct squares, each move keyed to the square it was listed for, come
/// without repeats when each square's moves do.
proof fn lemma_flat_distinct(sqs: Seq<int>, f: spec_fn(int) -> Seq<Move>, key: spec_fn(Move) -> int)
    requires
        sqs.no_duplicates(),
        forall|i: int| sqs.contains(i) ==> #[trigger] f(i).no_duplicates(),
        forall|i: int, m: Move| sqs.contains(i) && #[trigger] f(i).contains(m) ==> key(m) == i,
    ensures
        flat_moves(sqs, f).no_duplicates(),
    decreases sqs.len(),
{
    if sqs.len() > 0 {
        let rest = sqs.drop_first();
        assert forall|i: int| rest.contains(i) implies sqs.contains(i) by {
            let k = choose|k: int| 0 <= k < rest.len() && rest[k] == i;
            assert(sqs[k + 1] == i);
        }
        lemma_flat_distinct(rest, f, key);
        assert(sqs.contains(sqs[0]));
        assert forall|m: Move| f(sqs[0]).contains(m) implies !flat_moves(rest, f).contains(m) by {
            if flat_moves(rest, f).contains(m) {
                lemma_flat_in(rest, f, m);
                let i = choose|i: int| rest.contains(i) && #[trigger] f(i).contains(m);
                let k = choose|k: int| 0 <= k < rest.len() && rest[k] == i;
                assert(sqs[k + 1] == i);
                assert(key(m) == i);
                assert(key(m) == sqs[0]);
            }
        }
        lemma_concat_distinct(f(sqs[0]), flat_moves(rest, f));
    }
}

/// The plain moves from `src` to the squares of `targets` come without repeats, all from `src`.
proof fn lemma_quiet_distinct(src: Square, targets: u64)
    ensures
        flat_moves(squares_of(targets), quiet_move(src)).no_duplicates(),
        forall|m: Move| #[trigger] flat_moves(squares_of(targets), quiet_move(src)).contains(m)
            ==> m.spec_source() == src && has_bit(targets, m.spec_target() as int),
{
    let f = quiet_move(src);
    let key = |m: Move| m.spec_target() as int;
    lemma_squares_distinct(targets);
    lemma_squares_of(targets);
    assert forall|i: int, m: Move| squares_of(targets).contains(i) && #[trigger] f(i).contains(m) implies key(m) == i by {
        assert(f(i)[0] == m);
        Square::lemma_from_index(i);
        Move::lemma_new(src, Square::from_index(i), None);
    }
    lemma_flat_distinct(squares_of(targets), f, key);
    assert forall|m: Move| #[trigger] flat_moves(squares_of(targets), f).contains(m)
        implies m.spec_source() == src && has_bit(targets, m.spec_target() as int) by {
        lemma_quiet_in(src, targets, m);
        let t = choose|t: int| 0 <= t < 64 && has_bit(targets, t) && m == #[trigger] Move::spec_new(src, Square::from_index(t), None);
        Square::lemma_from_index(t);
        Move::lemma_new(src, Square::from_index(t), None);
    }
}

/// The moves of the pieces on the squares of `x` come without repeats, each from a square of
/// `x`, when each piece's moves come without repeats from its own square.
proof fn lemma_pieces_distinct(x: u64, f: spec_fn(int) -> Seq<Move>)
    requires
        forall|i: int| 0 <= i < 64 && has_bit(x, i) ==> #[trigger] f(i).no_duplicates(),
        forall|i: int, m: Move| 0 <= i < 64 && has_bit(x, i) && #[trigger] f(i).contains(m) ==> m.spec_source() as int == i,
    ensures
        flat_moves(squares_of(x), f).no_duplicates(),
        forall|m: Move| #[trigger] flat_moves(squares_of(x), f).contains(m) ==> has_bit(x, m.spec_source() as int),
{
    lemma_squares_distinct(x);
    lemma_squares_of(x);
    let key = |m: Move| m.spec_source() as int;
    assert forall|i: int| squares_of(x).contains(i) implies #[trigger] f(i).no_duplicates() by {
        assert(has_bit(x, i));
    }
    assert forall|i: int, m: Move| squares_of(x).contains(i) && #[trigger] f(i).contains(m) implies key(m) == i by {
        assert(has_bit(x, i));
    }
    lemma_flat_distinct(squares_of(x), f, key);
    assert forall|m: Move| #[trigger] flat_moves(squares_of(x), f).contains(m) implies has_bit(x, m.spec_source() as int) by {
        lemma_pieces_in(x, f, m);
    }
}

/// The plain moves from square `i` to `targets` come without repeats, from `i`, onto `targets`.
proof fn lemma_quiet_at(i: int, targets: u64)
    requires
        0 <= i < 64,
    ensures
        flat_moves(squares_of(targets), quiet_move(Square::from_index(i))).no_duplicates(),
        forall|m: Move| #[trigger] flat_moves(squares_of(targets), quiet_move(Square::from_index(i))).contains(m)
            ==> m.spec_source() as int == i && has_bit(targets, m.spec_target() as int),
{
    Square::lemma_from_index(i);
    lemma_quiet_distinct(Square::from_index(i), targets);
}

/// The moves of a pawn from `from` to `to` come without repeats, all from `from` to `to`.
proof fn lemma_pawn_seq_distinct(from: Square, to: Square)
    ensures
        pawn_move_seq(from, to).no_duplicates(),
        forall|m: Move| #[trigger] pawn_move_seq(from, to).contains(m) ==> m.spec_source() == from && m.spec_target() == to,
{
    Move::lemma_new(from, to, None);
    Move::lemma_new(from, to, Some(Piece::Knight));
    Move::lemma_new(from, to, Some(Piece::Bishop));
    Move::lemma_new(from, to, Some(Piece::Rook));
    Move::lemma_new(from, to, Some(Piece::Queen));
    let q = pawn_move_seq(from, to);
    assert forall|m: Move| #[trigger] q.contains(m) implies m.spec_source() == from && m.spec_target() == to by {
        lemma_pawn_seq_in(from, to, m);
        let p = choose|p: Option<Piece>| promotion_fits(to, p) && m == #[trigger] Move::spec_new(from, to, p);
        Move::lemma_new(from, to, p);
    }
}

/// The knights' moves come without repeats, each from a knight's square.
proof fn lemma_knights_distinct(bbs: Seq<u64>, c: Color)
    requires
        bbs.len() == 8,
    ensures
        flat_moves(squares_of(pieces(bbs, Piece::Knight, c)), MoveGen::knight_moves_from(bbs, c)).no_duplicates(),
        forall|m: Move| #[trigger] flat_moves(squares_of(pieces(bbs, Piece::Knight, c)), MoveGen::knight_moves_from(bbs, c)).contains(m)
            ==> has_bit(bbs[Piece::Knight as int], m.spec_source() as int),
{
    let x = pieces(bbs, Piece::Knight, c);
    let f = MoveGen::knight_moves_from(bbs, c);
    assert forall|i: int| 0 <= i < 64 && has_bit(x, i) implies #[trigger] f(i).no_duplicates() by {
        lemma_quiet_at(i, MoveGen::knight_targets(bbs, c, i));
    }
    assert forall|i: int, m: Move| 0 <= i < 64 && has_bit(x, i) && #[trigger] f(i).contains(m) implies m.spec_source() as int == i by {
        lemma_quiet_at(i, MoveGen::knight_targets(bbs, c, i));
    }
    lemma_pieces_distinct(x, f);
    lemma_bits(bbs[Piece::Knight as int], bbs[c as int + 6]);
}

/// The bishops' moves come without repeats, each from a bishop's square.
proof fn lemma_bishops_distinct(mg: MoveGen, bbs: Seq<u64>, c: Color)
    requires
        bbs.len() == 8,
    ensures
        flat_moves(squares_of(pieces(bbs, Piece::Bishop, c)), mg.bishop_moves_from(bbs, c)).no_duplicates(),
        forall|m: Move| #[trigger] flat_moves(squares_of(pieces(bbs, Piece::Bishop, c)), mg.bishop_moves_from(bbs, c)).contains(m)
            ==> has_bit(bbs[Piece::Bishop as int], m.spec_source() as int),
{
    let x = pieces(bbs, Piece::Bishop, c);
    let f = mg.bishop_moves_from(bbs, c);
    assert forall|i: int| 0 <= i < 64 && has_bit(x, i) implies #[trigger] f(i).no_duplicates() by {
        lemma_quiet_at(i, mg.bishop_targets(bbs, c, i));
    }
    assert forall|i: int, m: Move| 0 <= i < 64 && has_bit(x, i) && #[trigger] f(i).contains(m) implies m.spec_source() as int == i by {
        lemma_quiet_at(i, mg.bishop_targets(bbs, c, i));
    }
    lemma_pieces_distinct(x, f);
    lemma_bits(bbs[Piece::Bishop as int], bbs[c as int + 6]);
}

/// The rooks' moves come without repeats, each from a rook's square.
proof fn lemma_rooks_distinct(mg: MoveGen, bbs: Seq<u64>, c: Color)
    requires
        bbs.len() == 8,
    ensures
        flat_moves(squares_of(pieces(bbs, Piece::Rook, c)), mg.rook_moves_from(bbs, c)).no_duplicates(),
        forall|m: Move| #[trigger] flat_moves(squares_of(pieces(bbs, Piece::Rook, c)), mg.rook_moves_from(bbs, c)).contains(m)
            ==> has_bit(bbs[Piece::Rook as int], m.spec_source() as int),
{
    let x = pieces(bbs, Piece::Rook, c);
    let f = mg.rook_moves_from(bbs, c);
    assert forall|i: int| 0 <= i < 64 && has_bit(x, i) implies #[trigger] f(i).no_duplicates() by {
        lemma_quiet_at(i, mg.rook_targets(bbs, c, i));
    }
    assert forall|i: int, m: Move| 0 <= i < 64 && has_bit(x, i) && #[trigger] f(i).contains(m) implies m.spec_source() as int == i by {
        lemma_quiet_at(i, mg.rook_targets(bbs, c, i));
    }
    lemma_pieces_distinct(x, f);
    lemma_bits(bbs[Piece::Rook as int], bbs[c as int + 6]);
}

/// A queen's straight and diagonal moves never meet when both its lookups are exact.
proof fn lemma_queen_at_distinct(mg: MoveGen, bbs: Seq<u64>, c: Color, i: int)
    requires
        mg.tables_usable(),
        bbs.len() == 8,
        0 <= i < 64,
        (bbs[6] | bbs[7]) & Direction::Orthogonal.relevant_mask(i) != lowest_bit(Direction::Orthogonal.relevant_mask(i)),
        (bbs[6] | bbs[7]) & Direction::Diagonal.relevant_mask(i) != lowest_bit(Direction::Diagonal.relevant_mask(i)),
    ensures
        mg.queen_moves_from(bbs, c)(i).no_duplicates(),
        forall|m: Move| #[trigger] mg.queen_moves_from(bbs, c)(i).contains(m) ==> m.spec_source() as int == i,
{
    let occ = occupied(bbs);
    let r = mg.rook_moves_from(bbs, c)(i);
    let b = mg.bishop_moves_from(bbs, c)(i);
    let rt = mg.rook_targets(bbs, c, i);
    let bt = mg.bishop_targets(bbs, c, i);
    lemma_quiet_at(i, rt);
    lemma_quiet_at(i, bt);
    assert(mg.rook_lookup(i, occ) == Direction::Orthogonal.attacks(i, occ));
    assert(mg.bishop_lookup(i, occ) == Direction::Diagonal.attacks(i, occ));
    lemma_bits(mg.rook_lookup(i, occ), !own(bbs, c));
    lemma_bits(mg.bishop_lookup(i, occ), !own(bbs, c));
    lemma_attacks_on_lines(i, occ);
    assert forall|m: Move| r.contains(m) implies !b.contains(m) by {
        if b.contains(m) {
            let t = m.spec_target() as int;
            assert(rook_line(i, t));
            assert(bishop_line(i, t));
        }
    }
    lemma_concat_distinct(r, b);
    assert forall|m: Move| #[trigger] mg.queen_moves_from(bbs, c)(i).contains(m) implies m.spec_source() as int == i by {
        lemma_concat_in(r, b, m);
    }
}

/// The queens' moves come without repeats, each from a queen's square, when the lookups on
/// the queens' squares are exact.
proof fn lemma_queens_distinct(mg: MoveGen, bbs: Seq<u64>, c: Color)
    requires
        mg.tables_usable(),
        bbs.len() == 8,
        forall|s: int| 0 <= s < 64 && #[trigger] has_bit(pieces(bbs, Piece::Queen, c), s) ==> {
            &&& (bbs[6] | bbs[7]) & Direction::Orthogonal.relevant_mask(s) != lowest_bit(Direction::Orthogonal.relevant_mask(s))
            &&& (bbs[6] | bbs[7]) & Direction::Diagonal.relevant_mask(s) != lowest_bit(Direction::Diagonal.relevant_mask(s))
        },
    ensures
        flat_moves(squares_of(pieces(bbs, Piece::Queen, c)), mg.queen_moves_from(bbs, c)).no_duplicates(),
        forall|m: Move| #[trigger] flat_moves(squares_of(pieces(bbs, Piece::Queen, c)), mg.queen_moves_from(bbs, c)).contains(m)
            ==> has_bit(bbs[Piece::Queen as int], m.spec_source() as int),
{
    let x = pieces(bbs, Piece::Queen, c);
    let f = mg.queen_moves_from(bbs, c);
    assert forall|i: int| 0 <= i < 64 && has_bit(x, i) implies #[trigger] f(i).no_duplicates() by {
        lemma_queen_at_distinct(mg, bbs, c, i);
    }
    assert forall|i: int, m: Move| 0 <= i < 64 && has_bit(x, i) && #[trigger] f(i).contains(m) implies m.spec_source() as int == i by {
        lemma_queen_at_distinct(mg, bbs, c, i);
    }
    lemma_pieces_distinct(x, f);
    lemma_bits(bbs[Piece::Queen as int], bbs[c as int + 6]);
}

/// The single pawn advances come without repeats, each from a pawn one rank behind its target.
proof fn lemma_single_pushes_distinct(bbs: Seq<u64>, c: Color)
    requires
        bbs.len() == 8,
    ensures
        flat_moves(squares_of(MoveGen::single_targets(bbs, c)), MoveGen::single_push(c)).no_duplicates(),
        forall|m: Move| #[trigger] flat_moves(squares_of(MoveGen::single_targets(bbs, c)), MoveGen::single_push(c)).contains(m)
            ==> has_bit(bbs[Piece::Pawn as int], m.spec_source() as int)
                && m.spec_target() as int == m.spec_source() as int + MoveGen::pawn_step(c),
{
    let x = MoveGen::single_targets(bbs, c);
    let f = MoveGen::single_push(c);
    let pawns = pieces(bbs, Piece::Pawn, c);
    let occ = occupied(bbs);
    let step = MoveGen::pawn_step(c);
    lemma_shift8(pawns);
    lemma_bits(occ, occ);
    lemma_bits(pawns << 8u8, !occ);
    lemma_bits(pawns >> 8u8, !occ);
    lemma_bits(bbs[Piece::Pawn as int], bbs[c as int + 6]);
    lemma_squares_distinct(x);
    lemma_squares_of(x);
    assert forall|t: int| 0 <= t < 64 && has_bit(x, t) implies 0 <= t - step < 64 && has_bit(pawns, t - step) by {
    }
    let key = |m: Move| m.spec_target() as int;
    assert forall|t: int| squares_of(x).contains(t) implies #[trigger] f(t).no_duplicates() by {
        lemma_pawn_seq_distinct(Square::from_index(t - step), Square::from_index(t));
    }
    assert forall|t: int, m: Move| squares_of(x).contains(t) && #[trigger] f(t).contains(m) implies key(m) == t by {
        lemma_pawn_seq_distinct(Square::from_index(t - step), Square::from_index(t));
        Square::lemma_from_index(t);
    }
    lemma_flat_distinct(squares_of(x), f, key);
    assert forall|m: Move| #[trigger] flat_moves(squares_of(x), f).contains(m) implies
        has_bit(bbs[Piece::Pawn as int], m.spec_source() as int) && m.spec_target() as int == m.spec_source() as int + step by {
        lemma_pieces_in(x, f, m);
        let t = choose|t: int| 0 <= t < 64 && has_bit(x, t) && #[trigger] f(t).contains(m);
        lemma_pawn_seq_distinct(Square::from_index(t - step), Square::from_index(t));
        Square::lemma_from_index(t);
        Square::lemma_from_index(t - step);
    }
}

/// The double pawn advances come without repeats, each from a pawn two ranks behind its
/// target.
proof fn lemma_double_pushes_distinct(bbs: Seq<u64>, c: Color)
    requires
        bbs.len() == 8,
    ensures
        flat_moves(squares_of(MoveGen::double_targets(bbs, c)), MoveGen::double_push(c)).no_duplicates(),
        forall|m: Move| #[trigger] flat_moves(squares_of(MoveGen::double_targets(bbs, c)), MoveGen::double_push(c)).contains(m)
            ==> has_bit(bbs[Piece::Pawn as int], m.spec_source() as int)
                && m.spec_target() as int == m.spec_source() as int + 2 * MoveGen::pawn_step(c),
{
    let x = MoveGen::double_targets(bbs, c);
    let f = MoveGen::double_push(c);
    let pawns = pieces(bbs, Piece::Pawn, c);
    let occ = occupied(bbs);
    let step = MoveGen::pawn_step(c);
    let start: u64 = if c == Color::White { 0xff00u64 } else { 0x00ff000000000000u64 };
    let unmoved = pawns & start;
    let step1 = if c == Color::White { (unmoved << 8u8) & !occ } else { (unmoved >> 8u8) & !occ };
    lemma_bits(occ, occ);
    lemma_shift8(unmoved);
    lemma_shift8(step1);
    lemma_bits(unmoved << 8u8, !occ);
    lemma_bits(step1 << 8u8, !occ);
    lemma_bits(unmoved >> 8u8, !occ);
    lemma_bits(step1 >> 8u8, !occ);
    lemma_bits(pawns, start);
    lemma_bits(bbs[Piece::Pawn as int], bbs[c as int + 6]);
    lemma_squares_distinct(x);
    lemma_squares_of(x);
    assert forall|t: int| 0 <= t < 64 && has_bit(x, t) implies 0 <= t - 2 * step < 64 && has_bit(pawns, t - 2 * step) by {
        assert(has_bit(step1, t - step));
        assert(has_bit(unmoved, t - 2 * step));
    }
    let key = |m: Move| m.spec_target() as int;
    assert forall|t: int, m: Move| squares_of(x).contains(t) && #[trigger] f(t).contains(m) implies key(m) == t by {
        assert(f(t)[0] == m);
        Square::lemma_from_index(t);
        Move::lemma_new(Square::from_index(t - 2 * step), Square::from_index(t), None);
    }
    lemma_flat_distinct(squares_of(x), f, key);
    assert forall|m: Move| #[trigger] flat_moves(squares_of(x), f).contains(m) implies
        has_bit(bbs[Piece::Pawn as int], m.spec_source() as int) && m.spec_target() as int == m.spec_source() as int + 2 * step by {
        lemma_pieces_in(x, f, m);
        let t = choose|t: int| 0 <= t < 64 && has_bit(x, t) && #[trigger] f(t).contains(m);
        assert(f(t)[0] == m);
        Square::lemma_from_index(t);
        Square::lemma_from_index(t - 2 * step);
        Move::lemma_new(Square::from_index(t - 2 * step), Square::from_index(t), None);
    }
}

/// The captures of the pawn on square `i` come without repeats, from `i` to squares it attacks.
proof fn lemma_capture_moves_at(bbs: Seq<u64>, c: Color, ep: u64, i: int)
    requires
        0 <= i < 64,
    ensures
        capture_moves(bbs, c, ep)(i).no_duplicates(),
        forall|m: Move| #[trigger] capture_moves(bbs, c, ep)(i).contains(m)
            ==> m.spec_source() as int == i && pawn_reach(i, c, m.spec_target() as int),
{
    let x = capture_targets(bbs, c, ep, i);
    let from = Square::from_index(i);
    Square::lemma_from_index(i);
    let h = pawn_move_to(from);
    let pm = pawn_mask(i, c);
    lemma_mask_of_bits(|u: int| pawn_reach(i, c, u));
    lemma_bits(pm & own(bbs, c.spec_inverse()), pm & ep);
    lemma_bits(pm, own(bbs, c.spec_inverse()));
    lemma_bits(pm, ep);
    lemma_squares_distinct(x);
    lemma_squares_of(x);
    let key = |m: Move| m.spec_target() as int;
    assert forall|t: int| squares_of(x).contains(t) implies #[trigger] h(t).no_duplicates() by {
        lemma_pawn_seq_distinct(from, Square::from_index(t));
    }
    assert forall|t: int, m: Move| squares_of(x).contains(t) && #[trigger] h(t).contains(m) implies key(m) == t by {
        lemma_pawn_seq_distinct(from, Square::from_index(t));
        Square::lemma_from_index(t);
    }
    lemma_flat_distinct(squares_of(x), h, key);
    assert forall|m: Move| #[trigger] capture_moves(bbs, c, ep)(i).contains(m)
        implies m.spec_source() as int == i && pawn_reach(i, c, m.spec_target() as int) by {
        lemma_pieces_in(x, h, m);
        let t = choose|t: int| 0 <= t < 64 && has_bit(x, t) && #[trigger] h(t).contains(m);
        lemma_pawn_seq_distinct(from, Square::from_index(t));
        Square::lemma_from_index(t);
    }
}

/// The pawn captures come without repeats, each from a pawn to a square it attacks.
proof fn lemma_captures_distinct(bbs: Seq<u64>, c: Color, flags: u8)
    requires
        bbs.len() == 8,
    ensures
        pawn_capture_seq(bbs, c, c, flags).no_duplicates(),
        forall|m: Move| #[trigger] pawn_capture_seq(bbs, c, c, flags).contains(m)
            ==> has_bit(bbs[Piece::Pawn as int], m.spec_source() as int)
                && pawn_reach(m.spec_source() as int, c, m.spec_target() as int),
{
    let ep = ep_mask(c, flags);
    let x = pieces(bbs, Piece::Pawn, c);
    let g = capture_moves(bbs, c, ep);
    assert forall|i: int| 0 <= i < 64 && has_bit(x, i) implies #[trigger] g(i).no_duplicates() by {
        lemma_capture_moves_at(bbs, c, ep, i);
    }
    assert forall|i: int, m: Move| 0 <= i < 64 && has_bit(x, i) && #[trigger] g(i).contains(m) implies m.spec_source() as int == i by {
        lemma_capture_moves_at(bbs, c, ep, i);
    }
    lemma_pieces_distinct(x, g);
    lemma_bits(bbs[Piece::Pawn as int], bbs[c as int + 6]);
    assert forall|m: Move| #[trigger] pawn_capture_seq(bbs, c, c, flags).contains(m)
        implies pawn_reach(m.spec_source() as int, c, m.spec_target() as int) by {
        lemma_pieces_in(x, g, m);
        let i = choose|i: int| 0 <= i < 64 && has_bit(x, i) && #[trigger] g(i).contains(m);
        lemma_capture_moves_at(bbs, c, ep, i);
    }
}

/// No square of a consistent position holds two kinds of pieces.
proof fn lemma_one_kind(bbs: Seq<u64>, sq: Square)
    requires
        consistent(bbs),
    ensures
        piece_bits(bbs, sq as int) <= 1,
{
    sq.lemma_index();
    lemma_consistent_square(bbs, sq as int);
}

/// Lists of moves by kind of piece, each without repeats, make a concatenation without repeats:
/// the pieces' moves start on squares of different kinds, single and double advances end at
/// different distances, and advances stay on their file where captures change it.
#[verifier::spinoff_prover]
proof fn lemma_kinds_distinct(
    bbs: Seq<u64>,
    c: Color,
    a1: Seq<Move>,
    a2: Seq<Move>,
    a3: Seq<Move>,
    a4: Seq<Move>,
    a5: Seq<Move>,
    b1: Seq<Move>,
    b2: Seq<Move>,
    a7: Seq<Move>,
)
    requires
        forall|t: int| 0 <= t < 64 ==> #[trigger] piece_bits(bbs, t) <= 1,
        a1.no_duplicates() && a2.no_duplicates() && a3.no_duplicates() && a4.no_duplicates(),
        a5.no_duplicates() && b1.no_duplicates() && b2.no_duplicates() && a7.no_duplicates(),
        forall|m: Move| #[trigger] a1.contains(m) ==> has_bit(bbs[Piece::Knight as int], m.spec_source() as int),
        forall|m: Move| #[trigger] a2.contains(m) ==> has_bit(bbs[Piece::Bishop as int], m.spec_source() as int),
        forall|m: Move| #[trigger] a3.contains(m) ==> has_bit(bbs[Piece::Rook as int], m.spec_source() as int),
        forall|m: Move| #[trigger] a4.contains(m) ==> has_bit(bbs[Piece::Queen as int], m.spec_source() as int),
        forall|m: Move| #[trigger] a5.contains(m) ==> has_bit(bbs[Piece::King as int], m.spec_source() as int),
        forall|m: Move| #[trigger] b1.contains(m) ==> has_bit(bbs[Piece::Pawn as int], m.spec_source() as int)
            && m.spec_target() as int == m.spec_source() as int + MoveGen::pawn_step(c),
        forall|m: Move| #[trigger] b2.contains(m) ==> has_bit(bbs[Piece::Pawn as int], m.spec_source() as int)
            && m.spec_target() as int == m.spec_source() as int + 2 * MoveGen::pawn_step(c),
        forall|m: Move| #[trigger] a7.contains(m) ==> has_bit(bbs[Piece::Pawn as int], m.spec_source() as int)
            && pawn_reach(m.spec_source() as int, c, m.spec_target() as int),
    ensures
        (a1 + a2 + a3 + a4 + a5 + (b1 + b2) + a7).no_duplicates(),
{
    assert forall|m: Move| a1.contains(m) implies !a2.contains(m) by {
        m.spec_source().lemma_index();
        assert(piece_bits(bbs, m.spec_source() as int) <= 1);
    }
    lemma_concat_distinct(a1, a2);
    assert forall|m: Move| (a1 + a2).contains(m) implies !a3.contains(m) by {
        lemma_concat_in(a1, a2, m);
        m.spec_source().lemma_index();
        assert(piece_bits(bbs, m.spec_source() as int) <= 1);
    }
    lemma_concat_distinct(a1 + a2, a3);
    assert forall|m: Move| (a1 + a2 + a3).contains(m) implies !a4.contains(m) by {
        lemma_concat_in(a1 + a2, a3, m);
        lemma_concat_in(a1, a2, m);
        m.spec_source().lemma_index();
        assert(piece_bits(bbs, m.spec_source() as int) <= 1);
    }
    lemma_concat_distinct(a1 + a2 + a3, a4);
    assert forall|m: Move| (a1 + a2 + a3 + a4).contains(m) implies !a5.contains(m) by {
        lemma_concat_in(a1 + a2 + a3, a4, m);
        lemma_concat_in(a1 + a2, a3, m);
        lemma_concat_in(a1, a2, m);
        m.spec_source().lemma_index();
        assert(piece_bits(bbs, m.spec_source() as int) <= 1);
    }
    lemma_concat_distinct(a1 + a2 + a3 + a4, a5);
    assert forall|m: Move| b1.contains(m) implies !b2.contains(m) by {
    }
    lemma_concat_distinct(b1, b2);
    let p5 = a1 + a2 + a3 + a4 + a5;
    assert forall|m: Move| p5.contains(m) implies !(b1 + b2).contains(m) by {
        lemma_concat_in(a1 + a2 + a3 + a4, a5, m);
        lemma_concat_in(a1 + a2 + a3, a4, m);
        lemma_concat_in(a1 + a2, a3, m);
        lemma_concat_in(a1, a2, m);
        lemma_concat_in(b1, b2, m);
        m.spec_source().lemma_index();
        assert(piece_bits(bbs, m.spec_source() as int) <= 1);
    }
    lemma_concat_distinct(p5, b1 + b2);
    assert forall|m: Move| (p5 + (b1 + b2)).contains(m) implies !a7.contains(m) by {
        lemma_concat_in(p5, b1 + b2, m);
        lemma_concat_in(a1 + a2 + a3 + a4, a5, m);
        lemma_concat_in(a1 + a2 + a3, a4, m);
        lemma_concat_in(a1 + a2, a3, m);
        lemma_concat_in(a1, a2, m);
        lemma_concat_in(b1, b2, m);
        m.spec_source().lemma_index();
        m.spec_target().lemma_index();
        assert(piece_bits(bbs, m.spec_source() as int) <= 1);
    }
    lemma_concat_distinct(p5 + (b1 + b2), a7);
}

/// The pseudo-legal moves are their parts in order.
proof fn lemma_pseudolegal_parts(mg: MoveGen, bbs: Seq<u64>, c: Color, flags: u8)
    ensures
        mg.pseudolegal(bbs, c, flags) == flat_moves(squares_of(pieces(bbs, Piece::Knight, c)), MoveGen::knight_moves_from(bbs, c))
            + flat_moves(squares_of(pieces(bbs, Piece::Bishop, c)), mg.bishop_moves_from(bbs, c))
            + flat_moves(squares_of(pieces(bbs, Piece::Rook, c)), mg.rook_moves_from(bbs, c))
            + flat_moves(squares_of(pieces(bbs, Piece::Queen, c)), mg.queen_moves_from(bbs, c))
            + flat_moves(
                squares_of(MoveGen::king_targets(bbs, c, MoveGen::king_square(bbs, c))),
                quiet_move(Square::from_index(MoveGen::king_square(bbs, c))),
            )
            + (flat_moves(squares_of(MoveGen::single_targets(bbs, c)), MoveGen::single_push(c))
                + flat_moves(squares_of(MoveGen::double_targets(bbs, c)), MoveGen::double_push(c)))
            + pawn_capture_seq(bbs, c, c, flags),
{
}

/// The king's moves come without repeats, from the king's square.
proof fn lemma_king_distinct(bbs: Seq<u64>, c: Color)
    requires
        bbs.len() == 8,
        pieces(bbs, Piece::King, c) != 0,
    ensures
        flat_moves(
            squares_of(MoveGen::king_targets(bbs, c, MoveGen::king_square(bbs, c))),
            quiet_move(Square::from_index(MoveGen::king_square(bbs, c))),
        ).no_duplicates(),
        forall|m: Move| #[trigger] flat_moves(
            squares_of(MoveGen::king_targets(bbs, c, MoveGen::king_square(bbs, c))),
            quiet_move(Square::from_index(MoveGen::king_square(bbs, c))),
        ).contains(m) ==> has_bit(bbs[Piece::King as int], m.spec_source() as int),
{
    let ks = MoveGen::king_square(bbs, c);
    lemma_clear_lowest(pieces(bbs, Piece::King, c));
    lemma_bits(bbs[Piece::King as int], bbs[c as int + 6]);
    lemma_quiet_at(ks, MoveGen::king_targets(bbs, c, ks));
}

/// Law: generation lists no move twice. On a consistent position whose side to move has a
/// king, and whose queens' lookups are exact, every pseudo-legal move occurs once.
#[verifier::spinoff_prover]
pub proof fn lemma_pseudolegal_distinct(mg: MoveGen, bbs: Seq<u64>, c: Color, flags: u8)
    requires
        mg.tables_usable(),
        consistent(bbs),
        pieces(bbs, Piece::King, c) != 0,
        forall|s: int| 0 <= s < 64 && #[trigger] has_bit(pieces(bbs, Piece::Queen, c), s) ==> {
            &&& (bbs[6] | bbs[7]) & Direction::Orthogonal.relevant_mask(s) != lowest_bit(Direction::Orthogonal.relevant_mask(s))
            &&& (bbs[6] | bbs[7]) & Direction::Diagonal.relevant_mask(s) != lowest_bit(Direction::Diagonal.relevant_mask(s))
        },
    ensures
        mg.pseudolegal(bbs, c, flags).no_duplicates(),
{
    lemma_consistent_square(bbs, 0);
    assert forall|t: int| 0 <= t < 64 implies #[trigger] piece_bits(bbs, t) <= 1 by {
        lemma_consistent_square(bbs, t);
    }
    lemma_pseudolegal_parts(mg, bbs, c, flags);
    lemma_knights_distinct(bbs, c);
    lemma_bishops_distinct(mg, bbs, c);
    lemma_rooks_distinct(mg, bbs, c);
    lemma_queens_distinct(mg, bbs, c);
    lemma_king_distinct(bbs, c);
    lemma_single_pushes_distinct(bbs, c);
    lemma_double_pushes_distinct(bbs, c);
    lemma_captures_distinct(bbs, c, flags);
    lemma_kinds_distinct(
        bbs,
        c,
        flat_moves(squares_of(pieces(bbs, Piece::Knight, c)), MoveGen::knight_moves_from(bbs, c)),
        flat_moves(squares_of(pieces(bbs, Piece::Bishop, c)), mg.bishop_moves_from(bbs, c)),
        flat_moves(squares_of(pieces(bbs, Piece::Rook, c)), mg.rook_moves_from(bbs, c)),
        flat_moves(squares_of(pieces(bbs, Piece::Queen, c)), mg.queen_moves_from(bbs, c)),
        flat_moves(
            squares_of(MoveGen::king_targets(bbs, c, MoveGen::king_square(bbs, c))),
            quiet_move(Square::from_index(MoveGen::king_square(bbs, c))),
        ),
        flat_moves(squares_of(MoveGen::single_targets(bbs, c)), MoveGen::single_push(c)),
        flat_moves(squares_of(MoveGen::double_targets(bbs, c)), MoveGen::double_push(c)),
        pawn_capture_seq(bbs, c, c, flags),
    );
}

} // verus!
