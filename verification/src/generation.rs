use vstd::prelude::*;
use crate::board::bitboard::{Bitboard, has_bit, mask_of, lemma_bits, lemma_single, lemma_mask_of, lemma_mask_of_bits};
use crate::board::color::Color;
use crate::board::square::{Square, rank_of, file_of};

verus! {

/// `|x|`.
pub open spec fn abs(x: int) -> int {
    if x < 0 { -x } else { x }
}

/// Whether rank `r` and file `f` lie on the board.
pub open spec fn on_board(r: int, f: int) -> bool {
    0 <= r < 8 && 0 <= f < 8
}

/// A knight on square `s` attacks square `t`.
pub open spec fn knight_reach(s: int, t: int) -> bool {
    &&& 0 <= t < 64
    &&& {
        let dr = abs(rank_of(t) - rank_of(s));
        let df = abs(file_of(t) - file_of(s));
        (dr == 1 && df == 2) || (dr == 2 && df == 1)
    }
}

/// A king on square `s` attacks square `t`.
pub open spec fn king_reach(s: int, t: int) -> bool {
    &&& 0 <= t < 64
    &&& t != s
    &&& abs(rank_of(t) - rank_of(s)) <= 1
    &&& abs(file_of(t) - file_of(s)) <= 1
}

/// A pawn of `color` on square `s` attacks square `t`; pawns on the first and last rank
/// attack nothing.
pub open spec fn pawn_reach(s: int, color: Color, t: int) -> bool {
    &&& 8 <= s <= 55
    &&& 0 <= t < 64
    &&& abs(file_of(t) - file_of(s)) == 1
    &&& rank_of(t) - rank_of(s) == (if color == Color::White { 1int } else { -1int })
}

/// A rook on an empty board on square `s` reaches square `t`.
pub open spec fn rook_line(s: int, t: int) -> bool {
    &&& 0 <= t < 64
    &&& t != s
    &&& (rank_of(t) == rank_of(s) || file_of(t) == file_of(s))
}

/// A bishop on an empty board on square `s` reaches square `t`.
pub open spec fn bishop_line(s: int, t: int) -> bool {
    &&& 0 <= t < 64
    &&& t != s
    &&& abs(rank_of(t) - rank_of(s)) == abs(file_of(t) - file_of(s))
}

pub open spec fn knight_mask(s: int) -> u64 {
    mask_of(|t: int| knight_reach(s, t))
}

pub open spec fn king_mask(s: int) -> u64 {
    mask_of(|t: int| king_reach(s, t))
}

pub open spec fn pawn_mask(s: int, color: Color) -> u64 {
    mask_of(|t: int| pawn_reach(s, color, t))
}

pub open spec fn rook_mask(s: int) -> u64 {
    mask_of(|t: int| rook_line(s, t))
}

pub open spec fn bishop_mask(s: int) -> u64 {
    mask_of(|t: int| bishop_line(s, t))
}

/// Whether `off` is one step to a neighbouring square: along a rank (±1), a file (±8) or
/// a diagonal (±7, ±9).
pub open spec fn is_step(off: int) -> bool {
    off == 1 || off == -1 || off == 8 || off == -8 || off == 7 || off == -7 || off == 9 || off == -9
}

/// The rank change of the step `off`.
pub open spec fn step_rank(off: int) -> int {
    if off == 7 || off == 8 || off == 9 {
        1
    } else if off == -7 || off == -8 || off == -9 {
        -1
    } else {
        0
    }
}

/// The file change of the step `off`.
pub open spec fn step_file(off: int) -> int {
    if off == 1 || off == 9 || off == -7 {
        1
    } else if off == -1 || off == -9 || off == 7 {
        -1
    } else {
        0
    }
}

/// `k * d` for `d` in -1, 0, 1.
pub open spec fn times(k: int, d: int) -> int {
    if d == 1 {
        k
    } else if d == -1 {
        -k
    } else {
        0
    }
}

/// The square `k` steps of `off` away from `s` stays on the board (for `k >= 1`).
pub open spec fn reaches(s: int, off: int, k: int) -> bool {
    &&& is_step(off)
    &&& k >= 1
    &&& on_board(rank_of(s) + times(k, step_rank(off)), file_of(s) + times(k, step_file(off)))
}

/// The square `k` steps of `off` away from `s`.
pub open spec fn ray_square(s: int, off: int, k: int) -> int {
    (rank_of(s) + times(k, step_rank(off))) * 8 + file_of(s) + times(k, step_file(off))
}

/// A piece on `s` sliding by steps of `off` reaches `t`: `t` lies on the ray and no square of
/// `blockers` lies strictly between `s` and `t` (the first blocked square is still reached).
pub open spec fn slide_attack(s: int, off: int, blockers: u64, t: int) -> bool {
    exists|k: int|
        #![trigger ray_square(s, off, k)]
        reaches(s, off, k) && t == ray_square(s, off, k) && forall|j: int|
            1 <= j < k ==> !has_bit(blockers, #[trigger] ray_square(s, off, j))
}

/// A piece on `s` sliding along any of `offsets` reaches `t`.
pub open spec fn slide_any(s: int, offsets: Seq<i8>, blockers: u64, t: int) -> bool {
    exists|m: int| 0 <= m < offsets.len() && slide_attack(s, #[trigger] offsets[m] as int, blockers, t)
}

/// The squares a piece on `s` reaches sliding along `offsets`, stopped by `blockers`.
pub open spec fn slide_mask(s: int, offsets: Seq<i8>, blockers: u64) -> u64 {
    mask_of(|t: int| slide_any(s, offsets, blockers, t))
}

/// One step of `off` from `o` stays on the board and next to `o` exactly when `off` is a
/// step whose target is on the board; the target is then `o + off`.
pub proof fn lemma_step(o: int, off: int)
    requires
        0 <= o < 64,
        off != 0,
    ensures
        ({
            let t = o + off;
            (0 <= t < 64 && abs(rank_of(t) - rank_of(o)) <= 1 && abs(file_of(t) - file_of(o)) <= 1)
                <==> (is_step(off) && on_board(rank_of(o) + step_rank(off), file_of(o) + step_file(off)))
        }),
        is_step(off) && on_board(rank_of(o) + step_rank(off), file_of(o) + step_file(off)) ==> {
            &&& rank_of(o + off) == rank_of(o) + step_rank(off)
            &&& file_of(o + off) == file_of(o) + step_file(off)
        },
{
    let t = o + off;
    assert(o == rank_of(o) * 8 + file_of(o));
    if 0 <= t < 64 {
        assert(t == rank_of(t) * 8 + file_of(t));
    }
}

/// The squares of a ray, one step at a time.
pub proof fn lemma_ray(s: int, off: int, k: int)
    requires
        0 <= s < 64,
        is_step(off),
        k >= 0,
    ensures
        ray_square(s, off, 0) == s,
        ray_square(s, off, k + 1) == ray_square(s, off, k) + off,
        reaches(s, off, k) ==> 0 <= ray_square(s, off, k) < 64
            && rank_of(ray_square(s, off, k)) == rank_of(s) + times(k, step_rank(off))
            && file_of(ray_square(s, off, k)) == file_of(s) + times(k, step_file(off)),
        reaches(s, off, k + 1) && k >= 1 ==> reaches(s, off, k),
        k >= 1 ==> (reaches(s, off, k + 1) <==> reaches(s, off, k) && on_board(
            rank_of(ray_square(s, off, k)) + step_rank(off),
            file_of(ray_square(s, off, k)) + step_file(off),
        )),
        k == 0 ==> (reaches(s, off, 1) <==> on_board(rank_of(s) + step_rank(off), file_of(s) + step_file(off))),
{
    assert(s == rank_of(s) * 8 + file_of(s));
}

/// A ray never comes back: once a step leaves the board, all further ones do.
pub proof fn lemma_reaches_prefix(s: int, off: int, j: int, k: int)
    requires
        0 <= s < 64,
        reaches(s, off, k),
        1 <= j <= k,
    ensures
        reaches(s, off, j),
{
}

/// The rank and file of a square index.
pub fn coords(val: u8) -> (r: (u8, u8))
    ensures
        r.0 == val / 8,
        r.1 == val % 8,
{
    (val / 8, val % 8)
}

/// The rank and file of a square lead back to it: `Square::from_coords` accepts them and
/// gives the square.
pub proof fn lemma_coords_round_trip(square: Square)
    ensures
        (square as u8 / 8) * 8 + square as u8 % 8 == square as int,
        (square as u8 / 8) * 8 + square as u8 % 8 < 64,
{
    square.lemma_index();
}

/// Whether `val` is the index of a square.
pub fn in_bounds(val: i8) -> (r: bool)
    ensures
        r == (0 <= val < 64),
{
    0 <= val && val < 64
}

/// `|a - b|`.
pub(crate) fn abs_diff(a: u8, b: u8) -> (r: u8)
    ensures
        r == abs(a - b),
{
    if a < b { b - a } else { a - b }
}

const KNIGHT_OFFSETS: [i8; 8] = [15, 17, 6, 10, -15, -17, -6, -10];

const KING_OFFSETS: [i8; 8] = [1, 7, 8, 9, -1, -7, -8, -9];

pub const BISHOP_OFFSETS: [i8; 4] = [-7, -9, 7, 9];

pub const ROOK_OFFSETS: [i8; 4] = [1, 8, -1, -8];

/// A jump by `off` from `s` lands on `t`, on the board, at most `lim` ranks and files away.
pub open spec fn jump_hits(s: int, off: int, t: int, lim: int) -> bool {
    &&& t == s + off
    &&& 0 <= t < 64
    &&& abs(rank_of(t) - rank_of(s)) <= lim
    &&& abs(file_of(t) - file_of(s)) <= lim
}

/// The squares a knight on `square` attacks.
pub fn knight_move_mask(square: Square) -> (r: Bitboard)
    ensures
        r.0 == knight_mask(square as int),
        forall|t: int| #[trigger] has_bit(r.0, t) <==> knight_reach(square as int, t),
{
    let i = square as i8;
    let (start_rank, start_file) = coords(square as u8);
    let mut mask = Bitboard(0);
    let mut idx: usize = 0;
    proof {
        lemma_bits(0, 0);
    }
    while idx < 8
        invariant
            0 <= idx <= 8,
            i == square as int,
            0 <= i < 64,
            start_rank == rank_of(i as int),
            start_file == file_of(i as int),
            forall|t: int| #[trigger] has_bit(mask.0, t) <==> exists|m: int|
                0 <= m < idx && jump_hits(i as int, #[trigger] KNIGHT_OFFSETS[m] as int, t, 2),
        decreases 8 - idx,
    {
        let off = KNIGHT_OFFSETS[idx];
        let target = i + off;
        let ghost old_mask = mask.0;
        let ghost hit = jump_hits(i as int, off as int, target as int, 2);
        if in_bounds(target) {
            let (target_rank, target_file) = coords(target as u8);
            if abs_diff(start_rank, target_rank) <= 2 && abs_diff(start_file, target_file) <= 2 {
                let bit = Bitboard(1u64 << (target as u64));
                proof {
                    lemma_bits(mask.0, bit.0);
                    lemma_single(target as int);
                }
                mask = mask | bit;
            }
        }
        proof {
            assert(hit ==> forall|t: int| #[trigger] has_bit(mask.0, t) <==> has_bit(old_mask, t) || t == target);
            assert(!hit ==> mask.0 == old_mask);
            assert forall|t: int| #[trigger] has_bit(mask.0, t) <==> exists|m: int|
                0 <= m < idx + 1 && jump_hits(i as int, #[trigger] KNIGHT_OFFSETS[m] as int, t, 2) by {
                if has_bit(old_mask, t) {
                    let m = choose|m: int| 0 <= m < idx && jump_hits(i as int, #[trigger] KNIGHT_OFFSETS[m] as int, t, 2);
                    assert(0 <= m < idx + 1);
                }
                if hit && t == target {
                    assert(jump_hits(i as int, KNIGHT_OFFSETS[idx as int] as int, t, 2));
                }
                if exists|m: int| 0 <= m < idx + 1 && jump_hits(i as int, #[trigger] KNIGHT_OFFSETS[m] as int, t, 2) {
                    let m = choose|m: int| 0 <= m < idx + 1 && jump_hits(i as int, #[trigger] KNIGHT_OFFSETS[m] as int, t, 2);
                    if m < idx {
                        assert(has_bit(old_mask, t));
                    } else {
                        assert(hit && t == target);
                    }
                }
            }
        }
        idx = idx + 1;
    }
    proof {
        let s = i as int;
        assert forall|t: int| #[trigger] has_bit(mask.0, t) <==> knight_reach(s, t) by {
            assert(s == rank_of(s) * 8 + file_of(s));
            if 0 <= t < 64 {
                assert(t == rank_of(t) * 8 + file_of(t));
            }
            if knight_reach(s, t) {
                let dr = rank_of(t) - rank_of(s);
                let df = file_of(t) - file_of(s);
                let m: int = if dr == 2 && df == -1 { 0 } else if dr == 2 && df == 1 { 1 } else if dr == 1 && df == -2 { 2 }
                    else if dr == 1 && df == 2 { 3 } else if dr == -2 && df == 1 { 4 } else if dr == -2 && df == -1 { 5 }
                    else if dr == -1 && df == 2 { 6 } else { 7 };
                assert(jump_hits(s, KNIGHT_OFFSETS[m] as int, t, 2));
            }
            if has_bit(mask.0, t) {
                let m = choose|m: int| 0 <= m < 8 && jump_hits(s, #[trigger] KNIGHT_OFFSETS[m] as int, t, 2);
                assert(knight_reach(s, t));
            }
        }
        lemma_mask_of(|t: int| knight_reach(s, t), mask.0);
    }
    mask
}

/// The squares a king on `square` attacks.
pub fn king_move_mask(square: Square) -> (r: Bitboard)
    ensures
        r.0 == king_mask(square as int),
        forall|t: int| #[trigger] has_bit(r.0, t) <==> king_reach(square as int, t),
{
    let mut mask = Bitboard(0);
    let (source_rank, source_file) = coords(square as u8);
    let mut idx: usize = 0;
    proof {
        lemma_bits(0, 0);
    }
    while idx < 8
        invariant
            0 <= idx <= 8,
            source_rank == rank_of(square as int),
            source_file == file_of(square as int),
            forall|t: int| #[trigger] has_bit(mask.0, t) <==> exists|m: int|
                0 <= m < idx && jump_hits(square as int, #[trigger] KING_OFFSETS[m] as int, t, 1),
        decreases 8 - idx,
    {
        let off = KING_OFFSETS[idx];
        let target = square as i8 + off;
        let ghost old_mask = mask.0;
        let ghost hit = jump_hits(square as int, off as int, target as int, 1);
        if in_bounds(target) {
            let (target_rank, target_file) = coords(target as u8);
            if !(abs_diff(source_rank, target_rank) > 1 || abs_diff(source_file, target_file) > 1) {
                let bit = Bitboard(1u64 << (target as u64));
                proof {
                    lemma_bits(mask.0, bit.0);
                    lemma_single(target as int);
                }
                mask = mask | bit;
            }
        }
        proof {
            assert(hit ==> forall|t: int| #[trigger] has_bit(mask.0, t) <==> has_bit(old_mask, t) || t == target);
            assert(!hit ==> mask.0 == old_mask);
            assert forall|t: int| #[trigger] has_bit(mask.0, t) <==> exists|m: int|
                0 <= m < idx + 1 && jump_hits(square as int, #[trigger] KING_OFFSETS[m] as int, t, 1) by {
                if has_bit(old_mask, t) {
                    let m = choose|m: int| 0 <= m < idx && jump_hits(square as int, #[trigger] KING_OFFSETS[m] as int, t, 1);
                    assert(0 <= m < idx + 1);
                }
                if hit && t == target {
                    assert(jump_hits(square as int, KING_OFFSETS[idx as int] as int, t, 1));
                }
                if exists|m: int| 0 <= m < idx + 1 && jump_hits(square as int, #[trigger] KING_OFFSETS[m] as int, t, 1) {
                    let m = choose|m: int| 0 <= m < idx + 1 && jump_hits(square as int, #[trigger] KING_OFFSETS[m] as int, t, 1);
                    if m < idx {
                        assert(has_bit(old_mask, t));
                    } else {
                        assert(hit && t == target);
                    }
                }
            }
        }
        idx = idx + 1;
    }
    proof {
        let s = square as int;
        assert forall|t: int| #[trigger] has_bit(mask.0, t) <==> king_reach(s, t) by {
            assert(s == rank_of(s) * 8 + file_of(s));
            if 0 <= t < 64 {
                assert(t == rank_of(t) * 8 + file_of(t));
            }
            if king_reach(s, t) {
                let dr = rank_of(t) - rank_of(s);
                let df = file_of(t) - file_of(s);
                let m: int = if dr == 0 && df == 1 { 0 } else if dr == 1 && df == -1 { 1 } else if dr == 1 && df == 0 { 2 }
                    else if dr == 1 && df == 1 { 3 } else if dr == 0 && df == -1 { 4 } else if dr == -1 && df == 1 { 5 }
                    else if dr == -1 && df == 0 { 6 } else { 7 };
                assert(jump_hits(s, KING_OFFSETS[m] as int, t, 1));
            }
            if has_bit(mask.0, t) {
                let m = choose|m: int| 0 <= m < 8 && jump_hits(s, #[trigger] KING_OFFSETS[m] as int, t, 1);
                assert(king_reach(s, t));
            }
        }
        lemma_mask_of(|t: int| king_reach(s, t), mask.0);
    }
    mask
}

/// A diagonal step by `off` from `s` lands on `t`, on the board, exactly one rank and one
/// file away.
pub open spec fn diagonal_hits(s: int, off: int, t: int) -> bool {
    &&& t == s + off
    &&& 0 <= t < 64
    &&& abs(rank_of(t) - rank_of(s)) == 1
    &&& abs(file_of(t) - file_of(s)) == 1
}

/// The squares a pawn of `color` on `square` attacks.
pub fn pawn_capture_mask(square: Square, color: Color) -> (r: Bitboard)
    ensures
        r.0 == pawn_mask(square as int, color),
        forall|t: int| #[trigger] has_bit(r.0, t) <==> pawn_reach(square as int, color, t),
{
    let s = Ghost(square as int);
    if (square as u8) < 8 || (square as u8) > 55 {
        proof {
            lemma_bits(0, 0);
            lemma_mask_of(|t: int| pawn_reach(s@, color, t), 0);
        }
        return Bitboard(0);
    }
    let offsets: [i8; 2] = match color {
        Color::White => [7, 9],
        Color::Black => [-7, -9],
    };
    let (source_rank, source_file) = coords(square as u8);
    let mut mask = Bitboard(0);
    let mut idx: usize = 0;
    proof {
        lemma_bits(0, 0);
    }
    while idx < 2
        invariant
            0 <= idx <= 2,
            8 <= s@ <= 55,
            s@ == square as int,
            offsets@ == (if color == Color::White { seq![7i8, 9i8] } else { seq![-7i8, -9i8] }),
            source_rank == rank_of(s@),
            source_file == file_of(s@),
            forall|t: int| #[trigger] has_bit(mask.0, t) <==> exists|m: int|
                0 <= m < idx && diagonal_hits(s@, #[trigger] offsets@[m] as int, t),
        decreases 2 - idx,
    {
        let off = offsets[idx];
        let target = square as i8 + off;
        let ghost old_mask = mask.0;
        let ghost hit = diagonal_hits(s@, off as int, target as int);
        if in_bounds(target) {
            let (rank, file) = coords(target as u8);
            if !(abs_diff(source_rank, rank) != 1 || abs_diff(source_file, file) != 1) {
                let bit = Bitboard(1u64 << (target as u64));
                proof {
                    lemma_bits(mask.0, bit.0);
                    lemma_single(target as int);
                }
                mask = mask | bit;
            }
        }
        proof {
            assert(hit ==> forall|t: int| #[trigger] has_bit(mask.0, t) <==> has_bit(old_mask, t) || t == target);
            assert(!hit ==> mask.0 == old_mask);
            assert forall|t: int| #[trigger] has_bit(mask.0, t) <==> exists|m: int|
                0 <= m < idx + 1 && diagonal_hits(s@, #[trigger] offsets@[m] as int, t) by {
                if has_bit(old_mask, t) {
                    let m = choose|m: int| 0 <= m < idx && diagonal_hits(s@, #[trigger] offsets@[m] as int, t);
                    assert(0 <= m < idx + 1);
                }
                if hit && t == target {
                    assert(diagonal_hits(s@, offsets@[idx as int] as int, t));
                }
                if exists|m: int| 0 <= m < idx + 1 && diagonal_hits(s@, #[trigger] offsets@[m] as int, t) {
                    let m = choose|m: int| 0 <= m < idx + 1 && diagonal_hits(s@, #[trigger] offsets@[m] as int, t);
                    if m < idx {
                        assert(has_bit(old_mask, t));
                    } else {
                        assert(hit && t == target);
                    }
                }
            }
        }
        idx = idx + 1;
    }
    proof {
        assert forall|t: int| #[trigger] has_bit(mask.0, t) <==> pawn_reach(s@, color, t) by {
            assert(s@ == rank_of(s@) * 8 + file_of(s@));
            if 0 <= t < 64 {
                assert(t == rank_of(t) * 8 + file_of(t));
            }
            if pawn_reach(s@, color, t) {
                let df = file_of(t) - file_of(s@);
                let m: int = if color == Color::White { if df == -1 { 0 } else { 1 } } else { if df == 1 { 0 } else { 1 } };
                assert(diagonal_hits(s@, offsets@[m] as int, t));
            }
            if has_bit(mask.0, t) {
                let m = choose|m: int| 0 <= m < 2 && diagonal_hits(s@, #[trigger] offsets@[m] as int, t);
                assert(pawn_reach(s@, color, t));
            }
        }
        lemma_mask_of(|t: int| pawn_reach(s@, color, t), mask.0);
    }
    mask
}

/// The inner walk of a slide: the squares reached from `s` by steps of `off` up to the `k`-th.
pub open spec fn walked(s: int, off: int, k: int, t: int) -> bool {
    exists|j: int| #![trigger ray_square(s, off, j)] 1 <= j <= k && reaches(s, off, j) && t == ray_square(s, off, j)
}

/// When the walk can go no further than `k` steps, it has reached every square of the slide.
pub proof fn lemma_walk_done(s: int, off: int, blockers: u64, k: int)
    requires
        0 <= s < 64,
        k >= 0,
        !reaches(s, off, k + 1),
        forall|j: int| 1 <= j <= k ==> !has_bit(blockers, #[trigger] ray_square(s, off, j)),
    ensures
        forall|t: int| #[trigger] slide_attack(s, off, blockers, t) <==> walked(s, off, k, t),
{
    assert forall|t: int| #[trigger] slide_attack(s, off, blockers, t) <==> walked(s, off, k, t) by {
        if slide_attack(s, off, blockers, t) {
            let kk = choose|kk: int| #![trigger ray_square(s, off, kk)] reaches(s, off, kk) && t == ray_square(s, off, kk) && forall|j: int|
                1 <= j < kk ==> !has_bit(blockers, #[trigger] ray_square(s, off, j));
            if kk > k {
                lemma_reaches_prefix(s, off, k + 1, kk);
            }
            assert(walked(s, off, k, t));
        }
        if walked(s, off, k, t) {
            let j = choose|j: int| #![trigger ray_square(s, off, j)] 1 <= j <= k && reaches(s, off, j) && t == ray_square(s, off, j);
            assert(forall|jj: int| 1 <= jj < j ==> !has_bit(blockers, #[trigger] ray_square(s, off, jj)));
        }
    }
}

/// When the walk stops on a blocker at step `k`, it has reached every square of the slide.
pub proof fn lemma_walk_blocked(s: int, off: int, blockers: u64, k: int)
    requires
        0 <= s < 64,
        k >= 1,
        reaches(s, off, k),
        has_bit(blockers, ray_square(s, off, k)),
        forall|j: int| 1 <= j < k ==> !has_bit(blockers, #[trigger] ray_square(s, off, j)),
    ensures
        forall|t: int| #[trigger] slide_attack(s, off, blockers, t) <==> walked(s, off, k, t),
{
    assert forall|t: int| #[trigger] slide_attack(s, off, blockers, t) <==> walked(s, off, k, t) by {
        if slide_attack(s, off, blockers, t) {
            let kk = choose|kk: int| #![trigger ray_square(s, off, kk)] reaches(s, off, kk) && t == ray_square(s, off, kk) && forall|j: int|
                1 <= j < kk ==> !has_bit(blockers, #[trigger] ray_square(s, off, j));
            if kk > k {
                assert(!has_bit(blockers, ray_square(s, off, k)));
            }
            assert(walked(s, off, k, t));
        }
        if walked(s, off, k, t) {
            let j = choose|j: int| #![trigger ray_square(s, off, j)] 1 <= j <= k && reaches(s, off, j) && t == ray_square(s, off, j);
            assert(forall|jj: int| 1 <= jj < j ==> !has_bit(blockers, #[trigger] ray_square(s, off, jj)));
        }
    }
}

/// One more step of the walk: the square `k + 1` steps away is `origin + off`.
pub proof fn lemma_walk_step(s: int, off: int, k: int, origin: int)
    requires
        0 <= s < 64,
        0 <= k,
        off != 0,
        0 <= origin < 64,
        origin == ray_square(s, off, k),
        k >= 1 ==> reaches(s, off, k),
    ensures
        ({
            let t = origin + off;
            (0 <= t < 64 && abs(rank_of(t) - rank_of(origin)) <= 1 && abs(file_of(t) - file_of(origin)) <= 1)
                <==> reaches(s, off, k + 1)
        }),
        reaches(s, off, k + 1) ==> origin + off == ray_square(s, off, k + 1) && k + 1 <= 7,
        forall|t: int| walked(s, off, k + 1, t) <==> walked(s, off, k, t) || (reaches(s, off, k + 1) && t == ray_square(s, off, k + 1)),
{
    lemma_step(origin, off);
    if is_step(off) {
        lemma_ray(s, off, k);
    } else {
        assert(!reaches(s, off, k + 1));
    }
    assert forall|t: int| walked(s, off, k + 1, t) <==> walked(s, off, k, t) || (reaches(s, off, k + 1) && t == ray_square(s, off, k + 1)) by {
        if walked(s, off, k + 1, t) {
            let j = choose|j: int| #![trigger ray_square(s, off, j)] 1 <= j <= k + 1 && reaches(s, off, j) && t == ray_square(s, off, j);
            if j <= k {
                assert(walked(s, off, k, t));
            }
        }
        if walked(s, off, k, t) {
            let j = choose|j: int| #![trigger ray_square(s, off, j)] 1 <= j <= k && reaches(s, off, j) && t == ray_square(s, off, j);
            assert(walked(s, off, k + 1, t));
        }
    }
}

/// The squares a piece on `square` reaches on an empty board, sliding along each of
/// `offsets` (steps other than ±1, ±7, ±8, ±9 reach nothing).
pub fn sliding_move_mask(square: Square, offsets: &[i8]) -> (r: Bitboard)
    requires
        forall|m: int| 0 <= m < offsets@.len() ==> offsets@[m] != 0 && #[trigger] offsets@[m] <= 64,
    ensures
        r.0 == slide_mask(square as int, offsets@, 0),
        forall|t: int| #[trigger] has_bit(r.0, t) <==> 0 <= t < 64 && slide_any(square as int, offsets@, 0, t),
{
    let i = square as i8;
    let mut mask = Bitboard(0);
    let mut idx: usize = 0;
    proof {
        lemma_bits(0, 0);
    }
    while idx < offsets.len()
        invariant
            0 <= idx <= offsets@.len(),
            i == square as int,
            0 <= i < 64,
            forall|m: int| 0 <= m < offsets@.len() ==> offsets@[m] != 0 && #[trigger] offsets@[m] <= 64,
            forall|t: int| #[trigger] has_bit(mask.0, t) <==> exists|m: int|
                0 <= m < idx && slide_attack(i as int, #[trigger] offsets@[m] as int, 0, t),
        decreases offsets@.len() - idx,
    {
        let off = offsets[idx];
        let ghost before = mask.0;
        let mut origin = i;
        let ghost mut k: int = 0;
        proof {
            lemma_ray(i as int, 1, 0);
            assert(ray_square(i as int, off as int, 0) == i);
        }
        while in_bounds(origin)
            invariant
                0 <= k <= 7,
                0 <= i < 64,
                off != 0,
                off <= 64,
                0 <= origin < 64,
                origin == ray_square(i as int, off as int, k),
                k >= 1 ==> reaches(i as int, off as int, k),
                forall|t: int| #[trigger] has_bit(mask.0, t) <==> has_bit(before, t) || walked(i as int, off as int, k, t),
            ensures
                forall|t: int| #[trigger] has_bit(mask.0, t) <==> has_bit(before, t) || slide_attack(i as int, off as int, 0, t),
            decreases 8 - k,
        {
            let (origin_rank, origin_file) = coords(origin as u8);
            proof {
                lemma_walk_step(i as int, off as int, k, origin as int);
            }
            let target = origin + off;
            if !in_bounds(target) {
                proof {
                    lemma_bits(0, 0);
                    lemma_walk_done(i as int, off as int, 0, k);
                }
                break;
            }
            let (rank, file) = coords(target as u8);
            if abs_diff(origin_rank, rank) > 1 || abs_diff(origin_file, file) > 1 {
                proof {
                    lemma_bits(0, 0);
                    lemma_walk_done(i as int, off as int, 0, k);
                }
                break;
            }
            let bit = Bitboard(1u64 << (target as u64));
            proof {
                lemma_bits(mask.0, bit.0);
                lemma_single(target as int);
            }
            mask = mask | bit;
            origin = target;
            proof {
                k = k + 1;
            }
        }
        proof {
            assert forall|t: int| #[trigger] has_bit(mask.0, t) <==> exists|m: int|
                0 <= m < idx + 1 && slide_attack(i as int, #[trigger] offsets@[m] as int, 0, t) by {
                if has_bit(before, t) {
                    let m = choose|m: int| 0 <= m < idx && slide_attack(i as int, #[trigger] offsets@[m] as int, 0, t);
                    assert(0 <= m < idx + 1);
                }
                if slide_attack(i as int, off as int, 0, t) {
                    assert(slide_attack(i as int, offsets@[idx as int] as int, 0, t));
                }
                if exists|m: int| 0 <= m < idx + 1 && slide_attack(i as int, #[trigger] offsets@[m] as int, 0, t) {
                    let m = choose|m: int| 0 <= m < idx + 1 && slide_attack(i as int, #[trigger] offsets@[m] as int, 0, t);
                    if m < idx {
                        assert(has_bit(before, t));
                    }
                }
            }
        }
        idx = idx + 1;
    }
    proof {
        assert forall|t: int| #[trigger] has_bit(mask.0, t) <==> 0 <= t < 64 && slide_any(square as int, offsets@, 0, t) by {
            if has_bit(mask.0, t) {
                assert(0 <= t < 64);
            }
        }
        lemma_mask_of(|t: int| slide_any(square as int, offsets@, 0, t), mask.0);
    }
    mask
}

/// On an empty board, sliding along the rook steps reaches exactly the rook's lines.
pub proof fn lemma_rook_slides(s: int)
    requires
        0 <= s < 64,
    ensures
        forall|t: int| 0 <= t < 64 ==> (#[trigger] slide_any(s, ROOK_OFFSETS@, 0, t) <==> rook_line(s, t)),
{
    lemma_bits(0, 0);
    assert forall|t: int| 0 <= t < 64 implies (#[trigger] slide_any(s, ROOK_OFFSETS@, 0, t) <==> rook_line(s, t)) by {
        assert(s == rank_of(s) * 8 + file_of(s));
        assert(t == rank_of(t) * 8 + file_of(t));
        if slide_any(s, ROOK_OFFSETS@, 0, t) {
            let m = choose|m: int| 0 <= m < ROOK_OFFSETS@.len() && slide_attack(s, #[trigger] ROOK_OFFSETS@[m] as int, 0, t);
            let off = ROOK_OFFSETS@[m] as int;
            let kk = choose|kk: int| #![trigger ray_square(s, off, kk)] reaches(s, off, kk) && t == ray_square(s, off, kk) && forall|j: int|
                1 <= j < kk ==> !has_bit(0, #[trigger] ray_square(s, off, j));
            lemma_ray(s, off, kk);
        }
        if rook_line(s, t) {
            let dr = rank_of(t) - rank_of(s);
            let df = file_of(t) - file_of(s);
            let m: int = if dr == 0 && df > 0 { 0 } else if dr > 0 { 1 } else if dr == 0 { 2 } else { 3 };
            let off = ROOK_OFFSETS@[m] as int;
            let kk = if dr == 0 { abs(df) } else { abs(dr) };
            lemma_ray(s, off, kk);
            assert(reaches(s, off, kk) && t == ray_square(s, off, kk));
            assert(slide_attack(s, off, 0, t));
        }
    }
}

/// On an empty board, sliding along the bishop steps reaches exactly the bishop's diagonals.
pub proof fn lemma_bishop_slides(s: int)
    requires
        0 <= s < 64,
    ensures
        forall|t: int| 0 <= t < 64 ==> (#[trigger] slide_any(s, BISHOP_OFFSETS@, 0, t) <==> bishop_line(s, t)),
{
    lemma_bits(0, 0);
    assert forall|t: int| 0 <= t < 64 implies (#[trigger] slide_any(s, BISHOP_OFFSETS@, 0, t) <==> bishop_line(s, t)) by {
        assert(s == rank_of(s) * 8 + file_of(s));
        assert(t == rank_of(t) * 8 + file_of(t));
        if slide_any(s, BISHOP_OFFSETS@, 0, t) {
            let m = choose|m: int| 0 <= m < BISHOP_OFFSETS@.len() && slide_attack(s, #[trigger] BISHOP_OFFSETS@[m] as int, 0, t);
            let off = BISHOP_OFFSETS@[m] as int;
            let kk = choose|kk: int| #![trigger ray_square(s, off, kk)] reaches(s, off, kk) && t == ray_square(s, off, kk) && forall|j: int|
                1 <= j < kk ==> !has_bit(0, #[trigger] ray_square(s, off, j));
            lemma_ray(s, off, kk);
        }
        if bishop_line(s, t) {
            let dr = rank_of(t) - rank_of(s);
            let df = file_of(t) - file_of(s);
            let m: int = if dr < 0 && df > 0 { 0 } else if dr < 0 { 1 } else if df < 0 { 2 } else { 3 };
            let off = BISHOP_OFFSETS@[m] as int;
            let kk = abs(dr);
            lemma_ray(s, off, kk);
            assert(reaches(s, off, kk) && t == ray_square(s, off, kk));
            assert(slide_attack(s, off, 0, t));
        }
    }
}

/// The squares a bishop on `square` reaches on an empty board.
pub fn bishop_move_mask(square: Square) -> (r: Bitboard)
    ensures
        r.0 == bishop_mask(square as int),
        forall|t: int| #[trigger] has_bit(r.0, t) <==> bishop_line(square as int, t),
{
    let r = sliding_move_mask(square, &BISHOP_OFFSETS);
    proof {
        lemma_bishop_slides(square as int);
        lemma_mask_of(|t: int| bishop_line(square as int, t), r.0);
    }
    r
}

/// The squares a rook on `square` reaches on an empty board.
pub fn rook_move_mask(square: Square) -> (r: Bitboard)
    ensures
        r.0 == rook_mask(square as int),
        forall|t: int| #[trigger] has_bit(r.0, t) <==> rook_line(square as int, t),
{
    let r = sliding_move_mask(square, &ROOK_OFFSETS);
    proof {
        lemma_rook_slides(square as int);
        lemma_mask_of(|t: int| rook_line(square as int, t), r.0);
    }
    r
}

/// The knight attack sets of all squares, indexed by square.
pub fn generate_knight_masks() -> (masks: [Bitboard; 64])
    ensures
        forall|s: int| 0 <= s < 64 ==> (#[trigger] masks[s]).0 == knight_mask(s),
{
    let mut masks = [Bitboard(0); 64];
    let mut idx: usize = 0;
    while idx < 64
        invariant
            0 <= idx <= 64,
            forall|s: int| 0 <= s < idx ==> (#[trigger] masks[s]).0 == knight_mask(s),
        decreases 64 - idx,
    {
        let square = Square::ALL[idx];
        masks[square as usize] = knight_move_mask(square);
        idx = idx + 1;
    }
    masks
}

/// The bishop move sets on an empty board of all squares, indexed by square.
pub fn generate_bishop_masks() -> (masks: [Bitboard; 64])
    ensures
        forall|s: int| 0 <= s < 64 ==> (#[trigger] masks[s]).0 == bishop_mask(s),
{
    let mut masks = [Bitboard(0); 64];
    let mut idx: usize = 0;
    while idx < 64
        invariant
            0 <= idx <= 64,
            forall|s: int| 0 <= s < idx ==> (#[trigger] masks[s]).0 == bishop_mask(s),
        decreases 64 - idx,
    {
        let square = Square::ALL[idx];
        masks[square as usize] = bishop_move_mask(square);
        idx = idx + 1;
    }
    masks
}

/// The rook move sets on an empty board of all squares, indexed by square.
pub fn generate_rook_masks() -> (masks: [Bitboard; 64])
    ensures
        forall|s: int| 0 <= s < 64 ==> (#[trigger] masks[s]).0 == rook_mask(s),
{
    let mut masks = [Bitboard(0); 64];
    let mut idx: usize = 0;
    while idx < 64
        invariant
            0 <= idx <= 64,
            forall|s: int| 0 <= s < idx ==> (#[trigger] masks[s]).0 == rook_mask(s),
        decreases 64 - idx,
    {
        let square = Square::ALL[idx];
        masks[square as usize] = rook_move_mask(square);
        idx = idx + 1;
    }
    masks
}

/// The king attack sets of all squares, indexed by square.
pub fn generate_king_masks() -> (masks: [Bitboard; 64])
    ensures
        forall|s: int| 0 <= s < 64 ==> (#[trigger] masks[s]).0 == king_mask(s),
{
    let mut masks = [Bitboard(0); 64];
    let mut idx: usize = 0;
    while idx < 64
        invariant
            0 <= idx <= 64,
            forall|s: int| 0 <= s < idx ==> (#[trigger] masks[s]).0 == king_mask(s),
        decreases 64 - idx,
    {
        let square = Square::ALL[idx];
        masks[square as usize] = king_move_mask(square);
        idx = idx + 1;
    }
    masks
}

/// The capture sets of `color`'s pawns of all squares, indexed by square.
pub fn generate_pawn_capture_masks(color: Color) -> (masks: [Bitboard; 64])
    ensures
        forall|s: int| 0 <= s < 64 ==> (#[trigger] masks[s]).0 == pawn_mask(s, color),
{
    let mut masks = [Bitboard(0); 64];
    let mut idx: usize = 0;
    while idx < 64
        invariant
            0 <= idx <= 64,
            forall|s: int| 0 <= s < idx ==> (#[trigger] masks[s]).0 == pawn_mask(s, color),
        decreases 64 - idx,
    {
        let square = Square::ALL[idx];
        masks[square as usize] = pawn_capture_mask(square, color);
        idx = idx + 1;
    }
    masks
}

} // verus!
