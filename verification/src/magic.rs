use rand::{thread_rng, Rng};
use vstd::prelude::*;
use crate::board::bitboard::{
    Bitboard, has_bit, mask_of, lemma_bits, lemma_single, lemma_mask_of, lemma_mask_of_bits,
    lemma_line_masks, lemma_meets_single,
};
use crate::board::square::{Square, rank_of, file_of};
use crate::board::bitboard::{lemma_next_subset, lemma_lowest_subset, lemma_subset_basics};
use vstd::std_specs::bits::{u64_trailing_zeros, axiom_u64_trailing_zeros};
use vstd::wrapping::u64_specs;
use crate::generation::{
    abs, abs_diff, coords, in_bounds, rook_move_mask, bishop_move_mask, rook_line, bishop_line, reaches,
    ray_square, slide_attack, slide_any, slide_mask, walked, lemma_ray, lemma_reaches_prefix,
    lemma_walk_step, lemma_walk_done, lemma_walk_blocked, is_step, rook_mask, bishop_mask,
    lemma_rook_slides, lemma_bishop_slides, ROOK_OFFSETS, BISHOP_OFFSETS,
};

verus! {

pub const ORTHOGONAL_OFFSETS: [i8; 4] = [1, 8, -1, -8];

pub const DIAGONAL_OFFSETS: [i8; 4] = [7, 9, -7, -9];

/// The squares whose occupation can change the moves of a rook on `s`: its lines, without the
/// last square of each line.
pub open spec fn rook_relevant(s: int, t: int) -> bool {
    &&& rook_line(s, t)
    &&& rank_of(s) != 0 ==> rank_of(t) != 0
    &&& rank_of(s) != 7 ==> rank_of(t) != 7
    &&& file_of(s) != 0 ==> file_of(t) != 0
    &&& file_of(s) != 7 ==> file_of(t) != 7
}

/// The squares whose occupation can change the moves of a bishop on `s`: its diagonals,
/// without the edge squares.
pub open spec fn bishop_relevant(s: int, t: int) -> bool {
    &&& bishop_line(s, t)
    &&& 1 <= rank_of(t) <= 6
    &&& 1 <= file_of(t) <= 6
}

/// The kind of line a slider moves along.
#[derive(Debug, Clone, Copy, PartialEq, Eq, Structural)]
pub enum Direction {
    Orthogonal,
    Diagonal,
}

impl Direction {
    /// The steps of this kind of slider.
    pub open spec fn offsets(self) -> Seq<i8> {
        match self {
            Direction::Orthogonal => ORTHOGONAL_OFFSETS@,
            Direction::Diagonal => DIAGONAL_OFFSETS@,
        }
    }

    /// Whether a piece on `t` can change the moves of this slider on `s`.
    pub open spec fn relevant(self, s: int, t: int) -> bool {
        match self {
            Direction::Orthogonal => rook_relevant(s, t),
            Direction::Diagonal => bishop_relevant(s, t),
        }
    }

    /// The relevant squares of this slider on `s`.
    pub open spec fn relevant_mask(self, s: int) -> u64 {
        mask_of(|t: int| self.relevant(s, t))
    }

    /// The squares this slider on `s` reaches when `blockers` are occupied.
    pub open spec fn attacks(self, s: int, blockers: u64) -> u64 {
        slide_mask(s, self.offsets(), blockers)
    }

    /// The squares that can block this slider on `square`.
    pub fn blockers(&self, square: Square) -> (r: Bitboard)
        ensures
            r.0 == self.relevant_mask(square as int),
    {
        match self {
            Self::Orthogonal => Self::rook_blockers(square),
            Self::Diagonal => Self::bishop_blockers(square),
        }
    }

    /// The squares that can block a rook on `square`.
    pub fn rook_blockers(square: Square) -> (r: Bitboard)
        ensures
            r.0 == Direction::Orthogonal.relevant_mask(square as int),
    {
        let mut mask = rook_move_mask(square);
        let (rank, file) = coords(square as u8);
        let ghost s = square as int;
        let ghost m0 = mask.0;
        if rank != 0 {
            proof { lemma_bits(mask.0, Bitboard::RANK_1); }
            mask = Bitboard(mask.0 & !Bitboard::RANK_1);
        }
        let ghost m1 = mask.0;
        if rank != 7 {
            proof { lemma_bits(mask.0, Bitboard::RANK_8); }
            mask = Bitboard(mask.0 & !Bitboard::RANK_8);
        }
        let ghost m2 = mask.0;
        if file != 0 {
            proof { lemma_bits(mask.0, Bitboard::A_FILE); }
            mask = Bitboard(mask.0 & !Bitboard::A_FILE);
        }
        let ghost m3 = mask.0;
        if file != 7 {
            proof { lemma_bits(mask.0, Bitboard::H_FILE); }
            mask = Bitboard(mask.0 & !Bitboard::H_FILE);
        }
        proof {
            lemma_bits(m0, !Bitboard::RANK_1);
            lemma_bits(Bitboard::RANK_1, 0);
            lemma_bits(m1, !Bitboard::RANK_8);
            lemma_bits(Bitboard::RANK_8, 0);
            lemma_bits(m2, !Bitboard::A_FILE);
            lemma_bits(Bitboard::A_FILE, 0);
            lemma_bits(m3, !Bitboard::H_FILE);
            lemma_bits(Bitboard::H_FILE, 0);
            assert forall|t: int| 0 <= t < 64 implies (has_bit(mask.0, t) <==> rook_relevant(s, t)) by {
                lemma_line_masks(t as u64);
                assert(t == rank_of(t) * 8 + file_of(t));
                assert(has_bit(Bitboard::RANK_1, t) == (rank_of(t) == 0));
                assert(has_bit(Bitboard::RANK_8, t) == (rank_of(t) == 7));
                assert(has_bit(Bitboard::A_FILE, t) == (file_of(t) == 0));
                assert(has_bit(Bitboard::H_FILE, t) == (file_of(t) == 7));
                assert(has_bit(m0, t) == rook_line(s, t));
            }
            lemma_mask_of(|t: int| Direction::Orthogonal.relevant(s, t), mask.0);
        }
        mask
    }

    /// The squares that can block a bishop on `square`.
    pub fn bishop_blockers(square: Square) -> (r: Bitboard)
        ensures
            r.0 == Direction::Diagonal.relevant_mask(square as int),
    {
        let m = bishop_move_mask(square);
        let r = Bitboard(m.0 & !Bitboard::EDGES);
        proof {
            let s = square as int;
            lemma_bits(m.0, !Bitboard::EDGES);
            lemma_bits(Bitboard::EDGES, 0);
            assert forall|t: int| 0 <= t < 64 implies (has_bit(r.0, t) <==> bishop_relevant(s, t)) by {
                lemma_line_masks(t as u64);
                assert(t == rank_of(t) * 8 + file_of(t));
            }
            lemma_mask_of(|t: int| Direction::Diagonal.relevant(s, t), r.0);
        }
        r
    }

    /// The squares this slider on `square` reaches with `blockers` occupied.
    pub fn moves(&self, square: Square, blockers: Bitboard) -> (r: Bitboard)
        ensures
            r.0 == self.attacks(square as int, blockers.0),
    {
        match self {
            Direction::Orthogonal => Self::sliding_moves(square, blockers, ORTHOGONAL_OFFSETS),
            Direction::Diagonal => Self::sliding_moves(square, blockers, DIAGONAL_OFFSETS),
        }
    }

    /// The squares a piece on `square` reaches sliding along each of `offsets`: each ray
    /// runs to the board's edge or to the first square of `blockers`, which it includes.
    fn sliding_moves(square: Square, blockers: Bitboard, offsets: [i8; 4]) -> (r: Bitboard)
        requires
            forall|m: int| 0 <= m < 4 ==> offsets@[m] != 0 && #[trigger] offsets@[m] <= 64,
        ensures
            r.0 == slide_mask(square as int, offsets@, blockers.0),
    {
        let i = square as i8;
        let mut mask = Bitboard(0);
        let mut idx: usize = 0;
        proof {
            lemma_bits(0, 0);
        }
        while idx < 4
            invariant
                0 <= idx <= 4,
                i == square as int,
                0 <= i < 64,
                forall|m: int| 0 <= m < 4 ==> offsets@[m] != 0 && #[trigger] offsets@[m] <= 64,
                forall|t: int| #[trigger] has_bit(mask.0, t) <==> exists|m: int|
                    0 <= m < idx && slide_attack(i as int, #[trigger] offsets@[m] as int, blockers.0, t),
            decreases 4 - idx,
        {
            let off = offsets[idx];
            let ghost before = mask.0;
            let mut origin = i;
            let ghost mut k: int = 0;
            proof {
                lemma_ray(i as int, 1, 0);
                assert(ray_square(i as int, off as int, 0) == i);
            }
            while in_bounds(origin)
                invariant_except_break
                    forall|t: int| #[trigger] has_bit(mask.0, t) <==> has_bit(before, t) || walked(i as int, off as int, k, t),
                invariant
                    0 <= k <= 7,
                    0 <= i < 64,
                    off != 0,
                    off <= 64,
                    0 <= origin < 64,
                    origin == ray_square(i as int, off as int, k),
                    k >= 1 ==> reaches(i as int, off as int, k),
                    forall|j: int| 1 <= j <= k ==> !has_bit(blockers.0, #[trigger] ray_square(i as int, off as int, j)),
                ensures
                    forall|t: int| #[trigger] has_bit(mask.0, t) <==> has_bit(before, t) || slide_attack(i as int, off as int, blockers.0, t),
                decreases 8 - k,
            {
                let (origin_rank, origin_file) = coords(origin as u8);
                proof {
                    lemma_walk_step(i as int, off as int, k, origin as int);
                }
                let target = origin + off;
                if !in_bounds(target) {
                    proof {
                        lemma_walk_done(i as int, off as int, blockers.0, k);
                    }
                    break;
                }
                let (rank, file) = coords(target as u8);
                if abs_diff(origin_rank, rank) > 1 || abs_diff(origin_file, file) > 1 {
                    proof {
                        lemma_walk_done(i as int, off as int, blockers.0, k);
                    }
                    break;
                }
                let bit = Bitboard(1u64 << (target as u64));
                proof {
                    lemma_bits(mask.0, bit.0);
                    lemma_single(target as int);
                    lemma_meets_single(blockers.0, target as u64);
                }
                mask = mask | bit;
                if bit.0 & blockers.0 > 0 {
                    proof {
                        lemma_walk_blocked(i as int, off as int, blockers.0, k + 1);
                    }
                    break;
                }
                origin = target;
                proof {
                    k = k + 1;
                }
            }
            proof {
                assert forall|t: int| #[trigger] has_bit(mask.0, t) <==> exists|m: int|
                    0 <= m < idx + 1 && slide_attack(i as int, #[trigger] offsets@[m] as int, blockers.0, t) by {
                    if has_bit(before, t) {
                        let m = choose|m: int| 0 <= m < idx && slide_attack(i as int, #[trigger] offsets@[m] as int, blockers.0, t);
                        assert(0 <= m < idx + 1);
                    }
                    if slide_attack(i as int, off as int, blockers.0, t) {
                        assert(slide_attack(i as int, offsets@[idx as int] as int, blockers.0, t));
                    }
                    if exists|m: int| 0 <= m < idx + 1 && slide_attack(i as int, #[trigger] offsets@[m] as int, blockers.0, t) {
                        let m = choose|m: int| 0 <= m < idx + 1 && slide_attack(i as int, #[trigger] offsets@[m] as int, blockers.0, t);
                        if m < idx {
                            assert(has_bit(before, t));
                        }
                    }
                }
            }
            idx = idx + 1;
        }
        proof {
            assert forall|t: int| 0 <= t < 64 implies (has_bit(mask.0, t) <==> slide_any(square as int, offsets@, blockers.0, t)) by {}
            lemma_mask_of(|t: int| slide_any(square as int, offsets@, blockers.0, t), mask.0);
        }
        mask
    }
}

/// A square strictly inside a ray (a further square of the ray is still on the board) is
/// relevant to the slider.
proof fn lemma_inner_square_relevant(dir: Direction, s: int, m: int, j: int, k: int)
    requires
        0 <= s < 64,
        0 <= m < 4,
        1 <= j < k,
        reaches(s, dir.offsets()[m] as int, k),
    ensures
        dir.relevant(s, ray_square(s, dir.offsets()[m] as int, j)),
{
    let off = dir.offsets()[m] as int;
    lemma_reaches_prefix(s, off, j, k);
    lemma_reaches_prefix(s, off, j + 1, k);
    lemma_ray(s, off, j);
    lemma_ray(s, off, j + 1);
    let t = ray_square(s, off, j);
    assert(s == rank_of(s) * 8 + file_of(s));
    assert(t == rank_of(t) * 8 + file_of(t));
}

/// The moves of a slider depend only on the relevant squares: squares of `blockers` outside
/// `relevant_mask` change nothing.
pub proof fn lemma_attacks_relevant(dir: Direction, s: int, blockers: u64)
    requires
        0 <= s < 64,
    ensures
        dir.attacks(s, blockers) == dir.attacks(s, blockers & dir.relevant_mask(s)),
{
    let rm = dir.relevant_mask(s);
    let b2 = blockers & rm;
    let offs = dir.offsets();
    lemma_bits(blockers, rm);
    lemma_mask_of_bits(|t: int| dir.relevant(s, t));
    assert forall|t: int| slide_any(s, offs, blockers, t) <==> slide_any(s, offs, b2, t) by {
        assert forall|m: int| 0 <= m < 4 implies (slide_attack(s, #[trigger] offs[m] as int, blockers, t)
            <==> slide_attack(s, offs[m] as int, b2, t)) by {
            let off = offs[m] as int;
            if slide_attack(s, off, blockers, t) {
                let kk = choose|kk: int| #![trigger ray_square(s, off, kk)] reaches(s, off, kk) && t == ray_square(s, off, kk) && forall|j: int|
                    1 <= j < kk ==> !has_bit(blockers, #[trigger] ray_square(s, off, j));
                assert(forall|j: int| 1 <= j < kk ==> !has_bit(b2, #[trigger] ray_square(s, off, j)));
                assert(slide_attack(s, off, b2, t));
            }
            if slide_attack(s, off, b2, t) {
                let kk = choose|kk: int| #![trigger ray_square(s, off, kk)] reaches(s, off, kk) && t == ray_square(s, off, kk) && forall|j: int|
                    1 <= j < kk ==> !has_bit(b2, #[trigger] ray_square(s, off, j));
                assert forall|j: int| 1 <= j < kk implies !has_bit(blockers, #[trigger] ray_square(s, off, j)) by {
                    lemma_inner_square_relevant(dir, s, m, j, kk);
                }
                assert(slide_attack(s, off, blockers, t));
            }
        }
        if slide_any(s, offs, blockers, t) {
            let m = choose|m: int| 0 <= m < offs.len() && slide_attack(s, #[trigger] offs[m] as int, blockers, t);
            assert(slide_attack(s, offs[m] as int, b2, t));
        }
        if slide_any(s, offs, b2, t) {
            let m = choose|m: int| 0 <= m < offs.len() && slide_attack(s, #[trigger] offs[m] as int, b2, t);
            assert(slide_attack(s, offs[m] as int, blockers, t));
        }
    }
    lemma_mask_of_bits(|t: int| slide_any(s, offs, blockers, t));
    lemma_mask_of(|t: int| slide_any(s, offs, b2, t), dir.attacks(s, blockers));
}

/// On an empty board a slider reaches exactly the squares of its line mask: the rook mask
/// along ranks and files, the bishop mask along diagonals.
pub proof fn lemma_attacks_empty(s: int)
    requires
        0 <= s < 64,
    ensures
        Direction::Orthogonal.attacks(s, 0) == rook_mask(s),
        Direction::Diagonal.attacks(s, 0) == bishop_mask(s),
{
    lemma_rook_slides(s);
    lemma_bishop_slides(s);
    assert(ORTHOGONAL_OFFSETS@ =~= ROOK_OFFSETS@);
    let po = |t: int| slide_any(s, ORTHOGONAL_OFFSETS@, 0, t);
    let pd = |t: int| slide_any(s, DIAGONAL_OFFSETS@, 0, t);
    lemma_mask_of_bits(po);
    lemma_mask_of_bits(pd);
    assert forall|t: int| 0 <= t < 64 implies (has_bit(Direction::Orthogonal.attacks(s, 0), t) <==> rook_line(s, t)) by {
        assert(po(t) == slide_any(s, ROOK_OFFSETS@, 0, t));
    }
    lemma_mask_of(|t: int| rook_line(s, t), Direction::Orthogonal.attacks(s, 0));
    assert forall|t: int| 0 <= t < 64 implies (has_bit(Direction::Diagonal.attacks(s, 0), t) <==> bishop_line(s, t)) by {
        let d = DIAGONAL_OFFSETS@;
        let b = BISHOP_OFFSETS@;
        assert(d[0] == b[2] && d[1] == b[3] && d[2] == b[0] && d[3] == b[1]);
        if pd(t) {
            let m = choose|m: int| 0 <= m < d.len() && slide_attack(s, #[trigger] d[m] as int, 0, t);
            let n = if m == 0 { 2int } else if m == 1 { 3int } else if m == 2 { 0int } else { 1int };
            assert(slide_attack(s, b[n] as int, 0, t));
            assert(slide_any(s, b, 0, t));
        }
        if slide_any(s, b, 0, t) {
            let m = choose|m: int| 0 <= m < b.len() && slide_attack(s, #[trigger] b[m] as int, 0, t);
            let n = if m == 0 { 2int } else if m == 1 { 3int } else if m == 2 { 0int } else { 1int };
            assert(slide_attack(s, d[n] as int, 0, t));
            assert(pd(t));
        }
    }
    lemma_mask_of(|t: int| bishop_line(s, t), Direction::Diagonal.attacks(s, 0));
}

/// A slider always has a move: its first step along some line is on the board and is never
/// blocked.
pub proof fn lemma_attacks_nonempty(dir: Direction, s: int, blockers: u64)
    requires
        0 <= s < 64,
    ensures
        dir.attacks(s, blockers) != 0,
{
    let offs = dir.offsets();
    let m: int = match dir {
        Direction::Orthogonal => if file_of(s) < 7 { 0 } else { 2 },
        Direction::Diagonal => if rank_of(s) < 7 {
            if file_of(s) < 7 { 1 } else { 0 }
        } else {
            if file_of(s) < 7 { 2 } else { 3 }
        },
    };
    let off = offs[m] as int;
    lemma_ray(s, off, 1);
    let t = ray_square(s, off, 1);
    assert(reaches(s, off, 1));
    assert(slide_attack(s, off, blockers, t));
    assert(slide_any(s, offs, blockers, t));
    lemma_mask_of_bits(|u: int| slide_any(s, offs, blockers, u));
    lemma_bits(0, 0);
    assert(has_bit(dir.attacks(s, blockers), t));
}

/// Every square has a relevant square for both kinds of slider.
proof fn lemma_relevant_nonempty(dir: Direction, s: int)
    requires
        0 <= s < 64,
    ensures
        dir.relevant_mask(s) != 0,
{
    let r = rank_of(s);
    let f = file_of(s);
    let nf = if f < 4 { f + 1 } else { f - 1 };
    let nr = if r < 4 { r + 1 } else { r - 1 };
    let t = match dir {
        Direction::Orthogonal => r * 8 + nf,
        Direction::Diagonal => nr * 8 + nf,
    };
    assert(s == r * 8 + f);
    assert(rank_of(t) == (match dir { Direction::Orthogonal => r, Direction::Diagonal => nr }));
    assert(file_of(t) == nf);
    assert(dir.relevant(s, t));
    lemma_mask_of_bits(|u: int| dir.relevant(s, u));
    lemma_bits(0, 0);
    assert(has_bit(dir.relevant_mask(s), t));
}

/// Whether `b` is a subset of `set`.
pub open spec fn is_subset(b: u64, set: u64) -> bool {
    b & set == b
}

/// The lowest square of `set`, alone.
pub open spec fn lowest_bit(set: u64) -> u64 {
    1u64 << (u64_trailing_zeros(set) as u64)
}

/// The subsets that the walk over `set`'s subsets hands out: all of them but the lowest
/// square of `set` alone (and none when `set` is empty).
pub open spec fn walk_yields(set: u64, b: u64) -> bool {
    &&& set != 0
    &&& is_subset(b, set)
    &&& b != lowest_bit(set)
}

proof fn lemma_lowest(c: u64, set: u64)
    requires
        set != 0,
        is_subset(c, set),
        c != 0,
    ensures
        c >= lowest_bit(set),
        is_subset(lowest_bit(set), set),
        lowest_bit(set) != 0,
        ((c - 1) as u64) & set == 0 <==> c == lowest_bit(set),
{
    axiom_u64_trailing_zeros(set);
    lemma_lowest_subset(c, set, u64_trailing_zeros(set) as u64);
}

/// A magic number entry: the relevant squares, the multiplier and the width of the index,
/// and whether a multiplier was found (when none was, lookups walk the rays instead).
#[derive(Debug)]
struct MagicEntry {
    mask: Bitboard,
    magic: u64,
    index_bits: u8,
    found: bool,
}

impl MagicEntry {
    /// An entry with no squares, no multiplier and no index bits.
    pub closed spec fn is_blank(self) -> bool {
        self.mask.0 == 0 && self.magic == 0 && self.index_bits == 0 && !self.found
    }
}

impl Default for MagicEntry {
    fn default() -> (r: MagicEntry)
        ensures
            r.is_blank(),
    {
        MagicEntry { mask: Bitboard(0), magic: 0, index_bits: 0, found: false }
    }
}

/// The table slot of `blockers` under `entry`: the relevant blockers times the magic number
/// (modulo 2^64), shifted down to its top `index_bits` bits.
pub open spec fn spec_magic_index(mask: u64, magic: u64, index_bits: u8, blockers: u64) -> int {
    (u64_specs::wrapping_mul(blockers & mask, magic) >> ((64 - index_bits) as u8)) as int
}

proof fn lemma_index_bound(h: u64, k: u8)
    by (bit_vector)
    requires
        1 <= k <= 31,
    ensures
        (h >> ((64u8 - k) as u8)) < (1u64 << k),
        ((h >> ((64u8 - k) as u8)) as usize) as u64 == h >> ((64u8 - k) as u8),
        ((h >> ((64u8 - k) as u8)) as usize) < (1usize << k),
{
}

/// The table slot of `blockers` under `entry`.
fn magic_index(entry: &MagicEntry, blockers: Bitboard) -> (r: usize)
    requires
        1 <= entry.index_bits <= 31,
    ensures
        r == spec_magic_index(entry.mask.0, entry.magic, entry.index_bits, blockers.0),
        r < (1usize << entry.index_bits),
{
    let blockers = blockers & entry.mask;
    let hash = blockers.0.wrapping_mul(entry.magic);
    proof {
        lemma_index_bound(hash, entry.index_bits);
    }
    (hash >> (64 - entry.index_bits)) as usize
}

/// A table fills every slot that a handed-out subset of `mask` lands on with the moves for
/// that subset.
pub open spec fn table_sound(dir: Direction, s: int, mask: u64, magic: u64, index_bits: u8, table: Seq<Bitboard>) -> bool {
    forall|b: u64| #[trigger] walk_yields(mask, b) ==> {
        let i = spec_magic_index(mask, magic, index_bits, b);
        &&& 0 <= i < table.len()
        &&& table[i].0 == dir.attacks(s, b)
    }
}

/// Two handed-out subsets of `mask` land on one slot but call for different moves.
pub open spec fn collides(dir: Direction, sq: Square, mask: u64, magic: u64, index_bits: u8, b1: u64, b2: u64) -> bool {
    let s = sq as int;
    &&& walk_yields(mask, b1)
    &&& walk_yields(mask, b2)
    &&& spec_magic_index(mask, magic, index_bits, b1) == spec_magic_index(mask, magic, index_bits, b2)
    &&& dir.attacks(s, b1) != dir.attacks(s, b2)
}

/// The subsets the walk has handed out so far.
spec fn walked_subset(set: u64, current: u64, fin: bool, last: u64, b: u64) -> bool {
    &&& is_subset(b, set)
    &&& if fin { b == 0 || b > last } else { b > current }
}

#[derive(Debug)]
struct FillTableError;

/// Fills the table of `entry` for a slider of kind `direction` on `square`: each subset of the
/// relevant squares, as the walk hands them out, writes its moves into its slot; two subsets
/// that need different moves in one slot make the magic number unusable.
fn try_fill_table(square: Square, direction: Direction, entry: &MagicEntry) -> (r: Result<Vec<Bitboard>, FillTableError>)
    requires
        1 <= entry.index_bits <= 31,
    ensures
        r is Ok <==> !exists|b1: u64, b2: u64| #[trigger] collides(direction, square, entry.mask.0, entry.magic, entry.index_bits, b1, b2),
        r matches Ok(table) ==> table@.len() == (1usize << entry.index_bits)
            && table_sound(direction, square as int, entry.mask.0, entry.magic, entry.index_bits, table@),
{
    let ghost s = square as int;
    let ghost set = entry.mask.0;
    let ghost mask = entry.mask.0;
    let ghost magic = entry.magic;
    let ghost bits = entry.index_bits;
    let mut table = vec![Bitboard(0); 1usize << entry.index_bits];
    let mut subsets = entry.mask.subsets();
    let ghost mut fin = false;
    let ghost mut last: u64 = 0;
    proof {
        assert forall|i: int| 0 <= i < table@.len() implies table@[i].0 == 0 by {
            assert(cloned(Bitboard(0), table@[i]));
        }
        lemma_subset_basics(0, set);
        assert forall|b: u64| !#[trigger] walked_subset(set, subsets.current(), fin, last, b) by {
            lemma_subset_basics(b, set);
        }
    }
    loop
        invariant
            s == square as int,
            set == entry.mask.0,
            mask == entry.mask.0,
            magic == entry.magic,
            bits == entry.index_bits,
            1 <= entry.index_bits <= 31,
            table@.len() == (1usize << entry.index_bits),
            subsets.set() == set,
            is_subset(subsets.current(), set),
            fin ==> subsets.current() == 0 && set != 0 && last == lowest_bit(set),
            !fin && subsets.current() == 0 ==> set == 0,
            forall|b: u64| #[trigger] walked_subset(set, subsets.current(), fin, last, b) ==> walk_yields(set, b),
            forall|b: u64| #[trigger] walked_subset(set, subsets.current(), fin, last, b) ==>
                table@[spec_magic_index(mask, magic, bits, b)].0 == direction.attacks(s, b),
            forall|i: int| 0 <= i < table@.len() && (#[trigger] table@[i]).0 != 0 ==> exists|b: u64|
                #[trigger] walked_subset(set, subsets.current(), fin, last, b) && spec_magic_index(mask, magic, bits, b) == i
                    && table@[i].0 == direction.attacks(s, b),
        ensures
            forall|b: u64| #[trigger] walk_yields(set, b) ==> walked_subset(set, subsets.current(), fin, last, b),
            forall|b: u64| #[trigger] walked_subset(set, subsets.current(), fin, last, b) ==>
                table@[spec_magic_index(mask, magic, bits, b)].0 == direction.attacks(s, b),
        decreases subsets.current(),
    {
        let ghost c = subsets.current();
        let next = subsets.next();
        let blockers = match next {
            Some(b) => b,
            None => {
                proof {
                    assert forall|b: u64| #[trigger] walk_yields(set, b) implies walked_subset(set, subsets.current(), fin, last, b) by {
                        if fin && b != 0 {
                            lemma_lowest(b, set);
                        }
                    }
                }
                break;
            },
        };
        proof {
            lemma_next_subset(c, set, 0);
            lemma_lowest(c, set);
        }
        let moves = direction.moves(square, blockers);
        let i = magic_index(entry, blockers);
        proof {
            lemma_attacks_nonempty(direction, s, blockers.0);
        }
        let ghost old_table = table@;
        let ghost old_fin = fin;
        let ghost old_last = last;
        if table[i].0 == 0 {
            table.set(i, moves);
        } else if table[i].0 != moves.0 {
            proof {
                assert(table@[i as int].0 != 0);
                assert(exists|b: u64| #[trigger] walked_subset(set, c, fin, last, b) && spec_magic_index(mask, magic, bits, b) == i
                    && table@[i as int].0 == direction.attacks(s, b));
                assert(i == spec_magic_index(mask, magic, bits, blockers.0));
                let b2 = choose|b: u64| #[trigger] walked_subset(set, c, fin, last, b) && spec_magic_index(mask, magic, bits, b) == i
                    && table@[i as int].0 == direction.attacks(s, b);
                assert(walk_yields(set, b2));
                if subsets.current() == 0 {
                    lemma_lowest(c, set);
                } else {
                    lemma_lowest(c, set);
                    lemma_lowest(subsets.current(), set);
                }
                assert(walk_yields(set, blockers.0));
                assert(spec_magic_index(mask, magic, bits, blockers.0) == spec_magic_index(mask, magic, bits, b2));
                assert(direction.attacks(s, blockers.0) != direction.attacks(s, b2));
                assert(collides(direction, square, mask, magic, bits, blockers.0, b2));
            }
            return Err(FillTableError);
        }
        proof {
            if subsets.current() == 0 {
                fin = true;
                last = c;
            }
            assert forall|b: u64| #[trigger] walked_subset(set, subsets.current(), fin, last, b) implies
                walked_subset(set, c, old_fin, old_last, b) || b == blockers.0 by {
                if b != blockers.0 {
                    lemma_next_subset(c, set, b);
                }
            }
            assert forall|b: u64| #[trigger] walked_subset(set, subsets.current(), fin, last, b) implies walk_yields(set, b) by {
                if b == blockers.0 {
                    lemma_lowest(c, set);
                    if subsets.current() != 0 {
                        lemma_lowest(subsets.current(), set);
                    }
                } else {
                    assert(walked_subset(set, c, old_fin, old_last, b));
                }
            }
            assert(walked_subset(set, subsets.current(), fin, last, blockers.0)) by {
                lemma_next_subset(c, set, 0);
            }
            assert forall|b: u64| #[trigger] walked_subset(set, subsets.current(), fin, last, b) implies
                table@[spec_magic_index(mask, magic, bits, b)].0 == direction.attacks(s, b) by {
                lemma_index_bound(u64_specs::wrapping_mul(b & mask, magic), bits);
                if b != blockers.0 {
                    assert(walked_subset(set, c, old_fin, old_last, b));
                    lemma_attacks_nonempty(direction, s, b);
                    assert(old_table[spec_magic_index(mask, magic, bits, b)].0 == direction.attacks(s, b));
                }
            }
            assert forall|j: int| 0 <= j < table@.len() && (#[trigger] table@[j]).0 != 0 implies exists|b: u64|
                #[trigger] walked_subset(set, subsets.current(), fin, last, b) && spec_magic_index(mask, magic, bits, b) == j
                    && table@[j].0 == direction.attacks(s, b) by {
                if j == i {
                    assert(walked_subset(set, subsets.current(), fin, last, blockers.0));
                } else {
                    let b = choose|b: u64| #[trigger] walked_subset(set, c, old_fin, old_last, b) && spec_magic_index(mask, magic, bits, b) == j
                        && old_table[j].0 == direction.attacks(s, b);
                    assert(walked_subset(set, subsets.current(), fin, last, b)) by {
                        if fin && !old_fin {
                        } else {
                            lemma_next_subset(c, set, b);
                        }
                    }
                }
            }
        }
    }
    proof {
        assert forall|b: u64| #[trigger] walk_yields(set, b) implies {
            let i = spec_magic_index(mask, magic, bits, b);
            &&& 0 <= i < table@.len()
            &&& table@[i].0 == direction.attacks(s, b)
        } by {
            lemma_index_bound(u64_specs::wrapping_mul(b & mask, magic), bits);
        }
        assert forall|b1: u64, b2: u64| !#[trigger] collides(direction, square, mask, magic, bits, b1, b2) by {
            if collides(direction, square, mask, magic, bits, b1, b2) {
                assert(walk_yields(set, b1));
                assert(walk_yields(set, b2));
            }
        }
    }
    Ok(table)
}

/// A random 64-bit number: a call of `rand::thread_rng().gen::<u64>()` from the `rand`
/// crate. Its value rests on chance, so the contract says nothing of it.
#[verifier::external_body]
fn random_u64() -> u64 {
    thread_rng().gen::<u64>()
}

/// A random candidate magic number, with about a quarter of its bits set.
fn random_magic() -> u64 {
    random_u64() & random_u64() & random_u64()
}

/// Searches random candidates for a magic number whose table for a slider of kind `direction`
/// on `square` has no collision, and returns it with its table. The search gives up after
/// `u64::MAX` rejected candidates and then returns an entry marked as not found, with an empty
/// table; lookups for such an entry walk the rays instead.
fn generate_magic(square: Square, direction: Direction, index_bits: u8) -> (r: (MagicEntry, Vec<Bitboard>))
    requires
        1 <= index_bits <= 31,
    ensures
        r.0.mask.0 == direction.relevant_mask(square as int),
        r.0.index_bits == index_bits,
        r.1@.len() == (1usize << index_bits),
        r.0.found ==> table_sound(direction, square as int, r.0.mask.0, r.0.magic, index_bits, r.1@),
{
    let blockers = direction.blockers(square);
    let mut attempts: u64 = 0;
    while attempts < u64::MAX
        invariant
            1 <= index_bits <= 31,
            blockers.0 == direction.relevant_mask(square as int),
        decreases u64::MAX - attempts,
    {
        let magic = random_magic();
        let entry = MagicEntry { mask: blockers, magic, index_bits, found: true };
        if let Ok(table) = try_fill_table(square, direction, &entry) {
            return (entry, table);
        }
        attempts = attempts + 1;
    }
    let table = vec![Bitboard(0); 1usize << index_bits];
    (MagicEntry { mask: blockers, magic: 0, index_bits, found: false }, table)
}

/// Move lookup for rooks and bishops by magic bitboards: for each square, a table indexed by
/// a hash of the relevant blockers.
#[derive(Debug)]
pub struct SlidingMoveGen {
    rook_tables: Vec<Vec<Bitboard>>,
    bishop_tables: Vec<Vec<Bitboard>>,
    rook_magics: Vec<MagicEntry>,
    bishop_magics: Vec<MagicEntry>,
}

impl SlidingMoveGen {
    #[verifier::type_invariant]
    spec fn wf(self) -> bool {
        &&& self.rook_tables.len() == 64
        &&& self.bishop_tables.len() == 64
        &&& self.rook_magics.len() == 64
        &&& self.bishop_magics.len() == 64
        &&& forall|i: int| 0 <= i < 64 ==> {
            let e = #[trigger] self.rook_magics[i];
            &&& e.mask.0 == Direction::Orthogonal.relevant_mask(i)
            &&& e.index_bits == 12
            &&& self.rook_tables[i]@.len() == (1usize << 12)
            &&& e.found ==> table_sound(Direction::Orthogonal, i, e.mask.0, e.magic, 12, self.rook_tables[i]@)
        }
        &&& forall|i: int| 0 <= i < 64 ==> {
            let e = #[trigger] self.bishop_magics[i];
            &&& e.mask.0 == Direction::Diagonal.relevant_mask(i)
            &&& e.index_bits == 10
            &&& self.bishop_tables[i]@.len() == (1usize << 10)
            &&& e.found ==> table_sound(Direction::Diagonal, i, e.mask.0, e.magic, 10, self.bishop_tables[i]@)
        }
    }

    /// What a rook lookup on square `s` gives for `blockers`: the table entry when a magic
    /// number was found, the rook's moves otherwise.
    pub closed spec fn rook_lookup(self, s: int, blockers: u64) -> u64 {
        let e = self.rook_magics[s];
        if e.found {
            self.rook_tables[s]@[spec_magic_index(e.mask.0, e.magic, e.index_bits, blockers)].0
        } else {
            Direction::Orthogonal.attacks(s, blockers)
        }
    }

    /// What a bishop lookup on square `s` gives for `blockers`; see `rook_lookup`.
    pub closed spec fn bishop_lookup(self, s: int, blockers: u64) -> u64 {
        let e = self.bishop_magics[s];
        if e.found {
            self.bishop_tables[s]@[spec_magic_index(e.mask.0, e.magic, e.index_bits, blockers)].0
        } else {
            Direction::Diagonal.attacks(s, blockers)
        }
    }

    /// Every lookup gives the slider's moves, except for blockers whose relevant part is the
    /// lowest relevant square alone (the one subset the table fill never visits).
    pub open spec fn tables_usable(self) -> bool {
        &&& forall|s: int, b: u64| 0 <= s < 64 && b & Direction::Orthogonal.relevant_mask(s)
            != lowest_bit(Direction::Orthogonal.relevant_mask(s))
            ==> #[trigger] self.rook_lookup(s, b) == Direction::Orthogonal.attacks(s, b)
        &&& forall|s: int, b: u64| 0 <= s < 64 && b & Direction::Diagonal.relevant_mask(s)
            != lowest_bit(Direction::Diagonal.relevant_mask(s))
            ==> #[trigger] self.bishop_lookup(s, b) == Direction::Diagonal.attacks(s, b)
    }

    /// Builds the tables of all squares, each from a randomly found magic number.
    pub fn new() -> (r: SlidingMoveGen)
        ensures
            r.tables_usable(),
    {
        let mut rook_tables: Vec<Vec<Bitboard>> = Vec::with_capacity(64);
        let mut bishop_tables: Vec<Vec<Bitboard>> = Vec::with_capacity(64);
        let mut rook_magics: Vec<MagicEntry> = Vec::with_capacity(64);
        let mut bishop_magics: Vec<MagicEntry> = Vec::with_capacity(64);
        let mut idx: usize = 0;
        while idx < 64
            invariant
                0 <= idx <= 64,
                rook_tables.len() == idx,
                bishop_tables.len() == idx,
                rook_magics.len() == idx,
                bishop_magics.len() == idx,
                forall|i: int| 0 <= i < idx ==> {
                    let e = #[trigger] rook_magics[i];
                    &&& e.mask.0 == Direction::Orthogonal.relevant_mask(i)
                    &&& e.index_bits == 12
                    &&& rook_tables[i]@.len() == (1usize << 12)
                    &&& e.found ==> table_sound(Direction::Orthogonal, i, e.mask.0, e.magic, 12, rook_tables[i]@)
                },
                forall|i: int| 0 <= i < idx ==> {
                    let e = #[trigger] bishop_magics[i];
                    &&& e.mask.0 == Direction::Diagonal.relevant_mask(i)
                    &&& e.index_bits == 10
                    &&& bishop_tables[i]@.len() == (1usize << 10)
                    &&& e.found ==> table_sound(Direction::Diagonal, i, e.mask.0, e.magic, 10, bishop_tables[i]@)
                },
            decreases 64 - idx,
        {
            let square = Square::ALL[idx];
            let (ortho_magic, ortho_table) = generate_magic(square, Direction::Orthogonal, 12);
            let (diag_magic, diag_table) = generate_magic(square, Direction::Diagonal, 10);
            rook_tables.push(ortho_table);
            bishop_tables.push(diag_table);
            rook_magics.push(ortho_magic);
            bishop_magics.push(diag_magic);
            idx = idx + 1;
        }
        let r = SlidingMoveGen { rook_tables, bishop_tables, rook_magics, bishop_magics };
        proof {
            r.lemma_usable();
        }
        r
    }

    proof fn lemma_usable(self)
        requires
            self.wf(),
        ensures
            self.tables_usable(),
    {
        assert forall|s: int, b: u64| 0 <= s < 64 && b & Direction::Orthogonal.relevant_mask(s)
            != lowest_bit(Direction::Orthogonal.relevant_mask(s))
            implies #[trigger] self.rook_lookup(s, b) == Direction::Orthogonal.attacks(s, b) by {
            let e = self.rook_magics[s];
            let mask = Direction::Orthogonal.relevant_mask(s);
            let c = b & mask;
            lemma_attacks_relevant(Direction::Orthogonal, s, b);
            lemma_subset_basics(c, mask);
            lemma_subset_basics(b, mask);
            lemma_relevant_nonempty(Direction::Orthogonal, s);
            if e.found {
                assert(walk_yields(mask, c));
            }
        }
        assert forall|s: int, b: u64| 0 <= s < 64 && b & Direction::Diagonal.relevant_mask(s)
            != lowest_bit(Direction::Diagonal.relevant_mask(s))
            implies #[trigger] self.bishop_lookup(s, b) == Direction::Diagonal.attacks(s, b) by {
            let e = self.bishop_magics[s];
            let mask = Direction::Diagonal.relevant_mask(s);
            let c = b & mask;
            lemma_attacks_relevant(Direction::Diagonal, s, b);
            lemma_subset_basics(c, mask);
            lemma_subset_basics(b, mask);
            lemma_relevant_nonempty(Direction::Diagonal, s);
            if e.found {
                assert(walk_yields(mask, c));
            }
        }
    }

    /// The squares a rook on `square` reaches when `blockers` are occupied, read from the
    /// table (or walked along the rays when no magic number was found). This is the rook's
    /// true move set, except when the relevant part of `blockers` is exactly the lowest
    /// relevant square (the one subset the table fill never visits).
    pub fn rook_moves(&self, square: Square, blockers: Bitboard) -> (r: Bitboard)
        ensures
            r.0 == self.rook_lookup(square as int, blockers.0),
            blockers.0 & Direction::Orthogonal.relevant_mask(square as int)
                != lowest_bit(Direction::Orthogonal.relevant_mask(square as int))
                ==> r.0 == Direction::Orthogonal.attacks(square as int, blockers.0),
    {
        proof {
            use_type_invariant(self);
            self.lemma_usable();
            square.lemma_index();
        }
        let i = square as usize;
        let entry = &self.rook_magics[i];
        let r = if entry.found {
            let idx = magic_index(entry, blockers);
            self.rook_tables[i][idx]
        } else {
            Direction::Orthogonal.moves(square, blockers)
        };
        proof {
            let s = square as int;
            let mask = Direction::Orthogonal.relevant_mask(s);
            if blockers.0 & mask != lowest_bit(mask) {
                assert(self.rook_lookup(s, blockers.0) == Direction::Orthogonal.attacks(s, blockers.0));
            }
        }
        r
    }

    /// The squares a bishop on `square` reaches when `blockers` are occupied; see
    /// `rook_moves`.
    pub fn bishop_moves(&self, square: Square, blockers: Bitboard) -> (r: Bitboard)
        ensures
            r.0 == self.bishop_lookup(square as int, blockers.0),
            blockers.0 & Direction::Diagonal.relevant_mask(square as int)
                != lowest_bit(Direction::Diagonal.relevant_mask(square as int))
                ==> r.0 == Direction::Diagonal.attacks(square as int, blockers.0),
    {
        proof {
            use_type_invariant(self);
            self.lemma_usable();
            square.lemma_index();
        }
        let i = square as usize;
        let entry = &self.bishop_magics[i];
        let r = if entry.found {
            let idx = magic_index(entry, blockers);
            self.bishop_tables[i][idx]
        } else {
            Direction::Diagonal.moves(square, blockers)
        };
        proof {
            let s = square as int;
            let mask = Direction::Diagonal.relevant_mask(s);
            if blockers.0 & mask != lowest_bit(mask) {
                assert(self.bishop_lookup(s, blockers.0) == Direction::Diagonal.attacks(s, blockers.0));
            }
        }
        r
    }
}

impl Default for SlidingMoveGen {
    fn default() -> (r: SlidingMoveGen)
        ensures
            r.tables_usable(),
    {
        Self::new()
    }
}

/// A square a slider reaches among blockers it also reaches on an empty board.
proof fn lemma_attacks_shrink(dir: Direction, s: int, blockers: u64, t: int)
    requires
        has_bit(dir.attacks(s, blockers), t),
    ensures
        has_bit(dir.attacks(s, 0), t),
{
    let offs = dir.offsets();
    lemma_mask_of_bits(|u: int| slide_any(s, offs, blockers, u));
    lemma_mask_of_bits(|u: int| slide_any(s, offs, 0, u));
    lemma_bits(0u64, 0u64);
    let m = choose|m: int| 0 <= m < offs.len() && slide_attack(s, #[trigger] offs[m] as int, blockers, t);
    let off = offs[m] as int;
    let k = choose|k: int|
        #![trigger ray_square(s, off, k)]
        reaches(s, off, k) && t == ray_square(s, off, k) && forall|j: int|
            1 <= j < k ==> !has_bit(blockers, #[trigger] ray_square(s, off, j));
    assert(forall|j: int| 1 <= j < k ==> !has_bit(0u64, #[trigger] ray_square(s, off, j)));
    assert(slide_attack(s, off, 0, t));
    assert(slide_any(s, offs, 0, t));
}

/// A rook's squares lie on its rank or file, a bishop's on its diagonals, whatever blocks.
pub proof fn lemma_attacks_on_lines(s: int, blockers: u64)
    requires
        0 <= s < 64,
    ensures
        forall|t: int| #[trigger] has_bit(Direction::Orthogonal.attacks(s, blockers), t) ==> rook_line(s, t),
        forall|t: int| #[trigger] has_bit(Direction::Diagonal.attacks(s, blockers), t) ==> bishop_line(s, t),
{
    lemma_attacks_empty(s);
    lemma_mask_of_bits(|u: int| rook_line(s, u));
    lemma_mask_of_bits(|u: int| bishop_line(s, u));
    assert forall|t: int| #[trigger] has_bit(Direction::Orthogonal.attacks(s, blockers), t) implies rook_line(s, t) by {
        lemma_attacks_shrink(Direction::Orthogonal, s, blockers, t);
    }
    assert forall|t: int| #[trigger] has_bit(Direction::Diagonal.attacks(s, blockers), t) implies bishop_line(s, t) by {
        lemma_attacks_shrink(Direction::Diagonal, s, blockers, t);
    }
}

} // verus!
