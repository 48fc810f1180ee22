use vstd::prelude::*;
use std::ops::{
    BitAnd, BitAndAssign, BitOr, BitOrAssign, BitXor, BitXorAssign, Deref, Not, Shl, Shr,
};
use vstd::std_specs::ops::{
    BitAndSpecImpl, BitOrSpecImpl, BitXorSpecImpl, NotSpecImpl, ShlSpecImpl, ShrSpecImpl,
};
use vstd::std_specs::convert::FromSpecImpl;
use vstd::std_specs::bits::{u64_trailing_zeros, axiom_u64_trailing_zeros};
use crate::board::square::Square;
use crate::text::push_char;

verus! {

/// Whether bit `i` of `x` is set; bit `i` stands for the square with index `i`.
pub open spec fn has_bit(x: u64, i: int) -> bool {
    0 <= i < 64 && (x >> (i as u64)) & 1u64 == 1u64
}

/// `x` with its lowest set bit cleared.
pub open spec fn clear_lowest(x: u64) -> u64 {
    x & ((x - 1) as u64)
}

/// The indices of the set bits of `x`, lowest first.
pub open spec fn squares_of(x: u64) -> Seq<int>
    decreases x,
{
    if x == 0 {
        seq![]
    } else {
        proof {
            lemma_clear_lowest(x);
        }
        seq![u64_trailing_zeros(x) as int] + squares_of(clear_lowest(x))
    }
}

/// Bitwise operations, one bit at a time.
pub proof fn lemma_bit_ops(x: u64, y: u64, i: u64)
    by (bit_vector)
    requires
        i < 64,
    ensures
        ((x & y) >> i) & 1u64 == 1u64 <==> ((x >> i) & 1u64 == 1u64 && (y >> i) & 1u64 == 1u64),
        ((x | y) >> i) & 1u64 == 1u64 <==> ((x >> i) & 1u64 == 1u64 || (y >> i) & 1u64 == 1u64),
        ((x ^ y) >> i) & 1u64 == 1u64 <==> ((x >> i) & 1u64 == 1u64) != ((y >> i) & 1u64 == 1u64),
        ((!x) >> i) & 1u64 == 1u64 <==> !((x >> i) & 1u64 == 1u64),
        (0u64 >> i) & 1u64 != 1u64,
{
}

/// The bits of the one-square set `1 << t`.
pub proof fn lemma_single_bit(t: u64, i: u64)
    by (bit_vector)
    requires
        t < 64,
        i < 64,
    ensures
        ((1u64 << t) >> i) & 1u64 == 1u64 <==> i == t,
{
}

/// Bitwise operations on sets of squares.
pub proof fn lemma_bits(x: u64, y: u64)
    ensures
        forall|i: int| #[trigger] has_bit(x & y, i) <==> has_bit(x, i) && has_bit(y, i),
        forall|i: int| #[trigger] has_bit(x | y, i) <==> has_bit(x, i) || has_bit(y, i),
        forall|i: int| #[trigger] has_bit(x ^ y, i) <==> 0 <= i < 64 && has_bit(x, i) != has_bit(y, i),
        forall|i: int| #[trigger] has_bit(!x, i) <==> 0 <= i < 64 && !has_bit(x, i),
        forall|i: int| !#[trigger] has_bit(0u64, i),
{
    assert forall|i: int| #[trigger] has_bit(x & y, i) <==> has_bit(x, i) && has_bit(y, i) by {
        if 0 <= i < 64 { lemma_bit_ops(x, y, i as u64); }
    }
    assert forall|i: int| #[trigger] has_bit(x | y, i) <==> has_bit(x, i) || has_bit(y, i) by {
        if 0 <= i < 64 { lemma_bit_ops(x, y, i as u64); }
    }
    assert forall|i: int| #[trigger] has_bit(x ^ y, i) <==> 0 <= i < 64 && has_bit(x, i) != has_bit(y, i) by {
        if 0 <= i < 64 { lemma_bit_ops(x, y, i as u64); }
    }
    assert forall|i: int| #[trigger] has_bit(!x, i) <==> 0 <= i < 64 && !has_bit(x, i) by {
        if 0 <= i < 64 { lemma_bit_ops(x, y, i as u64); }
    }
    assert forall|i: int| !#[trigger] has_bit(0u64, i) by {
        if 0 <= i < 64 { lemma_bit_ops(x, y, i as u64); }
    }
}

/// The one-square set of square `t`.
pub proof fn lemma_single(t: int)
    requires
        0 <= t < 64,
    ensures
        forall|i: int| #[trigger] has_bit(1u64 << (t as u64), i) <==> i == t,
{
    assert forall|i: int| 0 <= i < 64 implies (#[trigger] has_bit(1u64 << (t as u64), i) <==> i == t) by {
        lemma_single_bit(t as u64, i as u64);
    }
}

/// A one-square set meets `b` exactly when its square is in `b`.
pub proof fn lemma_meets_single(b: u64, t: u64)
    by (bit_vector)
    requires
        t < 64,
    ensures
        ((1u64 << t) & b != 0) == ((b >> t) & 1u64 == 1u64),
        ((1u64 << t) & b > 0) == ((b >> t) & 1u64 == 1u64),
        (b & (1u64 << t) != 0) == ((b >> t) & 1u64 == 1u64),
{
}

/// The squares of the rank, file and edge masks.
pub proof fn lemma_line_masks(t: u64)
    by (bit_vector)
    requires
        t < 64,
    ensures
        ((0xffu64 >> t) & 1u64 == 1u64) == (t < 8),
        ((0xff00000000000000u64 >> t) & 1u64 == 1u64) == (t >= 56),
        ((0x101010101010101u64 >> t) & 1u64 == 1u64) == (t % 8 == 0),
        ((0x8080808080808080u64 >> t) & 1u64 == 1u64) == (t % 8 == 7),
        ((0xff818181818181ffu64 >> t) & 1u64 == 1u64) == (t < 8 || t >= 56 || t % 8 == 0 || t % 8 == 7),
{
}

/// The walk over the subsets of `set`: from a subset `c`, the next one, `(c - 1) & set`, is
/// the largest subset below `c`.
pub proof fn lemma_next_subset(c: u64, set: u64, s: u64)
    by (bit_vector)
    requires
        c & set == c,
    ensures
        c != 0 ==> set != 0,
        c != 0 ==> (((c - 1u64) as u64) & set) & set == ((c - 1u64) as u64) & set,
        c != 0 ==> ((c - 1u64) as u64) & set < c,
        c != 0 && s & set == s && s < c ==> s <= ((c - 1u64) as u64) & set,
{
}

/// A set is a subset of itself, and subsets are no larger than the set.
pub proof fn lemma_subset_basics(b: u64, set: u64)
    by (bit_vector)
    ensures
        set & set == set,
        b & set == b ==> b <= set,
        (b & set) & set == b & set,
{
}

/// The lowest square of `set` alone is its smallest non-empty subset, and the walk over the
/// subsets ends after it.
pub proof fn lemma_lowest_subset(c: u64, set: u64, t: u64)
    by (bit_vector)
    requires
        c & set == c,
        c != 0,
        t < 64,
        (set >> t) & 1u64 == 1u64,
        set << ((64u64 - t) as u64) == 0,
    ensures
        c >= 1u64 << t,
        (1u64 << t) & set == 1u64 << t,
        1u64 << t != 0,
        ((c - 1u64) as u64) & set == 0 <==> c == 1u64 << t,
{
}

proof fn lemma_shift8_bits(x: u64, t: u64)
    by (bit_vector)
    requires
        t < 64,
    ensures
        (((x << 8u8) >> t) & 1u64 == 1u64) == (t >= 8 && ((x >> ((t - 8u64) as u64)) & 1u64 == 1u64)),
        (((x >> 8u8) >> t) & 1u64 == 1u64) == (t < 56 && ((x >> ((t + 8u64) as u64)) & 1u64 == 1u64)),
{
}

/// Shifting a set by eight squares moves every square one rank up (or down).
pub proof fn lemma_shift8(x: u64)
    ensures
        forall|t: int| #[trigger] has_bit(x << 8u8, t) <==> 8 <= t < 64 && has_bit(x, t - 8),
        forall|t: int| #[trigger] has_bit(x >> 8u8, t) <==> 0 <= t < 56 && has_bit(x, t + 8),
{
    assert forall|t: int| #[trigger] has_bit(x << 8u8, t) <==> 8 <= t < 64 && has_bit(x, t - 8) by {
        if 0 <= t < 64 {
            lemma_shift8_bits(x, t as u64);
        }
    }
    assert forall|t: int| #[trigger] has_bit(x >> 8u8, t) <==> 0 <= t < 56 && has_bit(x, t + 8) by {
        if 0 <= t < 64 {
            lemma_shift8_bits(x, t as u64);
        }
    }
}

/// Two sets with the same squares are equal.
pub proof fn lemma_bits_ext(x: u64, y: u64)
    requires
        forall|i: int| 0 <= i < 64 ==> has_bit(x, i) == has_bit(y, i),
    ensures
        x == y,
{
    assert(has_bit(x, 0) == has_bit(y, 0));
    assert(has_bit(x, 1) == has_bit(y, 1));
    assert(has_bit(x, 2) == has_bit(y, 2));
    assert(has_bit(x, 3) == has_bit(y, 3));
    assert(has_bit(x, 4) == has_bit(y, 4));
    assert(has_bit(x, 5) == has_bit(y, 5));
    assert(has_bit(x, 6) == has_bit(y, 6));
    assert(has_bit(x, 7) == has_bit(y, 7));
    assert(has_bit(x, 8) == has_bit(y, 8));
    assert(has_bit(x, 9) == has_bit(y, 9));
    assert(has_bit(x, 10) == has_bit(y, 10));
    assert(has_bit(x, 11) == has_bit(y, 11));
    assert(has_bit(x, 12) == has_bit(y, 12));
    assert(has_bit(x, 13) == has_bit(y, 13));
    assert(has_bit(x, 14) == has_bit(y, 14));
    assert(has_bit(x, 15) == has_bit(y, 15));
    assert(has_bit(x, 16) == has_bit(y, 16));
    assert(has_bit(x, 17) == has_bit(y, 17));
    assert(has_bit(x, 18) == has_bit(y, 18));
    assert(has_bit(x, 19) == has_bit(y, 19));
    assert(has_bit(x, 20) == has_bit(y, 20));
    assert(has_bit(x, 21) == has_bit(y, 21));
    assert(has_bit(x, 22) == has_bit(y, 22));
    assert(has_bit(x, 23) == has_bit(y, 23));
    assert(has_bit(x, 24) == has_bit(y, 24));
    assert(has_bit(x, 25) == has_bit(y, 25));
    assert(has_bit(x, 26) == has_bit(y, 26));
    assert(has_bit(x, 27) == has_bit(y, 27));
    assert(has_bit(x, 28) == has_bit(y, 28));
    assert(has_bit(x, 29) == has_bit(y, 29));
    assert(has_bit(x, 30) == has_bit(y, 30));
    assert(has_bit(x, 31) == has_bit(y, 31));
    assert(has_bit(x, 32) == has_bit(y, 32));
    assert(has_bit(x, 33) == has_bit(y, 33));
    assert(has_bit(x, 34) == has_bit(y, 34));
    assert(has_bit(x, 35) == has_bit(y, 35));
    assert(has_bit(x, 36) == has_bit(y, 36));
    assert(has_bit(x, 37) == has_bit(y, 37));
    assert(has_bit(x, 38) == has_bit(y, 38));
    assert(has_bit(x, 39) == has_bit(y, 39));
    assert(has_bit(x, 40) == has_bit(y, 40));
    assert(has_bit(x, 41) == has_bit(y, 41));
    assert(has_bit(x, 42) == has_bit(y, 42));
    assert(has_bit(x, 43) == has_bit(y, 43));
    assert(has_bit(x, 44) == has_bit(y, 44));
    assert(has_bit(x, 45) == has_bit(y, 45));
    assert(has_bit(x, 46) == has_bit(y, 46));
    assert(has_bit(x, 47) == has_bit(y, 47));
    assert(has_bit(x, 48) == has_bit(y, 48));
    assert(has_bit(x, 49) == has_bit(y, 49));
    assert(has_bit(x, 50) == has_bit(y, 50));
    assert(has_bit(x, 51) == has_bit(y, 51));
    assert(has_bit(x, 52) == has_bit(y, 52));
    assert(has_bit(x, 53) == has_bit(y, 53));
    assert(has_bit(x, 54) == has_bit(y, 54));
    assert(has_bit(x, 55) == has_bit(y, 55));
    assert(has_bit(x, 56) == has_bit(y, 56));
    assert(has_bit(x, 57) == has_bit(y, 57));
    assert(has_bit(x, 58) == has_bit(y, 58));
    assert(has_bit(x, 59) == has_bit(y, 59));
    assert(has_bit(x, 60) == has_bit(y, 60));
    assert(has_bit(x, 61) == has_bit(y, 61));
    assert(has_bit(x, 62) == has_bit(y, 62));
    assert(has_bit(x, 63) == has_bit(y, 63));
    assert(x == y) by (bit_vector)
        requires
            ((x >> 0u64) & 1u64 == 1u64) == ((y >> 0u64) & 1u64 == 1u64),
            ((x >> 1u64) & 1u64 == 1u64) == ((y >> 1u64) & 1u64 == 1u64),
            ((x >> 2u64) & 1u64 == 1u64) == ((y >> 2u64) & 1u64 == 1u64),
            ((x >> 3u64) & 1u64 == 1u64) == ((y >> 3u64) & 1u64 == 1u64),
            ((x >> 4u64) & 1u64 == 1u64) == ((y >> 4u64) & 1u64 == 1u64),
            ((x >> 5u64) & 1u64 == 1u64) == ((y >> 5u64) & 1u64 == 1u64),
            ((x >> 6u64) & 1u64 == 1u64) == ((y >> 6u64) & 1u64 == 1u64),
            ((x >> 7u64) & 1u64 == 1u64) == ((y >> 7u64) & 1u64 == 1u64),
            ((x >> 8u64) & 1u64 == 1u64) == ((y >> 8u64) & 1u64 == 1u64),
            ((x >> 9u64) & 1u64 == 1u64) == ((y >> 9u64) & 1u64 == 1u64),
            ((x >> 10u64) & 1u64 == 1u64) == ((y >> 10u64) & 1u64 == 1u64),
            ((x >> 11u64) & 1u64 == 1u64) == ((y >> 11u64) & 1u64 == 1u64),
            ((x >> 12u64) & 1u64 == 1u64) == ((y >> 12u64) & 1u64 == 1u64),
            ((x >> 13u64) & 1u64 == 1u64) == ((y >> 13u64) & 1u64 == 1u64),
            ((x >> 14u64) & 1u64 == 1u64) == ((y >> 14u64) & 1u64 == 1u64),
            ((x >> 15u64) & 1u64 == 1u64) == ((y >> 15u64) & 1u64 == 1u64),
            ((x >> 16u64) & 1u64 == 1u64) == ((y >> 16u64) & 1u64 == 1u64),
            ((x >> 17u64) & 1u64 == 1u64) == ((y >> 17u64) & 1u64 == 1u64),
            ((x >> 18u64) & 1u64 == 1u64) == ((y >> 18u64) & 1u64 == 1u64),
            ((x >> 19u64) & 1u64 == 1u64) == ((y >> 19u64) & 1u64 == 1u64),
            ((x >> 20u64) & 1u64 == 1u64) == ((y >> 20u64) & 1u64 == 1u64),
            ((x >> 21u64) & 1u64 == 1u64) == ((y >> 21u64) & 1u64 == 1u64),
            ((x >> 22u64) & 1u64 == 1u64) == ((y >> 22u64) & 1u64 == 1u64),
            ((x >> 23u64) & 1u64 == 1u64) == ((y >> 23u64) & 1u64 == 1u64),
            ((x >> 24u64) & 1u64 == 1u64) == ((y >> 24u64) & 1u64 == 1u64),
            ((x >> 25u64) & 1u64 == 1u64) == ((y >> 25u64) & 1u64 == 1u64),
            ((x >> 26u64) & 1u64 == 1u64) == ((y >> 26u64) & 1u64 == 1u64),
            ((x >> 27u64) & 1u64 == 1u64) == ((y >> 27u64) & 1u64 == 1u64),
            ((x >> 28u64) & 1u64 == 1u64) == ((y >> 28u64) & 1u64 == 1u64),
            ((x >> 29u64) & 1u64 == 1u64) == ((y >> 29u64) & 1u64 == 1u64),
            ((x >> 30u64) & 1u64 == 1u64) == ((y >> 30u64) & 1u64 == 1u64),
            ((x >> 31u64) & 1u64 == 1u64) == ((y >> 31u64) & 1u64 == 1u64),
            ((x >> 32u64) & 1u64 == 1u64) == ((y >> 32u64) & 1u64 == 1u64),
            ((x >> 33u64) & 1u64 == 1u64) == ((y >> 33u64) & 1u64 == 1u64),
            ((x >> 34u64) & 1u64 == 1u64) == ((y >> 34u64) & 1u64 == 1u64),
            ((x >> 35u64) & 1u64 == 1u64) == ((y >> 35u64) & 1u64 == 1u64),
            ((x >> 36u64) & 1u64 == 1u64) == ((y >> 36u64) & 1u64 == 1u64),
            ((x >> 37u64) & 1u64 == 1u64) == ((y >> 37u64) & 1u64 == 1u64),
            ((x >> 38u64) & 1u64 == 1u64) == ((y >> 38u64) & 1u64 == 1u64),
            ((x >> 39u64) & 1u64 == 1u64) == ((y >> 39u64) & 1u64 == 1u64),
            ((x >> 40u64) & 1u64 == 1u64) == ((y >> 40u64) & 1u64 == 1u64),
            ((x >> 41u64) & 1u64 == 1u64) == ((y >> 41u64) & 1u64 == 1u64),
            ((x >> 42u64) & 1u64 == 1u64) == ((y >> 42u64) & 1u64 == 1u64),
            ((x >> 43u64) & 1u64 == 1u64) == ((y >> 43u64) & 1u64 == 1u64),
            ((x >> 44u64) & 1u64 == 1u64) == ((y >> 44u64) & 1u64 == 1u64),
            ((x >> 45u64) & 1u64 == 1u64) == ((y >> 45u64) & 1u64 == 1u64),
            ((x >> 46u64) & 1u64 == 1u64) == ((y >> 46u64) & 1u64 == 1u64),
            ((x >> 47u64) & 1u64 == 1u64) == ((y >> 47u64) & 1u64 == 1u64),
            ((x >> 48u64) & 1u64 == 1u64) == ((y >> 48u64) & 1u64 == 1u64),
            ((x >> 49u64) & 1u64 == 1u64) == ((y >> 49u64) & 1u64 == 1u64),
            ((x >> 50u64) & 1u64 == 1u64) == ((y >> 50u64) & 1u64 == 1u64),
            ((x >> 51u64) & 1u64 == 1u64) == ((y >> 51u64) & 1u64 == 1u64),
            ((x >> 52u64) & 1u64 == 1u64) == ((y >> 52u64) & 1u64 == 1u64),
            ((x >> 53u64) & 1u64 == 1u64) == ((y >> 53u64) & 1u64 == 1u64),
            ((x >> 54u64) & 1u64 == 1u64) == ((y >> 54u64) & 1u64 == 1u64),
            ((x >> 55u64) & 1u64 == 1u64) == ((y >> 55u64) & 1u64 == 1u64),
            ((x >> 56u64) & 1u64 == 1u64) == ((y >> 56u64) & 1u64 == 1u64),
            ((x >> 57u64) & 1u64 == 1u64) == ((y >> 57u64) & 1u64 == 1u64),
            ((x >> 58u64) & 1u64 == 1u64) == ((y >> 58u64) & 1u64 == 1u64),
            ((x >> 59u64) & 1u64 == 1u64) == ((y >> 59u64) & 1u64 == 1u64),
            ((x >> 60u64) & 1u64 == 1u64) == ((y >> 60u64) & 1u64 == 1u64),
            ((x >> 61u64) & 1u64 == 1u64) == ((y >> 61u64) & 1u64 == 1u64),
            ((x >> 62u64) & 1u64 == 1u64) == ((y >> 62u64) & 1u64 == 1u64),
            ((x >> 63u64) & 1u64 == 1u64) == ((y >> 63u64) & 1u64 == 1u64);
}

/// Clearing the lowest set bit removes exactly the square `trailing_zeros(x)`.
pub proof fn lemma_clear_lowest(x: u64)
    requires
        x != 0,
    ensures
        0 <= u64_trailing_zeros(x) < 64,
        has_bit(x, u64_trailing_zeros(x) as int),
        forall|i: int| 0 <= i < u64_trailing_zeros(x) ==> !has_bit(x, i),
        clear_lowest(x) < x,
        forall|i: int| #[trigger] has_bit(clear_lowest(x), i) <==> has_bit(x, i) && i != u64_trailing_zeros(x),
{
    axiom_u64_trailing_zeros(x);
    let t = u64_trailing_zeros(x) as u64;
    assert(x & ((x - 1u64) as u64) == x ^ (1u64 << t) && x & ((x - 1u64) as u64) < x) by (bit_vector)
        requires
            x != 0,
            t < 64,
            (x >> t) & 1u64 == 1u64,
            x << ((64u64 - t) as u64) == 0;
    assert forall|i: int| 0 <= i < u64_trailing_zeros(x) implies !has_bit(x, i) by {
        assert((x >> (i as u64)) & 1u64 == 0u64);
    }
    lemma_bits(x, 1u64 << t);
    lemma_single(t as int);
}

/// A square is in `x` exactly when it is listed by `squares_of(x)`.
pub proof fn lemma_squares_of(x: u64)
    ensures
        forall|i: int| has_bit(x, i) <==> #[trigger] squares_of(x).contains(i),
        forall|k: int| 0 <= k < squares_of(x).len() ==> 0 <= #[trigger] squares_of(x)[k] < 64,
        x == 0 <==> squares_of(x).len() == 0,
    decreases x,
{
    if x == 0 {
        lemma_bits(0, 0);
    } else {
        lemma_clear_lowest(x);
        lemma_squares_of(clear_lowest(x));
        let t = u64_trailing_zeros(x) as int;
        assert(squares_of(x) == seq![t] + squares_of(clear_lowest(x)));
        assert forall|i: int| has_bit(x, i) <==> #[trigger] squares_of(x).contains(i) by {
            if has_bit(x, i) && i != t {
                assert(has_bit(clear_lowest(x), i));
                assert(squares_of(clear_lowest(x)).contains(i));
                let k = choose|k: int| 0 <= k < squares_of(clear_lowest(x)).len() && squares_of(clear_lowest(x))[k] == i;
                assert(squares_of(x)[k + 1] == i);
            }
            if squares_of(x).contains(i) {
                let k = choose|k: int| 0 <= k < squares_of(x).len() && squares_of(x)[k] == i;
                if k > 0 {
                    assert(squares_of(clear_lowest(x)).contains(i)) by {
                        assert(squares_of(clear_lowest(x))[k - 1] == i);
                    }
                }
            }
            if i == t {
                assert(squares_of(x)[0] == i);
            }
        }
    }
}

/// The squares below `n` that satisfy `p`, as a bit set.
pub open spec fn mask_upto(p: spec_fn(int) -> bool, n: nat) -> u64
    decreases n,
{
    if n == 0 {
        0
    } else {
        mask_upto(p, (n - 1) as nat) | (if p(n - 1) { 1u64 << ((n - 1) as u64) } else { 0u64 })
    }
}

/// The squares that satisfy `p`, as a bit set.
pub open spec fn mask_of(p: spec_fn(int) -> bool) -> u64 {
    mask_upto(p, 64)
}

proof fn lemma_mask_upto(p: spec_fn(int) -> bool, n: nat)
    requires
        n <= 64,
    ensures
        forall|t: int| #[trigger] has_bit(mask_upto(p, n), t) <==> 0 <= t < n && p(t),
    decreases n,
{
    if n == 0 {
        lemma_bits(0, 0);
    } else {
        lemma_mask_upto(p, (n - 1) as nat);
        let prev = mask_upto(p, (n - 1) as nat);
        let add = if p(n - 1) { 1u64 << ((n - 1) as u64) } else { 0u64 };
        lemma_bits(prev, add);
        lemma_single(n - 1);
        lemma_bits(0, 0);
    }
}

/// A bit set is `mask_of(p)` exactly when its squares are those satisfying `p`.
pub proof fn lemma_mask_of(p: spec_fn(int) -> bool, x: u64)
    requires
        forall|t: int| 0 <= t < 64 ==> (has_bit(x, t) <==> p(t)),
    ensures
        x == mask_of(p),
{
    lemma_mask_upto(p, 64);
    lemma_bits_ext(x, mask_of(p));
}

/// The squares of `mask_of(p)`.
pub proof fn lemma_mask_of_bits(p: spec_fn(int) -> bool)
    ensures
        forall|t: int| #[trigger] has_bit(mask_of(p), t) <==> 0 <= t < 64 && p(t),
{
    lemma_mask_upto(p, 64);
}

/// The character at position `k` of the picture of the set `x`: one line per rank from the
/// eighth down to the first, the files a to h on each separated by spaces, `#` for a square of
/// the set and `-` for any other; lines end in a newline but the last.
pub open spec fn grid_char(x: u64, k: int) -> char {
    let row = k / 16;
    let col = k % 16;
    if col == 15 {
        '\n'
    } else if col % 2 == 1 {
        ' '
    } else if has_bit(x, (7 - row) * 8 + col / 2) {
        '#'
    } else {
        '-'
    }
}

/// A set of squares on the board, one bit per square.
#[derive(Debug, Clone, Copy, PartialEq, Eq, Structural)]
pub struct Bitboard(pub u64);

impl Bitboard {
    pub const A_FILE: u64 = 0x101010101010101;
    pub const B_FILE: u64 = 0x202020202020202;
    pub const C_FILE: u64 = 0x404040404040404;
    pub const D_FILE: u64 = 0x808080808080808;
    pub const E_FILE: u64 = 0x1010101010101010;
    pub const F_FILE: u64 = 0x2020202020202020;
    pub const G_FILE: u64 = 0x4040404040404040;
    pub const H_FILE: u64 = 0x8080808080808080;

    pub const RANK_1: u64 = 0x00000000000000ff;
    pub const RANK_2: u64 = 0x000000000000ff00;
    pub const RANK_3: u64 = 0x0000000000ff0000;
    pub const RANK_4: u64 = 0x00000000ff000000;
    pub const RANK_5: u64 = 0x000000ff00000000;
    pub const RANK_6: u64 = 0x0000ff0000000000;
    pub const RANK_7: u64 = 0x00ff000000000000;
    pub const RANK_8: u64 = 0xff00000000000000;

    pub const EDGES: u64 = 0xff818181818181ff;

    /// The set of no squares.
    pub fn empty() -> (r: Bitboard)
        ensures
            r.0 == 0,
            forall|i: int| !#[trigger] has_bit(r.0, i),
    {
        proof {
            lemma_bits(0u64, 0u64);
        }
        Bitboard(0)
    }

    /// The set of all 64 squares.
    pub fn universe() -> (r: Bitboard)
        ensures
            r.0 == 0xffff_ffff_ffff_ffffu64,
            forall|i: int| #[trigger] has_bit(r.0, i) <==> 0 <= i < 64,
    {
        proof {
            lemma_bits(0u64, 0u64);
            assert(!0u64 == 0xffff_ffff_ffff_ffffu64) by (bit_vector);
        }
        Bitboard(0xffff_ffff_ffff_ffff)
    }

    /// The subsets of this set, walked from the whole set downwards.
    pub fn subsets(&self) -> (r: Subsets)
        ensures
            r.set() == self.0,
            r.current() == self.0,
    {
        Subsets { set: self.0, subset: self.0 }
    }

    pub fn is_empty(&self) -> (r: bool)
        ensures
            r == (self.0 == 0),
    {
        self.0 == 0
    }

    /// The set drawn as a grid, rank 8 on the first line.
    pub fn to_string(&self) -> (r: String)
        ensures
            r@ == Seq::new(127, |k: int| grid_char(self.0, k)),
    {
        let mut output = String::new();
        let mut row: usize = 0;
        while row < 8
            invariant
                0 <= row <= 8,
                output@.len() == (if row == 8 { 127 } else { row * 16 }),
                forall|k: int| 0 <= k < output@.len() ==> output@[k] == #[trigger] grid_char(self.0, k),
            decreases 8 - row,
        {
            let mut file: usize = 0;
            while file < 8
                invariant
                    0 <= row < 8,
                    0 <= file <= 8,
                    output@.len() == row * 16 + (if file == 8 { 15 } else { 2 * file }),
                    forall|k: int| 0 <= k < output@.len() ==> output@[k] == #[trigger] grid_char(self.0, k),
                decreases 8 - file,
            {
                let k = Ghost(row * 16 + 2 * file);
                assert(k@ / 16 == row && k@ % 16 == 2 * file) by (nonlinear_arith)
                    requires
                        k@ == row * 16 + 2 * file,
                        0 <= file < 8,
                ;
                let square = ((7 - row) * 8 + file) as u64;
                if (self.0 >> square) & 1 == 1 {
                    push_char(&mut output, '#');
                } else {
                    push_char(&mut output, '-');
                }
                if file != 7 {
                    assert((k@ + 1) / 16 == row && (k@ + 1) % 16 == 2 * file + 1) by (nonlinear_arith)
                        requires
                            k@ == row * 16 + 2 * file,
                            0 <= file < 7,
                    ;
                    push_char(&mut output, ' ');
                }
                file += 1;
            }
            if row != 7 {
                assert((row * 16 + 15) / 16 == row && (row * 16 + 15) % 16 == 15) by (nonlinear_arith)
                    requires
                        0 <= row < 7,
                ;
                push_char(&mut output, '\n');
            }
            row += 1;
        }
        assert(output@ =~= Seq::new(127, |k: int| grid_char(self.0, k)));
        output
    }

    /// Removes the lowest square of the set and returns its index.
    pub fn pop_lsb(&mut self) -> (i: usize)
        requires
            old(self).0 != 0,
        ensures
            i as int == squares_of(old(self).0)[0],
            i < 64,
            has_bit(old(self).0, i as int),
            final(self).0 == clear_lowest(old(self).0),
            squares_of(old(self).0) == seq![i as int] + squares_of(final(self).0),
    {
        proof {
            lemma_clear_lowest(self.0);
        }
        let i = self.0.trailing_zeros();
        self.0 = self.0 & (self.0 - 1);
        i as usize
    }
}

/// The subsets of a set of squares, from the whole set downwards.
pub struct Subsets {
    set: u64,
    subset: u64,
}

impl Subsets {
    /// The set whose subsets are walked.
    pub closed spec fn set(self) -> u64 {
        self.set
    }

    /// The next subset to be handed out (0 once the walk is over).
    pub closed spec fn current(self) -> u64 {
        self.subset
    }

    /// Hands out the current subset and steps to the next lower one. The subset just
    /// before the empty set is handed out as the empty set, and then the walk ends.
    pub fn next(&mut self) -> (r: Option<Bitboard>)
        ensures
            final(self).set() == old(self).set(),
            old(self).current() == 0 ==> r is None && final(self).current() == 0,
            old(self).current() != 0 ==> final(self).current() == ((old(self).current() - 1) as u64) & old(self).set(),
            old(self).current() != 0 && final(self).current() == 0 ==> r == Some(Bitboard(0)),
            old(self).current() != 0 && final(self).current() != 0 ==> r == Some(Bitboard(old(self).current())),
    {
        if self.subset == 0 {
            return None;
        }
        let next = self.subset;
        self.subset = (self.subset - 1) & self.set;
        if self.subset == 0 {
            return Some(Bitboard(0));
        }
        Some(Bitboard(next))
    }
}

impl Deref for Bitboard {
    type Target = u64;

    fn deref(&self) -> (r: &u64)
        ensures
            *r == self.0,
    {
        &self.0
    }
}

impl Not for Bitboard {
    type Output = Bitboard;

    fn not(self) -> (r: Bitboard) {
        Bitboard(!self.0)
    }
}

impl NotSpecImpl for Bitboard {
    open spec fn obeys_not_spec() -> bool {
        true
    }

    open spec fn not_req(self) -> bool {
        true
    }

    open spec fn not_spec(self) -> Bitboard {
        Bitboard(!self.0)
    }
}

impl BitAnd for Bitboard {
    type Output = Bitboard;

    fn bitand(self, rhs: Bitboard) -> (r: Bitboard) {
        Bitboard(self.0 & rhs.0)
    }
}

impl BitAndSpecImpl for Bitboard {
    open spec fn obeys_bitand_spec() -> bool {
        true
    }

    open spec fn bitand_req(self, rhs: Bitboard) -> bool {
        true
    }

    open spec fn bitand_spec(self, rhs: Bitboard) -> Bitboard {
        Bitboard(self.0 & rhs.0)
    }
}

impl BitOr for Bitboard {
    type Output = Bitboard;

    fn bitor(self, rhs: Bitboard) -> (r: Bitboard) {
        Bitboard(self.0 | rhs.0)
    }
}

impl BitOrSpecImpl for Bitboard {
    open spec fn obeys_bitor_spec() -> bool {
        true
    }

    open spec fn bitor_req(self, rhs: Bitboard) -> bool {
        true
    }

    open spec fn bitor_spec(self, rhs: Bitboard) -> Bitboard {
        Bitboard(self.0 | rhs.0)
    }
}

impl BitXor for Bitboard {
    type Output = Bitboard;

    fn bitxor(self, rhs: Bitboard) -> (r: Bitboard) {
        Bitboard(self.0 ^ rhs.0)
    }
}

impl BitXorSpecImpl for Bitboard {
    open spec fn obeys_bitxor_spec() -> bool {
        true
    }

    open spec fn bitxor_req(self, rhs: Bitboard) -> bool {
        true
    }

    open spec fn bitxor_spec(self, rhs: Bitboard) -> Bitboard {
        Bitboard(self.0 ^ rhs.0)
    }
}

impl BitAndAssign for Bitboard {
    fn bitand_assign(&mut self, rhs: Bitboard)
        ensures
            final(self).0 == old(self).0 & rhs.0,
    {
        self.0 = self.0 & rhs.0;
    }
}

impl BitOrAssign for Bitboard {
    fn bitor_assign(&mut self, rhs: Bitboard)
        ensures
            final(self).0 == old(self).0 | rhs.0,
    {
        self.0 = self.0 | rhs.0;
    }
}

impl BitXorAssign for Bitboard {
    fn bitxor_assign(&mut self, rhs: Bitboard)
        ensures
            final(self).0 == old(self).0 ^ rhs.0,
    {
        self.0 = self.0 ^ rhs.0;
    }
}

impl From<Square> for Bitboard {
    fn from(value: Square) -> (r: Bitboard) {
        value.bitboard()
    }
}

impl FromSpecImpl<Square> for Bitboard {
    open spec fn obeys_from_spec() -> bool {
        true
    }

    open spec fn from_spec(value: Square) -> Bitboard {
        Bitboard(1u64 << (value as u64))
    }
}

impl Shl<u8> for Bitboard {
    type Output = Bitboard;

    fn shl(self, val: u8) -> (r: Bitboard) {
        Bitboard(self.0 << val)
    }
}

impl ShlSpecImpl<u8> for Bitboard {
    open spec fn obeys_shl_spec() -> bool {
        true
    }

    open spec fn shl_req(self, val: u8) -> bool {
        0 <= val < 64
    }

    open spec fn shl_spec(self, val: u8) -> Bitboard {
        Bitboard(self.0 << val)
    }
}

impl Shr<u8> for Bitboard {
    type Output = Bitboard;

    fn shr(self, val: u8) -> (r: Bitboard) {
        Bitboard(self.0 >> val)
    }
}

impl ShrSpecImpl<u8> for Bitboard {
    open spec fn obeys_shr_spec() -> bool {
        true
    }

    open spec fn shr_req(self, val: u8) -> bool {
        0 <= val < 64
    }

    open spec fn shr_spec(self, val: u8) -> Bitboard {
        Bitboard(self.0 >> val)
    }
}

impl Shl<u16> for Bitboard {
    type Output = Bitboard;

    fn shl(self, val: u16) -> (r: Bitboard) {
        Bitboard(self.0 << val)
    }
}

impl ShlSpecImpl<u16> for Bitboard {
    open spec fn obeys_shl_spec() -> bool {
        true
    }

    open spec fn shl_req(self, val: u16) -> bool {
        0 <= val < 64
    }

    open spec fn shl_spec(self, val: u16) -> Bitboard {
        Bitboard(self.0 << val)
    }
}

impl Shr<u16> for Bitboard {
    type Output = Bitboard;

    fn shr(self, val: u16) -> (r: Bitboard) {
        Bitboard(self.0 >> val)
    }
}

impl ShrSpecImpl<u16> for Bitboard {
    open spec fn obeys_shr_spec() -> bool {
        true
    }

    open spec fn shr_req(self, val: u16) -> bool {
        0 <= val < 64
    }

    open spec fn shr_spec(self, val: u16) -> Bitboard {
        Bitboard(self.0 >> val)
    }
}

impl Shl<u32> for Bitboard {
    type Output = Bitboard;

    fn shl(self, val: u32) -> (r: Bitboard) {
        Bitboard(self.0 << val)
    }
}

impl ShlSpecImpl<u32> for Bitboard {
    open spec fn obeys_shl_spec() -> bool {
        true
    }

    open spec fn shl_req(self, val: u32) -> bool {
        0 <= val < 64
    }

    open spec fn shl_spec(self, val: u32) -> Bitboard {
        Bitboard(self.0 << val)
    }
}

impl Shr<u32> for Bitboard {
    type Output = Bitboard;

    fn shr(self, val: u32) -> (r: Bitboard) {
        Bitboard(self.0 >> val)
    }
}

impl ShrSpecImpl<u32> for Bitboard {
    open spec fn obeys_shr_spec() -> bool {
        true
    }

    open spec fn shr_req(self, val: u32) -> bool {
        0 <= val < 64
    }

    open spec fn shr_spec(self, val: u32) -> Bitboard {
        Bitboard(self.0 >> val)
    }
}

impl Shl<u64> for Bitboard {
    type Output = Bitboard;

    fn shl(self, val: u64) -> (r: Bitboard) {
        Bitboard(self.0 << val)
    }
}

impl ShlSpecImpl<u64> for Bitboard {
    open spec fn obeys_shl_spec() -> bool {
        true
    }

    open spec fn shl_req(self, val: u64) -> bool {
        0 <= val < 64
    }

    open spec fn shl_spec(self, val: u64) -> Bitboard {
        Bitboard(self.0 << val)
    }
}

impl Shr<u64> for Bitboard {
    type Output = Bitboard;

    fn shr(self, val: u64) -> (r: Bitboard) {
        Bitboard(self.0 >> val)
    }
}

impl ShrSpecImpl<u64> for Bitboard {
    open spec fn obeys_shr_spec() -> bool {
        true
    }

    open spec fn shr_req(self, val: u64) -> bool {
        0 <= val < 64
    }

    open spec fn shr_spec(self, val: u64) -> Bitboard {
        Bitboard(self.0 >> val)
    }
}

impl Shl<u128> for Bitboard {
    type Output = Bitboard;

    fn shl(self, val: u128) -> (r: Bitboard) {
        Bitboard(self.0 << val)
    }
}

impl ShlSpecImpl<u128> for Bitboard {
    open spec fn obeys_shl_spec() -> bool {
        true
    }

    open spec fn shl_req(self, val: u128) -> bool {
        0 <= val < 64
    }

    open spec fn shl_spec(self, val: u128) -> Bitboard {
        Bitboard(self.0 << val)
    }
}

impl Shr<u128> for Bitboard {
    type Output = Bitboard;

    fn shr(self, val: u128) -> (r: Bitboard) {
        Bitboard(self.0 >> val)
    }
}

impl ShrSpecImpl<u128> for Bitboard {
    open spec fn obeys_shr_spec() -> bool {
        true
    }

    open spec fn shr_req(self, val: u128) -> bool {
        0 <= val < 64
    }

    open spec fn shr_spec(self, val: u128) -> Bitboard {
        Bitboard(self.0 >> val)
    }
}

impl Shl<usize> for Bitboard {
    type Output = Bitboard;

    fn shl(self, val: usize) -> (r: Bitboard) {
        Bitboard(self.0 << val)
    }
}

impl ShlSpecImpl<usize> for Bitboard {
    open spec fn obeys_shl_spec() -> bool {
        true
    }

    open spec fn shl_req(self, val: usize) -> bool {
        0 <= val < 64
    }

    open spec fn shl_spec(self, val: usize) -> Bitboard {
        Bitboard(self.0 << val)
    }
}

impl Shr<usize> for Bitboard {
    type Output = Bitboard;

    fn shr(self, val: usize) -> (r: Bitboard) {
        Bitboard(self.0 >> val)
    }
}

impl ShrSpecImpl<usize> for Bitboard {
    open spec fn obeys_shr_spec() -> bool {
        true
    }

    open spec fn shr_req(self, val: usize) -> bool {
        0 <= val < 64
    }

    open spec fn shr_spec(self, val: usize) -> Bitboard {
        Bitboard(self.0 >> val)
    }
}

impl Shl<i8> for Bitboard {
    type Output = Bitboard;

    fn shl(self, val: i8) -> (r: Bitboard) {
        Bitboard(self.0 << val)
    }
}

impl ShlSpecImpl<i8> for Bitboard {
    open spec fn obeys_shl_spec() -> bool {
        true
    }

    open spec fn shl_req(self, val: i8) -> bool {
        0 <= val < 64
    }

    open spec fn shl_spec(self, val: i8) -> Bitboard {
        Bitboard(self.0 << val)
    }
}

impl Shr<i8> for Bitboard {
    type Output = Bitboard;

    fn shr(self, val: i8) -> (r: Bitboard) {
        Bitboard(self.0 >> val)
    }
}

impl ShrSpecImpl<i8> for Bitboard {
    open spec fn obeys_shr_spec() -> bool {
        true
    }

    open spec fn shr_req(self, val: i8) -> bool {
        0 <= val < 64
    }

    open spec fn shr_spec(self, val: i8) -> Bitboard {
        Bitboard(self.0 >> val)
    }
}

impl Shl<i16> for Bitboard {
    type Output = Bitboard;

    fn shl(self, val: i16) -> (r: Bitboard) {
        Bitboard(self.0 << val)
    }
}

impl ShlSpecImpl<i16> for Bitboard {
    open spec fn obeys_shl_spec() -> bool {
        true
    }

    open spec fn shl_req(self, val: i16) -> bool {
        0 <= val < 64
    }

    open spec fn shl_spec(self, val: i16) -> Bitboard {
        Bitboard(self.0 << val)
    }
}

impl Shr<i16> for Bitboard {
    type Output = Bitboard;

    fn shr(self, val: i16) -> (r: Bitboard) {
        Bitboard(self.0 >> val)
    }
}

impl ShrSpecImpl<i16> for Bitboard {
    open spec fn obeys_shr_spec() -> bool {
        true
    }

    open spec fn shr_req(self, val: i16) -> bool {
        0 <= val < 64
    }

    open spec fn shr_spec(self, val: i16) -> Bitboard {
        Bitboard(self.0 >> val)
    }
}

impl Shl<i32> for Bitboard {
    type Output = Bitboard;

    fn shl(self, val: i32) -> (r: Bitboard) {
        Bitboard(self.0 << val)
    }
}

impl ShlSpecImpl<i32> for Bitboard {
    open spec fn obeys_shl_spec() -> bool {
        true
    }

    open spec fn shl_req(self, val: i32) -> bool {
        0 <= val < 64
    }

    open spec fn shl_spec(self, val: i32) -> Bitboard {
        Bitboard(self.0 << val)
    }
}

impl Shr<i32> for Bitboard {
    type Output = Bitboard;

    fn shr(self, val: i32) -> (r: Bitboard) {
        Bitboard(self.0 >> val)
    }
}

impl ShrSpecImpl<i32> for Bitboard {
    open spec fn obeys_shr_spec() -> bool {
        true
    }

    open spec fn shr_req(self, val: i32) -> bool {
        0 <= val < 64
    }

    open spec fn shr_spec(self, val: i32) -> Bitboard {
        Bitboard(self.0 >> val)
    }
}

impl Shl<i64> for Bitboard {
    type Output = Bitboard;

    fn shl(self, val: i64) -> (r: Bitboard) {
        Bitboard(self.0 << val)
    }
}

impl ShlSpecImpl<i64> for Bitboard {
    open spec fn obeys_shl_spec() -> bool {
        true
    }

    open spec fn shl_req(self, val: i64) -> bool {
        0 <= val < 64
    }

    open spec fn shl_spec(self, val: i64) -> Bitboard {
        Bitboard(self.0 << val)
    }
}

impl Shr<i64> for Bitboard {
    type Output = Bitboard;

    fn shr(self, val: i64) -> (r: Bitboard) {
        Bitboard(self.0 >> val)
    }
}

impl ShrSpecImpl<i64> for Bitboard {
    open spec fn obeys_shr_spec() -> bool {
        true
    }

    open spec fn shr_req(self, val: i64) -> bool {
        0 <= val < 64
    }

    open spec fn shr_spec(self, val: i64) -> Bitboard {
        Bitboard(self.0 >> val)
    }
}

impl Shl<i128> for Bitboard {
    type Output = Bitboard;

    fn shl(self, val: i128) -> (r: Bitboard) {
        Bitboard(self.0 << val)
    }
}

impl ShlSpecImpl<i128> for Bitboard {
    open spec fn obeys_shl_spec() -> bool {
        true
    }

    open spec fn shl_req(self, val: i128) -> bool {
        0 <= val < 64
    }

    open spec fn shl_spec(self, val: i128) -> Bitboard {
        Bitboard(self.0 << val)
    }
}

impl Shr<i128> for Bitboard {
    type Output = Bitboard;

    fn shr(self, val: i128) -> (r: Bitboard) {
        Bitboard(self.0 >> val)
    }
}

impl ShrSpecImpl<i128> for Bitboard {
    open spec fn obeys_shr_spec() -> bool {
        true
    }

    open spec fn shr_req(self, val: i128) -> bool {
        0 <= val < 64
    }

    open spec fn shr_spec(self, val: i128) -> Bitboard {
        Bitboard(self.0 >> val)
    }
}

impl Shl<isize> for Bitboard {
    type Output = Bitboard;

    fn shl(self, val: isize) -> (r: Bitboard) {
        Bitboard(self.0 << val)
    }
}

impl ShlSpecImpl<isize> for Bitboard {
    open spec fn obeys_shl_spec() -> bool {
        true
    }

    open spec fn shl_req(self, val: isize) -> bool {
        0 <= val < 64
    }

    open spec fn shl_spec(self, val: isize) -> Bitboard {
        Bitboard(self.0 << val)
    }
}

impl Shr<isize> for Bitboard {
    type Output = Bitboard;

    fn shr(self, val: isize) -> (r: Bitboard) {
        Bitboard(self.0 >> val)
    }
}

impl ShrSpecImpl<isize> for Bitboard {
    open spec fn obeys_shr_spec() -> bool {
        true
    }

    open spec fn shr_req(self, val: isize) -> bool {
        0 <= val < 64
    }

    open spec fn shr_spec(self, val: isize) -> Bitboard {
        Bitboard(self.0 >> val)
    }
}

} // verus!
