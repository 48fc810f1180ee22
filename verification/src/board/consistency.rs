use vstd::prelude::*;
use crate::board::bitboard::{has_bit, lemma_bits, lemma_single};
use crate::board::color::Color;
use crate::board::moves::Move;
use crate::board::piece::Piece;
use crate::board::square::{rank_of, file_of, Square};
use crate::board::{first_piece_from, place_in, move_bbs, move_defined, move_flags, owner_in, takes_en_passant_in, xor_at};
use crate::board::flags::Flags;

verus! {

/// How many of the six piece bitboards of `bbs` hold square `t`.
pub open spec fn piece_bits(bbs: Seq<u64>, t: int) -> int {
    (if has_bit(bbs[0], t) { 1int } else { 0int })
        + (if has_bit(bbs[1], t) { 1int } else { 0int })
        + (if has_bit(bbs[2], t) { 1int } else { 0int })
        + (if has_bit(bbs[3], t) { 1int } else { 0int })
        + (if has_bit(bbs[4], t) { 1int } else { 0int })
        + (if has_bit(bbs[5], t) { 1int } else { 0int })
}

/// Square `t` is described consistently: at most one piece bitboard holds it, at most one
/// side's bitboard holds it, and a piece bitboard holds it exactly when a side's does.
pub open spec fn square_consistent(bbs: Seq<u64>, t: int) -> bool {
    &&& piece_bits(bbs, t) <= 1
    &&& !(has_bit(bbs[6], t) && has_bit(bbs[7], t))
    &&& (piece_bits(bbs, t) == 1) == (has_bit(bbs[6], t) || has_bit(bbs[7], t))
}

/// The eight bitboards describe a position: every square is described consistently.
#[verifier::opaque]
pub open spec fn consistent(bbs: Seq<u64>) -> bool {
    &&& bbs.len() == 8
    &&& forall|t: int| 0 <= t < 64 ==> #[trigger] square_consistent(bbs, t)
}

/// Toggling `m` into entry `i` flips the bits of `m` in that entry and changes nothing else.
proof fn lemma_toggle(s: Seq<u64>, i: int, m: u64)
    requires
        0 <= i < s.len(),
    ensures
        forall|j: int, u: int| 0 <= j < s.len() ==> #[trigger] has_bit(xor_at(s, i, m)[j], u) == if j == i {
            0 <= u < 64 && has_bit(s[j], u) != has_bit(m, u)
        } else {
            has_bit(s[j], u)
        },
{
    lemma_bits(s[i], m);
}

/// `first_piece_from` finds the piece bitboard that holds `t`, when exactly one does.
proof fn lemma_only_piece(bbs: Seq<u64>, t: int, p: int)
    requires
        bbs.len() == 8,
        0 <= p < 6,
        has_bit(bbs[p], t),
        piece_bits(bbs, t) <= 1,
    ensures
        forall|j: int| 0 <= j < 6 && j != p ==> !has_bit(bbs[j], t),
{
}

/// Finding a piece on `t` means one of the piece bitboards holds it.
proof fn lemma_found_piece(bbs: Seq<u64>, t: int, i: int)
    requires
        bbs.len() == 8,
        0 <= i <= 6,
    ensures
        first_piece_from(bbs, t, i) matches Some(p) ==> i <= p as int && p as int <= 5 && has_bit(bbs[p as int], t)
            && forall|j: int| i <= j < p as int ==> !has_bit(bbs[j], t),
        first_piece_from(bbs, t, i) is None ==> forall|j: int| i <= j < 6 ==> !has_bit(bbs[j], t),
    decreases 6 - i,
{
    if i < 6 {
        lemma_found_piece(bbs, t, i + 1);
        assert(Piece::ALL[i] as int == i) by {
            assert(Piece::ALL[0] as int == 0);
            assert(Piece::ALL[1] as int == 1);
            assert(Piece::ALL[2] as int == 2);
            assert(Piece::ALL[3] as int == 3);
            assert(Piece::ALL[4] as int == 4);
            assert(Piece::ALL[5] as int == 5);
        }
    }
}

/// The toggles of a move on the bitboards `b0`: the en passant pawn on `e` leaves the pawns
/// and side `inv6`; the piece `fp` leaves `from`; `from` and `to` toggle in side `fc6`; a
/// piece `tp` on `to` leaves its kind and side `inv6`; the piece `last` joins `to`.
#[verifier::opaque]
pub open spec fn toggle_chain(
    b0: Seq<u64>,
    fp: int,
    fc6: int,
    tp: Option<int>,
    inv6: int,
    last: int,
    e: Option<int>,
    from: int,
    to: int,
) -> Seq<u64> {
    let fb = 1u64 << (from as u64);
    let tb = 1u64 << (to as u64);
    let b1 = match e {
        Some(x) => xor_at(xor_at(b0, 0, 1u64 << (x as u64)), inv6, 1u64 << (x as u64)),
        None => b0,
    };
    let b3 = xor_at(xor_at(b1, fp, fb), fc6, fb | tb);
    let b4 = match tp {
        Some(p) => xor_at(xor_at(b3, p, tb), inv6, tb),
        None => b3,
    };
    xor_at(b4, last, tb)
}

/// The bits of `toggle_chain` square by square: squares other than `from`, `to` and `e` keep
/// their bits; at `from` the piece and the mover's side flip; at `to` the mover's side, the
/// taken piece and its side, and the arriving piece flip; at `e` the pawns and side `inv6` flip.
#[verifier::spinoff_prover]
#[verifier::rlimit(30)]
proof fn lemma_chain_bits(b0: Seq<u64>, fp: int, fc6: int, tp: Option<int>, inv6: int, last: int, e: Option<int>, from: int, to: int)
    requires
        b0.len() == 8,
        0 <= fp < 6,
        6 <= fc6 < 8,
        6 <= inv6 < 8,
        tp is Some ==> 0 <= tp->0 < 6,
        0 <= last < 6,
        0 <= from < 64,
        0 <= to < 64,
        from != to,
        e is Some ==> 0 <= e->0 < 64 && e->0 != from && e->0 != to,
    ensures
        ({
            let c = toggle_chain(b0, fp, fc6, tp, inv6, last, e, from, to);
            &&& c.len() == 8
            &&& forall|j: int, u: int| 0 <= j < 8 && 0 <= u < 64 && u != from && u != to && !(e is Some && u == e->0)
                ==> #[trigger] has_bit(c[j], u) == has_bit(b0[j], u)
            &&& forall|j: int| 0 <= j < 8 ==> #[trigger] has_bit(c[j], from) == (has_bit(b0[j], from) != (j == fp || j == fc6))
            &&& forall|j: int| 0 <= j < 8 ==> #[trigger] has_bit(c[j], to) == (has_bit(b0[j], to)
                != (((j == fc6) != (tp is Some && (j == tp->0 || j == inv6))) != (j == last)))
            &&& e is Some ==> forall|j: int| 0 <= j < 8 ==> #[trigger] has_bit(c[j], e->0) == (has_bit(b0[j], e->0) != (j == 0 || j == inv6))
        }),
{
    reveal(toggle_chain);
    let fb = 1u64 << (from as u64);
    let tb = 1u64 << (to as u64);
    lemma_single(from);
    lemma_single(to);
    lemma_bits(fb, tb);
    let b1 = match e {
        Some(x) => xor_at(xor_at(b0, 0, 1u64 << (x as u64)), inv6, 1u64 << (x as u64)),
        None => b0,
    };
    if e is Some {
        let x = e->0;
        lemma_single(x);
        lemma_toggle(b0, 0, 1u64 << (x as u64));
        lemma_toggle(xor_at(b0, 0, 1u64 << (x as u64)), inv6, 1u64 << (x as u64));
    }
    let b2 = xor_at(b1, fp, fb);
    let b3 = xor_at(b2, fc6, fb | tb);
    lemma_toggle(b1, fp, fb);
    lemma_toggle(b2, fc6, fb | tb);
    let b4 = match tp {
        Some(p) => xor_at(xor_at(b3, p, tb), inv6, tb),
        None => b3,
    };
    if tp is Some {
        lemma_toggle(b3, tp->0, tb);
        lemma_toggle(xor_at(b3, tp->0, tb), inv6, tb);
    }
    lemma_toggle(b4, last, tb);
}

/// The bitboards after a move from a square that holds a piece are its toggle chain.
proof fn lemma_move_chain(bbs: Seq<u64>, flags: u8, mv: Move, fp: int, fc6: int, tp: Option<int>, inv6: int, last: int, e: Option<int>)
    requires
        bbs.len() == 8,
        first_piece_from(bbs, mv.spec_source() as int, 0) is Some,
        fp == first_piece_from(bbs, mv.spec_source() as int, 0)->0 as int,
        fc6 == owner_in(bbs, mv.spec_source() as int) as int + 6,
        inv6 == owner_in(bbs, mv.spec_source() as int).spec_inverse() as int + 6,
        tp == match first_piece_from(bbs, mv.spec_target() as int, 0) {
            Some(p) => Some(p as int),
            None => None,
        },
        last == match mv.spec_promotion() {
            Some(q) => q as int,
            None => fp,
        },
        e == if takes_en_passant_in(bbs, flags, mv) {
            Some(rank_of(mv.spec_source() as int) * 8 + file_of(mv.spec_target() as int))
        } else {
            None
        },
    ensures
        move_bbs(bbs, flags, mv) == toggle_chain(bbs, fp, fc6, tp, inv6, last, e, mv.spec_source() as int, mv.spec_target() as int),
{
    let from = mv.spec_source() as int;
    let to = mv.spec_target() as int;
    mv.spec_source().lemma_index();
    mv.spec_target().lemma_index();
    let v = rank_of(from) * 8 + file_of(to);
    assert(0 <= v < 64);
    assert((v as u64) as int == v);
    reveal(toggle_chain);
}

/// The square a piece leaves ends up empty.
proof fn lemma_after_from(b0: Seq<u64>, c: Seq<u64>, from: int, fp: int, fc6: int)
    requires
        b0.len() == 8,
        c.len() == 8,
        0 <= fp < 6,
        fc6 == 6 || fc6 == 7,
        square_consistent(b0, from),
        has_bit(b0[fp], from),
        (fc6 == 6) == has_bit(b0[6], from),
        forall|j: int| 0 <= j < 8 ==> #[trigger] has_bit(c[j], from) == (has_bit(b0[j], from) != (j == fp || j == fc6)),
    ensures
        square_consistent(c, from),
{
    lemma_only_piece(b0, from, fp);
    assert(has_bit(c[0], from) == (has_bit(b0[0], from) != (0 == fp)));
    assert(has_bit(c[1], from) == (has_bit(b0[1], from) != (1 == fp)));
    assert(has_bit(c[2], from) == (has_bit(b0[2], from) != (2 == fp)));
    assert(has_bit(c[3], from) == (has_bit(b0[3], from) != (3 == fp)));
    assert(has_bit(c[4], from) == (has_bit(b0[4], from) != (4 == fp)));
    assert(has_bit(c[5], from) == (has_bit(b0[5], from) != (5 == fp)));
    assert(has_bit(c[6], from) == (has_bit(b0[6], from) != (6 == fc6)));
    assert(has_bit(c[7], from) == (has_bit(b0[7], from) != (7 == fc6)));
}

/// The square a piece arrives on holds that piece alone, of the mover's side alone.
proof fn lemma_after_to(b0: Seq<u64>, c: Seq<u64>, to: int, fc6: int, inv6: int, tp: Option<int>, last: int)
    requires
        b0.len() == 8,
        c.len() == 8,
        (fc6 == 6 && inv6 == 7) || (fc6 == 7 && inv6 == 6),
        0 <= last < 6,
        square_consistent(b0, to),
        !has_bit(b0[fc6], to),
        tp is Some ==> 0 <= tp->0 < 6 && has_bit(b0[tp->0], to),
        tp is None ==> forall|j: int| 0 <= j < 6 ==> !has_bit(b0[j], to),
        forall|j: int| 0 <= j < 8 ==> #[trigger] has_bit(c[j], to) == (has_bit(b0[j], to)
            != (((j == fc6) != (tp is Some && (j == tp->0 || j == inv6))) != (j == last))),
    ensures
        square_consistent(c, to),
{
    if tp is Some {
        lemma_only_piece(b0, to, tp->0);
    }
    assert(has_bit(c[0], to) == (has_bit(b0[0], to) != ((tp is Some && 0 == tp->0) != (0 == last))));
    assert(has_bit(c[1], to) == (has_bit(b0[1], to) != ((tp is Some && 1 == tp->0) != (1 == last))));
    assert(has_bit(c[2], to) == (has_bit(b0[2], to) != ((tp is Some && 2 == tp->0) != (2 == last))));
    assert(has_bit(c[3], to) == (has_bit(b0[3], to) != ((tp is Some && 3 == tp->0) != (3 == last))));
    assert(has_bit(c[4], to) == (has_bit(b0[4], to) != ((tp is Some && 4 == tp->0) != (4 == last))));
    assert(has_bit(c[5], to) == (has_bit(b0[5], to) != ((tp is Some && 5 == tp->0) != (5 == last))));
    assert(has_bit(c[6], to) == (has_bit(b0[6], to) != ((6 == fc6) != (tp is Some && 6 == inv6))));
    assert(has_bit(c[7], to) == (has_bit(b0[7], to) != ((7 == fc6) != (tp is Some && 7 == inv6))));
}

/// The square of a pawn taken en passant ends up empty.
proof fn lemma_after_victim(b0: Seq<u64>, c: Seq<u64>, v: int, inv6: int)
    requires
        b0.len() == 8,
        c.len() == 8,
        inv6 == 6 || inv6 == 7,
        square_consistent(b0, v),
        has_bit(b0[0], v),
        has_bit(b0[inv6], v),
        forall|j: int| 0 <= j < 8 ==> #[trigger] has_bit(c[j], v) == (has_bit(b0[j], v) != (j == 0 || j == inv6)),
    ensures
        square_consistent(c, v),
{
    lemma_only_piece(b0, v, 0);
    assert(has_bit(c[0], v) == !has_bit(b0[0], v));
    assert(has_bit(c[1], v) == has_bit(b0[1], v));
    assert(has_bit(c[2], v) == has_bit(b0[2], v));
    assert(has_bit(c[3], v) == has_bit(b0[3], v));
    assert(has_bit(c[4], v) == has_bit(b0[4], v));
    assert(has_bit(c[5], v) == has_bit(b0[5], v));
    assert(has_bit(c[6], v) == (has_bit(b0[6], v) != (6 == inv6)));
    assert(has_bit(c[7], v) == (has_bit(b0[7], v) != (7 == inv6)));
}

/// A square whose bits stay keeps its description.
proof fn lemma_after_other(b0: Seq<u64>, c: Seq<u64>, u: int)
    requires
        square_consistent(b0, u),
        forall|j: int| 0 <= j < 8 ==> #[trigger] has_bit(c[j], u) == has_bit(b0[j], u),
    ensures
        square_consistent(c, u),
{
    assert(has_bit(c[0], u) == has_bit(b0[0], u));
    assert(has_bit(c[1], u) == has_bit(b0[1], u));
    assert(has_bit(c[2], u) == has_bit(b0[2], u));
    assert(has_bit(c[3], u) == has_bit(b0[3], u));
    assert(has_bit(c[4], u) == has_bit(b0[4], u));
    assert(has_bit(c[5], u) == has_bit(b0[5], u));
    assert(has_bit(c[6], u) == has_bit(b0[6], u));
    assert(has_bit(c[7], u) == has_bit(b0[7], u));
}

/// The toggle chain of a move keeps a consistent position consistent, when the piece `fp`
/// of side `fc6` stands on `from`, `to` is another square that side does not hold (`tp` is the
/// piece on it), and the en passant square `e` holds a pawn of the other side `inv6`.
proof fn lemma_chain_keeps_consistent(b0: Seq<u64>, fp: int, fc6: int, tp: Option<int>, inv6: int, last: int, e: Option<int>, from: int, to: int)
    requires
        consistent(b0),
        0 <= fp < 6,
        (fc6 == 6 && inv6 == 7) || (fc6 == 7 && inv6 == 6),
        0 <= last < 6,
        0 <= from < 64,
        0 <= to < 64,
        from != to,
        has_bit(b0[fp], from),
        (fc6 == 6) == has_bit(b0[6], from),
        !has_bit(b0[fc6], to),
        tp is Some ==> 0 <= tp->0 < 6 && has_bit(b0[tp->0], to),
        tp is None ==> forall|j: int| 0 <= j < 6 ==> !has_bit(b0[j], to),
        e is Some ==> 0 <= e->0 < 64 && e->0 != from && e->0 != to && has_bit(b0[0], e->0) && has_bit(b0[inv6], e->0),
    ensures
        consistent(toggle_chain(b0, fp, fc6, tp, inv6, last, e, from, to)),
{
    reveal(consistent);
    lemma_chain_bits(b0, fp, fc6, tp, inv6, last, e, from, to);
    let c = toggle_chain(b0, fp, fc6, tp, inv6, last, e, from, to);
    assert forall|u: int| 0 <= u < 64 implies #[trigger] square_consistent(c, u) by {
        assert(square_consistent(b0, u));
        if u == from {
            lemma_after_from(b0, c, from, fp, fc6);
        } else if u == to {
            lemma_after_to(b0, c, to, fc6, inv6, tp, last);
        } else if e is Some && u == e->0 {
            lemma_after_victim(b0, c, u, inv6);
        } else {
            lemma_after_other(b0, c, u);
        }
    }
}

/// Playing a move keeps a consistent position consistent, when the move starts on a piece,
/// ends on another square that the mover's side does not hold, and a pawn it takes en passant
/// is a pawn of the other side that stands off the target square.
#[verifier::spinoff_prover]
#[verifier::rlimit(50)]
pub proof fn lemma_move_keeps_consistent(bbs: Seq<u64>, flags: u8, mv: Move)
    requires
        consistent(bbs),
        first_piece_from(bbs, mv.spec_source() as int, 0) is Some,
        mv.spec_source() != mv.spec_target(),
        !has_bit(bbs[owner_in(bbs, mv.spec_source() as int) as int + 6], mv.spec_target() as int),
        takes_en_passant_in(bbs, flags, mv) ==> {
            let v = rank_of(mv.spec_source() as int) * 8 + file_of(mv.spec_target() as int);
            &&& v != mv.spec_target() as int
            &&& has_bit(bbs[0], v)
            &&& has_bit(bbs[owner_in(bbs, mv.spec_source() as int).spec_inverse() as int + 6], v)
        },
    ensures
        consistent(move_bbs(bbs, flags, mv)),
{
    let from = mv.spec_source() as int;
    let to = mv.spec_target() as int;
    mv.spec_source().lemma_index();
    mv.spec_target().lemma_index();
    assert(bbs.len() == 8 && square_consistent(bbs, from)) by {
        reveal(consistent);
    }
    lemma_found_piece(bbs, from, 0);
    lemma_found_piece(bbs, to, 0);
    let fp = first_piece_from(bbs, from, 0)->0 as int;
    let fc = owner_in(bbs, from);
    let inv = fc.spec_inverse();
    let tp = match first_piece_from(bbs, to, 0) {
        Some(p) => Some(p as int),
        None => None,
    };
    let last = match mv.spec_promotion() {
        Some(q) => q as int,
        None => fp,
    };
    let is_ep = takes_en_passant_in(bbs, flags, mv);
    let v = rank_of(from) * 8 + file_of(to);
    let e = if is_ep { Some(v) } else { None };
    assert(is_ep ==> v != from) by {
        if is_ep && v == from {
            assert(has_bit(bbs[inv as int + 6], from));
        }
    }
    lemma_move_chain(bbs, flags, mv, fp, fc as int + 6, tp, inv as int + 6, last, e);
    assert(0 <= fp < 6);
    assert((fc as int + 6 == 6 && inv as int + 6 == 7) || (fc as int + 6 == 7 && inv as int + 6 == 6));
    assert(0 <= last < 6);
    assert(from != to);
    assert(has_bit(bbs[fp], from));
    assert((fc as int + 6 == 6) == has_bit(bbs[6], from));
    assert(!has_bit(bbs[fc as int + 6], to));
    assert(tp is Some ==> 0 <= tp->0 < 6 && has_bit(bbs[tp->0], to));
    assert(tp is None ==> forall|j: int| 0 <= j < 6 ==> !has_bit(bbs[j], to));
    assert(e is Some ==> 0 <= e->0 < 64 && e->0 != from && e->0 != to && has_bit(bbs[0], e->0) && has_bit(bbs[inv as int + 6], e->0));
    lemma_chain_keeps_consistent(bbs, fp, fc as int + 6, tp, inv as int + 6, last, e, from, to);
}

/// On a consistent position every move can be played: each square that `make_move` looks up
/// holds a piece or is empty.
pub proof fn lemma_consistent_moves_defined(bbs: Seq<u64>, mv: Move)
    requires
        consistent(bbs),
    ensures
        move_defined(bbs, mv),
{
    reveal(consistent);
    let from = mv.spec_source() as int;
    let to = mv.spec_target() as int;
    mv.spec_source().lemma_index();
    mv.spec_target().lemma_index();
    assert(square_consistent(bbs, from));
    assert(square_consistent(bbs, to));
    lemma_found_piece(bbs, from, 0);
    lemma_found_piece(bbs, to, 0);
}

/// On a consistent position a square held by a side holds a piece of that side, and no square
/// holds two kinds of pieces.
pub proof fn lemma_consistent_square(bbs: Seq<u64>, t: int)
    requires
        consistent(bbs),
        0 <= t < 64,
    ensures
        bbs.len() == 8,
        square_consistent(bbs, t),
        piece_bits(bbs, t) <= 1,
        !(has_bit(bbs[6], t) && has_bit(bbs[7], t)),
        (has_bit(bbs[6], t) || has_bit(bbs[7], t)) ==> first_piece_from(bbs, t, 0) is Some,
        has_bit(bbs[6], t) ==> owner_in(bbs, t) == Color::White,
        has_bit(bbs[7], t) ==> owner_in(bbs, t) == Color::Black,
{
    reveal(consistent);
    assert(square_consistent(bbs, t));
    lemma_found_piece(bbs, t, 0);
}

/// The squares after a toggle chain without en passant: the target holds `last` alone among
/// the pieces, of side `fc6` alone; the source holds nothing; every other square keeps its bits.
proof fn lemma_chain_squares(b0: Seq<u64>, fp: int, fc6: int, tp: Option<int>, inv6: int, last: int, from: int, to: int)
    requires
        consistent(b0),
        0 <= fp < 6,
        (fc6 == 6 && inv6 == 7) || (fc6 == 7 && inv6 == 6),
        0 <= last < 6,
        0 <= from < 64,
        0 <= to < 64,
        from != to,
        has_bit(b0[fp], from),
        (fc6 == 6) == has_bit(b0[6], from),
        !has_bit(b0[fc6], to),
        tp is Some ==> 0 <= tp->0 < 6 && has_bit(b0[tp->0], to),
        tp is None ==> forall|j: int| 0 <= j < 6 ==> !has_bit(b0[j], to),
    ensures
        ({
            let c = toggle_chain(b0, fp, fc6, tp, inv6, last, None, from, to);
            &&& c.len() == 8
            &&& forall|j: int| 0 <= j < 6 ==> (#[trigger] has_bit(c[j], to) <==> j == last)
            &&& has_bit(c[fc6], to)
            &&& !has_bit(c[inv6], to)
            &&& forall|j: int| 0 <= j < 8 ==> !#[trigger] has_bit(c[j], from)
            &&& forall|j: int, u: int| 0 <= j < 8 && 0 <= u < 64 && u != from && u != to
                ==> #[trigger] has_bit(c[j], u) == has_bit(b0[j], u)
            &&& first_piece_from(c, to, 0) == Some(Piece::ALL[last])
            &&& first_piece_from(c, from, 0) is None
        }),
{
    reveal(consistent);
    assert(square_consistent(b0, from));
    assert(square_consistent(b0, to));
    lemma_only_piece(b0, from, fp);
    if tp is Some {
        lemma_only_piece(b0, to, tp->0);
    }
    lemma_chain_bits(b0, fp, fc6, tp, inv6, last, None, from, to);
    let c = toggle_chain(b0, fp, fc6, tp, inv6, last, None, from, to);
    lemma_found_piece(c, to, 0);
    lemma_found_piece(c, from, 0);
    assert(has_bit(c[last], to));
    assert(forall|j: int| 0 <= j < 6 ==> (#[trigger] has_bit(c[j], to) <==> j == last));
    assert(Piece::ALL[last] as int == last) by {
        assert(Piece::ALL[0] as int == 0);
        assert(Piece::ALL[1] as int == 1);
        assert(Piece::ALL[2] as int == 2);
        assert(Piece::ALL[3] as int == 3);
        assert(Piece::ALL[4] as int == 4);
        assert(Piece::ALL[5] as int == 5);
    }
}

/// The squares after a move, as `lemma_move_squares` states them, from its toggle chain.
#[verifier::spinoff_prover]
proof fn lemma_move_squares_chain(bbs: Seq<u64>, flags: u8, mv: Move, r: Seq<u64>, lastp: Piece)
    requires
        consistent(bbs),
        first_piece_from(bbs, mv.spec_source() as int, 0) is Some,
        !has_bit(bbs[owner_in(bbs, mv.spec_source() as int) as int + 6], mv.spec_target() as int),
        !takes_en_passant_in(bbs, flags, mv),
        r == move_bbs(bbs, flags, mv),
        lastp == match mv.spec_promotion() {
            Some(q) => q,
            None => first_piece_from(bbs, mv.spec_source() as int, 0)->0,
        },
    ensures
        consistent(r),
        first_piece_from(r, mv.spec_target() as int, 0) == Some(lastp),
        has_bit(r[owner_in(bbs, mv.spec_source() as int) as int + 6], mv.spec_target() as int),
        !has_bit(r[owner_in(bbs, mv.spec_source() as int).spec_inverse() as int + 6], mv.spec_target() as int),
        first_piece_from(r, mv.spec_source() as int, 0) is None,
        !has_bit(r[6], mv.spec_source() as int),
        !has_bit(r[7], mv.spec_source() as int),
        forall|j: int, u: int| 0 <= j < 8 && 0 <= u < 64 && u != mv.spec_source() as int && u != mv.spec_target() as int
            ==> #[trigger] has_bit(r[j], u) == has_bit(bbs[j], u),
{
    let from = mv.spec_source() as int;
    let to = mv.spec_target() as int;
    mv.spec_source().lemma_index();
    mv.spec_target().lemma_index();
    lemma_consistent_square(bbs, from);
    lemma_consistent_square(bbs, to);
    lemma_found_piece(bbs, from, 0);
    lemma_found_piece(bbs, to, 0);
    let pp = first_piece_from(bbs, from, 0)->0;
    let fp = pp as int;
    let fc = owner_in(bbs, from);
    let inv = fc.spec_inverse();
    let tp = match first_piece_from(bbs, to, 0) {
        Some(p) => Some(p as int),
        None => None,
    };
    let last = lastp as int;
    assert(piece_bits(bbs, from) >= 1);
    assert(has_bit(bbs[fc as int + 6], from));
    assert(from != to);
    let e: Option<int> = None;
    lemma_move_chain(bbs, flags, mv, fp, fc as int + 6, tp, inv as int + 6, last, e);
    assert(0 <= fp < 6);
    assert(0 <= last < 6);
    assert(has_bit(bbs[fp], from));
    assert((fc as int + 6 == 6) == has_bit(bbs[6], from));
    assert(tp is Some ==> 0 <= tp->0 < 6 && has_bit(bbs[tp->0], to));
    assert(tp is None ==> forall|j: int| 0 <= j < 6 ==> !has_bit(bbs[j], to));
    lemma_chain_keeps_consistent(bbs, fp, fc as int + 6, tp, inv as int + 6, last, e, from, to);
    lemma_chain_squares(bbs, fp, fc as int + 6, tp, inv as int + 6, last, from, to);
    assert(r == toggle_chain(bbs, fp, fc as int + 6, tp, inv as int + 6, last, e, from, to));
    assert(Piece::ALL[last] == lastp) by {
        match lastp {
            Piece::Pawn => {},
            Piece::Knight => {},
            Piece::Bishop => {},
            Piece::Rook => {},
            Piece::Queen => {},
            Piece::King => {},
        }
    }
}

/// What a move does square by square on a consistent position, when it starts on a piece,
/// ends on a square that the mover's side does not hold, and takes nothing en passant: the
/// target holds the promotion piece (or else the moving piece) of the mover's side alone, the
/// source is empty, every other square keeps what it held, the position stays consistent, and
/// en passant becomes possible exactly after a pawn's two-rank advance.
pub proof fn lemma_move_squares(bbs: Seq<u64>, flags: u8, mv: Move)
    requires
        consistent(bbs),
        first_piece_from(bbs, mv.spec_source() as int, 0) is Some,
        !has_bit(bbs[owner_in(bbs, mv.spec_source() as int) as int + 6], mv.spec_target() as int),
        !takes_en_passant_in(bbs, flags, mv),
    ensures
        ({
            let from = mv.spec_source() as int;
            let to = mv.spec_target() as int;
            let p = first_piece_from(bbs, from, 0)->0;
            let c = owner_in(bbs, from);
            let r = move_bbs(bbs, flags, mv);
            &&& consistent(r)
            &&& first_piece_from(r, to, 0) == Some(match mv.spec_promotion() {
                Some(q) => q,
                None => p,
            })
            &&& has_bit(r[c as int + 6], to)
            &&& !has_bit(r[c.spec_inverse() as int + 6], to)
            &&& first_piece_from(r, from, 0) is None
            &&& !has_bit(r[6], from) && !has_bit(r[7], from)
            &&& forall|j: int, u: int| 0 <= j < 8 && 0 <= u < 64 && u != from && u != to
                ==> #[trigger] has_bit(r[j], u) == has_bit(bbs[j], u)
            &&& Flags(move_flags(bbs, flags, mv)).spec_can_en_passant()
                == (p == Piece::Pawn && crate::generation::abs(rank_of(from) - rank_of(to)) == 2)
        }),
{
    let lastp = match mv.spec_promotion() {
        Some(q) => q,
        None => first_piece_from(bbs, mv.spec_source() as int, 0)->0,
    };
    lemma_move_squares_chain(bbs, flags, mv, move_bbs(bbs, flags, mv), lastp);
    lemma_move_flags_en_passant(bbs, flags, mv);
}

/// After a move, en passant is possible exactly when a pawn advanced two ranks.
proof fn lemma_move_flags_en_passant(bbs: Seq<u64>, flags: u8, mv: Move)
    ensures
        Flags(move_flags(bbs, flags, mv)).spec_can_en_passant() == (first_piece_from(bbs, mv.spec_source() as int, 0) == Some(Piece::Pawn)
            && crate::generation::abs(rank_of(mv.spec_source() as int) - rank_of(mv.spec_target() as int)) == 2),
{
    let f0 = (flags & !16u8) | 0u8;
    let file = file_of(mv.spec_source() as int) as u8;
    assert(((f0 >> 4u8) & 1u8 == 1u8) == false && (((((f0 & !16u8) | 16u8) & !224u8) | (file << 5u8)) >> 4u8) & 1u8 == 1u8) by (bit_vector)
        requires
            f0 == (flags & !16u8) | 0u8;
}

/// Placing a piece on a square where a consistent position has no piece keeps the position
/// consistent, and the square then holds that piece and belongs to that side.
pub proof fn lemma_place_keeps_consistent(bbs: Seq<u64>, piece: Piece, color: Color, sq: Square)
    requires
        consistent(bbs),
        first_piece_from(bbs, sq as int, 0) is None,
    ensures
        consistent(place_in(bbs, piece, color, sq as int)),
        first_piece_from(place_in(bbs, piece, color, sq as int), sq as int, 0) == Some(piece),
        owner_in(place_in(bbs, piece, color, sq as int), sq as int) == color,
{
    let t = sq as int;
    sq.lemma_index();
    let p = piece as int;
    let c6 = color as int + 6;
    let m = 1u64 << (t as u64);
    let r = place_in(bbs, piece, color, t);
    lemma_consistent_square(bbs, t);
    lemma_found_piece(bbs, t, 0);
    lemma_single(t);
    lemma_bits(bbs[p], m);
    lemma_bits(bbs[c6], m);
    reveal(consistent);
    assert(r.len() == 8);
    assert forall|u: int, j: int| 0 <= u < 64 && 0 <= j < 8 implies #[trigger] has_bit(r[j], u) == (
        if u == t { j == p || j == c6 } else { has_bit(bbs[j], u) }
    ) by {
        if j == p {
            assert(r[j] == bbs[p] | m);
        } else if j == c6 {
            assert(r[j] == bbs[c6] | m);
        } else {
            assert(r[j] == bbs[j]);
        }
    }
    assert forall|u: int| 0 <= u < 64 implies #[trigger] square_consistent(r, u) by {
        assert(has_bit(r[0], u) == if u == t { 0 == p || 0 == c6 } else { has_bit(bbs[0], u) });
        assert(has_bit(r[1], u) == if u == t { 1 == p || 1 == c6 } else { has_bit(bbs[1], u) });
        assert(has_bit(r[2], u) == if u == t { 2 == p || 2 == c6 } else { has_bit(bbs[2], u) });
        assert(has_bit(r[3], u) == if u == t { 3 == p || 3 == c6 } else { has_bit(bbs[3], u) });
        assert(has_bit(r[4], u) == if u == t { 4 == p || 4 == c6 } else { has_bit(bbs[4], u) });
        assert(has_bit(r[5], u) == if u == t { 5 == p || 5 == c6 } else { has_bit(bbs[5], u) });
        assert(has_bit(r[6], u) == if u == t { 6 == p || 6 == c6 } else { has_bit(bbs[6], u) });
        assert(has_bit(r[7], u) == if u == t { 7 == p || 7 == c6 } else { has_bit(bbs[7], u) });
        if u != t {
            assert(square_consistent(bbs, u));
        }
    }
    assert(has_bit(r[p], t));
    lemma_found_piece(r, t, 0);
    assert(first_piece_from(r, t, 0) == Some(piece)) by {
        assert(has_bit(r[0], t) == (0 == p));
        assert(has_bit(r[1], t) == (1 == p));
        assert(has_bit(r[2], t) == (2 == p));
        assert(has_bit(r[3], t) == (3 == p));
        assert(has_bit(r[4], t) == (4 == p));
        assert(has_bit(r[5], t) == (5 == p));
    }
    lemma_consistent_square(r, t);
    assert(has_bit(r[6], t) == (color == Color::White));
    assert(has_bit(r[7], t) == (color == Color::Black));
}

} // verus!
