use vstd::prelude::*;
use vstd::string::StringSliceAdditionalSpecFns;
use crate::board::{Board, ParseFenError};
use crate::board::bitboard::Bitboard;
use crate::board::color::Color;
use crate::board::flags::{Flags, byte_bit};
use crate::board::piece::Piece;
use crate::board::square::Square;

verus! {

/// An ASCII whitespace byte: space, tab, line feed, form feed or carriage return.
pub open spec fn is_ws(c: u8) -> bool {
    c == 32 || c == 9 || c == 10 || c == 12 || c == 13
}

/// The first index from `i` on that is not whitespace (or the end).
pub open spec fn skip_ws(b: Seq<u8>, i: int) -> int
    decreases b.len() - i,
{
    if i >= b.len() || i < 0 {
        i
    } else if is_ws(b[i]) {
        skip_ws(b, i + 1)
    } else {
        i
    }
}

/// The first index from `i` on that is whitespace (or the end).
pub open spec fn word_end(b: Seq<u8>, i: int) -> int
    decreases b.len() - i,
{
    if i >= b.len() || i < 0 {
        i
    } else if is_ws(b[i]) {
        i
    } else {
        word_end(b, i + 1)
    }
}

proof fn lemma_skip_ws(b: Seq<u8>, i: int)
    requires
        0 <= i <= b.len(),
    ensures
        i <= skip_ws(b, i) <= b.len(),
        skip_ws(b, i) < b.len() ==> !is_ws(b[skip_ws(b, i)]),
    decreases b.len() - i,
{
    if i < b.len() && is_ws(b[i]) {
        lemma_skip_ws(b, i + 1);
    }
}

proof fn lemma_word_end(b: Seq<u8>, i: int)
    requires
        0 <= i <= b.len(),
    ensures
        i <= word_end(b, i) <= b.len(),
    decreases b.len() - i,
{
    if i < b.len() && !is_ws(b[i]) {
        lemma_word_end(b, i + 1);
    }
}

/// The whitespace-separated words of `b` from index `i` on.
pub open spec fn words_from(b: Seq<u8>, i: int) -> Seq<Seq<u8>>
    decreases b.len() - i,
{
    if i < 0 || i >= b.len() {
        seq![]
    } else {
        let j = skip_ws(b, i);
        if j >= b.len() {
            seq![]
        } else {
            let k = word_end(b, j);
            if k <= i || k > b.len() {
                seq![]
            } else {
                seq![b.subrange(j, k)] + words_from(b, k)
            }
        }
    }
}

/// The whitespace-separated words of `b`.
pub open spec fn words(b: Seq<u8>) -> Seq<Seq<u8>> {
    words_from(b, 0)
}

/// The piece a FEN letter names.
pub open spec fn fen_piece(c: u8) -> Option<Piece> {
    if c == 112 || c == 80 {
        Some(Piece::Pawn)
    } else if c == 110 || c == 78 {
        Some(Piece::Knight)
    } else if c == 98 || c == 66 {
        Some(Piece::Bishop)
    } else if c == 114 || c == 82 {
        Some(Piece::Rook)
    } else if c == 113 || c == 81 {
        Some(Piece::Queen)
    } else if c == 107 || c == 75 {
        Some(Piece::King)
    } else {
        None
    }
}

/// The state of reading a placement field: rank, file, bitboards and status (0 reading,
/// 1 a byte that is not part of a placement, 2 a square off the board or a counter that
/// leaves its byte).
pub type PlaceState = (int, int, Seq<u64>, int);

/// One byte of a placement field: a digit 0-8 skips that many files, a piece letter puts a
/// piece (upper case White, lower case Black) on the current square and steps one file, and
/// `/` goes down one rank to the a-file.
pub open spec fn place_step(st: PlaceState, c: u8) -> PlaceState {
    let (rank, file, bbs, status) = st;
    if status != 0 {
        st
    } else if 48 <= c <= 56 {
        let f = file + (c - 48);
        if f > 127 { (rank, file, bbs, 2) } else { (rank, f, bbs, 0) }
    } else if fen_piece(c) is Some {
        if rank < 0 || rank * 8 + file >= 64 {
            (rank, file, bbs, 2)
        } else {
            let sq = rank * 8 + file;
            let p = fen_piece(c).unwrap() as int;
            let col = if 65 <= c <= 90 { 6int } else { 7int };
            let bb1 = bbs.update(p, bbs[p] | (1u64 << (sq as u64)));
            (rank, file + 1, bb1.update(col, bb1[col] | (1u64 << (sq as u64))), 0)
        }
    } else if c == 47 {
        if rank == -128 { (rank, file, bbs, 2) } else { (rank - 1, 0, bbs, 0) }
    } else {
        (rank, file, bbs, 1)
    }
}

/// The state after reading the first `n` bytes of the placement field `w`.
pub open spec fn place_prefix(w: Seq<u8>, n: int) -> PlaceState
    decreases n,
{
    if n <= 0 {
        (7, 0, Seq::new(8, |i: int| 0u64), 0)
    } else {
        place_step(place_prefix(w, n - 1), w[n - 1])
    }
}

/// Once reading stops, it stays stopped.
proof fn lemma_place_sticky(w: Seq<u8>, n: int, m: int)
    requires
        0 <= n <= m,
        place_prefix(w, n).3 != 0,
    ensures
        place_prefix(w, m) == place_prefix(w, n),
    decreases m - n,
{
    if m > n {
        lemma_place_sticky(w, n, m - 1);
    }
}

/// The castling rights that a castling field grants, from its first `n` bytes.
pub open spec fn castle_flags(w: Seq<u8>, n: int) -> u8
    decreases n,
{
    if n <= 0 {
        0
    } else {
        castle_flags(w, n - 1) | (if w[n - 1] == 75 { 1u8 } else if w[n - 1] == 81 { 2u8 } else if w[n - 1] == 107 { 4u8 } else { 8u8 })
    }
}

/// Every byte of `w` is a castling letter `K`, `Q`, `k` or `q`.
pub open spec fn castle_ok(w: Seq<u8>) -> bool {
    forall|i: int| 0 <= i < w.len() ==> (w[i] == 75 || w[i] == 81 || w[i] == 107 || w[i] == 113)
}

/// The value of the decimal digits `d`.
pub open spec fn digits_value(d: Seq<u8>) -> int
    decreases d.len(),
{
    if d.len() == 0 {
        0
    } else {
        digits_value(d.drop_last()) * 10 + (d.last() - 48)
    }
}

/// Every byte of `d` is a decimal digit.
pub open spec fn all_digits(d: Seq<u8>) -> bool {
    forall|i: int| 0 <= i < d.len() ==> 48 <= #[trigger] d[i] <= 57
}

/// The number that `w` reads as, unsigned and at most `max`: digits after an optional `+`.
pub open spec fn parse_unsigned(w: Seq<u8>, max: int) -> Option<int> {
    let d = if w.len() >= 1 && w[0] == 43 { w.drop_first() } else { w };
    if d.len() >= 1 && all_digits(d) && digits_value(d) <= max {
        Some(digits_value(d))
    } else {
        None
    }
}

/// Reading the FEN text `b` places a piece off the board, or counts files or ranks out of
/// a byte.
pub open spec fn fen_panics(b: Seq<u8>) -> bool {
    let ws = words(b);
    ws.len() >= 1 && place_prefix(ws[0], ws[0].len() as int).3 == 2
}

/// What reading the FEN text `b` gives: the bitboards, the side to move, the flags and the
/// two move counters; or the first field that is missing or malformed.
pub open spec fn fen_spec(b: Seq<u8>) -> Result<(Seq<u64>, Color, u8, u8, u16), ParseFenError> {
    let ws = words(b);
    if ws.len() < 1 {
        Err(ParseFenError::WrongSectionCount)
    } else if place_prefix(ws[0], ws[0].len() as int).3 != 0 {
        Err(ParseFenError::BadPosition)
    } else if ws.len() < 2 {
        Err(ParseFenError::WrongSectionCount)
    } else if !(ws[1] == seq![119u8] || ws[1] == seq![98u8]) {
        Err(ParseFenError::BadActiveColor)
    } else if ws.len() < 3 {
        Err(ParseFenError::WrongSectionCount)
    } else if !castle_ok(ws[2]) {
        Err(ParseFenError::BadCastlingRights)
    } else if ws.len() < 4 {
        Err(ParseFenError::WrongSectionCount)
    } else if ws[3] != seq![45u8] && !(ws[3].len() == 2 && 97 <= ws[3][0] <= 104 && (ws[3][1] == 51 || ws[3][1] == 54)) {
        Err(ParseFenError::BadEnPassant)
    } else if ws.len() < 5 {
        Err(ParseFenError::WrongSectionCount)
    } else if parse_unsigned(ws[4], 255) is None {
        Err(ParseFenError::BadHalfmoves)
    } else if ws.len() < 6 {
        Err(ParseFenError::WrongSectionCount)
    } else if parse_unsigned(ws[5], 65535) is None {
        Err(ParseFenError::BadFullmoves)
    } else {
        let castling = castle_flags(ws[2], ws[2].len() as int);
        let flags = if ws[3] == seq![45u8] { castling } else { castling | 16u8 | (((ws[3][0] - 97) as u8) << 5u8) };
        Ok((
            place_prefix(ws[0], ws[0].len() as int).2,
            if ws[1] == seq![119u8] { Color::White } else { Color::Black },
            flags,
            parse_unsigned(ws[4], 255).unwrap() as u8,
            parse_unsigned(ws[5], 65535).unwrap() as u16,
        ))
    }
}

/// The next word of `b` from index `pos` on, as its start and end.
fn next_word(b: &[u8], pos: usize) -> (r: Option<(usize, usize)>)
    requires
        pos <= b@.len(),
    ensures
        match r {
            None => words_from(b@, pos as int) == Seq::<Seq<u8>>::empty(),
            Some((j, k)) => pos <= j < k <= b@.len() && words_from(b@, pos as int)
                == seq![b@.subrange(j as int, k as int)] + words_from(b@, k as int),
        },
{
    let n = b.len();
    let mut i = pos;
    while i < n && (b[i] == 32 || b[i] == 9 || b[i] == 10 || b[i] == 12 || b[i] == 13)
        invariant
            pos <= i <= n,
            n == b@.len(),
            skip_ws(b@, pos as int) == skip_ws(b@, i as int),
        decreases n - i,
    {
        i = i + 1;
    }
    if i >= n {
        return None;
    }
    let start = i;
    while i < n && !(b[i] == 32 || b[i] == 9 || b[i] == 10 || b[i] == 12 || b[i] == 13)
        invariant
            start <= i <= n,
            start < n,
            n == b@.len(),
            word_end(b@, start as int) == word_end(b@, i as int),
            i > start || !is_ws(b@[start as int]),
        decreases n - i,
    {
        i = i + 1;
    }
    proof {
        lemma_skip_ws(b@, pos as int);
        lemma_word_end(b@, start as int);
        if i == start {
            assert(!is_ws(b@[start as int]));
            assert(word_end(b@, start as int) > start);
        }
    }
    Some((start, i))
}

/// Adding a digit to a run of digits never lowers its value.
proof fn lemma_digits_grow(d: Seq<u8>, m: int)
    requires
        0 <= m <= d.len(),
        all_digits(d),
    ensures
        digits_value(d) >= digits_value(d.subrange(0, m)),
        digits_value(d) >= 0,
    decreases d.len(),
{
    if d.len() > 0 {
        assert(all_digits(d.drop_last()));
        if m == d.len() {
            assert(d.subrange(0, m) =~= d);
            lemma_digits_grow(d.drop_last(), m - 1);
        } else {
            assert(d.drop_last().subrange(0, m) =~= d.subrange(0, m));
            lemma_digits_grow(d.drop_last(), m);
        }
    }
}

/// Reads the bytes `b[j..k]` as an unsigned number no larger than `max`.
#[verifier::loop_isolation(false)]
pub(crate) fn read_unsigned(b: &[u8], j: usize, k: usize, max: u64) -> (r: Option<u64>)
    requires
        j < k <= b@.len(),
        max <= 0xffff_ffff,
    ensures
        match r {
            Some(v) => parse_unsigned(b@.subrange(j as int, k as int), max as int) == Some(v as int),
            None => parse_unsigned(b@.subrange(j as int, k as int), max as int) is None,
        },
{
    let ghost w = b@.subrange(j as int, k as int);
    let mut i = j;
    if b[j] == 43 {
        i = j + 1;
    }
    let ghost ds = i;
    let ghost d = b@.subrange(ds as int, k as int);
    assert(d =~= (if w.len() >= 1 && w[0] == 43 { w.drop_first() } else { w }));
    if i == k {
        assert(d.len() == 0);
        return None;
    }
    let mut acc: u64 = 0;
    while i < k
        invariant
            ds <= i <= k,
            ds < k,
            k <= b@.len(),
            max <= 0xffff_ffff,
            d == b@.subrange(ds as int, k as int),
            acc as int == digits_value(d.subrange(0, i - ds)),
            acc <= max,
            all_digits(d.subrange(0, i - ds)),
        decreases k - i,
    {
        let c = b[i];
        if !(48 <= c && c <= 57) {
            proof {
                assert(d[i - ds] == c);
                assert(!all_digits(d));
            }
            return None;
        }
        proof {
            let pre = d.subrange(0, i - ds);
            let nxt = d.subrange(0, i - ds + 1);
            assert(nxt.drop_last() =~= pre);
            assert(nxt.last() == c);
            assert(all_digits(nxt));
        }
        acc = acc * 10 + (c - 48) as u64;
        proof {
            let nxt = d.subrange(0, i - ds + 1);
            assert(digits_value(nxt) == digits_value(nxt.drop_last()) * 10 + (nxt.last() - 48));
            assert(acc as int == digits_value(nxt));
        }
        if acc > max {
            proof {
                if all_digits(d) {
                    lemma_digits_grow(d, i - ds + 1);
                }
            }
            return None;
        }
        i = i + 1;
    }
    proof {
        assert(d.subrange(0, k - ds) =~= d);
    }
    Some(acc)
}

/// Reads the placement field `b[p0..p1]` onto an empty board.
fn read_placement(b: &[u8], p0: usize, p1: usize) -> (r: Option<Board>)
    requires
        p0 < p1 <= b@.len(),
        place_prefix(b@.subrange(p0 as int, p1 as int), (p1 - p0) as int).3 != 2,
    ensures
        ({
            let st = place_prefix(b@.subrange(p0 as int, p1 as int), (p1 - p0) as int);
            match r {
                None => st.3 == 1,
                Some(board) => st.3 == 0 && board.bbs() == st.2 && board.active_color == Color::White
                    && board.flags.0 == 0 && board.halfmoves == 0 && board.fullmoves == 0,
            }
        }),
{
    let ghost w0 = b@.subrange(p0 as int, p1 as int);
    let mut board = Board::new();
    let mut rank: i8 = 7;
    let mut file: i8 = 0;
    let mut i = p0;
    proof {
        assert(board.bbs() =~= place_prefix(w0, 0).2);
    }
    while i < p1
        invariant
            p0 <= i <= p1,
            p1 <= b@.len(),
            w0 == b@.subrange(p0 as int, p1 as int),
            place_prefix(w0, w0.len() as int).3 != 2,
            place_prefix(w0, (i - p0) as int) == (rank as int, file as int, board.bbs(), 0int),
            0 <= file,
            board.active_color == Color::White,
            board.flags.0 == 0,
            board.halfmoves == 0,
            board.fullmoves == 0,
        decreases p1 - i,
    {
        let c = b[i];
        let ghost n = (i - p0) as int;
        assert(w0[n] == c);
        assert(place_prefix(w0, n + 1) == place_step(place_prefix(w0, n), c));
        proof {
            if place_prefix(w0, n + 1).3 == 2 {
                lemma_place_sticky(w0, n + 1, w0.len() as int);
            }
        }
        if 48 <= c && c <= 56 {
            file = file + (c - 48) as i8;
        } else if c == 112 || c == 110 || c == 98 || c == 114 || c == 113 || c == 107
            || c == 80 || c == 78 || c == 66 || c == 82 || c == 81 || c == 75 {
            let color = if 65 <= c && c <= 90 { Color::White } else { Color::Black };
            let piece = if c == 112 || c == 80 {
                Piece::Pawn
            } else if c == 110 || c == 78 {
                Piece::Knight
            } else if c == 98 || c == 66 {
                Piece::Bishop
            } else if c == 114 || c == 82 {
                Piece::Rook
            } else if c == 113 || c == 81 {
                Piece::Queen
            } else {
                Piece::King
            };
            let square = Square::ALL[rank as usize * 8 + file as usize];
            board.add_piece(piece, color, square);
            file = file + 1;
        } else if c == 47 {
            rank = rank - 1;
            file = 0;
        } else {
            proof {
                lemma_place_sticky(w0, n + 1, w0.len() as int);
            }
            return None;
        }
        i = i + 1;
    }
    assert(w0.len() == (p1 - p0) as int);
    Some(board)
}

/// Reads the castling field `b[c0..c1]` as castling flags.
fn read_castling(b: &[u8], c0: usize, c1: usize) -> (r: Option<u8>)
    requires
        c0 <= c1 <= b@.len(),
    ensures
        ({
            let w = b@.subrange(c0 as int, c1 as int);
            r == if castle_ok(w) { Some(castle_flags(w, w.len() as int)) } else { None::<u8> }
        }),
{
    let ghost w2 = b@.subrange(c0 as int, c1 as int);
    let mut flags: u8 = 0;
    let mut j = c0;
    while j < c1
        invariant
            c0 <= j <= c1,
            c1 <= b@.len(),
            w2 == b@.subrange(c0 as int, c1 as int),
            flags == castle_flags(w2, (j - c0) as int),
            castle_ok(w2.subrange(0, (j - c0) as int)),
        decreases c1 - j,
    {
        let ch = b[j];
        assert(w2[(j - c0) as int] == ch);
        let bit: u8 = if ch == 75 {
            Flags::WHITE_KINGSIDE
        } else if ch == 81 {
            Flags::WHITE_QUEENSIDE
        } else if ch == 107 {
            Flags::BLACK_KINGSIDE
        } else if ch == 113 {
            Flags::BLACK_QUEENSIDE
        } else {
            return None;
        };
        flags = flags | bit;
        proof {
            assert(castle_ok(w2.subrange(0, (j - c0) as int + 1)));
        }
        j = j + 1;
    }
    assert(w2.subrange(0, w2.len() as int) =~= w2);
    Some(flags)
}

impl Board {
    /// Whether `from_fen` would stop on `fen` by putting a piece off the board or by counting
    /// files or ranks out of a byte; it reads every other text.
    pub fn fen_would_panic(fen: &str) -> (r: bool)
        ensures
            r == fen_panics(fen.spec_bytes()),
    {
        let b = fen.as_bytes();
        let ghost ws = words(b@);
        let (p0, p1) = match next_word(b, 0) {
            Some(w) => w,
            None => return false,
        };
        let ghost w0 = b@.subrange(p0 as int, p1 as int);
        assert(ws[0] == w0);
        let mut rank: i32 = 7;
        let mut file: i32 = 0;
        let mut i = p0;
        while i < p1
            invariant
                p0 <= i <= p1,
                p1 <= b@.len(),
                w0 == b@.subrange(p0 as int, p1 as int),
                ws[0] == w0,
                ws.len() >= 1,
                ws == words(b@),
                b@ == fen.spec_bytes(),
                place_prefix(w0, (i - p0) as int).0 == rank as int,
                place_prefix(w0, (i - p0) as int).1 == file as int,
                place_prefix(w0, (i - p0) as int).3 == 0,
                -128 <= rank <= 7,
                0 <= file <= 127,
            decreases p1 - i,
        {
            let c = b[i];
            let ghost n = (i - p0) as int;
            assert(w0[n] == c);
            assert(place_prefix(w0, n + 1) == place_step(place_prefix(w0, n), c));
            if 48 <= c && c <= 56 {
                let f = file + (c - 48) as i32;
                if f > 127 {
                    proof {
                        lemma_place_sticky(w0, n + 1, w0.len() as int);
                    }
                    return true;
                }
                file = f;
            } else if c == 112 || c == 110 || c == 98 || c == 114 || c == 113 || c == 107
                || c == 80 || c == 78 || c == 66 || c == 82 || c == 81 || c == 75 {
                assert(fen_piece(c) is Some);
                if rank < 0 || rank * 8 + file >= 64 {
                    proof {
                        lemma_place_sticky(w0, n + 1, w0.len() as int);
                    }
                    return true;
                }
                file = file + 1;
            } else if c == 47 {
                if rank == -128 {
                    proof {
                        lemma_place_sticky(w0, n + 1, w0.len() as int);
                    }
                    return true;
                }
                rank = rank - 1;
                file = 0;
            } else {
                assert(fen_piece(c) is None);
                proof {
                    lemma_place_sticky(w0, n + 1, w0.len() as int);
                }
                return false;
            }
            i = i + 1;
        }
        assert(w0.len() == (p1 - p0) as int);
        false
    }

    /// Reads a position in Forsyth-Edwards Notation: placement, side to move, castling rights,
    /// en passant square, halfmove clock and fullmove number, separated by whitespace (words
    /// after these are ignored). An en passant square sets the en passant bit and writes its
    /// file (0 for a to 7 for h) into the file bits of the flags; `-` stands for no en passant
    /// square, and castling rights must be letters.
    pub fn from_fen(fen: &str) -> (r: Result<Board, ParseFenError>)
        requires
            !fen_panics(fen.spec_bytes()),
        ensures
            match r {
                Ok(board) => fen_spec(fen.spec_bytes()) == Ok::<(Seq<u64>, Color, u8, u8, u16), ParseFenError>((board.bbs(), board.active_color, board.flags.0, board.halfmoves, board.fullmoves)),
                Err(e) => fen_spec(fen.spec_bytes()) == Err::<(Seq<u64>, Color, u8, u8, u16), ParseFenError>(e),
            },
    {
        let b = fen.as_bytes();
        let ghost ws = words(b@);

        let (p0, p1) = match next_word(b, 0) {
            Some(w) => w,
            None => return Err(ParseFenError::WrongSectionCount),
        };
        assert(ws[0] == b@.subrange(p0 as int, p1 as int));
        let mut board = match read_placement(b, p0, p1) {
            Some(board) => board,
            None => return Err(ParseFenError::BadPosition),
        };

        let (a0, a1) = match next_word(b, p1) {
            Some(w) => w,
            None => return Err(ParseFenError::WrongSectionCount),
        };
        assert(ws[1] == b@.subrange(a0 as int, a1 as int));
        if a1 - a0 != 1 {
            assert(ws[1].len() != 1);
            return Err(ParseFenError::BadActiveColor);
        }
        assert(ws[1] =~= seq![b[a0 as int]]);
        board.active_color = if b[a0] == 119 {
            Color::White
        } else if b[a0] == 98 {
            Color::Black
        } else {
            assert(ws[1][0] == b[a0 as int]);
            assert(ws[1] != seq![119u8] && ws[1] != seq![98u8]) by {
                if ws[1] == seq![119u8] { assert(ws[1][0] == 119u8); }
                if ws[1] == seq![98u8] { assert(ws[1][0] == 98u8); }
            }
            return Err(ParseFenError::BadActiveColor);
        };
        let ghost color = board.active_color;
        assert(color == if ws[1] == seq![119u8] { Color::White } else { Color::Black }) by {
            if ws[1] == seq![119u8] { assert(ws[1][0] == 119u8); }
        }

        let (c0, c1) = match next_word(b, a1) {
            Some(w) => w,
            None => return Err(ParseFenError::WrongSectionCount),
        };
        assert(ws[2] == b@.subrange(c0 as int, c1 as int));
        board.flags.0 = match read_castling(b, c0, c1) {
            Some(f) => f,
            None => return Err(ParseFenError::BadCastlingRights),
        };

        let (e0, e1) = match next_word(b, c1) {
            Some(w) => w,
            None => return Err(ParseFenError::WrongSectionCount),
        };
        let ghost w3 = b@.subrange(e0 as int, e1 as int);
        assert(ws[3] == w3);
        if !(e1 - e0 == 1 && b[e0] == 45) {
            assert(w3 != seq![45u8]) by {
                if e1 - e0 == 1 {
                    assert(w3[0] == b[e0 as int]);
                } else {
                    assert(w3.len() != 1);
                }
            }
            if e1 - e0 != 2 {
                return Err(ParseFenError::BadEnPassant);
            }
            let f = b[e0];
            if !(97 <= f && f <= 104) {
                return Err(ParseFenError::BadEnPassant);
            }
            board.flags.0 = board.flags.0 | 16 | ((f - 97) << 5);
            let r = b[e0 + 1];
            if !(r == 51 || r == 54) {
                return Err(ParseFenError::BadEnPassant);
            }
        } else {
            assert(w3 =~= seq![45u8]);
        }

        let (h0, h1) = match next_word(b, e1) {
            Some(w) => w,
            None => return Err(ParseFenError::WrongSectionCount),
        };
        assert(ws[4] == b@.subrange(h0 as int, h1 as int));
        match read_unsigned(b, h0, h1, 255) {
            Some(value) => board.halfmoves = value as u8,
            None => return Err(ParseFenError::BadHalfmoves),
        }

        let (f0, f1) = match next_word(b, h1) {
            Some(w) => w,
            None => return Err(ParseFenError::WrongSectionCount),
        };
        assert(ws[5] == b@.subrange(f0 as int, f1 as int));
        match read_unsigned(b, f0, f1, 65535) {
            Some(value) => board.fullmoves = value as u16,
            None => return Err(ParseFenError::BadFullmoves),
        }

        assert(board.active_color == color);
        assert(board.bbs() == place_prefix(ws[0], ws[0].len() as int).2);
        Ok(board)
    }
}

/// The bits of an `or` of two bytes, and of the single castling bits.
proof fn lemma_byte_or(x: u8, y: u8, i: u8)
    by (bit_vector)
    requires
        i < 8,
    ensures
        byte_bit(x | y, i) == (byte_bit(x, i) || byte_bit(y, i)),
        x < 16 && y < 16 ==> x | y < 16,
        byte_bit(1u8, i) == (i == 0),
        byte_bit(2u8, i) == (i == 1),
        byte_bit(4u8, i) == (i == 2),
        byte_bit(8u8, i) == (i == 3),
{
}

/// The flags of an en passant field: the castling bits `c` stay, bit 4 is set and the file
/// `e` lands in the top three bits.
proof fn lemma_en_passant_bits(c: u8, e: u8, i: u8)
    by (bit_vector)
    requires
        c < 16,
        e < 8,
        i < 4,
    ensures
        byte_bit(c | 16u8 | (e << 5u8), 4),
        (c | 16u8 | (e << 5u8)) >> 5u8 == e,
        byte_bit(c | 16u8 | (e << 5u8), i) == byte_bit(c, i),
        !byte_bit(c, 4),
        c >> 5u8 == 0,
{
}

/// The rights that the first `n` letters of a castling field grant: each right exactly when
/// its letter is among them.
proof fn lemma_castle_letters(w: Seq<u8>, n: int)
    requires
        0 <= n <= w.len(),
        castle_ok(w),
    ensures
        castle_flags(w, n) < 16,
        byte_bit(castle_flags(w, n), 0) <==> exists|i: int| 0 <= i < n && w[i] == 75,
        byte_bit(castle_flags(w, n), 1) <==> exists|i: int| 0 <= i < n && w[i] == 81,
        byte_bit(castle_flags(w, n), 2) <==> exists|i: int| 0 <= i < n && w[i] == 107,
        byte_bit(castle_flags(w, n), 3) <==> exists|i: int| 0 <= i < n && w[i] == 113,
    decreases n,
{
    if n == 0 {
        assert(castle_flags(w, 0) == 0u8);
        assert(!byte_bit(0u8, 0) && !byte_bit(0u8, 1) && !byte_bit(0u8, 2) && !byte_bit(0u8, 3)) by (bit_vector);
    } else {
        lemma_castle_letters(w, n - 1);
        let x = castle_flags(w, n - 1);
        let ch = w[n - 1];
        let y: u8 = if ch == 75 { 1u8 } else if ch == 81 { 2u8 } else if ch == 107 { 4u8 } else { 8u8 };
        assert(castle_flags(w, n) == x | y);
        assert(ch == 75 || ch == 81 || ch == 107 || ch == 113);
        lemma_byte_or(x, y, 0);
        lemma_byte_or(x, y, 1);
        lemma_byte_or(x, y, 2);
        lemma_byte_or(x, y, 3);
    }
}

/// Law: the flags read from a FEN text give each castling right exactly when its letter
/// (`K`, `Q`, `k`, `q`) is in the castling field; an en passant field `-` clears the en passant
/// bit and file, and an en passant square sets the bit and the file of its letter (0 for `a`
/// to 7 for `h`).
pub proof fn lemma_fen_flags(text: Seq<u8>, board: Board)
    requires
        fen_spec(text) == Ok::<(Seq<u64>, Color, u8, u8, u16), ParseFenError>(
            (board.bbs(), board.active_color, board.flags.0, board.halfmoves, board.fullmoves),
        ),
    ensures
        words(text).len() >= 6,
        board.flags.spec_kingside(Color::White) <==> words(text)[2].contains(75u8),
        board.flags.spec_queenside(Color::White) <==> words(text)[2].contains(81u8),
        board.flags.spec_kingside(Color::Black) <==> words(text)[2].contains(107u8),
        board.flags.spec_queenside(Color::Black) <==> words(text)[2].contains(113u8),
        words(text)[3] == seq![45u8] ==> !board.flags.spec_can_en_passant() && board.flags.spec_en_passant_file() == 0,
        words(text)[3] != seq![45u8] ==> {
            &&& words(text)[3].len() == 2
            &&& 97 <= words(text)[3][0] <= 104
            &&& board.flags.spec_can_en_passant()
            &&& board.flags.spec_en_passant_file() == words(text)[3][0] - 97
        },
{
    let ws = words(text);
    let w = ws[2];
    lemma_castle_letters(w, w.len() as int);
    let c = castle_flags(w, w.len() as int);
    let f = board.flags.0;
    if ws[3] == seq![45u8] {
        assert(f == c);
        lemma_en_passant_bits(c, 0, 0);
    } else {
        let e = (ws[3][0] - 97) as u8;
        assert(f == c | 16u8 | (e << 5u8));
        lemma_en_passant_bits(c, e, 0);
        lemma_en_passant_bits(c, e, 1);
        lemma_en_passant_bits(c, e, 2);
        lemma_en_passant_bits(c, e, 3);
    }
}

/// Law: the side to move read from a FEN text is White exactly when the second field is `w`
/// and Black exactly when it is `b`; the halfmove clock and the fullmove number are the numbers
/// the fifth and sixth fields read as.
pub proof fn lemma_fen_side_and_counters(text: Seq<u8>, board: Board)
    requires
        fen_spec(text) == Ok::<(Seq<u64>, Color, u8, u8, u16), ParseFenError>(
            (board.bbs(), board.active_color, board.flags.0, board.halfmoves, board.fullmoves),
        ),
    ensures
        words(text).len() >= 6,
        board.active_color == Color::White <==> words(text)[1] == seq![119u8],
        board.active_color == Color::Black <==> words(text)[1] == seq![98u8],
        parse_unsigned(words(text)[4], 255) == Some(board.halfmoves as int),
        parse_unsigned(words(text)[5], 65535) == Some(board.fullmoves as int),
{
    let w1 = words(text)[1];
    let w4 = words(text)[4];
    let w5 = words(text)[5];
    let d4 = if w4.len() >= 1 && w4[0] == 43 { w4.drop_first() } else { w4 };
    let d5 = if w5.len() >= 1 && w5[0] == 43 { w5.drop_first() } else { w5 };
    lemma_digits_grow(d4, 0);
    lemma_digits_grow(d5, 0);
    if w1 == seq![119u8] {
        assert(w1 != seq![98u8]) by {
            assert(w1[0] == 119u8);
        }
    }
}

} // verus!
