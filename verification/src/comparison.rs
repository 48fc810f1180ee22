use vstd::prelude::*;
use vstd::string::StringSliceAdditionalSpecFns;
use std::collections::HashMap;
use crate::board::{Board, move_bbs, move_flags};
use crate::board::color::Color;
use crate::board::moves::Move;
use crate::board::piece::Piece;
use crate::movegen::{MoveGen, pieces};
use crate::board::fen::{parse_unsigned, read_unsigned};
use crate::perft::{perft_count, perft_runs, perft_runs_all, perft_sum, lemma_runs_at, lemma_sum_prefix, lemma_sum_step, lemma_split_total};

verus! {

/// Counts the positions `depth` plies below `board` by the pseudo-legal moves of `move_gen`;
/// at depth zero no moves are generated.
pub fn perft_inner(board: &Board, depth: u8, move_gen: &MoveGen) -> (r: u32)
    requires
        perft_runs(*move_gen, board.bbs(), board.active_color, board.flags.0, depth as nat),
    ensures
        r == perft_count(*move_gen, board.bbs(), board.active_color, board.flags.0, depth as nat),
    decreases depth,
{
    if depth == 0 {
        return 1;
    }

    let mut moves = Vec::new();
    move_gen.pseudolegal_moves(board, &mut moves);

    if depth == 1 {
        return moves.len() as u32;
    }

    let ghost mg = *move_gen;
    let ghost bbs = board.bbs();
    let ghost c = board.active_color;
    let ghost flags = board.flags.0;
    let ghost d = (depth - 1) as nat;
    let ghost ps = moves@;
    let mut count: u32 = 0;
    let mut i: usize = 0;
    while i < moves.len()
        invariant
            moves@ == ps,
            ps == mg.pseudolegal(bbs, c, flags),
            mg == *move_gen,
            bbs == board.bbs(),
            c == board.active_color,
            flags == board.flags.0,
            depth >= 2,
            d == depth - 1,
            0 <= i <= moves.len(),
            perft_runs_all(mg, bbs, c, flags, ps, d),
            perft_sum(mg, bbs, c, flags, ps, d) <= u32::MAX,
            count == perft_sum(mg, bbs, c, flags, ps.take(i as int), d),
        decreases moves.len() - i,
    {
        let mv = moves[i];
        proof {
            lemma_runs_at(mg, bbs, c, flags, ps, d, i as int);
            lemma_sum_step(mg, bbs, c, flags, ps, i as int, d);
            lemma_sum_prefix(mg, bbs, c, flags, ps, i as int + 1, d);
        }
        let board = board.make_move(mv);
        count += perft_inner(&board, depth - 1, move_gen);
        i += 1;
    }
    assert(ps.take(i as int) =~= ps);

    count
}

/// Counts the positions `depth` plies below `board`: one at depth zero, otherwise by a fresh
/// move generator, whose sliding piece tables come from a random search, so that the count is
/// that of some generator whose lookups give the sliders' moves, except for the one blocker
/// subset per square that the table fill never visits (`tables_usable`).
pub fn perft(board: &Board, depth: u8) -> (r: u32)
    requires
        forall|mg: MoveGen| mg.tables_usable() ==> perft_runs(mg, board.bbs(), board.active_color, board.flags.0, depth as nat),
    ensures
        depth == 0 ==> r == 1,
        depth > 0 ==> exists|mg: MoveGen| mg.tables_usable() && r == perft_count(mg, board.bbs(), board.active_color, board.flags.0, depth as nat),
{
    if depth == 0 {
        return 1;
    }
    let move_gen = MoveGen::new();
    let r = perft_inner(board, depth, &move_gen);
    assert(move_gen.tables_usable() && r == perft_count(move_gen, board.bbs(), board.active_color, board.flags.0, depth as nat));
    r
}

/// The count `depth` plies below the position after `mv` is played from (`bbs`, `c`, `flags`).
pub open spec fn count_after(mg: MoveGen, bbs: Seq<u64>, c: Color, flags: u8, mv: Move, depth: nat) -> nat {
    perft_count(mg, move_bbs(bbs, flags, mv), c.spec_inverse(), move_flags(bbs, flags, mv), depth)
}

/// Dividing `depth` plies below the position runs without a panic: the side to move has a
/// king, every move can be played, counting `depth - 1` plies below each runs, and the total
/// fits in a `u32`.
pub open spec fn divide_runs(mg: MoveGen, bbs: Seq<u64>, c: Color, flags: u8, depth: nat) -> bool {
    &&& pieces(bbs, Piece::King, c) != 0
    &&& perft_runs_all(mg, bbs, c, flags, mg.pseudolegal(bbs, c, flags), (depth - 1) as nat)
    &&& perft_sum(mg, bbs, c, flags, mg.pseudolegal(bbs, c, flags), (depth - 1) as nat) <= u32::MAX
}

/// Each pseudo-legal move of `mg`, in order, with the count `depth` plies below the
/// position after it.
pub open spec fn divide_results(mg: MoveGen, bbs: Seq<u64>, c: Color, flags: u8, depth: nat) -> Seq<(Move, u32)> {
    mg.pseudolegal(bbs, c, flags).map_values(|mv: Move| (mv, count_after(mg, bbs, c, flags, mv, depth) as u32))
}

/// Splits the count `depth` plies below `board` by first move, with the moves of
/// `move_gen`: each pseudo-legal move, in order, with the count `depth - 1` plies below the
/// position after it, and the total.
pub fn divide_inner(board: &Board, depth: u8, move_gen: &MoveGen) -> (r: (Vec<(Move, u32)>, u32))
    requires
        depth > 0,
        divide_runs(*move_gen, board.bbs(), board.active_color, board.flags.0, depth as nat),
    ensures
        r.0@ == divide_results(*move_gen, board.bbs(), board.active_color, board.flags.0, (depth - 1) as nat),
        r.1 == perft_sum(*move_gen, board.bbs(), board.active_color, board.flags.0,
            move_gen.pseudolegal(board.bbs(), board.active_color, board.flags.0), (depth - 1) as nat),
{
    let mut moves = Vec::new();
    move_gen.pseudolegal_moves(board, &mut moves);

    let ghost mg = *move_gen;
    let ghost bbs = board.bbs();
    let ghost c = board.active_color;
    let ghost flags = board.flags.0;
    let ghost d = (depth - 1) as nat;
    let ghost ps = moves@;

    let mut results: Vec<(Move, u32)> = Vec::new();
    let mut total: u32 = 0;

    let mut i: usize = 0;
    while i < moves.len()
        invariant
            moves@ == ps,
            ps == mg.pseudolegal(bbs, c, flags),
            mg == *move_gen,
            bbs == board.bbs(),
            c == board.active_color,
            flags == board.flags.0,
            depth >= 1,
            d == depth - 1,
            0 <= i <= moves.len(),
            perft_runs_all(mg, bbs, c, flags, ps, d),
            perft_sum(mg, bbs, c, flags, ps, d) <= u32::MAX,
            total == perft_sum(mg, bbs, c, flags, ps.take(i as int), d),
            results@.len() == i,
            forall|j: int| 0 <= j < i ==> #[trigger] results@[j] == (ps[j], count_after(mg, bbs, c, flags, ps[j], d) as u32),
        decreases moves.len() - i,
    {
        let mv = moves[i];
        proof {
            lemma_runs_at(mg, bbs, c, flags, ps, d, i as int);
            lemma_sum_step(mg, bbs, c, flags, ps, i as int, d);
            lemma_sum_prefix(mg, bbs, c, flags, ps, i as int + 1, d);
        }
        let board = board.make_move(mv);

        let count = perft_inner(&board, depth - 1, move_gen);
        total += count;

        results.push((mv, count));
        i += 1;
    }
    assert(ps.take(i as int) =~= ps);
    assert(results@ =~= divide_results(mg, bbs, c, flags, d));

    (results, total)
}

/// Splits the count `depth` plies below `board` by first move: each pseudo-legal move, in
/// order, with the count `depth - 1` plies below the position after it, and the total. At
/// depth zero there are no moves and the total is one. The moves come from a fresh move
/// generator, whose sliding piece tables come from a random search.
pub fn divide(board: &Board, depth: u8) -> (r: (Vec<(Move, u32)>, u32))
    requires
        depth > 0 ==> forall|mg: MoveGen| mg.tables_usable() ==> divide_runs(mg, board.bbs(), board.active_color, board.flags.0, depth as nat),
    ensures
        depth == 0 ==> r.0@.len() == 0 && r.1 == 1,
        depth > 0 ==> exists|mg: MoveGen| {
            &&& mg.tables_usable()
            &&& r.0@ == divide_results(mg, board.bbs(), board.active_color, board.flags.0, (depth - 1) as nat)
            &&& r.1 == perft_sum(mg, board.bbs(), board.active_color, board.flags.0,
                mg.pseudolegal(board.bbs(), board.active_color, board.flags.0), (depth - 1) as nat)
        },
{
    if depth == 0 {
        return (Vec::new(), 1);
    }

    let move_gen = MoveGen::new();
    let r = divide_inner(board, depth, &move_gen);
    assert(move_gen.tables_usable() && r.0@ == divide_results(move_gen, board.bbs(), board.active_color, board.flags.0, (depth - 1) as nat));
    r
}

/// The count `depth` plies below `board` by the moves of `move_gen`, if counting runs
/// without a panic (see `perft_runs`); `None` where it would not.
pub fn checked_count(board: &Board, depth: u8, move_gen: &MoveGen) -> (r: Option<u32>)
    ensures
        r is Some <==> perft_runs(*move_gen, board.bbs(), board.active_color, board.flags.0, depth as nat),
        r is Some ==> r->0 == perft_count(*move_gen, board.bbs(), board.active_color, board.flags.0, depth as nat),
    decreases depth, 0nat,
{
    if depth == 0 {
        return Some(1);
    }
    let king = board.bitboard(Piece::King, board.active_color);
    if king.is_empty() {
        return None;
    }
    let mut moves = Vec::new();
    move_gen.pseudolegal_moves(board, &mut moves);
    if depth == 1 {
        return Some(moves.len() as u32);
    }
    checked_sum(board, &moves, depth - 1, move_gen)
}

/// The sum over `moves`, played from `board`, of the counts `depth` plies below the
/// position after each, if every move can be played, counting below each runs and the sum
/// fits in a `u32`; `None` otherwise.
pub fn checked_sum(board: &Board, moves: &Vec<Move>, depth: u8, move_gen: &MoveGen) -> (r: Option<u32>)
    ensures
        r is Some <==> perft_runs_all(*move_gen, board.bbs(), board.active_color, board.flags.0, moves@, depth as nat)
            && perft_sum(*move_gen, board.bbs(), board.active_color, board.flags.0, moves@, depth as nat) <= u32::MAX,
        r is Some ==> r->0 == perft_sum(*move_gen, board.bbs(), board.active_color, board.flags.0, moves@, depth as nat),
    decreases depth, 1nat,
{
    let ghost mg = *move_gen;
    let ghost bbs = board.bbs();
    let ghost c = board.active_color;
    let ghost flags = board.flags.0;
    let ghost d = depth as nat;
    let ghost ps = moves@;
    let mut total: u64 = 0;
    let mut i: usize = 0;
    while i < moves.len()
        invariant
            moves@ == ps,
            mg == *move_gen,
            bbs == board.bbs(),
            c == board.active_color,
            flags == board.flags.0,
            d == depth,
            0 <= i <= moves.len(),
            perft_runs_all(mg, bbs, c, flags, ps.take(i as int), d),
            total == perft_sum(mg, bbs, c, flags, ps.take(i as int), d),
            total <= u32::MAX,
        decreases moves.len() - i,
    {
        let mv = moves[i];
        proof {
            lemma_sum_step(mg, bbs, c, flags, ps, i as int, d);
            lemma_sum_prefix(mg, bbs, c, flags, ps, i as int + 1, d);
            assert(ps.take(i + 1).drop_last() =~= ps.take(i as int));
            assert(ps.take(i + 1).last() == ps[i as int]);
        }
        if !board.can_make_move(mv) {
            proof {
                if perft_runs_all(mg, bbs, c, flags, ps, d) {
                    lemma_runs_at(mg, bbs, c, flags, ps, d, i as int);
                }
            }
            return None;
        }
        let child = board.make_move(mv);
        let count = match checked_count(&child, depth, move_gen) {
            Some(count) => count,
            None => {
                proof {
                    if perft_runs_all(mg, bbs, c, flags, ps, d) {
                        lemma_runs_at(mg, bbs, c, flags, ps, d, i as int);
                    }
                }
                return None;
            },
        };
        total = total + count as u64;
        if total > u32::MAX as u64 {
            return None;
        }
        i += 1;
    }
    assert(ps.take(i as int) =~= ps);
    Some(total as u32)
}

/// Per-move node counts of a reference engine and of this generator, with their totals.
#[derive(Debug)]
pub struct CompareResult {
    pub stockfish_results: HashMap<Move, u32>,
    pub stockfish_total: u32,
    pub mogen_results: HashMap<Move, u32>,
    pub mogen_total: u32,
}

/// What one line of a reference engine's `go perft` reply says.
#[derive(Debug, Clone, Copy, PartialEq, Eq, Structural)]
pub enum ReplyLine {
    /// An empty line, or an `info` line: the reader goes on to the next one.
    Skip,
    /// The count below one move, as in `e2e4: 20`.
    Count(Move, u32),
    /// The total, on a line whose first part names no move, as in `Nodes searched: 400`.
    Total(u32),
    /// A line without a `:`, with a count that is no `u32`, or whose first part would be cut
    /// through a character when read as a move: the reader cannot go on.
    Malformed,
}

/// A three-byte UTF-8 white space character: U+1680, U+2000 to U+200A, U+2028, U+2029,
/// U+202F, U+205F or U+3000.
pub open spec fn space3(x: u8, y: u8, z: u8) -> bool {
    ||| (x == 0xE1 && y == 0x9A && z == 0x80)
    ||| (x == 0xE2 && y == 0x80 && ((0x80 <= z <= 0x8A) || z == 0xA8 || z == 0xA9 || z == 0xAF))
    ||| (x == 0xE2 && y == 0x81 && z == 0x9F)
    ||| (x == 0xE3 && y == 0x80 && z == 0x80)
}

/// The byte length of the white space character that starts at `b[i]` and ends by `b[j]`
/// (0 when none does): tab to carriage return, space, U+0085, U+00A0 and the three-byte ones.
pub open spec fn space_at(b: Seq<u8>, i: int, j: int) -> int {
    if 0 <= i < j && j <= b.len() {
        if (9 <= b[i] <= 13) || b[i] == 32 {
            1
        } else if j - i >= 2 && b[i] == 0xC2 && (b[i + 1] == 0x85 || b[i + 1] == 0xA0) {
            2
        } else if i + 3 <= j && space3(b[i], b[i + 1], b[i + 2]) {
            3
        } else {
            0
        }
    } else {
        0
    }
}

/// The byte length of the white space character that ends just before `b[j]` and starts at
/// or after `b[i]` (0 when none does).
pub open spec fn space_before(b: Seq<u8>, i: int, j: int) -> int {
    if 0 <= i < j && j <= b.len() {
        if (9 <= b[j - 1] <= 13) || b[j - 1] == 32 {
            1
        } else if j - i >= 2 && b[j - 2] == 0xC2 && (b[j - 1] == 0x85 || b[j - 1] == 0xA0) {
            2
        } else if j - 3 >= i && space3(b[j - 3], b[j - 2], b[j - 1]) {
            3
        } else {
            0
        }
    } else {
        0
    }
}

/// Where `b[i..j]` starts once leading white space is dropped.
pub open spec fn trim_start(b: Seq<u8>, i: int, j: int) -> int
    decreases j - i,
{
    if i < j && space_at(b, i, j) > 0 {
        trim_start(b, i + space_at(b, i, j), j)
    } else {
        i
    }
}

/// Where `b[i..j]` ends once trailing white space is dropped.
pub open spec fn trim_end(b: Seq<u8>, i: int, j: int) -> int
    decreases j - i,
{
    if i < j && space_before(b, i, j) > 0 {
        trim_end(b, i, j - space_before(b, i, j))
    } else {
        j
    }
}

/// The index of the first `:` in `b[i..j]` (`j` when there is none).
pub open spec fn colon_from(b: Seq<u8>, i: int, j: int) -> int
    decreases j - i,
{
    if i < j {
        if b[i] == 58 {
            i
        } else {
            colon_from(b, i + 1, j)
        }
    } else {
        j
    }
}

/// What the reply line with UTF-8 bytes `b` says: trimmed of white space, an empty line or one
/// starting with `info` is skipped; otherwise it is split at its `:` characters, the first part
/// (trimmed) is read as a move and the second (trimmed) as a `u32` count.
pub open spec fn reply_line_spec(b: Seq<u8>) -> ReplyLine {
    let s = trim_start(b, 0, b.len() as int);
    let e = trim_end(b, s, b.len() as int);
    if e == s || (e - s >= 4 && b[s] == 105 && b[s + 1] == 110 && b[s + 2] == 102 && b[s + 3] == 111) {
        ReplyLine::Skip
    } else {
        let k = colon_from(b, s, e);
        if k >= e {
            ReplyLine::Malformed
        } else {
            let k2 = colon_from(b, k + 1, e);
            let cs = trim_start(b, k + 1, k2);
            let ce = trim_end(b, cs, k2);
            let ts = trim_start(b, s, k);
            let te = trim_end(b, ts, k);
            let tag = b.subrange(ts, te);
            match parse_unsigned(b.subrange(cs, ce), 0xffff_ffff) {
                None => ReplyLine::Malformed,
                Some(v) => if Move::parse_panics(tag) {
                    ReplyLine::Malformed
                } else {
                    match Move::parse_spec(tag) {
                        Ok(mv) => ReplyLine::Count(mv, v as u32),
                        Err(_) => ReplyLine::Total(v as u32),
                    }
                },
            }
        }
    }
}

fn is_space3(x: u8, y: u8, z: u8) -> (r: bool)
    ensures
        r == space3(x, y, z),
{
    (x == 0xE1 && y == 0x9A && z == 0x80)
        || (x == 0xE2 && y == 0x80 && ((0x80 <= z && z <= 0x8A) || z == 0xA8 || z == 0xA9 || z == 0xAF))
        || (x == 0xE2 && y == 0x81 && z == 0x9F)
        || (x == 0xE3 && y == 0x80 && z == 0x80)
}

fn space_len_at(b: &[u8], i: usize, j: usize) -> (r: usize)
    requires
        i < j <= b@.len(),
    ensures
        r as int == space_at(b@, i as int, j as int),
{
    if (9 <= b[i] && b[i] <= 13) || b[i] == 32 {
        1
    } else if j - i >= 2 && b[i] == 0xC2 && (b[i + 1] == 0x85 || b[i + 1] == 0xA0) {
        2
    } else if j - i >= 3 && is_space3(b[i], b[i + 1], b[i + 2]) {
        3
    } else {
        0
    }
}

fn space_len_before(b: &[u8], i: usize, j: usize) -> (r: usize)
    requires
        i < j <= b@.len(),
    ensures
        r as int == space_before(b@, i as int, j as int),
{
    if (9 <= b[j - 1] && b[j - 1] <= 13) || b[j - 1] == 32 {
        1
    } else if j - i >= 2 && b[j - 2] == 0xC2 && (b[j - 1] == 0x85 || b[j - 1] == 0xA0) {
        2
    } else if j - i >= 3 && is_space3(b[j - 3], b[j - 2], b[j - 1]) {
        3
    } else {
        0
    }
}

/// Drops leading white space from `b[i..j]`.
fn skip_space(b: &[u8], i: usize, j: usize) -> (r: usize)
    requires
        i <= j <= b@.len(),
    ensures
        r as int == trim_start(b@, i as int, j as int),
        i <= r <= j,
{
    let mut k = i;
    while k < j
        invariant
            i <= k <= j,
            j <= b@.len(),
            trim_start(b@, i as int, j as int) == trim_start(b@, k as int, j as int),
        decreases j - k,
    {
        let n = space_len_at(b, k, j);
        if n == 0 {
            return k;
        }
        k = k + n;
    }
    k
}

/// Drops trailing white space from `b[i..j]`.
fn drop_space(b: &[u8], i: usize, j: usize) -> (r: usize)
    requires
        i <= j <= b@.len(),
    ensures
        r as int == trim_end(b@, i as int, j as int),
        i <= r <= j,
{
    let mut k = j;
    while k > i
        invariant
            i <= k <= j,
            j <= b@.len(),
            trim_end(b@, i as int, j as int) == trim_end(b@, i as int, k as int),
        decreases k - i,
    {
        let n = space_len_before(b, i, k);
        if n == 0 {
            return k;
        }
        k = k - n;
    }
    k
}

/// The index of the first `:` in `b[i..j]`, or `j`.
fn find_colon(b: &[u8], i: usize, j: usize) -> (r: usize)
    requires
        i <= j <= b@.len(),
    ensures
        r as int == colon_from(b@, i as int, j as int),
        i <= r <= j,
{
    let mut k = i;
    while k < j
        invariant
            i <= k <= j,
            j <= b@.len(),
            colon_from(b@, i as int, j as int) == colon_from(b@, k as int, j as int),
        decreases j - k,
    {
        if b[k] == 58 {
            return k;
        }
        k = k + 1;
    }
    k
}

/// Reads one line of a reference engine's `go perft` reply.
pub fn perft_reply_line(line: &str) -> (r: ReplyLine)
    ensures
        r == reply_line_spec(line.spec_bytes()),
{
    let b = line.as_bytes();
    let n = b.len();
    let s = skip_space(b, 0, n);
    let e = drop_space(b, s, n);
    if e == s || (e - s >= 4 && b[s] == 105 && b[s + 1] == 110 && b[s + 2] == 102 && b[s + 3] == 111) {
        return ReplyLine::Skip;
    }
    let k = find_colon(b, s, e);
    if k >= e {
        return ReplyLine::Malformed;
    }
    let k2 = find_colon(b, k + 1, e);
    let cs = skip_space(b, k + 1, k2);
    let ce = drop_space(b, cs, k2);
    let ts = skip_space(b, s, k);
    let te = drop_space(b, ts, k);
    let count = if cs < ce {
        read_unsigned(b, cs, ce, 0xffff_ffff)
    } else {
        proof {
            assert(b@.subrange(cs as int, ce as int).len() == 0);
        }
        None
    };
    let count = match count {
        Some(v) => v as u32,
        None => return ReplyLine::Malformed,
    };
    let tag = vstd::slice::slice_subrange(b, ts, te);
    if Move::cuts_bytes(tag) {
        return ReplyLine::Malformed;
    }
    match Move::parse_bytes(tag) {
        Ok(mv) => ReplyLine::Count(mv, count),
        Err(_) => ReplyLine::Total(count),
    }
}

/// How far the reader of a reference engine's answer to `uci` counts before it gives up: it
/// gives up instead of reading the line with this number.
pub const HANDSHAKE_LIMIT: u32 = 1000;

/// What the reader of a reference engine's answer to `uci` does after a line.
#[derive(Debug, Clone, Copy, PartialEq, Eq, Structural)]
pub enum Handshake {
    /// The line was not `uciok`: read the next one.
    ReadOn,
    /// The line was `uciok`: the engine is ready.
    Ready,
    /// The line was not `uciok` and the next one would reach the limit: stop reading.
    GiveUp,
}

/// The line `uciok`, with its line end.
pub open spec fn is_uciok(bytes: Seq<u8>) -> bool {
    bytes == seq![117u8, 99u8, 105u8, 111u8, 107u8, 10u8]
}

/// The next step of reading a reference engine's answer to `uci`, after `line`, the
/// `lines_read`-th line of it: ready at `uciok`; otherwise give up where the next line would be
/// number `HANDSHAKE_LIMIT`, and read on before that.
pub fn handshake_step(lines_read: u32, line: &str) -> (r: Handshake)
    ensures
        r == if is_uciok(line.spec_bytes()) {
            Handshake::Ready
        } else if lines_read + 1 >= HANDSHAKE_LIMIT {
            Handshake::GiveUp
        } else {
            Handshake::ReadOn
        },
{
    let b = line.as_bytes();
    if b.len() == 6 && b[0] == 117 && b[1] == 99 && b[2] == 105 && b[3] == 111 && b[4] == 107 && b[5] == 10 {
        assert(b@ =~= seq![117u8, 99u8, 105u8, 111u8, 107u8, 10u8]);
        Handshake::Ready
    } else if lines_read >= HANDSHAKE_LIMIT - 1 {
        Handshake::GiveUp
    } else {
        Handshake::ReadOn
    }
}

/// Law: each pair of a split names the move that was counted: the moves are the pseudo-legal
/// moves of the position in the order the generator makes them, and each comes with the count
/// `depth` plies below the position that move leads to.
pub proof fn lemma_divide_pairs_each_move_with_its_count(mg: MoveGen, bbs: Seq<u64>, c: Color, flags: u8, depth: nat)
    ensures
        divide_results(mg, bbs, c, flags, depth).len() == mg.pseudolegal(bbs, c, flags).len(),
        forall|j: int| 0 <= j < mg.pseudolegal(bbs, c, flags).len() ==> {
            let mv = (#[trigger] divide_results(mg, bbs, c, flags, depth)[j]).0;
            &&& mv == mg.pseudolegal(bbs, c, flags)[j]
            &&& divide_results(mg, bbs, c, flags, depth)[j].1
                == perft_count(mg, move_bbs(bbs, flags, mv), c.spec_inverse(), move_flags(bbs, flags, mv), depth) as u32
        },
{
}

/// The sum of the counts of `pairs`.
pub open spec fn pair_counts(pairs: Seq<(Move, u32)>) -> nat
    decreases pairs.len(),
{
    if pairs.len() == 0 {
        0
    } else {
        pair_counts(pairs.drop_last()) + pairs.last().1 as nat
    }
}

/// The counts of the first `i` pairs of a split add up to the sum over its first `i` moves.
proof fn lemma_pair_counts_prefix(mg: MoveGen, bbs: Seq<u64>, c: Color, flags: u8, depth: nat, i: int)
    requires
        0 <= i <= mg.pseudolegal(bbs, c, flags).len(),
        perft_sum(mg, bbs, c, flags, mg.pseudolegal(bbs, c, flags), depth) <= u32::MAX,
    ensures
        pair_counts(divide_results(mg, bbs, c, flags, depth).take(i))
            == perft_sum(mg, bbs, c, flags, mg.pseudolegal(bbs, c, flags).take(i), depth),
    decreases i,
{
    let ps = mg.pseudolegal(bbs, c, flags);
    let dr = divide_results(mg, bbs, c, flags, depth);
    if i == 0 {
        assert(dr.take(0).len() == 0);
        assert(ps.take(0).len() == 0);
    } else {
        lemma_pair_counts_prefix(mg, bbs, c, flags, depth, i - 1);
        assert(dr.take(i).drop_last() =~= dr.take(i - 1));
        lemma_sum_step(mg, bbs, c, flags, ps, i - 1, depth);
        lemma_sum_prefix(mg, bbs, c, flags, ps, i, depth);
        let n = count_after(mg, bbs, c, flags, ps[i - 1], depth);
        assert(n <= u32::MAX);
        assert(dr.take(i).last() == (ps[i - 1], n as u32));
    }
}

/// Law: the total of a split adds up its per-move counts: when the split runs, the counts of
/// the pairs sum to the count one ply deeper than the pairs' counts (`depth + 1` plies below
/// the position), or to the number of moves when the pairs count no plies.
pub proof fn lemma_divide_total_adds_up(mg: MoveGen, bbs: Seq<u64>, c: Color, flags: u8, depth: nat)
    requires
        divide_runs(mg, bbs, c, flags, depth + 1),
    ensures
        pair_counts(divide_results(mg, bbs, c, flags, depth))
            == perft_sum(mg, bbs, c, flags, mg.pseudolegal(bbs, c, flags), depth),
        depth >= 1 ==> pair_counts(divide_results(mg, bbs, c, flags, depth)) == perft_count(mg, bbs, c, flags, depth + 1),
        depth == 0 ==> pair_counts(divide_results(mg, bbs, c, flags, depth)) == mg.pseudolegal(bbs, c, flags).len(),
{
    let ps = mg.pseudolegal(bbs, c, flags);
    let dr = divide_results(mg, bbs, c, flags, depth);
    assert(((depth + 1) - 1) as nat == depth);
    lemma_pair_counts_prefix(mg, bbs, c, flags, depth, ps.len() as int);
    assert(dr.take(ps.len() as int) =~= dr);
    assert(ps.take(ps.len() as int) =~= ps);
    lemma_split_total(mg, bbs, c, flags, depth + 1);
}

} // verus!
