use vstd::prelude::*;
use crate::board::{Board, move_bbs, move_defined, move_flags};
use crate::board::color::Color;
use crate::board::moves::Move;
use crate::board::piece::Piece;
use crate::movegen::{MoveGen, pieces};

verus! {

/// The number of positions `depth` plies below the position with bitboards `bbs`, side `c` to
/// move and flags `flags`, following the pseudo-legal moves of `mg`: one at depth zero; at
/// depth one the number of moves, taken as a `u32`; deeper, the sum over the moves of the count
/// one ply below the position after the move.
pub open spec fn perft_count(mg: MoveGen, bbs: Seq<u64>, c: Color, flags: u8, depth: nat) -> nat
    decreases depth, 0nat,
{
    if depth == 0 {
        1
    } else if depth == 1 {
        (mg.pseudolegal(bbs, c, flags).len() as u32) as nat
    } else {
        perft_sum(mg, bbs, c, flags, mg.pseudolegal(bbs, c, flags), (depth - 1) as nat)
    }
}

/// The sum over `moves`, played from the position (`bbs`, `c`, `flags`), of the count `depth`
/// plies below the position after each move.
pub open spec fn perft_sum(mg: MoveGen, bbs: Seq<u64>, c: Color, flags: u8, moves: Seq<Move>, depth: nat) -> nat
    decreases depth, moves.len(),
{
    if moves.len() == 0 {
        0
    } else {
        let mv = moves.last();
        perft_sum(mg, bbs, c, flags, moves.drop_last(), depth)
            + perft_count(mg, move_bbs(bbs, flags, mv), c.spec_inverse(), move_flags(bbs, flags, mv), depth)
    }
}

/// Counting `depth` plies below the position runs without a panic: from one ply on, the side
/// to move has a king; from two plies on, every move can be played, counting below each runs,
/// and the count fits in a `u32`.
pub open spec fn perft_runs(mg: MoveGen, bbs: Seq<u64>, c: Color, flags: u8, depth: nat) -> bool
    decreases depth, 0nat,
{
    if depth == 0 {
        true
    } else if depth == 1 {
        pieces(bbs, Piece::King, c) != 0
    } else {
        &&& pieces(bbs, Piece::King, c) != 0
        &&& perft_runs_all(mg, bbs, c, flags, mg.pseudolegal(bbs, c, flags), (depth - 1) as nat)
        &&& perft_count(mg, bbs, c, flags, depth) <= u32::MAX
    }
}

/// Each of `moves` can be played from the position, and counting `depth` plies below the
/// position after it runs without a panic.
pub open spec fn perft_runs_all(mg: MoveGen, bbs: Seq<u64>, c: Color, flags: u8, moves: Seq<Move>, depth: nat) -> bool
    decreases depth, moves.len(),
{
    if moves.len() == 0 {
        true
    } else {
        let mv = moves.last();
        &&& perft_runs_all(mg, bbs, c, flags, moves.drop_last(), depth)
        &&& move_defined(bbs, mv)
        &&& perft_runs(mg, move_bbs(bbs, flags, mv), c.spec_inverse(), move_flags(bbs, flags, mv), depth)
    }
}

/// A sum over a prefix of the moves is at most the sum over all of them.
pub proof fn lemma_sum_prefix(mg: MoveGen, bbs: Seq<u64>, c: Color, flags: u8, moves: Seq<Move>, i: int, depth: nat)
    requires
        0 <= i <= moves.len(),
    ensures
        perft_sum(mg, bbs, c, flags, moves.take(i), depth) <= perft_sum(mg, bbs, c, flags, moves, depth),
    decreases moves.len() - i,
{
    if i < moves.len() {
        lemma_sum_prefix(mg, bbs, c, flags, moves, i + 1, depth);
        assert(moves.take(i + 1).drop_last() =~= moves.take(i));
    } else {
        assert(moves.take(i) =~= moves);
    }
}

/// Counting zero plies below each of `moves` gives one per move.
pub proof fn lemma_sum_depth_zero(mg: MoveGen, bbs: Seq<u64>, c: Color, flags: u8, moves: Seq<Move>)
    ensures
        perft_sum(mg, bbs, c, flags, moves, 0) == moves.len(),
    decreases moves.len(),
{
    if moves.len() > 0 {
        let mv = moves.last();
        lemma_sum_depth_zero(mg, bbs, c, flags, moves.drop_last());
        assert(perft_count(mg, move_bbs(bbs, flags, mv), c.spec_inverse(), move_flags(bbs, flags, mv), 0) == 1);
    }
}

/// Splitting a count by first move and adding up the parts gives the count: from two plies
/// on this is the count itself; at one ply the parts add up to the number of moves, which the
/// count takes as a `u32`.
pub proof fn lemma_split_total(mg: MoveGen, bbs: Seq<u64>, c: Color, flags: u8, depth: nat)
    requires
        depth >= 1,
    ensures
        depth >= 2 ==> perft_sum(mg, bbs, c, flags, mg.pseudolegal(bbs, c, flags), (depth - 1) as nat)
            == perft_count(mg, bbs, c, flags, depth),
        depth == 1 ==> perft_sum(mg, bbs, c, flags, mg.pseudolegal(bbs, c, flags), 0)
            == mg.pseudolegal(bbs, c, flags).len(),
        depth == 1 ==> perft_count(mg, bbs, c, flags, depth) == (mg.pseudolegal(bbs, c, flags).len() as u32) as nat,
{
    lemma_sum_depth_zero(mg, bbs, c, flags, mg.pseudolegal(bbs, c, flags));
}

/// What `perft_runs_all` says of each move of the list.
pub proof fn lemma_runs_at(mg: MoveGen, bbs: Seq<u64>, c: Color, flags: u8, moves: Seq<Move>, depth: nat, i: int)
    requires
        perft_runs_all(mg, bbs, c, flags, moves, depth),
        0 <= i < moves.len(),
    ensures
        move_defined(bbs, moves[i]),
        perft_runs(mg, move_bbs(bbs, flags, moves[i]), c.spec_inverse(), move_flags(bbs, flags, moves[i]), depth),
    decreases moves.len(),
{
    if i < moves.len() - 1 {
        lemma_runs_at(mg, bbs, c, flags, moves.drop_last(), depth, i);
    }
}

/// Adding the move at index `i` to the sum over the moves before it.
pub proof fn lemma_sum_step(mg: MoveGen, bbs: Seq<u64>, c: Color, flags: u8, moves: Seq<Move>, i: int, depth: nat)
    requires
        0 <= i < moves.len(),
    ensures
        perft_sum(mg, bbs, c, flags, moves.take(i + 1), depth) == perft_sum(mg, bbs, c, flags, moves.take(i), depth)
            + perft_count(mg, move_bbs(bbs, flags, moves[i]), c.spec_inverse(), move_flags(bbs, flags, moves[i]), depth),
{
    assert(moves.take(i + 1).drop_last() =~= moves.take(i));
    assert(moves.take(i + 1).last() == moves[i]);
}

/// Counts the positions `depth` plies below `board` by the pseudo-legal moves of `move_gen`.
/// The moves of the position are generated before the depth is looked at, so the side to move
/// needs a king even at depth zero.
pub fn perft_inner(board: &Board, depth: u8, move_gen: &MoveGen) -> (r: u32)
    requires
        pieces(board.bbs(), Piece::King, board.active_color) != 0,
        perft_runs(*move_gen, board.bbs(), board.active_color, board.flags.0, depth as nat),
    ensures
        r == perft_count(*move_gen, board.bbs(), board.active_color, board.flags.0, depth as nat),
    decreases depth,
{
    let mut moves = Vec::new();

    move_gen.pseudolegal_moves(board, &mut moves);
    let mut count: u32 = 0;

    if depth == 0 {
        return 1;
    }

    if depth == 1 {
        return moves.len() as u32;
    }

    let ghost mg = *move_gen;
    let ghost bbs = board.bbs();
    let ghost c = board.active_color;
    let ghost flags = board.flags.0;
    let ghost d = (depth - 1) as nat;
    let ghost ps = moves@;
    assert(ps == mg.pseudolegal(bbs, c, flags));
    let mut i: usize = 0;
    while i < moves.len()
        invariant
            moves@ == ps,
            ps == mg.pseudolegal(bbs, c, flags),
            mg == *move_gen,
            bbs == board.bbs(),
            c == board.active_color,
            flags == board.flags.0,
            depth >= 2,
            d == depth - 1,
            0 <= i <= moves.len(),
            perft_runs_all(mg, bbs, c, flags, ps, d),
            perft_sum(mg, bbs, c, flags, ps, d) <= u32::MAX,
            count == perft_sum(mg, bbs, c, flags, ps.take(i as int), d),
        decreases moves.len() - i,
    {
        let mv = moves[i];
        proof {
            lemma_runs_at(mg, bbs, c, flags, ps, d, i as int);
            lemma_sum_step(mg, bbs, c, flags, ps, i as int, d);
            lemma_sum_prefix(mg, bbs, c, flags, ps, i as int + 1, d);
        }
        let board = board.make_move(mv);
        count += perft_inner(&board, depth - 1, move_gen);
        i += 1;
    }
    assert(ps.take(i as int) =~= ps);

    count
}

/// Counts the positions `depth` plies below `board` with a fresh move generator, whose sliding
/// piece tables come from a random search: the count is that of some generator whose lookups
/// give the sliders' moves, except for the one blocker subset per square that the table fill
/// never visits (`tables_usable`).
pub fn perft(board: &Board, depth: u8) -> (r: u32)
    requires
        pieces(board.bbs(), Piece::King, board.active_color) != 0,
        forall|mg: MoveGen| mg.tables_usable() ==> perft_runs(mg, board.bbs(), board.active_color, board.flags.0, depth as nat),
    ensures
        exists|mg: MoveGen| mg.tables_usable() && r == perft_count(mg, board.bbs(), board.active_color, board.flags.0, depth as nat),
{
    let move_gen = MoveGen::new();
    let r = perft_inner(board, depth, &move_gen);
    assert(move_gen.tables_usable() && r == perft_count(move_gen, board.bbs(), board.active_color, board.flags.0, depth as nat));
    r
}

/// For each pseudo-legal move of `board`, in order, the count `depth - 1` plies below `board`
/// itself (the move is not played) paired with the move.
pub open spec fn divide_spec(mg: MoveGen, bbs: Seq<u64>, c: Color, flags: u8, depth: nat) -> Seq<(u32, Move)> {
    let n = perft_count(mg, bbs, c, flags, (depth - 1) as nat);
    mg.pseudolegal(bbs, c, flags).map_values(|mv: Move| (n as u32, mv))
}

/// Pairs each pseudo-legal move of `board` with the count `depth - 1` plies below `board`
/// (counted from `board` itself, not from the position after the move).
pub fn divide_inner(board: &Board, depth: u8, move_gen: &MoveGen) -> (r: Vec<(u32, Move)>)
    requires
        pieces(board.bbs(), Piece::King, board.active_color) != 0,
        move_gen.pseudolegal(board.bbs(), board.active_color, board.flags.0).len() > 0 ==> {
            &&& depth >= 1
            &&& perft_runs(*move_gen, board.bbs(), board.active_color, board.flags.0, (depth - 1) as nat)
        },
    ensures
        r@ == divide_spec(*move_gen, board.bbs(), board.active_color, board.flags.0, depth as nat),
{
    let mut results: Vec<(u32, Move)> = Vec::new();

    let mut moves = Vec::new();
    move_gen.pseudolegal_moves(board, &mut moves);
    let ghost ps = moves@;
    let ghost spec = divide_spec(*move_gen, board.bbs(), board.active_color, board.flags.0, depth as nat);

    let mut i: usize = 0;
    while i < moves.len()
        invariant
            moves@ == ps,
            ps == move_gen.pseudolegal(board.bbs(), board.active_color, board.flags.0),
            spec == divide_spec(*move_gen, board.bbs(), board.active_color, board.flags.0, depth as nat),
            pieces(board.bbs(), Piece::King, board.active_color) != 0,
            ps.len() > 0 ==> depth >= 1 && perft_runs(*move_gen, board.bbs(), board.active_color, board.flags.0, (depth - 1) as nat),
            0 <= i <= moves.len(),
            results@ == spec.take(i as int),
        decreases moves.len() - i,
    {
        let mv = moves[i];
        let perft_result = perft_inner(board, depth - 1, move_gen);
        let result = (perft_result, mv);

        results.push(result);
        i += 1;
        assert(results@ =~= spec.take(i as int));
    }
    assert(spec.take(i as int) =~= spec);

    results
}

/// `divide_inner` with a fresh move generator, whose sliding piece tables come from a random
/// search.
pub fn divide(board: &Board, depth: u8) -> (r: Vec<(u32, Move)>)
    requires
        pieces(board.bbs(), Piece::King, board.active_color) != 0,
        forall|mg: MoveGen| mg.tables_usable() && mg.pseudolegal(board.bbs(), board.active_color, board.flags.0).len() > 0 ==> {
            &&& depth >= 1
            &&& perft_runs(mg, board.bbs(), board.active_color, board.flags.0, (depth - 1) as nat)
        },
    ensures
        exists|mg: MoveGen| mg.tables_usable() && r@ == divide_spec(mg, board.bbs(), board.active_color, board.flags.0, depth as nat),
{
    let move_gen = MoveGen::new();
    let r = divide_inner(board, depth, &move_gen);
    assert(move_gen.tables_usable() && r@ == divide_spec(move_gen, board.bbs(), board.active_color, board.flags.0, depth as nat));
    r
}

/// Law: dividing lists each pseudo-legal move of the position exactly once, in the order the
/// generator makes them, each paired with the count `depth - 1` plies below the position.
pub proof fn lemma_divide_lists_each_move(mg: MoveGen, bbs: Seq<u64>, c: Color, flags: u8, depth: nat)
    ensures
        divide_spec(mg, bbs, c, flags, depth).len() == mg.pseudolegal(bbs, c, flags).len(),
        forall|j: int| 0 <= j < mg.pseudolegal(bbs, c, flags).len() ==> {
            &&& (#[trigger] divide_spec(mg, bbs, c, flags, depth)[j]).1 == mg.pseudolegal(bbs, c, flags)[j]
            &&& divide_spec(mg, bbs, c, flags, depth)[j].0 == perft_count(mg, bbs, c, flags, (depth - 1) as nat) as u32
        },
{
}

} // verus!
