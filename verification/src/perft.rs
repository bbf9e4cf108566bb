//! Perft (node counting over the legal-move tree): the correctness gate for move
//! generation.
use crate::mov::Move;
use crate::movegen::{
    fu_total, game_ok, generate_legal, legal_move, legal_moves, lemma_fu_total_bound,
    lemma_legal_keeps_game_ok, playable, pseudo_ok,
};
use crate::position::{
    derived_ok, sound, spec_apply, spec_board_key, spec_hand_key, spec_next_board_key, spec_next_hand_key,
    Position, Snap, MAX_STACK,
};
use crate::sfen::text;
use vstd::prelude::*;

verus! {

/// Number of leaf nodes of the legal-move tree of depth `depth` below `s`.
pub open spec fn perft_count(s: Snap, depth: nat) -> nat
    decreases depth, 0nat,
{
    if depth == 0 {
        1
    } else if depth == 1 {
        legal_moves(s).len()
    } else {
        perft_sum(s, legal_moves(s), (depth - 1) as nat)
    }
}

/// Sum over the moves of `ms` of the node counts below the position each leads to.
pub open spec fn perft_sum(s: Snap, ms: Seq<Move>, depth: nat) -> nat
    decreases depth, ms.len(),
{
    if ms.len() == 0 {
        0
    } else {
        perft_sum(s, ms.drop_last(), depth) + perft_count(spec_apply(s, ms.last()), depth)
    }
}

/// What a perft of depth `depth` needs of its root: the king of the side to move for
/// one level; a game position with both kings for more.
pub open spec fn perft_ready(s: Snap, depth: nat) -> bool {
    &&& (depth >= 1 ==> playable(s))
    &&& (depth >= 2 ==> game_ok(s))
}

/// A prefix of a move list never counts more nodes than the whole list.
proof fn lemma_perft_sum_prefix(s: Snap, ms: Seq<Move>, depth: nat, i: int)
    requires
        0 <= i <= ms.len(),
    ensures
        perft_sum(s, ms.take(i), depth) <= perft_sum(s, ms, depth),
    decreases ms.len() - i,
{
    if i < ms.len() {
        lemma_perft_sum_prefix(s, ms, depth, i + 1);
        assert(ms.take(i + 1).drop_last() =~= ms.take(i));
    } else {
        assert(ms.take(i) =~= ms);
    }
}

/// A game position (with both kings) is playable for the side to move.
proof fn lemma_game_ok_playable(s: Snap)
    requires
        game_ok(s),
    ensures
        playable(s),
{
}

/// Plays `mv`, counts the leaf nodes below it to depth `depth - 1` (1 when `depth` is
/// at most 1), and takes the move back.
fn child_count(pos: &mut Position, mv: Move, depth: u32) -> (n: u64)
    requires
        old(pos).wf(),
        depth >= 1,
        playable(old(pos).snap()),
        depth >= 2 ==> game_ok(old(pos).snap()),
        pseudo_ok(old(pos).snap(), mv),
        legal_move(old(pos).snap(), mv),
        old(pos).stack().len() + depth + 64 <= MAX_STACK,
        depth >= 2 ==> perft_count(spec_apply(old(pos).snap(), mv), (depth - 1) as nat) <= u64::MAX,
    ensures
        n == (if depth <= 1 {
            1
        } else {
            perft_count(spec_apply(old(pos).snap(), mv), (depth - 1) as nat)
        }),
        final(pos).wf(),
        final(pos).snap() == old(pos).snap(),
        final(pos).stack() == old(pos).stack(),
        final(pos).snaps() == old(pos).snaps(),
    decreases depth, 0nat,
{
    let ghost s = pos.snap();
    proof {
        pos.lemma_wf_board();
        if depth >= 2 {
            lemma_legal_keeps_game_ok(s, mv);
            lemma_game_ok_playable(spec_apply(s, mv));
        }
    }
    pos.do_move(mv);
    proof {
        assert(pos.stack().last().last_move == mv);
    }
    let mut n: u64 = 1;
    if depth >= 2 {
        n = perft(pos, depth - 1);
    }
    pos.undo_move();
    n
}

/// Counts the leaf nodes of the legal-move tree of depth `depth`; the position is left
/// as it was.
pub fn perft(pos: &mut Position, depth: u32) -> (r: u64)
    requires
        old(pos).wf(),
        perft_ready(old(pos).snap(), depth as nat),
        old(pos).stack().len() + depth + 64 <= MAX_STACK,
        perft_count(old(pos).snap(), depth as nat) <= u64::MAX,
    ensures
        r == perft_count(old(pos).snap(), depth as nat),
        final(pos).wf(),
        final(pos).snap() == old(pos).snap(),
        final(pos).stack() == old(pos).stack(),
        final(pos).snaps() == old(pos).snaps(),
    decreases depth, 1nat,
{
    if depth == 0 {
        return 1;
    }
    let ghost s = pos.snap();
    proof {
        lemma_fu_total_bound(s);
    }
    let mut moves: Vec<Move> = Vec::new();
    generate_legal(pos, &mut moves);
    if depth == 1 {
        return moves.len() as u64;
    }
    let mut nodes: u64 = 0;
    let mut i: usize = 0;
    while i < moves.len()
        invariant
            pos.wf(),
            pos.snap() == s,
            pos.stack() == old(pos).stack(),
            pos.snaps() == old(pos).snaps(),
            s == old(pos).snap(),
            game_ok(s),
            depth >= 2,
            pos.stack().len() + depth + 64 <= MAX_STACK,
            perft_count(s, depth as nat) <= u64::MAX,
            moves@ == legal_moves(s),
            forall|k: int|
                0 <= k < moves@.len() ==> pseudo_ok(s, #[trigger] moves@[k]) && legal_move(
                    s,
                    moves@[k],
                ),
            i <= moves.len(),
            nodes == perft_sum(s, moves@.take(i as int), (depth - 1) as nat),
        decreases moves.len() - i,
    {
        let mv = moves[i];
        proof {
            assert(pseudo_ok(s, moves@[i as int]));
            lemma_game_ok_playable(s);
            assert(moves@.take(i + 1).drop_last() =~= moves@.take(i as int));
            lemma_perft_sum_prefix(s, moves@, (depth - 1) as nat, i + 1);
        }
        let n = child_count(pos, mv, depth);
        nodes = nodes + n;
        i = i + 1;
    }
    proof {
        assert(moves@.take(moves.len() as int) =~= moves@);
    }
    nodes
}

/// Every position of the legal-move tree of depth `depth` below `s` is consistent: its
/// king squares and pawn-file words agree with its board, and its keys, updated move by
/// move from the board key `bk` and the hand key `hk`, equal the keys computed from
/// scratch.
pub open spec fn keys_tree_ok(s: Snap, bk: u64, hk: u64, depth: nat) -> bool
    decreases depth,
{
    &&& derived_ok(s)
    &&& bk == spec_board_key(s.board, s.side)
    &&& hk == spec_hand_key(s.hands)
    &&& (depth > 0 ==> forall|i: int|
        0 <= i < legal_moves(s).len() ==> keys_tree_ok(
            spec_apply(s, #[trigger] legal_moves(s)[i]),
            spec_next_board_key(bk, s.side, legal_moves(s)[i], s.board[legal_moves(s)[i].spec_to() as int]),
            spec_next_hand_key(hk, s.side, legal_moves(s)[i], s.board[legal_moves(s)[i].spec_to() as int]),
            (depth - 1) as nat,
        ))
}

/// Summing one leaf below each move counts the moves.
proof fn lemma_perft_sum_leaves(s: Snap, ms: Seq<Move>)
    ensures
        perft_sum(s, ms, 0) == ms.len(),
    decreases ms.len(),
{
    if ms.len() > 0 {
        lemma_perft_sum_leaves(s, ms.drop_last());
        assert(perft_count(spec_apply(s, ms.last()), 0) == 1);
    }
}

/// Like `perft`, and also runs `check_consistency` at every node (king squares, pawn-file
/// words and the incrementally kept keys against what the board gives), and checks that
/// undoing each move gives back the position and key it had; the first failed check is
/// returned as an error.
pub fn perft_checked(pos: &mut Position, depth: u32) -> (r: Result<u64, String>)
    requires
        old(pos).wf(),
        perft_ready(old(pos).snap(), depth as nat),
        old(pos).stack().len() + depth + 64 <= MAX_STACK,
        perft_count(old(pos).snap(), depth as nat) <= u64::MAX,
    ensures
        final(pos).wf(),
        final(pos).snap() == old(pos).snap(),
        final(pos).stack() == old(pos).stack(),
        final(pos).snaps() == old(pos).snaps(),
        r is Ok <==> keys_tree_ok(
            old(pos).snap(),
            old(pos).stack().last().board_key,
            old(pos).stack().last().hand_key,
            depth as nat,
        ),
        r matches Ok(n) ==> n == perft_count(old(pos).snap(), depth as nat),
    decreases depth,
{
    let ghost s = pos.snap();
    let ghost top = pos.stack().last();
    match pos.check_consistency() {
        Ok(()) => {},
        Err(e) => {
            let mut m = text("consistency: ");
            m.append(e.as_str());
            return Err(m);
        },
    }
    if depth == 0 {
        return Ok(1);
    }
    proof {
        lemma_fu_total_bound(s);
        pos.lemma_wf_board();
    }
    let mut moves: Vec<Move> = Vec::new();
    generate_legal(pos, &mut moves);
    let mut nodes: u64 = 0;
    let mut i: usize = 0;
    while i < moves.len()
        invariant
            pos.wf(),
            pos.snap() == s,
            pos.stack() == old(pos).stack(),
            pos.snaps() == old(pos).snaps(),
            s == old(pos).snap(),
            top == old(pos).stack().last(),
            top.board_key == spec_board_key(s.board, s.side),
            top.hand_key == spec_hand_key(s.hands),
            perft_ready(s, depth as nat),
            depth >= 1,
            pos.stack().len() + depth + 64 <= MAX_STACK,
            perft_count(s, depth as nat) <= u64::MAX,
            moves@ == legal_moves(s),
            forall|k: int|
                0 <= k < moves@.len() ==> pseudo_ok(s, #[trigger] moves@[k]) && legal_move(
                    s,
                    moves@[k],
                ),
            i <= moves.len(),
            nodes == perft_sum(s, moves@.take(i as int), (depth - 1) as nat),
            forall|k: int|
                0 <= k < i ==> keys_tree_ok(
                    spec_apply(s, #[trigger] legal_moves(s)[k]),
                    spec_next_board_key(top.board_key, s.side, legal_moves(s)[k], s.board[legal_moves(s)[k].spec_to() as int]),
                    spec_next_hand_key(top.hand_key, s.side, legal_moves(s)[k], s.board[legal_moves(s)[k].spec_to() as int]),
                    (depth - 1) as nat,
                ),
        decreases moves.len() - i,
    {
        let mv = moves[i];
        proof {
            assert(pseudo_ok(s, moves@[i as int]));
            pos.lemma_wf_board();
            if depth >= 2 {
                lemma_legal_keeps_game_ok(s, mv);
                lemma_game_ok_playable(spec_apply(s, mv));
                lemma_perft_sum_prefix(s, moves@, (depth - 1) as nat, i + 1);
            } else {
                lemma_perft_sum_leaves(s, moves@);
                lemma_perft_sum_prefix(s, moves@, 0, i + 1);
            }
            assert(moves@.take(i + 1).drop_last() =~= moves@.take(i as int));
        }
        let before = pos.clone();
        let before_key = pos.key();
        pos.do_move(mv);
        let sub = perft_checked(pos, depth - 1);
        proof {
            pos.lemma_wf_board();
            assert(pos.stack().last().last_move == mv);
        }
        pos.undo_move();
        let n = match sub {
            Ok(n) => n,
            Err(e) => {
                return Err(e);
            },
        };
        if !(*pos == before) {
            let mut m = text("do/undo did not round-trip for ");
            m.append(mv.debug_text().as_str());
            return Err(m);
        }
        if pos.key() != before_key {
            let mut m = text("key did not round-trip for ");
            m.append(mv.debug_text().as_str());
            return Err(m);
        }
        nodes = nodes + n;
        i = i + 1;
    }
    proof {
        assert(moves@.take(moves.len() as int) =~= moves@);
        if depth == 1 {
            lemma_perft_sum_leaves(s, moves@);
        }
    }
    Ok(nodes)
}

/// The node count below each legal move, in generation order (1 for each move when
/// `depth <= 1`).
pub open spec fn divide_counts(s: Snap, ms: Seq<Move>, depth: nat) -> Seq<(Move, u64)> {
    Seq::new(
        ms.len(),
        |k: int|
            (
                ms[k],
                if depth <= 1 {
                    1u64
                } else {
                    perft_count(spec_apply(s, ms[k]), (depth - 1) as nat) as u64
                },
            ),
    )
}

/// Each legal move with the number of leaf nodes below it.
pub fn perft_divide(pos: &mut Position, depth: u32) -> (r: Vec<(Move, u64)>)
    requires
        old(pos).wf(),
        perft_ready(old(pos).snap(), if depth >= 1 { depth as nat } else { 1 }),
        old(pos).stack().len() + depth + 65 <= MAX_STACK,
        depth >= 2 ==> perft_count(old(pos).snap(), depth as nat) <= u64::MAX,
    ensures
        r@ == divide_counts(old(pos).snap(), legal_moves(old(pos).snap()), depth as nat),
        final(pos).wf(),
        final(pos).snap() == old(pos).snap(),
        final(pos).stack() == old(pos).stack(),
        final(pos).snaps() == old(pos).snaps(),
{
    let ghost s = pos.snap();
    proof {
        lemma_fu_total_bound(s);
    }
    let mut moves: Vec<Move> = Vec::new();
    generate_legal(pos, &mut moves);
    let mut out: Vec<(Move, u64)> = Vec::new();
    let mut i: usize = 0;
    while i < moves.len()
        invariant
            pos.wf(),
            pos.snap() == s,
            pos.stack() == old(pos).stack(),
            pos.snaps() == old(pos).snaps(),
            s == old(pos).snap(),
            perft_ready(s, if depth >= 1 { depth as nat } else { 1 }),
            pos.stack().len() + depth + 65 <= MAX_STACK,
            depth >= 2 ==> perft_count(s, depth as nat) <= u64::MAX,
            moves@ == legal_moves(s),
            forall|k: int|
                0 <= k < moves@.len() ==> pseudo_ok(s, #[trigger] moves@[k]) && legal_move(
                    s,
                    moves@[k],
                ),
            i <= moves.len(),
            out@ == divide_counts(s, moves@, depth as nat).take(i as int),
        decreases moves.len() - i,
    {
        let mv = moves[i];
        proof {
            assert(pseudo_ok(s, moves@[i as int]));
            if depth >= 2 {
                lemma_game_ok_playable(s);
                lemma_perft_sum_prefix(s, moves@, (depth - 1) as nat, i + 1);
                assert(moves@.take(i + 1).drop_last() =~= moves@.take(i as int));
                assert(moves@.take(i + 1).last() == mv);
            }
        }
        let n = child_count(pos, mv, if depth >= 1 { depth } else { 1 });
        out.push((mv, n));
        proof {
            assert(out@ =~= divide_counts(s, moves@, depth as nat).take(i + 1));
        }
        i = i + 1;
    }
    proof {
        assert(divide_counts(s, moves@, depth as nat).take(moves.len() as int) =~= divide_counts(
            s,
            moves@,
            depth as nat,
        ));
    }
    out
}

} // verus!
