//! Iterative-deepening alpha-beta search: transposition table, quiescence search,
//! null-move pruning, late-move reductions, futility and delta pruning, mate-distance
//! pruning. A single fail-soft alpha-beta tree; the principal variation is read back
//! from the transposition table after each iteration.
use crate::eval::{Evaluator, EVAL_LIMIT};
use crate::mov::{move_none, Move, MOVE_NULL_BITS};
use crate::movegen::{
    fu_total, game_ok, generate_legal, is_legal, legal_move, legal_moves,
    lemma_fu_total_bound, lemma_legal_keeps_game_ok, pseudo_ok,
};
use crate::position::{
    rep_result, sound, spec_apply, spec_checkers, spec_null, Position, Repetition, Snap, StateInfo,
    MAX_STACK,
};
use crate::tt::{
    mate_in, mated_in, score_from_tt, score_to_tt, spec_score_from_tt, spec_score_to_tt, Bound,
    TTEntry, TranspositionTable, MATE, MATE_IN_MAX_PLY,
};
use crate::hand::Hand;
use crate::types::{
    capture_gain, lemma_opposite, make_piece, piece_value, spec_capture_gain, spec_opposite,
    spec_piece_color, spec_piece_type, spec_value, Color, FU, GIN, HI, KAKU, KEI, KIN, KYO, OU,
};
use vstd::prelude::*;

verus! {

/// The deepest ply the search ever reaches.
pub const MAX_PLY: usize = 128;

const DRAW: i32 = 0;

/// Bound of every alpha-beta window.
pub const INF: i32 = MATE + 1000;

/// Bound of every score the search returns or stores: an evaluation plus the largest
/// ply adjustment of a stored mate score.
pub const SCORE_CAP: i32 = EVAL_LIMIT + 128;

/// A source of elapsed time in milliseconds, for the movetime limit.
pub trait Clock {
    fn now_ms(&self) -> u64;
}

pub struct Limits {
    /// 0 = no fixed-depth limit (use movetime_ms instead).
    pub max_depth: u32,
    /// 0 = no time limit (use max_depth instead).
    pub movetime_ms: u32,
    /// 0 = no node limit (safety net used alongside a time limit).
    pub node_limit: u64,
}

impl Limits {
    pub fn depth(d: u32) -> (r: Limits)
        ensures
            r.max_depth == d,
            r.movetime_ms == 0,
            r.node_limit == 0,
    {
        Limits { max_depth: d, movetime_ms: 0, node_limit: 0 }
    }

    /// A node budget alone: no depth or time limit.
    pub fn nodes(n: u64) -> (r: Limits)
        ensures
            r.max_depth == 0,
            r.movetime_ms == 0,
            r.node_limit == n,
    {
        Limits { max_depth: 0, movetime_ms: 0, node_limit: n }
    }

    pub fn movetime(ms: u32) -> (r: Limits)
        ensures
            r.max_depth == 0,
            r.movetime_ms == ms,
            r.node_limit == ms * 2_000_000,
    {
        Limits { max_depth: 0, movetime_ms: ms, node_limit: ms as u64 * 2_000_000 }
    }
}

/// What one finished iteration reports.
#[derive(Clone)]
pub struct SearchInfo {
    pub depth: u32,
    pub seldepth: u32,
    pub score_cp: i32,
    pub mate_in: i32,
    pub nodes: u64,
    pub elapsed_ms: u32,
    pub pv: Vec<Move>,
}

/// The outcome of a search: the move to play and what the last finished iteration said
/// of it.
#[derive(Clone)]
pub struct SearchResult {
    pub best_move: Move,
    pub score_cp: i32,
    pub mate_in: i32,
    pub depth: u32,
    pub nodes: u64,
    pub elapsed_ms: u32,
    pub aborted: bool,
    pub pv: Vec<Move>,
}

/// Plies to mate of a mate score: positive when the side to move mates, negative when
/// it is mated, 0 for any other score.
pub open spec fn spec_mate_in_plies(score: int) -> int {
    if score >= MATE_IN_MAX_PLY {
        MATE - score
    } else if score <= -MATE_IN_MAX_PLY {
        -(MATE + score)
    } else {
        0
    }
}

pub fn mate_in_plies(score: i32) -> (r: i32)
    ensures
        r == spec_mate_in_plies(score as int),
{
    if score >= MATE_IN_MAX_PLY {
        MATE - score
    } else if score <= -MATE_IN_MAX_PLY {
        -(MATE + score)
    } else {
        0
    }
}

/// A piece of `color` on the board other than pawns and the king.
pub open spec fn has_board_material(s: Snap, color: u8) -> bool {
    exists|sq: int|
        0 <= sq < 81 && #[trigger] s.board[sq] != 0 && spec_piece_color(s.board[sq]) == color
            && spec_piece_type(s.board[sq]) != FU && spec_piece_type(s.board[sq]) != OU
}

/// A piece in `color`'s hand other than pawns.
pub open spec fn has_hand_material(s: Snap, color: u8) -> bool {
    let h = Hand(s.hands[color as int]);
    ||| h.spec_count(KYO) > 0
    ||| h.spec_count(KEI) > 0
    ||| h.spec_count(GIN) > 0
    ||| h.spec_count(KIN) > 0
    ||| h.spec_count(KAKU) > 0
    ||| h.spec_count(HI) > 0
}

/// The side has something besides pawns and its king, on the board or in hand, so
/// that passing is unlikely to be its only good option (null-move pruning is skipped
/// otherwise).
pub fn has_non_pawn_material(pos: &Position, color: Color) -> (r: bool)
    requires
        pos.wf(),
        color < 2,
    ensures
        r == (has_board_material(pos.snap(), color) || has_hand_material(pos.snap(), color)),
{
    proof {
        pos.lemma_wf_board();
    }
    let pawns_and_kings = pos.pieces_of_type(FU).or(pos.pieces_of_type(OU));
    let rest = pos.pieces_of_color(color).and(pawns_and_kings.not());
    let ghost s = pos.snap();
    proof {
        assert(rest@ =~= Set::new(
            |sq: int|
                0 <= sq < 81 && s.board[sq] != 0 && spec_piece_color(s.board[sq]) == color
                    && spec_piece_type(s.board[sq]) != FU && spec_piece_type(s.board[sq]) != OU,
        ));
    }
    if !rest.is_empty() {
        proof {
            if !has_board_material(s, color) {
                assert(rest@ =~= Set::<int>::empty());
            }
        }
        return true;
    }
    proof {
        if has_board_material(s, color) {
            let sq = choose|sq: int|
                0 <= sq < 81 && #[trigger] s.board[sq] != 0 && spec_piece_color(s.board[sq])
                    == color && spec_piece_type(s.board[sq]) != FU && spec_piece_type(
                    s.board[sq],
                ) != OU;
            assert(rest@.contains(sq));
        }
    }
    let kinds = [KYO, KEI, GIN, KIN, KAKU, HI];
    let mut i: usize = 0;
    while i < 6
        invariant
            i <= 6,
            kinds@ == seq![KYO, KEI, GIN, KIN, KAKU, HI],
            color < 2,
            forall|j: int| 0 <= j < i ==> Hand(pos.snap().hands[color as int]).spec_count(#[trigger] kinds@[j]) <= 0,
        decreases 6 - i,
    {
        if pos.hand(color, kinds[i]) > 0 {
            return true;
        }
        i = i + 1;
    }
    proof {
        assert(kinds@[0] == KYO && kinds@[1] == KEI && kinds@[2] == GIN);
        assert(kinds@[3] == KIN && kinds@[4] == KAKU && kinds@[5] == HI);
    }
    false
}

/// A score a node at `ply` may return: within the cap, less the ply, so that adding the
/// ply for storage keeps it within the cap.
pub open spec fn score_ok(v: int, ply: int) -> bool {
    -(SCORE_CAP - ply) <= v <= SCORE_CAP - ply
}

/// Every stored score is within the cap.
pub open spec fn tt_ok(tt: TranspositionTable) -> bool {
    &&& tt.wf()
    &&& forall|i: int|
        0 <= i < tt.slots().len() ==> -SCORE_CAP <= #[trigger] tt.slots()[i].score <= SCORE_CAP
}

/// A position the search can work on: a game position, and after a null move the side
/// to move is not in check.
pub open spec fn node_ok(pos: Position) -> bool {
    &&& pos.wf()
    &&& game_ok(pos.snap())
    &&& (pos.stack().last().last_move.0 == MOVE_NULL_BITS ==> spec_checkers(pos.snap())
        == Set::<int>::empty())
}

/// Records enough to play out the remaining plies and generate moves at each of them.
pub open spec fn room(pos: Position, ply: int) -> bool {
    pos.stack().len() + MAX_PLY + 64 <= MAX_STACK + ply
}

/// Same position, same records.
pub open spec fn restored(after: Position, before: Position) -> bool {
    &&& after.wf()
    &&& after.snap() == before.snap()
    &&& after.stack() == before.stack()
    &&& after.snaps() == before.snaps()
}

/// The position after playing `line` from `s`.
pub open spec fn play_line(s: Snap, line: Seq<Move>) -> Snap
    decreases line.len(),
{
    if line.len() == 0 {
        s
    } else {
        spec_apply(play_line(s, line.drop_last()), line.last())
    }
}

/// Every move of `line` is a legal move of the position it is played in.
pub open spec fn line_ok(s: Snap, line: Seq<Move>) -> bool
    decreases line.len(),
{
    if line.len() == 0 {
        true
    } else {
        line_ok(s, line.drop_last()) && legal_moves(play_line(s, line.drop_last())).contains(
            line.last(),
        )
    }
}

/// A first move of a legal line is a legal move of the starting position.
pub proof fn lemma_line_first(s: Snap, line: Seq<Move>)
    requires
        line_ok(s, line),
        line.len() > 0,
    ensures
        legal_moves(s).contains(line[0]),
    decreases line.len(),
{
    if line.len() > 1 {
        lemma_line_first(s, line.drop_last());
    }
}

/// What a search result promises of the position `s` it was computed for: the best
/// move is a legal move when there is one (and no move otherwise), the principal
/// variation is a legal line that starts with the best move, and the mate distance
/// is read off the score.
pub open spec fn result_ok(r: SearchResult, s: Snap) -> bool {
    &&& (legal_moves(s).len() == 0 ==> r.best_move == Move(0))
    &&& (legal_moves(s).len() > 0 ==> legal_moves(s).contains(r.best_move))
    &&& line_ok(s, r.pv@)
    &&& (r.pv@.len() > 0 ==> r.best_move == r.pv@[0])
    &&& r.mate_in == spec_mate_in_plies(r.score_cp as int)
}

/// What an iteration report promises of the root position `s`.
pub open spec fn info_ok(i: SearchInfo, s: Snap) -> bool {
    &&& line_ok(s, i.pv@)
    &&& i.mate_in == spec_mate_in_plies(i.score_cp as int)
}

/// Passing on a game position whose side to move is not in check gives a game position
/// whose side to move is not in check.
proof fn lemma_null_keeps_game_ok(s: Snap)
    requires
        game_ok(s),
        spec_checkers(s) == Set::<int>::empty(),
    ensures
        game_ok(spec_null(s)),
        spec_checkers(spec_null(s)) == Set::<int>::empty(),
{
    lemma_opposite(s.side);
    let n = spec_null(s);
    assert(n.board == s.board);
    assert(spec_opposite(n.side) == s.side);
}

/// Plays `mv` and tells the evaluator.
fn make_move<E: Evaluator>(pos: &mut Position, eval: &mut E, mv: Move)
    requires
        node_ok(*old(pos)),
        pseudo_ok(old(pos).snap(), mv),
        legal_move(old(pos).snap(), mv),
        old(pos).stack().len() < MAX_STACK,
        old(eval).frames() >= 1,
    ensures
        node_ok(*final(pos)),
        final(pos).snap() == spec_apply(old(pos).snap(), mv),
        final(pos).stack().len() == old(pos).stack().len() + 1,
        final(pos).stack().drop_last() == old(pos).stack(),
        final(pos).snaps() == old(pos).snaps().push(final(pos).snap()),
        final(pos).stack().last().last_move == mv,
        final(eval).frames() == old(eval).frames() + 1,
{
    let mover = pos.side_to_move();
    pos.do_move(mv);
    proof {
        lemma_legal_keeps_game_ok(old(pos).snap(), mv);
    }
    eval.push(pos, mv, mover);
}

/// Takes back the last move played by `make_move` and tells the evaluator.
fn unmake_move<E: Evaluator>(pos: &mut Position, eval: &mut E)
    requires
        old(pos).wf(),
        old(pos).stack().len() >= 2,
        old(pos).stack().last().last_move.0 != MOVE_NULL_BITS,
        old(eval).frames() >= 1,
    ensures
        final(pos).wf(),
        final(pos).snap() == old(pos).snaps()[old(pos).snaps().len() - 2],
        final(pos).stack() == old(pos).stack().drop_last(),
        final(pos).snaps() == old(pos).snaps().drop_last(),
        final(eval).frames() == old(eval).frames() - 1,
{
    pos.undo_move();
    eval.pop();
}

/// Orders `v` by score, highest first.
fn sort_by_score(v: Vec<(Move, i32)>) -> (r: Vec<(Move, i32)>)
    ensures
        r@.len() == v@.len(),
        forall|k: int| 0 <= k < r@.len() ==> v@.contains(#[trigger] r@[k]),
        forall|a: int, b: int| 0 <= a < b < r@.len() ==> r@[a].1 >= r@[b].1,
{
    let mut out: Vec<(Move, i32)> = Vec::new();
    let mut i: usize = 0;
    while i < v.len()
        invariant
            i <= v.len(),
            out@.len() == i,
            forall|k: int| 0 <= k < out@.len() ==> v@.contains(#[trigger] out@[k]),
            forall|a: int, b: int| 0 <= a < b < out@.len() ==> out@[a].1 >= out@[b].1,
        decreases v.len() - i,
    {
        let x = v[i];
        let mut j: usize = 0;
        while j < out.len() && out[j].1 >= x.1
            invariant
                j <= out@.len(),
                forall|k: int| 0 <= k < j ==> out@[k].1 >= x.1,
            decreases out.len() - j,
        {
            j = j + 1;
        }
        let ghost before = out@;
        out.insert(j, x);
        proof {
            assert(v@.contains(x)) by {
                assert(v@[i as int] == x);
            }
            assert forall|k: int| 0 <= k < out@.len() implies v@.contains(#[trigger] out@[k]) by {
                if k < j {
                    assert(out@[k] == before[k]);
                } else if k > j {
                    assert(out@[k] == before[k - 1]);
                }
            }
            assert forall|a: int, b: int| 0 <= a < b < out@.len() implies out@[a].1 >= out@[b].1 by {
                if b < j {
                    assert(out@[a] == before[a] && out@[b] == before[b]);
                } else if b == j {
                    assert(out@[a] == before[a]);
                } else if a == j {
                    assert(out@[b] == before[b - 1]);
                    if (b - 1) > j {
                        assert(before[j as int].1 >= before[b - 1].1);
                    }
                } else if a < j {
                    assert(out@[a] == before[a] && out@[b] == before[b - 1]);
                } else {
                    assert(out@[a] == before[a - 1] && out@[b] == before[b - 1]);
                }
            }
        }
        i = i + 1;
    }
    out
}

/// The state one search keeps across its iterations.
/// The key of a position, as its last record holds it.
pub open spec fn key_of(pos: Position) -> u64 {
    pos.stack().last().board_key ^ pos.stack().last().hand_key
}

/// The move the table stores for `key`, if its slot holds an entry under that key.
pub open spec fn stored_move(tt: TranspositionTable, key: u64) -> Option<Move> {
    let e = tt.slots()[tt.slot_of(key)];
    if e.bound != Bound::NoBound && e.key == key {
        Some(e.mv)
    } else {
        None
    }
}

/// A line may be read from `pos`: the table stores a move for it that is legal there.
spec fn stored_line_starts(tt: TranspositionTable, pos: Position, max_len: u32) -> bool {
    &&& max_len > 0
    &&& match stored_move(tt, key_of(pos)) {
        Some(m) => m.0 != 0 && legal_moves(pos.snap()).contains(m),
        None => false,
    }
}

/// What a node that searched its moves reports: its position, depth and ply, the legal
/// moves it searched with the value each child search returned, and a result that is
/// the best of the negated child values (fail-soft: at least each of them, and equal to
/// one of them unless all lie below -INF, where the result is -INF).
spec fn children_ok(t: (Snap, i32, u32, Seq<Move>, Seq<int>), s: Snap, depth: i32, ply: u32, r: i32) -> bool {
    &&& t.0 == s
    &&& t.1 == depth
    &&& t.2 == ply
    &&& t.3.len() == t.4.len()
    &&& t.3.len() > 0
    &&& forall|k: int| 0 <= k < t.3.len() ==> pseudo_ok(s, #[trigger] t.3[k]) && legal_move(s, t.3[k])
    &&& forall|k: int| 0 <= k < t.4.len() ==> r >= -#[trigger] t.4[k]
    &&& (r == -INF || exists|k: int| 0 <= k < t.4.len() && r == -t.4[k])
}

/// What a quiescence node that searched its moves reports: its position and ply, its
/// base value, the legal moves it searched with the value each child search returned,
/// and a result that is the best of the base value and the negated child values.
spec fn q_children_ok(t: (Snap, u32, int, Seq<Move>, Seq<int>), s: Snap, ply: u32, base: int, r: i32) -> bool {
    &&& t.0 == s
    &&& t.1 == ply
    &&& t.2 == base
    &&& t.3.len() == t.4.len()
    &&& forall|k: int| 0 <= k < t.3.len() ==> pseudo_ok(s, #[trigger] t.3[k]) && legal_move(s, t.3[k])
    &&& r >= base
    &&& forall|k: int| 0 <= k < t.4.len() ==> r >= -#[trigger] t.4[k]
    &&& (r == base || exists|k: int| 0 <= k < t.4.len() && r == -t.4[k])
}

/// The mate-distance window at `ply` is empty: no score inside `alpha..beta` is
/// reachable from there.
spec fn window_closed(alpha: i32, beta: i32, ply: u32) -> bool {
    let lo = -MATE + ply;
    let hi = MATE - (ply + 1);
    let a = if lo > alpha { lo } else { alpha as int };
    let b = if hi < beta { hi } else { beta as int };
    a >= b
}

/// The ways a node ends without searching its moves: a repetition, the ply limit, an
/// empty mate window, no depth left, a table entry deep enough, no legal move, or a
/// null-move search that reached the (mate-narrowed) beta.
spec fn nm_early(
    s: Snap,
    st: Seq<StateInfo>,
    tt: TranspositionTable,
    key: u64,
    depth: i32,
    ply: u32,
    alpha: i32,
    beta: i32,
    r: i32,
) -> bool {
    let hi = MATE - (ply + 1);
    let b = if hi < beta { hi } else { beta as int };
    ||| ply > 0 && !(rep_result(st, s.side) is NoRepetition)
    ||| ply > 0 && ply >= MAX_PLY
    ||| ply > 0 && window_closed(alpha, beta, ply)
    ||| depth <= 0
    ||| deep_entry(tt, key, depth)
    ||| legal_moves(s).len() == 0
    ||| depth >= 3 && ply > 0 && r >= b
}

/// The table holds an entry for `key` searched to at least `depth`.
pub open spec fn deep_entry(tt: TranspositionTable, key: u64, depth: i32) -> bool {
    let e = tt.slots()[tt.slot_of(key)];
    e.bound != Bound::NoBound && e.key == key && e.depth >= depth
}

/// The side to move is in check, as the position's last record holds.
spec fn in_check_now(pos: Position) -> bool {
    !(pos.stack().last().checkers.p[0] == 0 && pos.stack().last().checkers.p[1] == 0)
}

/// The ordering score of `mv`: the stored best move first, then captures by victim and
/// attacker, promotions, the two killer moves, and the history score of other moves.
spec fn spec_score_move(history: Seq<i32>, us: u8, mv: Move, tt_move: Move, killers: [Move; 2]) -> int {
    if mv == tt_move {
        2_000_000
    } else if mv.spec_captured() != 0 {
        1_100_000 + spec_capture_gain(mv.spec_captured()) * 100 - spec_value(mv.spec_moved())
    } else if mv.spec_is_promotion() {
        60_000
    } else if mv == killers[0] {
        50_000
    } else if mv == killers[1] {
        49_000
    } else {
        history[crate::types::spec_make_piece(us, mv.spec_moved()) * 81 + mv.spec_to()] as int
    }
}

/// The killer pair after `mv` raised alpha: `mv` first and the previous first killer
/// second, unless `mv` already is the first killer.
spec fn spec_new_killers(k: [Move; 2], mv: Move) -> [Move; 2] {
    if k[0] != mv {
        [mv, k[0]]
    } else {
        k
    }
}

/// The history score after rewarding a move by the square of `depth`: added with
/// wrapping, then capped at 1,000,000.
spec fn spec_rewarded(v: i32, depth: i32) -> i32 {
    let w = vstd::wrapping::i32_specs::wrapping_add(v, vstd::wrapping::i32_specs::wrapping_mul(depth, depth));
    if w < 1_000_000 {
        w
    } else {
        1_000_000
    }
}

/// The tree a finished search call walked: a node that ended without searching its
/// moves is a leaf holding its position and the value it returned; a node that searched
/// its moves holds its position, its base value (what it is worth with no move searched),
/// the moves it searched, the subtree of each child search and the value it returned.
pub enum SearchTree {
    Leaf(Snap, int),
    Node(Snap, int, Seq<Move>, Seq<SearchTree>, int),
}

/// The value a search call returned at the root of `t`.
pub open spec fn tree_value(t: SearchTree) -> int {
    match t {
        SearchTree::Leaf(_, v) => v,
        SearchTree::Node(_, _, _, _, v) => v,
    }
}

/// `t` is a search of `s`: each searched move is a legal move of `s` whose subtree is a
/// search of the position after it, and the value of each node that searched its moves
/// is the best of its base value and the negated values of its children (fail-soft: at
/// least each of them, and equal to one of them or to the base value).
pub open spec fn tree_ok(t: SearchTree, s: Snap) -> bool
    decreases t,
{
    match t {
        SearchTree::Leaf(p, _) => p == s,
        SearchTree::Node(p, base, ms, cs, v) => {
            &&& p == s
            &&& ms.len() == cs.len()
            &&& forall|k: int| 0 <= k < ms.len() ==> legal_moves(s).contains(#[trigger] ms[k])
            &&& forall|k: int|
                0 <= k < cs.len() ==> tree_ok(#[trigger] cs[k], spec_apply(s, ms[k]))
            &&& v >= base
            &&& forall|k: int| 0 <= k < cs.len() ==> v >= -tree_value(#[trigger] cs[k])
            &&& (v == base || exists|k: int| 0 <= k < cs.len() && v == -tree_value(cs[k]))
        },
    }
}

/// The table holds an entry for `key` searched deeper than `depth`.
pub open spec fn kept_deeper(tt: TranspositionTable, key: u64, depth: i32) -> bool {
    let e = tt.slots()[tt.slot_of(key)];
    e.bound != Bound::NoBound && e.key == key && e.depth > depth
}

/// The node `t` took its value from a searched (non-empty) move, and the table stores
/// that move for `key` (unless `sure` fails and the table kept a deeper entry for `key`).
pub open spec fn best_stored(t: SearchTree, tt: TranspositionTable, key: u64, depth: i32, sure: bool) -> bool {
    match t {
        SearchTree::Node(_, _, ms, cs, v) => exists|k: int|
            0 <= k < ms.len() && v == -tree_value(#[trigger] cs[k]) && ms[k].0 != 0 && (stored_move(
                tt,
                key,
            ) == Some(ms[k]) || (!sure && kept_deeper(tt, key, depth))),
        SearchTree::Leaf(..) => false,
    }
}

/// `r` plays a root move of `t` of the best value: its score is the negated value of
/// that move's subtree, and no searched root move has a higher negated value.
pub open spec fn best_of_root(t: SearchTree, r: SearchResult) -> bool {
    match t {
        SearchTree::Node(_, _, ms, cs, _) => {
            &&& forall|j: int| 0 <= j < cs.len() ==> r.score_cp >= -tree_value(#[trigger] cs[j])
            &&& exists|k: int|
                0 <= k < ms.len() && r.best_move == ms[k] && r.score_cp == -tree_value(
                    #[trigger] cs[k],
                )
        },
        SearchTree::Leaf(..) => false,
    }
}

/// A node built from searched moves, their subtrees and their values is a search of `s`
/// when its value is the best of its base value and the negated child values.
proof fn lemma_node_ok(s: Snap, base: int, ms: Seq<Move>, cs: Seq<SearchTree>, vs: Seq<int>, v: int)
    requires
        ms.len() == cs.len(),
        cs.len() == vs.len(),
        forall|k: int| 0 <= k < ms.len() ==> legal_moves(s).contains(#[trigger] ms[k]),
        forall|k: int|
            0 <= k < cs.len() ==> tree_value(#[trigger] cs[k]) == vs[k] && tree_ok(
                cs[k],
                spec_apply(s, ms[k]),
            ),
        v >= base,
        forall|k: int| 0 <= k < vs.len() ==> v >= -#[trigger] vs[k],
        v == base || exists|k: int| 0 <= k < vs.len() && v == -vs[k],
    ensures
        tree_ok(SearchTree::Node(s, base, ms, cs, v), s),
{
    let t = SearchTree::Node(s, base, ms, cs, v);
    assert forall|k: int| 0 <= k < cs.len() implies v >= -tree_value(#[trigger] cs[k]) by {
        assert(tree_value(cs[k]) == vs[k]);
    }
    assert forall|k: int| 0 <= k < cs.len() implies tree_ok(#[trigger] cs[k], spec_apply(s, ms[k])) by {
        assert(tree_value(cs[k]) == vs[k]);
    }
    if v != base {
        let k = choose|k: int| 0 <= k < vs.len() && v == -vs[k];
        assert(tree_value(cs[k]) == vs[k]);
        assert(exists|k: int| 0 <= k < cs.len() && v == -tree_value(cs[k]));
    }
    assert(t matches SearchTree::Node(p, b, ms2, cs2, v2) && p == s && b == base && ms2 == ms && cs2 == cs && v2 == v);
    assert(tree_ok(t, s)) by {
        reveal_with_fuel(tree_ok, 2);
    }
}

/// What an iteration that searched the root's moves found: `t` is a search of the root
/// `s` whose value is the reported score, and when that score lies inside the full
/// window the reported move is a root move of the best value.
pub open spec fn root_found(t: SearchTree, s: Snap, r: SearchResult) -> bool {
    &&& tree_ok(t, s)
    &&& tree_value(t) == r.score_cp
    &&& (-INF < r.score_cp < INF ==> best_of_root(t, r))
}

/// A move with a piece in it is not the empty move.
proof fn lemma_moved_nonzero(m: Move)
    requires
        m.spec_moved() >= 1,
    ensures
        m.0 != 0,
{
    let x = m.0;
    assert(((x >> 16u32) & 0x1Fu32) < 32) by (bit_vector);
    assert(((x >> 16u32) & 0x1Fu32) != 0 ==> x != 0) by (bit_vector);
}

struct Searcher {
    deadline_ms: Option<u64>,
    node_limit: u64,
    nodes: u64,
    stopped: bool,
    killers: Vec<[Move; 2]>,
    /// Indexed by `piece * 81 + to`.
    history: Vec<i32>,
    seldepth: u32,
    /// The node that last finished by searching its moves: its position, depth and ply,
    /// the moves searched and the value each child search returned.
    trail: Ghost<Option<(Snap, i32, u32, Seq<Move>, Seq<int>)>>,
    /// The quiescence node that last finished by searching its moves: its position and
    /// ply, its base value (the static evaluation, or the mated score in check), the
    /// moves searched and the value each child search returned.
    qtrail: Ghost<Option<(Snap, u32, int, Seq<Move>, Seq<int>)>>,
    /// The tree the last finished search call walked.
    tree: Ghost<SearchTree>,
}

impl Searcher {
    /// No deadline and no node limit, and not stopped: nothing can stop this search.
    spec fn runs_free(&self) -> bool {
        &&& self.deadline_ms is None
        &&& self.node_limit == 0
        &&& !self.stopped
    }

    spec fn inv(&self) -> bool {
        &&& self.killers@.len() == MAX_PLY
        &&& self.history@.len() == 32 * 81
    }

    /// Stops the search once the deadline has passed or the node limit is reached.
    fn check_time<C: Clock>(&mut self, clock: &C)
        requires
            old(self).inv(),
        ensures
            final(self).inv(),
            old(self).runs_free() ==> final(self).runs_free(),
            final(self).nodes == old(self).nodes,
            final(self).seldepth == old(self).seldepth,
            final(self).stopped == (old(self).stopped || (old(self).node_limit > 0
                && old(self).nodes >= old(self).node_limit) || (final(self).stopped
                && old(self).deadline_ms is Some)),
    {
        if let Some(d) = self.deadline_ms {
            if clock.now_ms() >= d {
                self.stopped = true;
            }
        }
        if self.node_limit > 0 && self.nodes >= self.node_limit {
            self.stopped = true;
        }
    }

    /// Counts a node and, every 1024 nodes, looks at the clock and the node limit.
    fn count_node<C: Clock>(&mut self, clock: &C)
        requires
            old(self).inv(),
        ensures
            final(self).inv(),
            old(self).runs_free() ==> final(self).runs_free(),
            final(self).nodes == vstd::wrapping::u64_specs::wrapping_add(old(self).nodes, 1),
            old(self).stopped ==> final(self).stopped,
    {
        self.nodes = self.nodes.wrapping_add(1);
        if self.nodes & 1023 == 0 {
            self.check_time(clock);
        }
    }

    /// Ordering score of a capture: most valuable victim first, cheapest attacker next.
    fn score_capture(&self, mv: Move) -> (r: i32)
        requires
            mv.spec_captured() <= 14,
            mv.spec_moved() <= 14,
        ensures
            r == 100_000 + spec_capture_gain(mv.spec_captured()) * 100 - spec_value(mv.spec_moved()),
    {
        100_000 + capture_gain(mv.captured_piece_type()) * 100 - piece_value(mv.moved_piece_type())
    }

    /// Ordering score of a move: the stored best move, captures, promotions, the two
    /// killer moves, then the history score of the quiet move.
    fn score_move(&self, us: Color, mv: Move, tt_move: Move, killers: [Move; 2]) -> (r: i32)
        requires
            self.inv(),
            us <= 1,
            mv.spec_captured() <= 14,
            1 <= mv.spec_moved() <= 14,
            mv.spec_to() < 81,
        ensures
            r == spec_score_move(self.history@, us, mv, tt_move, killers),
    {
        if mv == tt_move {
            return 2_000_000;
        }
        if mv.is_capture() {
            return 1_000_000 + self.score_capture(mv);
        }
        if mv.is_promotion() {
            return 60_000;
        }
        if mv == killers[0] {
            return 50_000;
        }
        if mv == killers[1] {
            return 49_000;
        }
        let piece = make_piece(us, mv.moved_piece_type());
        proof {
            crate::types::lemma_piece_roundtrip(us, mv.spec_moved());
        }
        self.history[piece as usize * 81 + mv.to() as usize]
    }

    /// Remembers a quiet move that raised alpha at `ply`.
    fn update_killer(&mut self, ply: u32, mv: Move)
        requires
            old(self).inv(),
            ply < MAX_PLY,
        ensures
            final(self).inv(),
            old(self).runs_free() ==> final(self).runs_free(),
            final(self).nodes == old(self).nodes,
            final(self).stopped == old(self).stopped,
            final(self).seldepth == old(self).seldepth,
            final(self).killers@ == old(self).killers@.update(
                ply as int,
                spec_new_killers(old(self).killers@[ply as int], mv),
            ),
            final(self).history@ == old(self).history@,
    {
        let k = self.killers[ply as usize];
        let nk = if k[0] != mv {
            [mv, k[0]]
        } else {
            k
        };
        self.killers.set(ply as usize, nk);
    }

    /// Rewards a quiet move that raised alpha, by the square of the depth, up to a cap.
    fn update_history(&mut self, us: Color, mv: Move, depth: i32)
        requires
            old(self).inv(),
            us <= 1,
            1 <= mv.spec_moved() <= 14,
            mv.spec_to() < 81,
        ensures
            final(self).inv(),
            old(self).runs_free() ==> final(self).runs_free(),
            final(self).nodes == old(self).nodes,
            final(self).stopped == old(self).stopped,
            final(self).seldepth == old(self).seldepth,
            final(self).killers@ == old(self).killers@,
            ({
                let idx = crate::types::spec_make_piece(us, mv.spec_moved()) * 81 + mv.spec_to();
                final(self).history@ == old(self).history@.update(
                    idx,
                    spec_rewarded(old(self).history@[idx], depth),
                )
            }),
    {
        let piece = make_piece(us, mv.moved_piece_type());
        proof {
            crate::types::lemma_piece_roundtrip(us, mv.spec_moved());
        }
        let idx = piece as usize * 81 + mv.to() as usize;
        let v = self.history[idx].wrapping_add(depth.wrapping_mul(depth));
        let capped = if v < 1_000_000 {
            v
        } else {
            1_000_000
        };
        self.history.set(idx, capped);
    }

    /// Fail-soft alpha-beta on `depth` plies from `ply`, with the transposition table,
    /// repetition and mate-distance checks, null-move pruning, futility pruning of
    /// quiet moves near the leaves and reduced searches of late quiet moves.
    #[verifier::rlimit(60)]
    #[verifier::spinoff_prover]
    fn negamax<E: Evaluator, C: Clock>(
        &mut self,
        pos: &mut Position,
        tt: &mut TranspositionTable,
        eval: &mut E,
        clock: &C,
        depth: i32,
        ply: u32,
        alpha: i32,
        beta: i32,
    ) -> (r: i32)
        requires
            old(self).inv(),
            node_ok(*old(pos)),
            room(*old(pos), ply as int),
            ply <= MAX_PLY,
            tt_ok(*old(tt)),
            old(eval).frames() >= 1,
            -INF <= alpha < beta <= INF,
        ensures
            final(self).inv(),
            old(self).runs_free() ==> final(self).runs_free(),
            restored(*final(pos), *old(pos)),
            tt_ok(*final(tt)),
            final(eval).frames() == old(eval).frames(),
            score_ok(r as int, ply as int),
            old(self).stopped ==> final(self).stopped,
            !final(self).stopped && ply > 0 ==> match rep_result(old(pos).stack(), old(pos).snap().side) {
                Repetition::Draw => r == DRAW,
                Repetition::WinByPerpetual => r == MATE - ply,
                Repetition::LoseByPerpetual => r == -MATE + ply,
                Repetition::NoRepetition => true,
            },
            !final(self).stopped && 0 < depth && ply < MAX_PLY && (ply > 0 ==> rep_result(
                old(pos).stack(),
                old(pos).snap().side,
            ) is NoRepetition) && spec_checkers(old(pos).snap()) != Set::<int>::empty()
                && legal_moves(old(pos).snap()).len() == 0 && !deep_entry(
                *old(tt),
                key_of(*old(pos)),
                depth,
            ) && alpha <= -MATE + ply ==> r == -MATE + ply,
            !final(self).stopped && ply > 0 && ply >= MAX_PLY && rep_result(
                old(pos).stack(),
                old(pos).snap().side,
            ) is NoRepetition ==> r == old(eval).value(old(pos).snap()),
            final(self).trail@ matches Some(t) ==> children_ok(t, old(pos).snap(), depth, ply, r),
            !final(self).stopped ==> tree_ok(final(self).tree@, old(pos).snap()) && tree_value(
                final(self).tree@,
            ) == r,
            !final(self).stopped && final(self).trail@ is Some && r != -INF ==> best_stored(
                final(self).tree@,
                *final(tt),
                key_of(*old(pos)),
                depth,
                ply == 0 && alpha < r < beta,
            ),
            !final(self).stopped && final(self).trail@ is None ==> nm_early(
                old(pos).snap(),
                old(pos).stack(),
                *old(tt),
                key_of(*old(pos)),
                depth,
                ply,
                alpha,
                beta,
                r,
            ),
        decreases MAX_PLY - ply, 1int,
    {
        let ghost alpha0 = alpha;
        let ghost beta0 = beta;
        let mut alpha = alpha;
        let mut beta = beta;
        self.count_node(clock);
        if self.stopped {
            self.trail = Ghost(None);
            return 0;
        }
        if ply > self.seldepth {
            self.seldepth = ply;
        }
        if ply > 0 {
            match pos.detect_repetition() {
                Repetition::Draw => {
                    self.trail = Ghost(None);
                    self.tree = Ghost(SearchTree::Leaf(pos.snap(), DRAW as int));
                    return DRAW;
                },
                Repetition::WinByPerpetual => {
                    self.trail = Ghost(None);
                    let v: i32 = mate_in(ply);
                    self.tree = Ghost(SearchTree::Leaf(pos.snap(), v as int));
                    return v;
                },
                Repetition::LoseByPerpetual => {
                    self.trail = Ghost(None);
                    let v: i32 = mated_in(ply);
                    self.tree = Ghost(SearchTree::Leaf(pos.snap(), v as int));
                    return v;
                },
                Repetition::NoRepetition => {},
            }
            if ply as usize >= MAX_PLY {
                self.trail = Ghost(None);
                let v: i32 = eval.eval(pos);
                self.tree = Ghost(SearchTree::Leaf(pos.snap(), v as int));
                return v;
            }
            let lo = mated_in(ply);
            if lo > alpha {
                alpha = lo;
            }
            let hi = mate_in(ply + 1);
            if hi < beta {
                beta = hi;
            }
            if alpha >= beta {
                self.trail = Ghost(None);
                self.tree = Ghost(SearchTree::Leaf(pos.snap(), alpha as int));
                return alpha;
            }
        }
        if depth <= 0 {
            let q = self.qsearch(pos, eval, clock, ply, alpha, beta, 0);
            self.trail = Ghost(None);
            return q;
        }
        let ghost p0 = *pos;
        let ghost f0 = eval.frames();
        proof {
            pos.lemma_wf_board();
            lemma_fu_total_bound(pos.snap());
            tt.lemma_slot_in_range(pos.stack().last().board_key ^ pos.stack().last().hand_key);
        }
        let key = pos.key();
        let tt_entry = tt.probe(key);
        let mut tt_move = move_none();
        if let Some(e) = tt_entry {
            tt_move = e.mv;
            if e.depth >= depth {
                let score = score_from_tt(e.score, ply);
                match e.bound {
                    Bound::Exact => {
                        self.trail = Ghost(None);
                        self.tree = Ghost(SearchTree::Leaf(pos.snap(), score as int));
                        return score;
                    },
                    Bound::Lower => {
                        if score >= beta {
                            self.trail = Ghost(None);
                            self.tree = Ghost(SearchTree::Leaf(pos.snap(), score as int));
                            return score;
                        }
                    },
                    Bound::Upper => {
                        if score <= alpha {
                            self.trail = Ghost(None);
                            self.tree = Ghost(SearchTree::Leaf(pos.snap(), score as int));
                            return score;
                        }
                    },
                    Bound::NoBound => {},
                }
            }
        }
        let in_check = pos.in_check();
        let static_eval = if in_check {
            -MATE
        } else {
            eval.eval(pos)
        };
        let us = pos.side_to_move();
        if !in_check && depth >= 3 && ply > 0 && beta < MATE_IN_MAX_PLY && has_non_pawn_material(
            pos,
            us,
        ) {
            let r = 3 + depth / 6;
            proof {
                lemma_null_keeps_game_ok(pos.snap());
            }
            pos.do_null_move();
            let ghost p1 = *pos;
            let child = self.negamax(pos, tt, eval, clock, depth - 1 - r, ply + 1, -beta, -beta + 1);
            let score = -child;
            let ghost p2 = *pos;
            pos.undo_null_move();
            proof {
                p0.lemma_wf_board();
                assert(p2.stack() == p0.stack().push(p1.stack().last()));
                assert(p2.stack().drop_last() =~= p0.stack());
                assert(p2.snaps().drop_last() =~= p0.snaps());
                assert(pos.snap() == p0.snaps()[p0.snaps().len() - 1]);
            }
            if self.stopped {
                self.trail = Ghost(None);
                return 0;
            }
            if score >= beta {
                self.trail = Ghost(None);
                let v: i32 = if score >= MATE_IN_MAX_PLY {
                    beta
                } else {
                    score
                };
                self.tree = Ghost(SearchTree::Leaf(pos.snap(), v as int));
                return v;
            }
        }
        let mut moves: Vec<Move> = Vec::new();
        generate_legal(pos, &mut moves);
        if moves.len() == 0 {
            self.trail = Ghost(None);
            let v: i32 = mated_in(ply);
            self.tree = Ghost(SearchTree::Leaf(pos.snap(), v as int));
            return v;
        }
        let ghost s = pos.snap();
        let killers = self.killers[ply as usize];
        let mut scored: Vec<(Move, i32)> = Vec::new();
        let mut k: usize = 0;
        while k < moves.len()
            invariant
                k <= moves@.len(),
                self.inv(),
                us == s.side,
                us <= 1,
                moves@ == legal_moves(s),
                forall|j: int|
                    0 <= j < moves@.len() ==> pseudo_ok(s, #[trigger] moves@[j]) && legal_move(s, moves@[j]),
                forall|j: int|
                    0 <= j < scored@.len() ==> pseudo_ok(s, (#[trigger] scored@[j]).0) && legal_move(s, scored@[j].0)
                        && legal_moves(s).contains(scored@[j].0),
                scored@.len() == k,
            decreases moves.len() - k,
        {
            let m = moves[k];
            proof {
                assert(pseudo_ok(s, moves@[k as int]));
                assert(moves@[k as int] == m);
            }
            scored.push((m, self.score_move(us, m, tt_move, killers)));
            k = k + 1;
        }
        let ordered = sort_by_score(scored);
        let orig_alpha = alpha;
        let mut best_score: i32 = -INF;
        let mut best_move = move_none();
        let ghost mut tm: Seq<Move> = Seq::empty();
        let ghost mut tv: Seq<int> = Seq::empty();
        let ghost mut tc: Seq<SearchTree> = Seq::empty();
        let mut i: usize = 0;
        while i < ordered.len()
            invariant_except_break
                -INF <= alpha < beta <= INF,
            invariant
                self.inv(),
                node_ok(*pos),
                restored(*pos, p0),
                p0.wf(),
                p0 == *old(pos),
                f0 == old(eval).frames(),
                pos.snap() == s,
                s == p0.snap(),
                us == s.side,
                us <= 1,
                room(p0, ply as int),
                ply < MAX_PLY,
                1 <= depth,
                eval.frames() == f0,
                f0 >= 1,
                tt_ok(*tt),
                -INF <= orig_alpha <= alpha,
                beta <= INF,
                ply == 0 ==> orig_alpha == alpha0 && beta == beta0,
                best_score >= -INF,
                score_ok(best_score as int, ply as int),
                tm.len() == tv.len(),
                ordered@.len() > 0,
                i > 0 ==> tm.len() > 0,
                tm.len() == 0 ==> best_score == -INF,
                forall|k: int| 0 <= k < tm.len() ==> pseudo_ok(s, #[trigger] tm[k]) && legal_move(s, tm[k])
                    && legal_moves(s).contains(tm[k]),
                forall|k: int| 0 <= k < tv.len() ==> best_score >= -#[trigger] tv[k],
                best_score == -INF || exists|k: int| 0 <= k < tv.len() && best_score == -tv[k] && best_move == tm[k],
                tc.len() == tv.len(),
                forall|k: int| 0 <= k < tc.len() ==> tree_value(#[trigger] tc[k]) == tv[k] && tree_ok(tc[k], spec_apply(s, tm[k])),
                static_eval == -MATE || -EVAL_LIMIT <= static_eval <= EVAL_LIMIT,
                forall|j: int| 0 <= j < ordered@.len() ==> scored@.contains(#[trigger] ordered@[j]),
                forall|j: int|
                    0 <= j < scored@.len() ==> pseudo_ok(s, (#[trigger] scored@[j]).0) && legal_move(s, scored@[j].0)
                        && legal_moves(s).contains(scored@[j].0),
                old(self).stopped ==> self.stopped,
                old(self).runs_free() ==> self.runs_free(),
            ensures
                tm.len() > 0,
            decreases ordered.len() - i,
        {
            let mv = ordered[i].0;
            proof {
                assert(scored@.contains(ordered@[i as int]));
                let t = choose|t: int| 0 <= t < scored@.len() && scored@[t] == ordered@[i as int];
                assert(pseudo_ok(s, scored@[t].0) && legal_move(s, scored@[t].0));
                assert(legal_moves(s).contains(scored@[t].0));
            }
            let is_capture = mv.is_capture();
            let is_promo = mv.is_promotion();
            let quiet = !is_capture && !is_promo;
            if !in_check && depth <= 2 && quiet && i > 0 {
                let margin = 200 * depth;
                if static_eval + margin <= alpha {
                    i = i + 1;
                    continue;
                }
            }
            make_move(pos, eval, mv);
            let ghost p1 = *pos;
            let gives_check = pos.in_check();
            let mut new_depth = depth - 1;
            if gives_check && depth < 16 {
                new_depth = new_depth + 1;
            }
            let ghost mut v: int = 0;
            let score = if i >= 4 && depth >= 3 && quiet && !gives_check {
                let reduced = if new_depth - 1 > 0 {
                    new_depth - 1
                } else {
                    0
                };
                let c1 = self.negamax(pos, tt, eval, clock, reduced, ply + 1, -alpha - 1, -alpha);
                let s1 = -c1;
                if s1 > alpha && !self.stopped {
                    let c2 = self.negamax(pos, tt, eval, clock, new_depth, ply + 1, -beta, -alpha);
                    proof {
                        v = c2 as int;
                    }
                    -c2
                } else {
                    proof {
                        v = c1 as int;
                    }
                    s1
                }
            } else {
                let c = self.negamax(pos, tt, eval, clock, new_depth, ply + 1, -beta, -alpha);
                proof {
                    v = c as int;
                }
                -c
            };
            let ghost ct = self.tree@;
            proof {
                p1.lemma_wf_board();
                p0.lemma_wf_board();
            }
            let ghost p2 = *pos;
            unmake_move(pos, eval);
            proof {
                assert(p2.snaps() == p0.snaps().push(p1.snap()));
                assert(p2.snaps().drop_last() =~= p0.snaps());
                assert(pos.snap() == p0.snaps()[p0.snaps().len() - 1]);
            }
            if self.stopped {
                self.trail = Ghost(None);
                return 0;
            }
            let ghost old_tv = tv;
            let ghost old_tm = tm;
            let ghost old_tc = tc;
            let ghost old_best = best_score;
            let ghost old_bm = best_move;
            proof {
                assert(score_ok(v, ply + 1));
                assert(score == -v);
                assert(tree_ok(ct, spec_apply(s, mv)) && tree_value(ct) == v);
                tm = tm.push(mv);
                tv = tv.push(v);
                tc = tc.push(ct);
                assert(tm[tm.len() - 1] == mv);
                assert forall|k: int| 0 <= k < tc.len() implies tree_value(#[trigger] tc[k]) == tv[k]
                    && tree_ok(tc[k], spec_apply(s, tm[k])) by {
                    if k < old_tc.len() {
                        assert(tc[k] == old_tc[k] && tv[k] == old_tv[k] && tm[k] == old_tm[k]);
                    }
                }
            }
            if score > best_score {
                best_score = score;
                best_move = mv;
            }
            proof {
                assert(best_score >= -tv[tv.len() - 1]);
                if score > old_best {
                    assert(best_score == -tv[tv.len() - 1] && best_move == tm[tm.len() - 1]);
                } else if old_best != -INF {
                    let k = choose|k: int| 0 <= k < old_tv.len() && old_best == -old_tv[k] && old_bm == old_tm[k];
                    assert(tv[k] == old_tv[k] && tm[k] == old_tm[k]);
                    assert(0 <= k < tv.len() && best_score == -tv[k] && best_move == tm[k]);
                }
                assert forall|k: int| 0 <= k < tv.len() implies best_score >= -#[trigger] tv[k] by {
                    if k < old_tv.len() {
                        assert(tv[k] == old_tv[k]);
                    }
                }
            }
            if score > alpha {
                alpha = score;
                if quiet {
                    self.update_killer(ply, mv);
                    self.update_history(us, mv, depth);
                }
            }
            if alpha >= beta {
                break;
            }
            i = i + 1;
        }
        let bound = if best_score <= orig_alpha {
            Bound::Upper
        } else if best_score >= beta {
            Bound::Lower
        } else {
            Bound::Exact
        };
        let stored = score_to_tt(best_score, ply);
        let ghost t0 = *tt;
        proof {
            t0.lemma_slot_in_range(key);
        }
        tt.store(key, best_move, stored, static_eval, depth, bound);
        proof {
            let at = t0.slot_of(key);
            assert forall|j: int| 0 <= j < tt.slots().len() implies -SCORE_CAP <= #[trigger] tt.slots()[j].score <= SCORE_CAP by {
                if j != at {
                    assert(tt.slots()[j] == t0.slots()[j]);
                }
            }
        }
        proof {
            if best_score != -INF {
                let k = choose|k: int| 0 <= k < tv.len() && best_score == -tv[k];
                assert(0 <= k < tv.len() && best_score == -tv[k]);
            }
            assert(s == old(pos).snap());
            assert(tm.len() == tv.len());
            assert(tm.len() > 0);
            assert(forall|k: int| 0 <= k < tm.len() ==> pseudo_ok(s, #[trigger] tm[k]) && legal_move(s, tm[k]));
            assert(forall|k: int| 0 <= k < tv.len() ==> best_score >= -#[trigger] tv[k]);
            assert(best_score == -INF || exists|k: int| 0 <= k < tv.len() && best_score == -tv[k]);
            let t = (s, depth, ply, tm, tv);
            assert(t.4 == tv);
            assert(children_ok(t, old(pos).snap(), depth, ply, best_score));
        }
        self.trail = Ghost(Some((s, depth, ply, tm, tv)));
        self.tree = Ghost(SearchTree::Node(s, -INF as int, tm, tc, best_score as int));
        proof {
            let node = SearchTree::Node(s, -INF as int, tm, tc, best_score as int);
            lemma_node_ok(s, -INF as int, tm, tc, tv, best_score as int);
            if best_score != -INF {
                let sure = ply == 0 && alpha0 < best_score < beta0;
                let k = choose|k: int| 0 <= k < tv.len() && best_score == -tv[k] && best_move == tm[k];
                assert(tree_value(tc[k]) == tv[k]);
                lemma_moved_nonzero(best_move);
                assert(stored_move(*tt, key) == Some(best_move) || (!sure && kept_deeper(*tt, key, depth)));
                assert(best_stored(node, *tt, key, depth, sure));
            }
        }
        best_score
    }

    /// The principal variation read back from the table: from the current position,
    /// follow the stored best moves while they are legal, until `max_len` moves, a
    /// repeated position or a missing entry (or until the record stack is full).
    fn extract_pv(&self, pos: &mut Position, tt: &TranspositionTable, max_len: u32) -> (r: Vec<Move>)
        requires
            node_ok(*old(pos)),
            old(pos).stack().len() + 64 < MAX_STACK,
            tt.wf(),
        ensures
            restored(*final(pos), *old(pos)),
            r@.len() <= max_len,
            line_ok(old(pos).snap(), r@),
            r@.len() > 0 ==> stored_move(*tt, key_of(*old(pos))) == Some(r@[0]),
            stored_line_starts(*tt, *old(pos), max_len) ==> r@.len() > 0,
    {
        broadcast use vstd::std_specs::hash::group_hash_axioms;

        let ghost p0 = *pos;
        let ghost cond0 = stored_line_starts(*tt, p0, max_len);
        let ghost s0 = pos.snap();
        let ghost n0 = pos.stack().len();
        proof {
            pos.lemma_wf_board();
        }
        let mut pv: Vec<Move> = Vec::new();
        let mut seen: std::collections::HashSet<u64> = std::collections::HashSet::new();
        while pv.len() < max_len as usize && pos.game_ply_depth() + 64 < MAX_STACK
            invariant
                pos.wf(),
                game_ok(pos.snap()),
                p0.wf(),
                s0 == p0.snap(),
                n0 == p0.stack().len(),
                tt.wf(),
                pv@.len() <= max_len,
                pos.stack().len() <= MAX_STACK,
                pos.stack().len() == n0 + pv@.len(),
                pos.snaps().len() == pos.stack().len(),
                pos.stack().subrange(0, n0 as int) == p0.stack(),
                pos.snaps().subrange(0, n0 as int) == p0.snaps(),
                forall|k: int| n0 <= k < pos.stack().len() ==> (#[trigger] pos.stack()[k]).last_move.0 != MOVE_NULL_BITS,
                pos.snap() == play_line(s0, pv@),
                line_ok(s0, pv@),
                cond0 == stored_line_starts(*tt, p0, max_len),
                n0 + 64 < MAX_STACK,
                cond0 && pv@.len() == 0 ==> seen@ == Set::<u64>::empty(),
                pv@.len() > 0 ==> stored_move(*tt, key_of(p0)) == Some(pv@[0]),
            ensures
                cond0 ==> pv@.len() > 0,
            decreases max_len - pv@.len(),
        {
            proof {
                if pv@.len() == 0 {
                    assert(pos.stack() =~= pos.stack().subrange(0, n0 as int));
                }
            }
            let key = pos.key();
            if !seen.insert(key) {
                break;
            }
            let entry = match tt.probe(key) {
                Some(e) => e,
                None => {
                    break;
                },
            };
            if entry.mv.is_none() {
                break;
            }
            proof {
                pos.lemma_wf_board();
                lemma_fu_total_bound(pos.snap());
            }
            let mut legal: Vec<Move> = Vec::new();
            generate_legal(pos, &mut legal);
            let mut found = false;
            let mut j: usize = 0;
            while j < legal.len()
                invariant
                    j <= legal@.len(),
                    found ==> legal@.contains(entry.mv),
                    !found ==> forall|t: int| 0 <= t < j ==> legal@[t] != entry.mv,
                decreases legal.len() - j,
            {
                if legal[j] == entry.mv {
                    found = true;
                }
                j = j + 1;
            }
            if !found {
                break;
            }
            let ghost before = *pos;
            let ghost t = choose|t: int| 0 <= t < legal@.len() && legal@[t] == entry.mv;
            proof {
                assert(pseudo_ok(before.snap(), legal@[t]) && legal_move(before.snap(), legal@[t]));
                lemma_legal_keeps_game_ok(before.snap(), entry.mv);
            }
            pos.do_move(entry.mv);
            let ghost old_pv = pv@;
            pv.push(entry.mv);
            proof {
                assert(pv@.drop_last() =~= old_pv);
                assert(pos.stack().subrange(0, n0 as int) =~= before.stack().subrange(0, n0 as int));
                assert(pos.snaps().subrange(0, n0 as int) =~= before.snaps().subrange(0, n0 as int));
                assert forall|k: int| n0 <= k < pos.stack().len() implies (#[trigger] pos.stack()[k]).last_move.0 != MOVE_NULL_BITS by {
                    if k < pos.stack().len() - 1 {
                        assert(pos.stack()[k] == before.stack()[k]);
                    }
                }
            }
        }
        let ghost line = pv@;
        let mut m: usize = pv.len();
        while m > 0
            invariant
                pos.wf(),
                p0.wf(),
                m <= pv@.len(),
                pos.stack().len() == n0 + m,
                pos.snaps().len() == pos.stack().len(),
                pos.stack().subrange(0, n0 as int) == p0.stack(),
                pos.snaps().subrange(0, n0 as int) == p0.snaps(),
                forall|k: int| n0 <= k < pos.stack().len() ==> (#[trigger] pos.stack()[k]).last_move.0 != MOVE_NULL_BITS,
                n0 == p0.stack().len(),
                n0 >= 1,
            decreases m,
        {
            let ghost before = *pos;
            proof {
                pos.lemma_wf_board();
            }
            pos.undo_move();
            m = m - 1;
            proof {
                assert(pos.stack().subrange(0, n0 as int) =~= before.stack().subrange(0, n0 as int));
                assert(pos.snaps().subrange(0, n0 as int) =~= before.snaps().subrange(0, n0 as int));
                assert forall|k: int| n0 <= k < pos.stack().len() implies (#[trigger] pos.stack()[k]).last_move.0 != MOVE_NULL_BITS by {
                    assert(pos.stack()[k] == before.stack()[k]);
                }
            }
        }
        proof {
            pos.lemma_wf_board();
            p0.lemma_wf_board();
            assert(pos.stack() =~= p0.stack());
            assert(pos.snaps() =~= p0.snaps());
        }
        pv
    }

    /// Captures (and, in check, every evasion) until the position is quiet; the side
    /// to move may also stand pat on the static evaluation.
    fn qsearch<E: Evaluator, C: Clock>(
        &mut self,
        pos: &mut Position,
        eval: &mut E,
        clock: &C,
        ply: u32,
        alpha: i32,
        beta: i32,
        qply: i32,
    ) -> (r: i32)
        requires
            old(self).inv(),
            node_ok(*old(pos)),
            room(*old(pos), ply as int),
            ply <= MAX_PLY,
            old(eval).frames() >= 1,
            -INF <= alpha < beta <= INF,
            0 <= qply,
        ensures
            final(self).inv(),
            old(self).runs_free() ==> final(self).runs_free(),
            restored(*final(pos), *old(pos)),
            final(eval).frames() == old(eval).frames(),
            score_ok(r as int, ply as int),
            old(self).stopped ==> final(self).stopped,
            !final(self).stopped && ply < MAX_PLY && qply < 8 && in_check_now(*old(pos))
                && legal_moves(old(pos).snap()).len() == 0 ==> r == -MATE + ply,
            !final(self).stopped && (ply >= MAX_PLY || qply >= 8) ==> r == old(eval).value(
                old(pos).snap(),
            ),
            !final(self).stopped ==> tree_ok(final(self).tree@, old(pos).snap()) && tree_value(
                final(self).tree@,
            ) == r,
            final(self).qtrail@ matches Some(t) ==> q_children_ok(
                t,
                old(pos).snap(),
                ply,
                if in_check_now(*old(pos)) {
                    -MATE + ply
                } else {
                    old(eval).value(old(pos).snap())
                },
                r,
            ),
            !final(self).stopped && final(self).qtrail@ is None ==> {
                ||| (ply >= MAX_PLY || qply >= 8) && r == old(eval).value(old(pos).snap())
                ||| !in_check_now(*old(pos)) && r == old(eval).value(old(pos).snap()) && r >= beta
                ||| in_check_now(*old(pos)) && legal_moves(old(pos).snap()).len() == 0 && r == -MATE
                    + ply
            },
        decreases MAX_PLY - ply, 0int,
    {
        let mut alpha = alpha;
        self.count_node(clock);
        if self.stopped {
            self.qtrail = Ghost(None);
            return 0;
        }
        if ply > self.seldepth {
            self.seldepth = ply;
        }
        if ply as usize >= MAX_PLY || qply >= 8 {
            self.qtrail = Ghost(None);
            let v: i32 = eval.eval(pos);
            self.tree = Ghost(SearchTree::Leaf(pos.snap(), v as int));
            return v;
        }
        let ghost p0 = *pos;
        let ghost f0 = eval.frames();
        proof {
            pos.lemma_wf_board();
            lemma_fu_total_bound(pos.snap());
        }
        let in_check = pos.in_check();
        let mut best: i32;
        if !in_check {
            let stand_pat = eval.eval(pos);
            if stand_pat >= beta {
                self.qtrail = Ghost(None);
                self.tree = Ghost(SearchTree::Leaf(pos.snap(), stand_pat as int));
                return stand_pat;
            }
            if stand_pat > alpha {
                alpha = stand_pat;
            }
            best = stand_pat;
        } else {
            best = mated_in(ply);
        }
        let mut moves: Vec<Move> = Vec::new();
        generate_legal(pos, &mut moves);
        if in_check && moves.len() == 0 {
            self.qtrail = Ghost(None);
            let v: i32 = mated_in(ply);
            self.tree = Ghost(SearchTree::Leaf(pos.snap(), v as int));
            return v;
        }
        let ghost s = pos.snap();
        let mut scored: Vec<(Move, i32)> = Vec::new();
        let mut k: usize = 0;
        while k < moves.len()
            invariant
                k <= moves@.len(),
                moves@ == legal_moves(s),
                forall|j: int|
                    0 <= j < moves@.len() ==> pseudo_ok(s, #[trigger] moves@[j]) && legal_move(s, moves@[j]),
                forall|j: int|
                    0 <= j < scored@.len() ==> pseudo_ok(s, (#[trigger] scored@[j]).0) && legal_move(s, scored@[j].0)
                        && legal_moves(s).contains(scored@[j].0),
            decreases moves.len() - k,
        {
            let m = moves[k];
            proof {
                assert(moves@[k as int] == m);
            }
            if in_check || m.is_capture() || (m.is_promotion() && (m.moved_piece_type() == FU
                || m.moved_piece_type() == KAKU || m.moved_piece_type() == HI)) {
                scored.push((m, self.score_capture(m)));
            }
            k = k + 1;
        }
        let candidates = sort_by_score(scored);
        let ghost base: int = best as int;
        let ghost mut tm: Seq<Move> = Seq::empty();
        let ghost mut tv: Seq<int> = Seq::empty();
        let ghost mut tc: Seq<SearchTree> = Seq::empty();
        let mut i: usize = 0;
        while i < candidates.len()
            invariant_except_break
                -INF <= alpha < beta <= INF,
            invariant
                self.inv(),
                node_ok(*pos),
                restored(*pos, p0),
                pos.snap() == s,
                s == p0.snap(),
                room(p0, ply as int),
                ply < MAX_PLY,
                eval.frames() == f0,
                f0 >= 1,
                score_ok(best as int, ply as int),
                0 <= qply < 8,
                p0.wf(),
                p0 == *old(pos),
                f0 == old(eval).frames(),
                base == (if in_check_now(*old(pos)) {
                    -MATE + ply
                } else {
                    old(eval).value(old(pos).snap())
                }),
                best >= base,
                tm.len() == tv.len(),
                forall|k: int| 0 <= k < tm.len() ==> pseudo_ok(s, #[trigger] tm[k]) && legal_move(s, tm[k])
                    && legal_moves(s).contains(tm[k]),
                tc.len() == tv.len(),
                forall|k: int| 0 <= k < tc.len() ==> tree_value(#[trigger] tc[k]) == tv[k] && tree_ok(tc[k], spec_apply(s, tm[k])),
                forall|k: int| 0 <= k < tv.len() ==> best >= -#[trigger] tv[k],
                best == base || exists|k: int| 0 <= k < tv.len() && best == -tv[k],
                forall|j: int| 0 <= j < candidates@.len() ==> scored@.contains(#[trigger] candidates@[j]),
                forall|j: int|
                    0 <= j < scored@.len() ==> pseudo_ok(s, (#[trigger] scored@[j]).0) && legal_move(s, scored@[j].0)
                        && legal_moves(s).contains(scored@[j].0),
                old(self).stopped ==> self.stopped,
                old(self).runs_free() ==> self.runs_free(),
            decreases candidates.len() - i,
        {
            let mv = candidates[i].0;
            proof {
                assert(scored@.contains(candidates@[i as int]));
                let t = choose|t: int| 0 <= t < scored@.len() && scored@[t] == candidates@[i as int];
                assert(pseudo_ok(s, scored@[t].0) && legal_move(s, scored@[t].0));
                assert(legal_moves(s).contains(scored@[t].0));
            }
            if !in_check && mv.is_capture() {
                let gain = capture_gain(mv.captured_piece_type());
                if best + gain + 200 <= alpha {
                    i = i + 1;
                    continue;
                }
            }
            make_move(pos, eval, mv);
            let ghost p1 = *pos;
            let child = self.qsearch(pos, eval, clock, ply + 1, -beta, -alpha, qply + 1);
            let score = -child;
            let ghost v: int = child as int;
            let ghost ct = self.tree@;
            proof {
                p1.lemma_wf_board();
                p0.lemma_wf_board();
            }
            let ghost p2 = *pos;
            unmake_move(pos, eval);
            proof {
                assert(p2.snaps() == p0.snaps().push(p1.snap()));
                assert(p2.snaps().drop_last() =~= p0.snaps());
                assert(pos.snap() == p0.snaps()[p0.snaps().len() - 1]);
            }
            if self.stopped {
                self.qtrail = Ghost(None);
                return 0;
            }
            let ghost old_tv = tv;
            let ghost old_tm = tm;
            let ghost old_tc = tc;
            let ghost old_best = best;
            proof {
                assert(score == -v);
                assert(tree_ok(ct, spec_apply(s, mv)) && tree_value(ct) == v);
                tm = tm.push(mv);
                tv = tv.push(v);
                tc = tc.push(ct);
                assert(tm[tm.len() - 1] == mv);
                assert forall|k: int| 0 <= k < tc.len() implies tree_value(#[trigger] tc[k]) == tv[k]
                    && tree_ok(tc[k], spec_apply(s, tm[k])) by {
                    if k < old_tc.len() {
                        assert(tc[k] == old_tc[k] && tv[k] == old_tv[k] && tm[k] == old_tm[k]);
                    }
                }
            }
            if score > best {
                best = score;
                if score > alpha {
                    alpha = score;
                }
            }
            proof {
                assert(best >= -tv[tv.len() - 1]);
                if best == score {
                    assert(best == -tv[tv.len() - 1]);
                } else if old_best != base {
                    let k = choose|k: int| 0 <= k < old_tv.len() && old_best == -old_tv[k];
                    assert(tv[k] == old_tv[k]);
                    assert(0 <= k < tv.len() && best == -tv[k]);
                }
                assert forall|k: int| 0 <= k < tv.len() implies best >= -#[trigger] tv[k] by {
                    if k < old_tv.len() {
                        assert(tv[k] == old_tv[k]);
                    }
                }
            }
            if alpha >= beta {
                break;
            }
            i = i + 1;
        }
        proof {
            if best != base {
                let k = choose|k: int| 0 <= k < tv.len() && best == -tv[k];
                assert(0 <= k < tv.len() && best == -tv[k]);
            }
            assert(best == base || exists|k: int| 0 <= k < tv.len() && best == -tv[k]);
            let t = (s, ply, base, tm, tv);
            assert(t.4 == tv);
            assert(q_children_ok(t, old(pos).snap(), ply, base, best));
        }
        self.qtrail = Ghost(Some((s, ply, base, tm, tv)));
        self.tree = Ghost(SearchTree::Node(s, base, tm, tc, best as int));
        proof {
            lemma_node_ok(s, base, tm, tc, tv, best as int);
        }
        best
    }
}


/// A copy of a move list.
fn copy_moves(v: &Vec<Move>) -> (r: Vec<Move>)
    ensures
        r@ == v@,
{
    let mut r: Vec<Move> = Vec::new();
    let mut i: usize = 0;
    while i < v.len()
        invariant
            i <= v@.len(),
            r@ == v@.take(i as int),
        decreases v.len() - i,
    {
        r.push(v[i]);
        i = i + 1;
        proof {
            assert(r@ =~= v@.take(i as int));
        }
    }
    proof {
        assert(v@.take(v@.len() as int) =~= v@);
    }
    r
}

/// An iterative-deepening search in progress: each `step` searches one ply deeper
/// and reports the finished iteration, so that a caller can show progress between
/// iterations.
pub struct SearchRun {
    searcher: Searcher,
    best: SearchResult,
    depth: u32,
    max_depth: u32,
    start: u64,
    movetime_ms: u32,
    done: bool,
    root: Ghost<Snap>,
    /// The root's search tree in the last finished iteration, if it searched its moves.
    last: Ghost<Option<SearchTree>>,
}

impl SearchRun {
    /// The position the search started from.
    pub closed spec fn root(&self) -> Snap {
        self.root@
    }

    /// The tree the last finished iteration walked from the root, when that iteration
    /// searched the root's moves.
    pub closed spec fn last_tree(&self) -> Option<SearchTree> {
        self.last@
    }

    /// The result so far.
    pub closed spec fn best(&self) -> SearchResult {
        self.best
    }

    /// Depth of the last iteration started.
    pub closed spec fn depth(&self) -> u32 {
        self.depth
    }

    /// Iterations that may still run (the last call of `step` reports none).
    pub closed spec fn steps_left(&self) -> nat {
        if self.done {
            0
        } else {
            (self.max_depth - self.depth + 1) as nat
        }
    }

    /// The deepest iteration this search may run.
    pub closed spec fn max_depth(&self) -> u32 {
        self.max_depth
    }

    /// No movetime, no deadline and no node limit: only the depth limit or a mate ends
    /// this search.
    pub closed spec fn unlimited(&self) -> bool {
        &&& self.searcher.runs_free()
        &&& self.movetime_ms == 0
    }

    pub closed spec fn inv(&self) -> bool {
        &&& self.searcher.inv()
        &&& result_ok(self.best, self.root@)
        &&& self.depth <= self.max_depth
        &&& 1 <= self.max_depth
        &&& (self.depth >= 1 ==> 1 <= self.best.depth <= self.depth)
        &&& (self.unlimited() ==> !self.best.aborted && (self.depth >= 1 ==> self.best.depth
            == self.depth))
        &&& (self.unlimited() && self.done ==> self.depth == self.max_depth || spec_mate_in_plies(
            self.best.score_cp as int,
        ) != 0)
        &&& (self.last@ matches Some(t) ==> root_found(t, self.root@, self.best))
    }

    /// Starts a search of `pos` within `limits`: resets the evaluator, reads the clock
    /// and takes the first legal move as the answer until an iteration finishes.
    pub fn start<E: Evaluator, C: Clock>(
        pos: &mut Position,
        eval: &mut E,
        tt: &TranspositionTable,
        limits: Limits,
        clock: &C,
    ) -> (r: SearchRun)
        requires
            node_ok(*old(pos)),
            room(*old(pos), 0),
        ensures
            r.inv(),
            r.root() == old(pos).snap(),
            r.depth() == 0,
            r.steps_left() > 0,
            restored(*final(pos), *old(pos)),
            final(eval).frames() == 1,
            r.max_depth() == (if limits.max_depth > 0 {
                limits.max_depth
            } else {
                MAX_PLY as u32
            }),
            limits.movetime_ms == 0 && limits.node_limit == 0 ==> r.unlimited(),
    {
        eval.refresh(pos);
        let start = clock.now_ms();
        let deadline = if limits.movetime_ms > 0 {
            Some(start.saturating_add(limits.movetime_ms as u64))
        } else {
            None
        };
        let max_depth = if limits.max_depth > 0 {
            limits.max_depth
        } else {
            MAX_PLY as u32
        };
        let mut killers: Vec<[Move; 2]> = Vec::new();
        while killers.len() < MAX_PLY
            invariant
                killers@.len() <= MAX_PLY,
            decreases MAX_PLY - killers@.len(),
        {
            killers.push([move_none(), move_none()]);
        }
        let mut history: Vec<i32> = Vec::new();
        while history.len() < 32 * 81
            invariant
                history@.len() <= 32 * 81,
            decreases 32 * 81 - history@.len(),
        {
            history.push(0);
        }
        let searcher = Searcher {
            deadline_ms: deadline,
            node_limit: limits.node_limit,
            nodes: 0,
            stopped: false,
            killers,
            history,
            seldepth: 0,
            trail: Ghost(None),
            qtrail: Ghost(None),
            tree: Ghost(SearchTree::Leaf(pos.snap(), 0)),
        };
        proof {
            pos.lemma_wf_board();
            lemma_fu_total_bound(pos.snap());
        }
        let mut fallback: Vec<Move> = Vec::new();
        generate_legal(pos, &mut fallback);
        let best_move = if fallback.len() > 0 {
            fallback[0]
        } else {
            move_none()
        };
        proof {
            if fallback.len() > 0 {
                assert(legal_moves(pos.snap()).contains(fallback@[0]));
            }
        }
        let best = SearchResult {
            best_move,
            score_cp: 0,
            mate_in: 0,
            depth: 0,
            nodes: 0,
            elapsed_ms: 0,
            aborted: false,
            pv: Vec::new(),
        };
        SearchRun {
            searcher,
            best,
            depth: 0,
            max_depth,
            start,
            movetime_ms: limits.movetime_ms,
            done: false,
            root: Ghost(pos.snap()),
            last: Ghost(None),
        }
    }

    /// Runs the next iteration, one ply deeper, and reports it; `None` once the search
    /// is over (depth limit reached, stopped, a mate found, or too little time left
    /// for another iteration). An iteration deeper than the first that is cut short
    /// is dropped and marks the result aborted.
    pub fn step<E: Evaluator, C: Clock>(
        &mut self,
        pos: &mut Position,
        eval: &mut E,
        tt: &mut TranspositionTable,
        clock: &C,
    ) -> (r: Option<SearchInfo>)
        requires
            old(self).inv(),
            node_ok(*old(pos)),
            old(pos).snap() == old(self).root(),
            room(*old(pos), 0),
            tt_ok(*old(tt)),
            old(eval).frames() >= 1,
        ensures
            final(self).inv(),
            final(self).root() == old(self).root(),
            restored(*final(pos), *old(pos)),
            tt_ok(*final(tt)),
            final(eval).frames() == old(eval).frames(),
            old(self).steps_left() == 0 ==> r is None && final(self).steps_left() == 0,
            old(self).steps_left() > 0 ==> final(self).steps_left() < old(self).steps_left(),
            old(self).depth() == 0 && old(self).steps_left() > 0 ==> final(self).depth() == 1,
            final(self).depth() >= old(self).depth(),
            old(self).steps_left() > 0 && r is Some ==> final(self).depth() == old(self).depth() + 1,
            final(self).max_depth() == old(self).max_depth(),
            old(self).unlimited() ==> final(self).unlimited(),
            r matches Some(i) ==> info_ok(i, old(self).root()) && i.depth == final(self).depth()
                && i.pv@ == final(self).best().pv@ && i.score_cp == final(self).best().score_cp,
            final(self).last_tree() matches Some(t) ==> root_found(t, old(self).root(), final(self).best()),
            r is Some ==> final(self).last_tree() is Some || final(self).best().aborted || legal_moves(
                old(self).root(),
            ).len() == 0 || deep_entry(*old(tt), key_of(*old(pos)), final(self).depth() as i32)
                || final(self).depth() as i32 <= 0,
    {
        if self.done || self.depth >= self.max_depth {
            self.done = true;
            return None;
        }
        let depth = self.depth + 1;
        self.depth = depth;
        self.searcher.seldepth = 0;
        let score = self.searcher.negamax(pos, tt, eval, clock, depth as i32, 0, -INF, INF);
        let ghost tree = self.searcher.tree@;
        let ghost searched = !self.searcher.stopped && self.searcher.trail@ is Some;
        if self.searcher.stopped && depth > 1 {
            self.best.aborted = true;
            self.done = true;
            return None;
        }
        proof {
            pos.lemma_wf_board();
        }
        let max_len = if depth > 1 {
            depth
        } else {
            1
        };
        proof {
            if searched && -INF < score < INF {
                let ms = tree->Node_2;
                let cs = tree->Node_3;
                let k = choose|k: int|
                    0 <= k < ms.len() && score == -tree_value(#[trigger] cs[k]) && ms[k].0 != 0
                        && stored_move(*tt, key_of(*pos)) == Some(ms[k]);
                assert(legal_moves(pos.snap()).contains(ms[k]));
                assert(stored_line_starts(*tt, *pos, max_len));
            }
        }
        let pv = self.searcher.extract_pv(pos, tt, max_len);
        let now = clock.now_ms();
        let used = now.saturating_sub(self.start);
        let elapsed: u32 = if used > u32::MAX as u64 {
            u32::MAX
        } else {
            used as u32
        };
        let best_move = if pv.len() > 0 {
            pv[0]
        } else {
            self.best.best_move
        };
        proof {
            if pv@.len() > 0 {
                lemma_line_first(self.root@, pv@);
            }
        }
        let mate = mate_in_plies(score);
        let ghost old_best = self.best;
        self.best = SearchResult {
            best_move,
            score_cp: score,
            mate_in: mate,
            depth,
            nodes: self.searcher.nodes,
            elapsed_ms: elapsed,
            aborted: self.searcher.stopped,
            pv: copy_moves(&pv),
        };
        let info = SearchInfo {
            depth,
            seldepth: self.searcher.seldepth,
            score_cp: score,
            mate_in: mate,
            nodes: self.searcher.nodes,
            elapsed_ms: elapsed,
            pv,
        };
        self.last = Ghost(
            if searched {
                Some(tree)
            } else {
                None
            },
        );
        proof {
            if searched && -INF < score < INF {
                let ms = tree->Node_2;
                let cs = tree->Node_3;
                let k = choose|k: int|
                    0 <= k < ms.len() && score == -tree_value(#[trigger] cs[k]) && ms[k].0 != 0
                        && stored_move(*tt, key_of(*pos)) == Some(ms[k]);
                assert(self.best.best_move == ms[k]);
                assert(best_of_root(tree, self.best));
            }
        }
        if self.searcher.stopped || mate != 0 {
            self.done = true;
        } else if self.movetime_ms > 0 {
            if let Some(deadline) = self.searcher.deadline_ms {
                let now = clock.now_ms();
                let used = now as i128 - self.start as i128;
                let remaining = deadline as i128 - now as i128;
                if 2 * remaining < used {
                    self.done = true;
                }
            }
        }
        Some(info)
    }

    /// False once `step` has reported the end of the search.
    pub fn running(&self) -> (r: bool)
        requires
            self.inv(),
        ensures
            r == (self.steps_left() > 0),
    {
        !self.done
    }

    /// The result of the iterations finished so far.
    pub fn result(&self) -> (r: SearchResult)
        requires
            self.inv(),
        ensures
            result_ok(r, self.root()),
            self.unlimited() ==> !r.aborted && (self.depth() >= 1 ==> r.depth == self.depth()),
            self.unlimited() && self.steps_left() == 0 ==> r.depth == self.max_depth() || r.mate_in != 0,
            r.best_move == self.best().best_move,
            r.score_cp == self.best().score_cp,
            r.depth == self.best().depth,
            r.nodes == self.best().nodes,
            r.aborted == self.best().aborted,
            r.pv@ == self.best().pv@,
            self.last_tree() matches Some(t) ==> root_found(t, self.root(), r),
    {
        SearchResult {
            best_move: self.best.best_move,
            score_cp: self.best.score_cp,
            mate_in: self.best.mate_in,
            depth: self.best.depth,
            nodes: self.best.nodes,
            elapsed_ms: self.best.elapsed_ms,
            aborted: self.best.aborted,
            pv: copy_moves(&self.best.pv),
        }
    }
}

/// Searches `pos` within `limits` and returns the move to play. The position is
/// searched one ply deeper per iteration until a limit is reached or a mate is found;
/// the position, the record stack and the table's soundness are unchanged afterwards.
pub fn search<E: Evaluator, C: Clock>(
    pos: &mut Position,
    eval: &mut E,
    tt: &mut TranspositionTable,
    limits: Limits,
    clock: &C,
) -> (r: SearchResult)
    requires
        node_ok(*old(pos)),
        room(*old(pos), 0),
        tt_ok(*old(tt)),
    ensures
        restored(*final(pos), *old(pos)),
        tt_ok(*final(tt)),
        final(eval).frames() == 1,
        result_ok(r, old(pos).snap()),
        r.depth >= 1,
        limits.movetime_ms == 0 && limits.node_limit == 0 && limits.max_depth >= 1 ==> !r.aborted
            && r.depth <= limits.max_depth && (r.depth < limits.max_depth ==> r.mate_in != 0),
{
    let mut run = SearchRun::start(pos, eval, tt, limits, clock);
    let ghost p0 = *pos;
    proof {
        p0.lemma_wf_board();
    }
    while run.running()
        invariant
            run.inv(),
            run.root() == p0.snap(),
            restored(*pos, p0),
            node_ok(*pos),
            room(*pos, 0),
            tt_ok(*tt),
            eval.frames() == 1,
            run.depth() >= 1 || run.steps_left() > 0,
            run.max_depth() == (if limits.max_depth > 0 {
                limits.max_depth
            } else {
                MAX_PLY as u32
            }),
            limits.movetime_ms == 0 && limits.node_limit == 0 ==> run.unlimited(),
        decreases run.steps_left(),
    {
        let _ = run.step(pos, eval, tt, clock);
    }
    run.result()
}

} // verus!
