//! Self-play: games between searches from the start position, played to make training
//! records and to match two evaluators against each other.
use crate::dataset::{describes, Record};
use crate::engine::is_game_position;
use crate::eval::{AnyEval, Evaluator, HandCrafted};
use crate::mov::{Move, MOVE_NULL_BITS};
use crate::movegen::{
    game_ok, generate_legal, legal_move, legal_moves, lemma_fu_total_bound,
    lemma_legal_keeps_game_ok, pseudo_ok,
};
use crate::native_support::StdClock;
use crate::position::{
    next_state_ok, parts_snap, rep_result, spec_apply, spec_board_key, spec_checkers,
    spec_hand_key, startpos_board, Position, Repetition, Snap, StateInfo, MAX_STACK,
};
use crate::search::{line_ok, node_ok, play_line, search, tt_ok, Limits};
use crate::tt::{lemma_small_table_ok, TranspositionTable};
use crate::types::{Color, BLACK};
use vstd::prelude::*;

verus! {

/// One xorshift64 step, with shifts 13, 7 and 17.
pub open spec fn xorshift(x: u64) -> u64 {
    let a = x ^ (x << 13u64);
    let b = a ^ (a >> 7u64);
    b ^ (b << 17u64)
}

/// A xorshift64 generator; its state is the last number it gave.
pub struct Rng(pub u64);

impl Rng {
    pub fn next_u64(&mut self) -> (r: u64)
        ensures
            r == xorshift(old(self).0),
            final(self).0 == r,
    {
        self.0 = self.0 ^ (self.0 << 13u64);
        self.0 = self.0 ^ (self.0 >> 7u64);
        self.0 = self.0 ^ (self.0 << 17u64);
        self.0
    }

    /// The next number modulo `n` (modulo 1 when `n` is 0).
    pub fn below(&mut self, n: usize) -> (r: usize)
        ensures
            final(self).0 == xorshift(old(self).0),
            r == (xorshift(old(self).0) as usize) % (if n == 0 {
                1
            } else {
                n
            }),
            n > 0 ==> r < n,
    {
        let x = self.next_u64();
        let m: usize = if n == 0 {
            1
        } else {
            n
        };
        (x as usize) % m
    }
}

/// The result for black (+1 a win, 0 a draw, -1 a loss) of a game that ends here, if it
/// does: the side to move loses when it has no legal move; a fourfold repetition is a
/// draw, or a loss for the side that kept giving check.
pub open spec fn spec_game_over(no_moves: bool, rep: Repetition, side: Color) -> Option<i8> {
    let black_to_move = side == BLACK;
    if no_moves {
        Some(if black_to_move { -1i8 } else { 1i8 })
    } else {
        match rep {
            Repetition::Draw => Some(0i8),
            Repetition::WinByPerpetual => Some(if black_to_move { 1i8 } else { -1i8 }),
            Repetition::LoseByPerpetual => Some(if black_to_move { -1i8 } else { 1i8 }),
            Repetition::NoRepetition => None,
        }
    }
}

/// Whether the game ends with `side` to move, and how: see `spec_game_over`.
pub fn game_over(no_moves: bool, rep: Repetition, side: Color) -> (r: Option<i8>)
    ensures
        r == spec_game_over(no_moves, rep, side),
{
    let black_to_move = side == BLACK;
    if no_moves {
        return Some(if black_to_move { -1 } else { 1 });
    }
    match rep {
        Repetition::Draw => Some(0),
        Repetition::WinByPerpetual => Some(if black_to_move { 1 } else { -1 }),
        Repetition::LoseByPerpetual => Some(if black_to_move { -1 } else { 1 }),
        Repetition::NoRepetition => None,
    }
}

/// Limits of one self-play game.
pub struct GameOptions {
    /// The game is a draw when it reaches this many plies.
    pub max_plies: u32,
    /// Plies played at random, drawn from the legal moves, before the searches start.
    pub random_opening_plies: u32,
    /// Node budget of each search.
    pub nodes_per_move: u64,
}

/// What a kept sample promises: a game position whose side to move is not in check, a
/// score of at most 3000 centipawns either way, taken at a searched ply below the limit.
pub open spec fn sample_ok(smp: (Position, i16, u32), opts: GameOptions) -> bool {
    &&& node_ok(smp.0)
    &&& spec_checkers(smp.0.snap()) == Set::<int>::empty()
    &&& -3000 <= smp.1 <= 3000
    &&& opts.random_opening_plies <= smp.2 < opts.max_plies
}

/// The start position.
pub open spec fn start_snap() -> Snap {
    parts_snap(startpos_board(), seq![0u32, 0u32], BLACK, 0)
}

/// `line` is a legal game from the start position, and each sample holds the position
/// reached after the first moves of it, as many as the sample's ply.
pub open spec fn on_game_line(samples: Seq<(Position, i16, u32)>, line: Seq<Move>) -> bool {
    &&& line_ok(start_snap(), line)
    &&& forall|k: int|
        0 <= k < samples.len() ==> (#[trigger] samples[k]).2 <= line.len() && samples[k].0.snap()
            == play_line(start_snap(), line.take(samples[k].2 as int))
}

/// The samples lie on one legal game of at most `max_plies` moves from the start position.
pub open spec fn played_from_start(samples: Seq<(Position, i16, u32)>, max_plies: u32) -> bool {
    exists|line: Seq<Move>| line.len() <= max_plies && #[trigger] on_game_line(samples, line)
}

/// A move that neither captures nor promotes.
pub open spec fn quiet_move(m: Move) -> bool {
    m.spec_captured() == 0 && !m.spec_is_promotion()
}

/// The samples lie on a legal game from the start position, with records `st`, whose
/// result is `result`; the move played at each sample's ply neither captures nor
/// promotes.
pub open spec fn samples_of_game(samples: Seq<(Position, i16, u32)>, result: i8, max_plies: u32) -> bool {
    exists|line: Seq<Move>, st: Seq<StateInfo>|
        line.len() <= max_plies && #[trigger] game_stack_ok(st, line) && on_game_line(samples, line)
            && game_result(line, st, max_plies) == Some(result) && forall|k: int|
            0 <= k < samples.len() ==> (#[trigger] samples[k]).2 < line.len() && quiet_move(
                line[samples[k].2 as int],
            )
}

/// A legal move played at the end of a game line keeps the samples on it.
proof fn extend_line(samples: Seq<(Position, i16, u32)>, line: Seq<Move>, mv: Move)
    requires
        on_game_line(samples, line),
        legal_moves(play_line(start_snap(), line)).contains(mv),
    ensures
        on_game_line(samples, line.push(mv)),
        play_line(start_snap(), line.push(mv)) == spec_apply(play_line(start_snap(), line), mv),
{
    let ext = line.push(mv);
    assert(ext.drop_last() =~= line);
    assert forall|k: int| 0 <= k < samples.len() implies (#[trigger] samples[k]).2 <= ext.len()
        && samples[k].0.snap() == play_line(start_snap(), ext.take(samples[k].2 as int)) by {
        assert(ext.take(samples[k].2 as int) =~= line.take(samples[k].2 as int));
    }
}

/// Plays one game from the start position with the hand-crafted evaluator: random legal
/// moves for the opening plies, then the move of a node-limited search. Returns the
/// samples (position before the move, search score for its side to move, ply) of the
/// searched plies whose side to move is not in check, whose move neither captures nor
/// promotes and whose score is within 3000, in ply order; and the result for black.
/// A game that reaches its ply limit, or the limit of the position's record stack, or a
/// search that finds no move, is a draw.
#[verifier::rlimit(80)]
pub fn play_game(opts: &GameOptions, rng: &mut Rng, tt: &mut TranspositionTable) -> (r: (
    Vec<(Position, i16, u32)>,
    i8,
))
    requires
        tt_ok(*old(tt)),
    ensures
        tt_ok(*final(tt)),
        -1 <= r.1 <= 1,
        forall|k: int| 0 <= k < r.0@.len() ==> sample_ok(#[trigger] r.0@[k], *opts),
        forall|i: int, j: int| 0 <= i < j < r.0@.len() ==> r.0@[i].2 < r.0@[j].2,
        played_from_start(r.0@, opts.max_plies),
        game_ok(start_snap()) ==> samples_of_game(r.0@, r.1, opts.max_plies),
{
    let mut pos = Position::startpos();
    let ghost mut line: Seq<Move> = Seq::empty();
    let mut eval = HandCrafted::new();
    let mut samples: Vec<(Position, i16, u32)> = Vec::new();
    tt.clear();
    if !is_game_position(&pos) {
        proof {
            assert(line_ok(start_snap(), line));
            assert(on_game_line(samples@, line) && played_from_start(samples@, opts.max_plies));
        }
        return (samples, 0);
    }
    proof {
        assert(pos.stack() =~= seq![pos.stack()[0]]);
    }
    let mut ply: u32 = 0;
    while ply < opts.max_plies
        invariant
            node_ok(pos),
            line.len() == ply,
            ply <= opts.max_plies,
            on_game_line(samples@, line),
            pos.snap() == play_line(start_snap(), line),
            pos.stack().last().last_move.0 != MOVE_NULL_BITS,
            tt_ok(*tt),
            forall|k: int|
                0 <= k < samples@.len() ==> sample_ok(#[trigger] samples@[k], *opts)
                    && samples@[k].2 < ply,
            forall|i: int, j: int| 0 <= i < j < samples@.len() ==> samples@[i].2 < samples@[j].2,
            game_stack_ok(pos.stack(), line),
            forall|k: int|
                0 <= k < samples@.len() ==> quiet_move(line[(#[trigger] samples@[k]).2 as int]),
        decreases opts.max_plies - ply,
    {
        proof {
            pos.lemma_wf_board();
            lemma_fu_total_bound(pos.snap());
        }
        if pos.game_ply_depth() + 194 > MAX_STACK {
            proof {
                assert(on_game_line(samples@, line) && played_from_start(samples@, opts.max_plies));
                assert(game_stack_ok(pos.stack(), line) && game_result(line, pos.stack(), opts.max_plies) == Some(0i8));
            }
            return (samples, 0);
        }
        let ghost s = pos.snap();
        let mut moves: Vec<Move> = Vec::new();
        generate_legal(&mut pos, &mut moves);
        let side = pos.side_to_move();
        let rep = pos.detect_repetition();
        match game_over(moves.len() == 0, rep, side) {
            Some(res) => {
                proof {
                    assert(on_game_line(samples@, line) && played_from_start(samples@, opts.max_plies));
                    assert(game_stack_ok(pos.stack(), line) && game_result(line, pos.stack(), opts.max_plies) == Some(res));
                }
                return (samples, res);
            },
            None => {},
        }
        if ply < opts.random_opening_plies {
            let i = rng.below(moves.len());
            let mv = moves[i];
            let ghost before = pos;
            proof {
                assert(pseudo_ok(s, moves@[i as int]) && legal_move(s, moves@[i as int]));
                lemma_legal_keeps_game_ok(s, mv);
                extend_line(samples@, line, mv);
            }
            pos.do_move(mv);
            proof {
                extend_game(before.stack(), line, mv, pos.stack());
                assert forall|k: int| 0 <= k < samples@.len() implies quiet_move(
                    line.push(mv)[(#[trigger] samples@[k]).2 as int],
                ) by {
                    assert(line.push(mv)[samples@[k].2 as int] == line[samples@[k].2 as int]);
                }
                line = line.push(mv);
            }
        } else {
            eval.refresh(&pos);
            let clock = StdClock::start();
            let result = search(&mut pos, &mut eval, tt, Limits::nodes(opts.nodes_per_move), &clock);
            let best = result.best_move;
            if best.is_none() {
                proof {
                    assert(on_game_line(samples@, line) && played_from_start(samples@, opts.max_plies));
                    let k = choose|k: int| 0 <= k < moves@.len() && moves@[k] == best;
                    assert(pseudo_ok(s, moves@[k]));
                    assert(((0u32 >> 16u32) & 0x1Fu32) == 0) by (bit_vector);
                }
                return (samples, 0);
            }
            let in_check = pos.in_check();
            let quiet = !best.is_capture() && !best.is_promotion();
            let score_ok = -3000 <= result.score_cp && result.score_cp <= 3000;
            if !in_check && quiet && score_ok {
                let ghost before = samples@;
                samples.push((pos.clone(), result.score_cp as i16, ply));
                proof {
                    assert(line.take(ply as int) =~= line);
                    assert forall|k: int| 0 <= k < samples@.len() implies (#[trigger] samples@[k]).2
                        <= line.len() && samples@[k].0.snap() == play_line(
                        start_snap(),
                        line.take(samples@[k].2 as int),
                    ) by {
                        if k < before.len() {
                            assert(samples@[k] == before[k]);
                        }
                    }
                }
            }
            let ghost before = pos;
            proof {
                assert(legal_moves(s).contains(best));
                let k = choose|k: int| 0 <= k < moves@.len() && moves@[k] == best;
                assert(pseudo_ok(s, moves@[k]) && legal_move(s, moves@[k]));
                lemma_legal_keeps_game_ok(s, best);
                extend_line(samples@, line, best);
            }
            pos.do_move(best);
            proof {
                extend_game(before.stack(), line, best, pos.stack());
                assert forall|k: int| 0 <= k < samples@.len() implies quiet_move(
                    line.push(best)[(#[trigger] samples@[k]).2 as int],
                ) by {
                    if samples@[k].2 < line.len() {
                        assert(line.push(best)[samples@[k].2 as int] == line[samples@[k].2 as int]);
                    }
                }
                line = line.push(best);
            }
        }
        ply = ply + 1;
    }
    proof {
        assert(on_game_line(samples@, line) && played_from_start(samples@, opts.max_plies));
        assert(game_stack_ok(pos.stack(), line) && game_result(line, pos.stack(), opts.max_plies) == Some(0i8));
    }
    (samples, 0)
}

/// The records of one game's samples, in order, each with the game's result from the
/// point of view of its own side to move.
pub fn game_records(samples: &Vec<(Position, i16, u32)>, result_for_black: i8) -> (r: Vec<Record>)
    requires
        forall|k: int| 0 <= k < samples@.len() ==> (#[trigger] samples@[k]).0.wf(),
        result_for_black != i8::MIN,
    ensures
        r@.len() == samples@.len(),
        forall|k: int|
            0 <= k < samples@.len() ==> describes(
                #[trigger] r@[k],
                samples@[k].0.snap(),
                samples@[k].1,
                if samples@[k].0.snap().side == BLACK {
                    result_for_black
                } else {
                    (-result_for_black) as i8
                },
            ),
{
    let mut out: Vec<Record> = Vec::new();
    let mut i: usize = 0;
    while i < samples.len()
        invariant
            i <= samples@.len(),
            out@.len() == i,
            result_for_black != i8::MIN,
            forall|k: int| 0 <= k < samples@.len() ==> (#[trigger] samples@[k]).0.wf(),
            forall|k: int|
                0 <= k < i ==> describes(
                    #[trigger] out@[k],
                    samples@[k].0.snap(),
                    samples@[k].1,
                    if samples@[k].0.snap().side == BLACK {
                        result_for_black
                    } else {
                        (-result_for_black) as i8
                    },
                ),
        decreases samples.len() - i,
    {
        let smp = &samples[i];
        assert(smp.0.wf());
        let side = smp.0.side_to_move();
        let res: i8 = if side == BLACK {
            result_for_black
        } else {
            -result_for_black
        };
        out.push(Record::from_position(&smp.0, smp.1, res));
        i = i + 1;
    }
    out
}

/// `st` holds the records of playing `line` from the start position: the start
/// position's record, then one record per move, each following from the one before.
pub open spec fn game_stack_ok(st: Seq<StateInfo>, line: Seq<Move>) -> bool {
    &&& st.len() == line.len() + 1
    &&& st[0].last_move.0 == 0
    &&& st[0].board_key == spec_board_key(startpos_board(), BLACK)
    &&& st[0].hand_key == spec_hand_key(seq![0u32, 0u32])
    &&& st[0].plies_from_null == 0
    &&& st[0].continuous_check@ == seq![0u16, 0u16]
    &&& forall|i: int|
        0 <= i < line.len() ==> next_state_ok(
            st[i],
            play_line(start_snap(), line.take(i)),
            #[trigger] line[i],
            st[i + 1],
        )
}

/// The result of a game that was played as `line`, with records `st`: a draw when it
/// stopped at the ply limit or at the limit of the record stack, else the rules'
/// verdict on its last position (`None` when that position does not end the game).
pub open spec fn game_result(line: Seq<Move>, st: Seq<StateInfo>, max_plies: u32) -> Option<i8> {
    let s = play_line(start_snap(), line);
    if line.len() >= max_plies || st.len() + 193 > MAX_STACK {
        Some(0i8)
    } else {
        spec_game_over(legal_moves(s).len() == 0, rep_result(st, s.side), s.side)
    }
}

/// `r` is the result of some legal game from the start position of at most
/// `max_plies` moves.
pub open spec fn game_played(r: i32, max_plies: u32) -> bool {
    exists|line: Seq<Move>, st: Seq<StateInfo>|
        line_ok(start_snap(), line) && line.len() <= max_plies && #[trigger] game_stack_ok(st, line)
            && game_result(line, st, max_plies) == Some(r as i8)
}

/// A legal move played at the end of a game extends its records.
proof fn extend_game(st: Seq<StateInfo>, line: Seq<Move>, mv: Move, st2: Seq<StateInfo>)
    requires
        game_stack_ok(st, line),
        line_ok(start_snap(), line),
        legal_moves(play_line(start_snap(), line)).contains(mv),
        st2.len() == st.len() + 1,
        st2.drop_last() == st,
        next_state_ok(st.last(), play_line(start_snap(), line), mv, st2.last()),
    ensures
        game_stack_ok(st2, line.push(mv)),
        line_ok(start_snap(), line.push(mv)),
        play_line(start_snap(), line.push(mv)) == spec_apply(play_line(start_snap(), line), mv),
{
    let ext = line.push(mv);
    assert(ext.drop_last() =~= line);
    assert(st2[0] == st[0]);
    assert forall|i: int| 0 <= i < ext.len() implies next_state_ok(
        st2[i],
        play_line(start_snap(), ext.take(i)),
        #[trigger] ext[i],
        st2[i + 1],
    ) by {
        if i < line.len() {
            assert(ext.take(i) =~= line.take(i));
            assert(st2[i] == st[i]);
            assert(st2[i + 1] == st[i + 1]);
            assert(ext[i] == line[i]);
        } else {
            assert(ext.take(i) =~= line);
            assert(st2[i] == st.last());
        }
    }
}

/// Plays one game between two evaluators from the start position: `opening_plies` random
/// legal moves, then each side plays the move of its own node-limited search, with a
/// table of its own. Returns the result for black: +1 a win, 0 a draw, -1 a loss. A
/// game that reaches `max_plies`, or the limit of the position's record stack, is a
/// draw; otherwise the game goes on until the rules end it (no legal move, or a
/// fourfold repetition), and that verdict is the result.
#[verifier::rlimit(80)]
pub fn play_one_game(
    eval_black: &mut AnyEval,
    eval_white: &mut AnyEval,
    nodes: u64,
    max_plies: u32,
    rng: &mut Rng,
    opening_plies: u32,
) -> (r: i32)
    ensures
        -1 <= r <= 1,
        game_ok(start_snap()) ==> game_played(r, max_plies),
{
    let mut pos = Position::startpos();
    proof {
        lemma_small_table_ok(4);
    }
    let mut tt_b = TranspositionTable::new(4);
    let mut tt_w = TranspositionTable::new(4);
    let ghost mut line: Seq<Move> = Seq::empty();
    if !is_game_position(&pos) {
        return 0;
    }
    proof {
        assert(pos.stack() =~= seq![pos.stack()[0]]);
        assert(line_ok(start_snap(), line));
    }
    let mut ply: u32 = 0;
    while ply < max_plies
        invariant
            node_ok(pos),
            pos.stack().last().last_move.0 != MOVE_NULL_BITS,
            tt_ok(tt_b),
            tt_ok(tt_w),
            line.len() == ply,
            ply <= max_plies,
            line_ok(start_snap(), line),
            pos.snap() == play_line(start_snap(), line),
            game_stack_ok(pos.stack(), line),
        decreases max_plies - ply,
    {
        proof {
            pos.lemma_wf_board();
            lemma_fu_total_bound(pos.snap());
        }
        if pos.game_ply_depth() + 194 > MAX_STACK {
            proof {
                assert(game_stack_ok(pos.stack(), line) && game_result(line, pos.stack(), max_plies) == Some(0i8));
            }
            return 0;
        }
        let ghost s = pos.snap();
        let mut moves: Vec<Move> = Vec::new();
        generate_legal(&mut pos, &mut moves);
        let side = pos.side_to_move();
        let rep = pos.detect_repetition();
        match game_over(moves.len() == 0, rep, side) {
            Some(res) => {
                proof {
                    assert(game_stack_ok(pos.stack(), line) && game_result(line, pos.stack(), max_plies) == Some(res));
                }
                return res as i32;
            },
            None => {},
        }
        let mv = if ply < opening_plies {
            let i = rng.below(moves.len());
            moves[i]
        } else {
            let clock = StdClock::start();
            let result = if side == BLACK {
                eval_black.refresh(&pos);
                search(&mut pos, eval_black, &mut tt_b, Limits::nodes(nodes), &clock)
            } else {
                eval_white.refresh(&pos);
                search(&mut pos, eval_white, &mut tt_w, Limits::nodes(nodes), &clock)
            };
            if result.best_move.is_none() {
                proof {
                    let k = choose|k: int| 0 <= k < moves@.len() && moves@[k] == result.best_move;
                    assert(pseudo_ok(s, moves@[k]));
                    assert(((0u32 >> 16u32) & 0x1Fu32) == 0) by (bit_vector);
                }
                return if side == BLACK {
                    -1
                } else {
                    1
                };
            }
            result.best_move
        };
        let ghost before = pos;
        proof {
            assert(legal_moves(s).contains(mv));
            let k = choose|k: int| 0 <= k < moves@.len() && moves@[k] == mv;
            assert(pseudo_ok(s, moves@[k]) && legal_move(s, moves@[k]));
            lemma_legal_keeps_game_ok(s, mv);
        }
        pos.do_move(mv);
        proof {
            extend_game(before.stack(), line, mv, pos.stack());
            line = line.push(mv);
        }
        ply = ply + 1;
    }
    proof {
        assert(game_stack_ok(pos.stack(), line) && game_result(line, pos.stack(), max_plies) == Some(0i8));
    }
    0
}

/// Plays games `start_g..end_g` between `a` and `b` and gives each game's result from
/// `a`'s point of view (+1, 0 or -1), in game order. Games `2p` and `2p + 1` share a
/// random opening of 8 plies, seeded with `seed` xor `p` times 0x9E3779B97F4A7C15
/// (wrapping); `a` has black in the even game of a pair and white in the odd one.
pub fn play_range(
    a: &mut AnyEval,
    b: &mut AnyEval,
    nodes: u64,
    max_plies: u32,
    seed: u64,
    start_g: u32,
    end_g: u32,
) -> (r: Vec<i32>)
    requires
        start_g <= end_g,
    ensures
        r@.len() == end_g - start_g,
        forall|k: int| 0 <= k < r@.len() ==> -1 <= #[trigger] r@[k] <= 1,
{
    let mut out: Vec<i32> = Vec::new();
    let mut g: u32 = start_g;
    while g < end_g
        invariant
            start_g <= g <= end_g,
            out@.len() == g - start_g,
            forall|k: int| 0 <= k < out@.len() ==> -1 <= #[trigger] out@[k] <= 1,
        decreases end_g - g,
    {
        let mut opening_rng = Rng(seed ^ (g as u64 / 2).wrapping_mul(0x9E3779B97F4A7C15));
        let a_is_black = g % 2 == 0;
        let result_black = if a_is_black {
            play_one_game(a, b, nodes, max_plies, &mut opening_rng, 8)
        } else {
            play_one_game(b, a, nodes, max_plies, &mut opening_rng, 8)
        };
        out.push(if a_is_black {
            result_black
        } else {
            -result_black
        });
        g = g + 1;
    }
    out
}

/// The width of each thread's block of games in `split_games`: the games shared evenly
/// among at most one thread per game, rounded down to whole pairs, at least one pair.
pub open spec fn split_width(games: u32, threads: usize) -> int {
    let t = if threads < 1 {
        1
    } else {
        threads as int
    };
    let g = if games < 1 {
        1
    } else {
        games as int
    };
    let n = if t < g {
        t
    } else {
        g
    };
    let pairs = games as int / n / 2;
    (if pairs < 1 {
        1
    } else {
        pairs
    }) * 2
}

/// Splits games `0..games` into contiguous blocks for `threads` threads: blocks of
/// `split_width` games starting at game 0, the last of which also takes what is left
/// over, so that it is more than one block wide unless it is the only one (at most two
/// blocks wide in any case).
#[verifier::rlimit(40)]
pub fn split_games(games: u32, threads: usize) -> (r: Vec<(u32, u32)>)
    ensures
        games == 0 <==> r@.len() == 0,
        forall|i: int| 0 <= i < r@.len() ==> (#[trigger] r@[i]).0 == i * split_width(games, threads),
        forall|i: int|
            0 <= i < r@.len() - 1 ==> (#[trigger] r@[i]).1 == (i + 1) * split_width(games, threads),
        r@.len() > 0 ==> {
            let last = r@.len() - 1;
            let w = games - last * split_width(games, threads);
            &&& r@[last].1 == games
            &&& 0 < w <= 2 * split_width(games, threads)
            &&& (last > 0 ==> w > split_width(games, threads))
        },
{
    let t: usize = if threads < 1 {
        1
    } else {
        threads
    };
    let gm: usize = if games < 1 {
        1
    } else {
        games as usize
    };
    let n: usize = if t < gm {
        t
    } else {
        gm
    };
    let pairs: usize = games as usize / n / 2;
    let width: u64 = (if pairs < 1 {
        1
    } else {
        pairs
    }) as u64 * 2;
    let ghost b = split_width(games, threads);
    assert(width == b);
    assert(width <= games as u64 + 2) by (nonlinear_arith)
        requires
            width == (if pairs < 1 {
                1
            } else {
                pairs as int
            }) * 2,
            pairs == games as int / n as int / 2,
            n >= 1,
    {
        assert(games as int / n as int <= games as int);
    }
    let mut ranges: Vec<(u32, u32)> = Vec::new();
    let mut g: u32 = 0;
    while g < games
        invariant
            width == b,
            2 <= b <= games + 2,
            g <= games,
            g == (if ranges@.len() * b < games {
                ranges@.len() * b
            } else {
                games as int
            }),
            ranges@.len() > 0 ==> (ranges@.len() - 1) * b < games,
            forall|i: int|
                0 <= i < ranges@.len() ==> (#[trigger] ranges@[i]).0 == i * b && ranges@[i].1 == (
                if (i + 1) * b < games {
                    (i + 1) * b
                } else {
                    games as int
                }),
        decreases games - g,
    {
        let ghost i = ranges@.len() as int;
        assert((i + 1) * b == i * b + b) by (nonlinear_arith);
        let sum: u64 = g as u64 + width;
        let end: u32 = if sum < games as u64 {
            sum as u32
        } else {
            games
        };
        ranges.push((g, end));
        g = end;
    }
    let ghost p = ranges@.len() as int;
    proof {
        if games > 0 && p == 0 {
            assert(0 * b == 0);
            assert(g == 0);
        }
        assert(games > 0 ==> p > 0);
        assert forall|i: int| 0 <= i < p - 1 implies (#[trigger] ranges@[i]).1 == (i + 1) * b by {
            assert((i + 1) * b <= (p - 1) * b) by (nonlinear_arith)
                requires
                    i + 1 <= p - 1,
                    b >= 2,
            ;
        }
    }
    if ranges.len() > 1 {
        let last = ranges.pop().unwrap();
        let k = ranges.len() - 1;
        let first = ranges[k].0;
        ranges.set(k, (first, last.1));
        proof {
            assert((p - 1) * b == (p - 2) * b + b) by (nonlinear_arith);
            assert(p * b == (p - 1) * b + b) by (nonlinear_arith);
        }
    } else if ranges.len() == 1 {
        proof {
            assert(p * b == b) by (nonlinear_arith)
                requires
                    p == 1,
            ;
        }
    }
    ranges
}

} // verus!
