//! Hand-crafted evaluator: an "effect map" (attack density near each king, capped at
//! two attackers per square) plus material with a small bonus for defended pieces.
//! King safety is carried entirely by the attack-density-near-king terms, which are
//! symmetric and do not reward advancing the king.
use super::{Evaluator, EVAL_LIMIT};
use crate::bitboard::Bitboard;
use crate::hand::Hand;
use crate::mov::Move;
use crate::movegen::{board_squares, piece_attacks, squares_in};
use crate::position::{color_set, hand_types, occ_set, valid_cell, Position, Snap};
use crate::tables::piece_attack;
use crate::types::{
    col_of, is_none, piece_color, piece_type, piece_value, row_of, spec_col, spec_piece_color,
    spec_piece_type, spec_row, spec_value, Color, PieceType, Square, BLACK, OU, SQ_NONE, WHITE,
};
use vstd::prelude::*;

verus! {

/// The hand-crafted evaluator. It keeps no state; it only counts the records that
/// its caller pushes and pops.
pub struct HandCrafted {
    frames: Ghost<nat>,
}

impl HandCrafted {
    pub fn new() -> (r: HandCrafted)
        ensures
            r.frames() == 0,
    {
        HandCrafted { frames: Ghost(0) }
    }
}

impl Default for HandCrafted {
    fn default() -> (r: HandCrafted)
        ensures
            r.frames() == 0,
    {
        HandCrafted::new()
    }
}

impl Evaluator for HandCrafted {
    closed spec fn frames(&self) -> nat {
        self.frames@
    }

    /// The black's-view score of `evaluate`, negated when white is to move.
    open spec fn value(&self, s: Snap) -> int {
        if s.side == BLACK {
            spec_evaluate(s)
        } else {
            -spec_evaluate(s)
        }
    }

    fn refresh(&mut self, pos: &Position) {
        self.frames = Ghost(1);
    }

    fn push(&mut self, pos: &Position, mv: Move, mover: Color) {
        let ghost n = self.frames@ + 1;
        self.frames = Ghost(n);
    }

    fn pop(&mut self) {
        let ghost n: nat = if self.frames@ > 0 {
            (self.frames@ - 1) as nat
        } else {
            0
        };
        self.frames = Ghost(n);
    }

    /// The black's-view score of `evaluate`, negated when white is to move.
    fn eval(&mut self, pos: &Position) -> (r: i32)
        ensures
            r == if pos.snap().side == BLACK {
                spec_evaluate(pos.snap())
            } else {
                -spec_evaluate(pos.snap())
            },
    {
        let side_score = evaluate(pos);
        if pos.side_to_move() == BLACK {
            side_score
        } else {
            -side_score
        }
    }
}

/// Number of times `t` occurs in `s`.
pub open spec fn seq_count(s: Seq<u8>, t: int) -> nat
    decreases s.len(),
{
    if s.len() == 0 {
        0
    } else {
        seq_count(s.drop_last(), t) + if s.last() as int == t {
            1nat
        } else {
            0nat
        }
    }
}

/// Number of squares of `froms` whose piece (of color `c`) attacks `t`.
pub open spec fn attack_count(s: Snap, c: u8, froms: Seq<u8>, t: int) -> nat
    decreases froms.len(),
{
    if froms.len() == 0 {
        0
    } else {
        let f = froms.last();
        attack_count(s, c, froms.drop_last(), t) + if piece_attack(
            c,
            spec_piece_type(s.board[f as int]),
            f as int,
            occ_set(s.board),
            t,
        ) {
            1nat
        } else {
            0nat
        }
    }
}

/// `n`, capped at 2.
pub open spec fn cap2(n: int) -> int {
    if n >= 2 {
        2
    } else {
        n
    }
}

/// How many pieces of color `c` attack `t`, capped at 2.
pub open spec fn effect(s: Snap, c: u8, t: int) -> int {
    cap2(attack_count(s, c, board_squares(color_set(s.board, c)), t) as int)
}

/// Chebyshev distance from the king on `king` to `sq`; 8 when there is no king.
pub open spec fn spec_king_dist(king: u8, sq: int) -> int {
    if king == SQ_NONE {
        8
    } else {
        let dr = spec_row(king as int) - spec_row(sq);
        let dc = spec_col(king as int) - spec_col(sq);
        let ar = if dr >= 0 {
            dr
        } else {
            -dr
        };
        let ac = if dc >= 0 {
            dc
        } else {
            -dc
        };
        if ar >= ac {
            ar
        } else {
            ac
        }
    }
}

/// The material term of the piece on `sq` (kings count nothing here): its value, with
/// a 3.3% bonus when its own side attacks the square, positive for black.
pub open spec fn piece_term(s: Snap, sq: int) -> int {
    let p = s.board[sq];
    let pt = spec_piece_type(p);
    let b = effect(s, BLACK, sq);
    let w = effect(s, WHITE, sq);
    if p == 0 || pt == OU {
        0
    } else {
        let black = spec_piece_color(p) == BLACK;
        let bonus = (if b > 0 && black {
            33int
        } else {
            0
        }) + (if w > 0 && spec_piece_color(p) == WHITE {
            33int
        } else {
            0
        });
        let m = spec_value(pt) * (1000 + bonus) / 1000;
        if black {
            m
        } else {
            -m
        }
    }
}

/// The score contribution of square `sq`: attack density weighted by closeness to
/// each king, plus the material term of its piece.
pub open spec fn square_term(s: Snap, sq: int) -> int {
    let b = effect(s, BLACK, sq);
    let w = effect(s, WHITE, sq);
    let bd = spec_king_dist(s.king_sq[0], sq) + 1;
    let wd = spec_king_dist(s.king_sq[1], sq) + 1;
    83 * b / bd - 92 * w / bd + 92 * b / wd - 83 * w / wd + piece_term(s, sq)
}

/// Sum of the terms of the squares below `n`.
pub open spec fn squares_score(s: Snap, n: int) -> int
    decreases n,
{
    if n <= 0 {
        0
    } else {
        squares_score(s, n - 1) + square_term(s, n - 1)
    }
}

/// Pieces in hand of the first `k` droppable kinds, each at 80% of its value.
pub open spec fn hand_score(s: Snap, k: int) -> int
    decreases k,
{
    if k <= 0 {
        0
    } else {
        let pt = hand_types()[k - 1];
        hand_score(s, k - 1) + spec_value(pt) * Hand(s.hands[0]).spec_count(pt) * 8 / 10
            - spec_value(pt) * Hand(s.hands[1]).spec_count(pt) * 8 / 10
    }
}

/// Score of a position from black's point of view, in centipawns.
pub open spec fn spec_evaluate(s: Snap) -> int {
    squares_score(s, 81) + hand_score(s, 7)
}

/// The attack count of a square reads the board alone.
proof fn lemma_attack_count_board(s: Snap, t: Snap, c: u8, froms: Seq<u8>, sq: int)
    requires
        s.board == t.board,
    ensures
        attack_count(s, c, froms, sq) == attack_count(t, c, froms, sq),
    decreases froms.len(),
{
    if froms.len() > 0 {
        lemma_attack_count_board(s, t, c, froms.drop_last(), sq);
    }
}

/// The square terms read the board and the kings' squares alone.
proof fn lemma_squares_score_board(s: Snap, t: Snap, n: int)
    requires
        s.board == t.board,
        s.king_sq == t.king_sq,
    ensures
        squares_score(s, n) == squares_score(t, n),
    decreases n,
{
    if n > 0 {
        lemma_squares_score_board(s, t, n - 1);
        lemma_attack_count_board(s, t, BLACK, board_squares(color_set(s.board, BLACK)), n - 1);
        lemma_attack_count_board(s, t, WHITE, board_squares(color_set(s.board, WHITE)), n - 1);
    }
}

/// Exchanging the two hands negates the hand terms.
proof fn lemma_hand_score_swap(s: Snap, t: Snap, k: int)
    requires
        s.hands.len() == 2,
        t.hands.len() == 2,
        t.hands[0] == s.hands[1],
        t.hands[1] == s.hands[0],
    ensures
        hand_score(t, k) == -hand_score(s, k),
    decreases k,
{
    if k > 0 {
        lemma_hand_score_swap(s, t, k - 1);
    }
}

/// Empty hands add nothing.
proof fn lemma_hand_score_empty(e: Snap, k: int)
    requires
        e.hands.len() == 2,
        e.hands[0] == 0,
        e.hands[1] == 0,
        k <= 7,
    ensures
        hand_score(e, k) == 0,
    decreases k,
{
    if k > 0 {
        lemma_hand_score_empty(e, k - 1);
        let pt = hand_types()[k - 1];
        crate::hand::lemma_word_facts(0, crate::hand::spec_shift(pt), crate::hand::spec_width(pt), crate::hand::spec_field_mask(pt));
        assert(Hand(e.hands[0]).spec_count(pt) == 0);
        assert(Hand(e.hands[1]).spec_count(pt) == 0);
        assert(spec_value(pt) * 0 * 8 / 10 == 0) by (nonlinear_arith);
    }
}

/// Swapping the two hands negates what the hands add to the score: a piece in white's
/// hand counts against black exactly as much as the same piece in black's hand counts
/// for black. (`e` is the position with both hands emptied.)
pub proof fn lemma_hands_antisymmetric(s: Snap, t: Snap, e: Snap)
    requires
        s.hands.len() == 2,
        t.hands.len() == 2,
        e.hands.len() == 2,
        t.board == s.board,
        e.board == s.board,
        t.king_sq == s.king_sq,
        e.king_sq == s.king_sq,
        t.hands[0] == s.hands[1],
        t.hands[1] == s.hands[0],
        e.hands[0] == 0,
        e.hands[1] == 0,
    ensures
        spec_evaluate(t) - spec_evaluate(e) == -(spec_evaluate(s) - spec_evaluate(e)),
{
    lemma_squares_score_board(s, t, 81);
    lemma_squares_score_board(s, e, 81);
    lemma_hand_score_swap(s, t, 7);
    lemma_hand_score_empty(e, 7);
}

/// The hand terms grow with black's counts when white's hand is the same: by at least
/// one when some count below `k` grew.
proof fn lemma_hand_score_mono(s: Snap, t: Snap, k: int)
    requires
        0 <= k <= 7,
        s.hands.len() == 2,
        t.hands.len() == 2,
        t.hands[1] == s.hands[1],
        forall|j: int|
            0 <= j < 7 ==> Hand(t.hands[0]).spec_count(#[trigger] hand_types()[j]) >= Hand(
                s.hands[0],
            ).spec_count(hand_types()[j]),
    ensures
        hand_score(t, k) >= hand_score(s, k),
        (exists|j: int|
            0 <= j < k && Hand(t.hands[0]).spec_count(#[trigger] hand_types()[j]) > Hand(
                s.hands[0],
            ).spec_count(hand_types()[j])) ==> hand_score(t, k) > hand_score(s, k),
    decreases k,
{
    if k > 0 {
        lemma_hand_score_mono(s, t, k - 1);
        let pt = hand_types()[k - 1];
        let v = spec_value(pt) as int;
        let a = Hand(t.hands[0]).spec_count(pt);
        let b = Hand(s.hands[0]).spec_count(pt);
        assert(a >= b);
        assert(b >= 0);
        assert(v >= 90) by {
            assert(hand_types() == seq![1u8, 2u8, 3u8, 4u8, 5u8, 6u8, 7u8]);
        }
        assert(v * a * 8 / 10 >= v * b * 8 / 10) by (nonlinear_arith)
            requires
                v >= 0,
                a >= b,
        ;
        assert(a > b ==> v * a * 8 / 10 > v * b * 8 / 10) by (nonlinear_arith)
            requires
                v >= 90,
                b >= 0,
        ;
    }
}

/// More pieces in black's hand never lower black's score, and one more piece of any
/// kind raises it (the board, the kings and white's hand being the same).
pub proof fn lemma_black_hand_raises(s: Snap, t: Snap)
    requires
        s.hands.len() == 2,
        t.hands.len() == 2,
        t.board == s.board,
        t.king_sq == s.king_sq,
        t.hands[1] == s.hands[1],
        forall|j: int|
            0 <= j < 7 ==> Hand(t.hands[0]).spec_count(#[trigger] hand_types()[j]) >= Hand(
                s.hands[0],
            ).spec_count(hand_types()[j]),
    ensures
        spec_evaluate(t) >= spec_evaluate(s),
        (exists|j: int|
            0 <= j < 7 && Hand(t.hands[0]).spec_count(#[trigger] hand_types()[j]) > Hand(
                s.hands[0],
            ).spec_count(hand_types()[j])) ==> spec_evaluate(t) > spec_evaluate(s),
{
    lemma_squares_score_board(s, t, 81);
    lemma_hand_score_mono(s, t, 7);
}

/// A square occurs once in the ascending list of a set's squares when it is in the
/// set, and never otherwise.
pub proof fn lemma_squares_in_count(set: Set<int>, n: int, t: int)
    requires
        0 <= n <= 81,
    ensures
        seq_count(squares_in(set, n), t) == if 0 <= t < n && set.contains(t) {
            1nat
        } else {
            0nat
        },
    decreases n,
{
    if n > 0 {
        lemma_squares_in_count(set, n - 1, t);
        if set.contains(n - 1) {
            assert(squares_in(set, n).drop_last() =~= squares_in(set, n - 1));
        }
    }
}

/// The capped attack counts of both colors on every square.
fn effect_map(pos: &Position) -> (r: [[u8; 81]; 2])
    requires
        pos.wf(),
    ensures
        forall|c: int, t: int|
            0 <= c < 2 && 0 <= t < 81 ==> #[trigger] r[c][t] == effect(pos.snap(), c as u8, t),
{
    let ghost s = pos.snap();
    proof {
        pos.lemma_wf_board();
    }
    let occ = pos.occupied();
    let mut effects: [[u8; 81]; 2] = [[0u8;81];2];
    let mut t0: usize = 0;
    while t0 < 81
        invariant
            t0 <= 81,
            forall|cc: int, t: int| 0 <= cc < 2 && 0 <= t < t0 ==> #[trigger] effects[cc][t] == 0,
        decreases 81 - t0,
    {
        effects[0][t0] = 0;
        effects[1][t0] = 0;
        t0 = t0 + 1;
    }
    let mut c: u8 = 0;
    while c < 2
        invariant
            c <= 2,
            s == pos.snap(),
            pos.wf(),
            occ.wf(),
            occ@ == occ_set(s.board),
            forall|cc: int, t: int|
                0 <= cc < c && 0 <= t < 81 ==> #[trigger] effects[cc][t] == effect(s, cc as u8, t),
            forall|cc: int, t: int| c <= cc < 2 && 0 <= t < 81 ==> #[trigger] effects[cc][t] == 0,
        decreases 2 - c,
    {
        proof {
            pos.lemma_wf_board();
        }
        let own = pos.pieces_of_color(c);
        let froms = own.iter().collect();
        proof {
            crate::movegen::lemma_squares_view(own, 81);
        }
        let mut i: usize = 0;
        while i < froms.len()
            invariant
                c < 2,
                s == pos.snap(),
                pos.wf(),
                occ.wf(),
                occ@ == occ_set(s.board),
                froms@ == board_squares(color_set(s.board, c)),
                i <= froms.len(),
                forall|cc: int, t: int|
                    0 <= cc < c && 0 <= t < 81 ==> #[trigger] effects[cc][t] == effect(s, cc as u8, t),
                forall|cc: int, t: int| c < cc < 2 && 0 <= t < 81 ==> #[trigger] effects[cc][t] == 0,
                forall|t: int|
                    0 <= t < 81 ==> #[trigger] effects[c as int][t] == cap2(
                        attack_count(s, c, froms@.take(i as int), t) as int,
                    ),
            decreases froms.len() - i,
        {
            let from = froms[i];
            proof {
                crate::movegen::lemma_board_squares_member(color_set(s.board, c), i as int);
            }
            let pt = piece_type(pos.piece_at(from));
            let targets = piece_attacks(c, pt, from, occ);
            let tos = targets.iter().collect();
            proof {
                crate::movegen::lemma_squares_view(targets, 81);
                assert forall|k: int| 0 <= k < tos@.len() implies #[trigger] tos@[k] < 81 by {
                    crate::movegen::lemma_board_squares_member(targets@, k);
                }
            }
            let ghost base = effects;
            let mut j: usize = 0;
            while j < tos.len()
                invariant
                    c < 2,
                    j <= tos.len(),
                    forall|cc: int, t: int|
                        0 <= cc < 2 && cc != c && 0 <= t < 81 ==> #[trigger] effects[cc][t] == base[cc][t],
                    forall|t: int|
                        0 <= t < 81 ==> #[trigger] effects[c as int][t] == cap2(
                            base[c as int][t] + seq_count(tos@.take(j as int), t),
                        ),
                    forall|t: int| 0 <= t < 81 ==> 0 <= #[trigger] base[c as int][t] <= 2,
                    forall|k: int| 0 <= k < tos@.len() ==> #[trigger] tos@[k] < 81,
                decreases tos.len() - j,
            {
                let t = tos[j];
                let e = effects[c as usize][t as usize];
                let ne = if e + 1 >= 2 {
                    2
                } else {
                    e + 1
                };
                effects[c as usize][t as usize] = ne;
                proof {
                    assert(tos@.take(j + 1).drop_last() =~= tos@.take(j as int));
                }
                j = j + 1;
            }
            proof {
                assert(tos@.take(tos.len() as int) =~= tos@);
                assert(froms@.take(i + 1).drop_last() =~= froms@.take(i as int));
                assert forall|t: int| 0 <= t < 81 implies #[trigger] effects[c as int][t] == cap2(
                    attack_count(s, c, froms@.take(i + 1), t) as int,
                ) by {
                    lemma_squares_in_count(targets@, 81, t);
                }
            }
            i = i + 1;
        }
        proof {
            assert(froms@.take(froms.len() as int) =~= froms@);
        }
        c = c + 1;
    }
    effects
}

fn king_dist(king: Square, sq: Square) -> (r: i32)
    requires
        sq < 81,
        king < 81 || king == SQ_NONE,
    ensures
        r == spec_king_dist(king, sq as int),
        0 <= r <= 8,
{
    if king == SQ_NONE {
        return 8;
    }
    let dr = row_of(king) as i32 - row_of(sq) as i32;
    let dc = col_of(king) as i32 - col_of(sq) as i32;
    let ar = if dr >= 0 {
        dr
    } else {
        -dr
    };
    let ac = if dc >= 0 {
        dc
    } else {
        -dc
    };
    if ar >= ac {
        ar
    } else {
        ac
    }
}

/// The term of square `sq` (see `square_term`), given the effect map.
fn square_score(pos: &Position, effects: &[[u8; 81]; 2], black_king: Square, white_king: Square, sq: u8) -> (r: i32)
    requires
        pos.wf(),
        sq < 81,
        black_king == pos.snap().king_sq[0],
        white_king == pos.snap().king_sq[1],
        black_king < 81 || black_king == SQ_NONE,
        white_king < 81 || white_king == SQ_NONE,
        forall|c: int, t: int|
            0 <= c < 2 && 0 <= t < 81 ==> #[trigger] effects[c][t] == effect(pos.snap(), c as u8, t),
    ensures
        r == square_term(pos.snap(), sq as int),
        -2200 <= r <= 2200,
{
    let ghost s = pos.snap();
        let b = effects[0][sq as usize] as i32;
        let w = effects[1][sq as usize] as i32;
        proof {
            lemma_effect_range(s, sq as int);
        }
        let bd = king_dist(black_king, sq) + 1;
        let wd = king_dist(white_king, sq) + 1;
        let t1 = 83 * b / bd - 92 * w / bd + 92 * b / wd - 83 * w / wd;
        proof {
            lemma_effect_term_bound(b as int, w as int, bd as int, wd as int);
        }
        let piece = pos.piece_at(sq);
        let mut t2: i32 = 0;
        if !is_none(piece) {
            let pt = piece_type(piece);
            let color = piece_color(piece);
            proof {
                pos.lemma_wf_board();
                assert(valid_cell(s.board[sq as int]));
            }
            if pt != OU {
                let bonus = (if b > 0 && color == BLACK {
                    33
                } else {
                    0
                }) + (if w > 0 && color == WHITE {
                    33
                } else {
                    0
                });
                let v = piece_value(pt);
                proof {
                    assert(0 <= v <= 1395);
                    assert(0 <= v * (1000 + bonus) <= 1395 * 1033) by (nonlinear_arith)
                        requires
                            0 <= v <= 1395,
                            0 <= bonus <= 33,
                    ;
                }
                let m = v * (1000 + bonus) / 1000;
                t2 = if color == BLACK {
                    m
                } else {
                    -m
                };
            }
        }
        t1 + t2
}

/// Score of a position from black's (sente's) point of view, in centipawns.
pub fn evaluate(pos: &Position) -> (r: i32)
    requires
        pos.wf(),
    ensures
        r == spec_evaluate(pos.snap()),
        -1_000_000 <= r <= 1_000_000,
{
    let ghost s = pos.snap();
    let effects = effect_map(pos);
    let black_king = pos.king_square(BLACK);
    let white_king = pos.king_square(WHITE);
    let mut score: i32 = 0;
    let mut sq: u8 = 0;
    while sq < 81
        invariant
            sq <= 81,
            s == pos.snap(),
            pos.wf(),
            black_king == s.king_sq[0],
            white_king == s.king_sq[1],
            black_king < 81 || black_king == SQ_NONE,
            white_king < 81 || white_king == SQ_NONE,
            forall|c: int, t: int|
                0 <= c < 2 && 0 <= t < 81 ==> #[trigger] effects[c][t] == effect(s, c as u8, t),
            score == squares_score(s, sq as int),
            -2200 * sq <= score <= 2200 * sq,
        decreases 81 - sq,
    {
        let term = square_score(pos, &effects, black_king, white_king, sq);
        score = score + term;
        sq = sq + 1;
    }
    let types = Hand::types();
    let mut k: usize = 0;
    while k < 7
        invariant
            k <= 7,
            types@ == hand_types(),
            s == pos.snap(),
            score == squares_score(s, 81) + hand_score(s, k as int),
            -178200 - 50000 * k <= score <= 178200 + 50000 * k,
        decreases 7 - k,
    {
        let pt = types[k];
        let v = piece_value(pt);
        let nb = pos.hand(BLACK, pt);
        let nw = pos.hand(WHITE, pt);
        score = score + v * nb * 8 / 10;
        score = score - v * nw * 8 / 10;
        k = k + 1;
    }
    score
}

proof fn lemma_effect_range(s: Snap, t: int)
    ensures
        0 <= effect(s, BLACK, t) <= 2,
        0 <= effect(s, WHITE, t) <= 2,
{
}

proof fn lemma_effect_term_bound(b: int, w: int, bd: int, wd: int)
    requires
        0 <= b <= 2,
        0 <= w <= 2,
        1 <= bd <= 9,
        1 <= wd <= 9,
    ensures
        -400 <= 83 * b / bd - 92 * w / bd + 92 * b / wd - 83 * w / wd <= 400,
{
    assert(0 <= 83 * b / bd <= 166) by (nonlinear_arith)
        requires
            0 <= b <= 2,
            1 <= bd,
    ;
    assert(0 <= 92 * w / bd <= 184) by (nonlinear_arith)
        requires
            0 <= w <= 2,
            1 <= bd,
    ;
    assert(0 <= 92 * b / wd <= 184) by (nonlinear_arith)
        requires
            0 <= b <= 2,
            1 <= wd,
    ;
    assert(0 <= 83 * w / wd <= 166) by (nonlinear_arith)
        requires
            0 <= w <= 2,
            1 <= wd,
    ;
}

} // verus!
