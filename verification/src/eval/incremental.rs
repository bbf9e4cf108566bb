//! The accumulator rows that `Nnue::push` updates column by column after a move are
//! the rows that `refresh` computes from scratch for the position after the move.
//!
//! Each accumulator entry is the bias plus a sum of weights, kept in wrapping 16-bit
//! arithmetic; so an entry depends only on that sum modulo 2^16, and the update adds
//! and subtracts exactly the weights of the features that the move turns on and off.
use super::accumulator::{acc_sum, feature_row, scratch_row, with_row};
use super::features::{
    board_features, hand_features, spec_abs_index, spec_active_features, spec_hand_index,
    thermometer,
};
use super::network::Network;
use super::nnue::{abs_feature, hand_feature, pushed_row};
use crate::hand::{
    is_hand_type, lemma_add_count, lemma_field_room, lemma_remove_count, lemma_word_facts,
    spec_field_mask, spec_shift, spec_unit, spec_width, Hand,
};
use crate::keys::capture_room;
use crate::mov::Move;
use crate::movegen::pseudo_ok;
use crate::position::{hand_types, snap_ok, spec_apply, Snap};
use crate::types::{
    lemma_byte_facts, lemma_opposite, lemma_piece_roundtrip, spec_make_piece, spec_opposite,
    spec_piece_color, spec_piece_type, spec_promoted,
};
use vstd::prelude::*;

verus! {

/// `x` brought into the range of an `i16` by adding a multiple of 2^16.
pub open spec fn wrap16(x: int) -> int {
    (x + 32768) % 65536 - 32768
}

proof fn lemma_wrap16_small(x: int)
    requires
        -32768 <= x <= 32767,
    ensures
        wrap16(x) == x,
{
    vstd::arithmetic::div_mod::lemma_small_mod((x + 32768) as nat, 65536);
}

/// Wrapping once more after adding `y` is wrapping the plain sum.
proof fn lemma_wrap16_add(x: int, y: int)
    ensures
        wrap16(wrap16(x) + y) == wrap16(x + y),
{
    vstd::arithmetic::div_mod::lemma_add_mod_noop_right(y, x + 32768, 65536);
}

proof fn lemma_wrapping_i16(a: i16, b: i16)
    ensures
        vstd::wrapping::i16_specs::wrapping_add(a, b) as int == wrap16(a + b),
        vstd::wrapping::i16_specs::wrapping_sub(a, b) as int == wrap16(a - b),
{
    let m: int = 65536;
    let s = a + b + 32768;
    if s >= m {
        vstd::arithmetic::div_mod::lemma_small_mod((s - m) as nat, m as nat);
        vstd::arithmetic::div_mod::lemma_mod_sub_multiples_vanish(s, m);
    } else if s < 0 {
        vstd::arithmetic::div_mod::lemma_small_mod((s + m) as nat, m as nat);
        vstd::arithmetic::div_mod::lemma_mod_add_multiples_vanish(s, m);
    } else {
        vstd::arithmetic::div_mod::lemma_small_mod(s as nat, m as nat);
    }
    let d = a - b + 32768;
    if d >= m {
        vstd::arithmetic::div_mod::lemma_small_mod((d - m) as nat, m as nat);
        vstd::arithmetic::div_mod::lemma_mod_sub_multiples_vanish(d, m);
    } else if d < 0 {
        vstd::arithmetic::div_mod::lemma_small_mod((d + m) as nat, m as nat);
        vstd::arithmetic::div_mod::lemma_mod_add_multiples_vanish(d, m);
    } else {
        vstd::arithmetic::div_mod::lemma_small_mod(d as nat, m as nat);
    }
}

/// Column `j` of the rows of `feats`, summed as integers.
pub open spec fn col_sum(net: Network, feats: Seq<u16>, j: int) -> int
    decreases feats.len(),
{
    if feats.len() == 0 {
        0
    } else {
        col_sum(net, feats.drop_last(), j) + feature_row(net, feats.last() as int)[j]
    }
}

proof fn lemma_row_len(net: Network, f: int)
    requires
        net.wf(),
    ensures
        feature_row(net, f).len() == 128,
{
}

/// The sum of a concatenation is the sum of its parts.
proof fn lemma_col_sum_concat(net: Network, a: Seq<u16>, b: Seq<u16>, j: int)
    ensures
        col_sum(net, a + b, j) == col_sum(net, a, j) + col_sum(net, b, j),
    decreases b.len(),
{
    if b.len() == 0 {
        assert(a + b =~= a);
    } else {
        lemma_col_sum_concat(net, a, b.drop_last(), j);
        assert((a + b).drop_last() =~= a + b.drop_last());
        assert((a + b).last() == b.last());
    }
}

/// Each entry of an accumulator summed from the bias is the bias plus the column sum,
/// wrapped.
proof fn lemma_acc_sum_col(net: Network, feats: Seq<u16>, j: int)
    requires
        net.wf(),
        0 <= j < 128,
    ensures
        acc_sum(net, feats).len() == 128,
        acc_sum(net, feats)[j] as int == wrap16(net.ft_bias[j] + col_sum(net, feats, j)),
    decreases feats.len(),
{
    if feats.len() == 0 {
        lemma_wrap16_small(net.ft_bias[j] as int);
    } else {
        let prev = acc_sum(net, feats.drop_last());
        let row = feature_row(net, feats.last() as int);
        lemma_acc_sum_col(net, feats.drop_last(), j);
        lemma_row_len(net, feats.last() as int);
        lemma_wrapping_i16(prev[j], row[j]);
        lemma_wrap16_add(net.ft_bias[j] + col_sum(net, feats.drop_last(), j), row[j] as int);
    }
}

/// An entry `wrap16(x)` with a row added (or subtracted) becomes `wrap16(x ± row)`.
proof fn lemma_with_row_col(acc: Seq<i16>, row: Seq<i16>, add: bool, x: int, j: int)
    requires
        0 <= j < 128,
        acc.len() == 128,
        row.len() == 128,
        acc[j] as int == wrap16(x),
    ensures
        with_row(acc, row, add).len() == 128,
        with_row(acc, row, add)[j] as int == wrap16(if add {
            x + row[j]
        } else {
            x - row[j]
        }),
{
    lemma_wrapping_i16(acc[j], row[j]);
    if add {
        lemma_wrap16_add(x, row[j] as int);
    } else {
        lemma_wrap16_add(x, -row[j]);
    }
}

/// The features of the piece byte `p` on square `sq`: none for an empty square.
pub open spec fn square_features(p: u8, sq: int, perspective: u8) -> Seq<u16> {
    if p != 0 && spec_piece_type(p) >= 1 {
        seq![spec_abs_index(spec_piece_color(p), spec_piece_type(p), sq, perspective) as u16]
    } else {
        Seq::empty()
    }
}

proof fn lemma_board_step(b: Seq<u8>, perspective: u8, n: int)
    requires
        n > 0,
    ensures
        board_features(b, perspective, n) == board_features(b, perspective, n - 1) + square_features(
            b[n - 1],
            n - 1,
            perspective,
        ),
{
}

/// Changing square `i` changes the board's column sum by the square's new features
/// less its old ones.
proof fn lemma_board_update(net: Network, b: Seq<u8>, i: int, v: u8, perspective: u8, n: int, j: int)
    requires
        0 <= i < b.len(),
        0 <= n <= b.len(),
    ensures
        col_sum(net, board_features(b.update(i, v), perspective, n), j) == col_sum(
            net,
            board_features(b, perspective, n),
            j,
        ) + (if i < n {
            col_sum(net, square_features(v, i, perspective), j) - col_sum(
                net,
                square_features(b[i], i, perspective),
                j,
            )
        } else {
            0
        }),
    decreases n,
{
    let b2 = b.update(i, v);
    if n > 0 {
        lemma_board_update(net, b, i, v, perspective, n - 1, j);
        lemma_board_step(b, perspective, n);
        lemma_board_step(b2, perspective, n);
        lemma_col_sum_concat(
            net,
            board_features(b, perspective, n - 1),
            square_features(b[n - 1], n - 1, perspective),
            j,
        );
        lemma_col_sum_concat(
            net,
            board_features(b2, perspective, n - 1),
            square_features(b2[n - 1], n - 1, perspective),
            j,
        );
    }
}

/// The column sum of one feature is its row's entry.
proof fn lemma_col_sum_one(net: Network, f: u16, j: int)
    ensures
        col_sum(net, seq![f], j) == feature_row(net, f as int)[j],
{
    assert(seq![f].drop_last() =~= Seq::<u16>::empty());
    assert(col_sum(net, Seq::<u16>::empty(), j) == 0);
    assert(seq![f].last() == f);
}

/// Hand features of `owner` read only `owner`'s hand.
proof fn lemma_hand_features_same(s1: Snap, s2: Snap, owner: u8, k: int, perspective: u8)
    requires
        s1.hands[owner as int] == s2.hands[owner as int],
    ensures
        hand_features(s1, owner, k, perspective) == hand_features(s2, owner, k, perspective),
    decreases k,
{
    if k > 0 {
        lemma_hand_features_same(s1, s2, owner, k - 1, perspective);
    }
}

/// One more piece of the kind at position `kp` of the hand order adds the feature of
/// the new count, once that kind is reached.
proof fn lemma_hand_features_one_more(
    net: Network,
    s1: Snap,
    s2: Snap,
    owner: u8,
    kp: int,
    k: int,
    perspective: u8,
    j: int,
)
    requires
        0 <= kp < 7,
        0 <= k <= 7,
        forall|t: int|
            0 <= t < 7 ==> #[trigger] Hand(s2.hands[owner as int]).spec_count(hand_types()[t])
                == Hand(s1.hands[owner as int]).spec_count(hand_types()[t]) + (if t == kp {
                1int
            } else {
                0
            }),
    ensures
        col_sum(net, hand_features(s2, owner, k, perspective), j) == col_sum(
            net,
            hand_features(s1, owner, k, perspective),
            j,
        ) + (if kp < k {
            feature_row(
                net,
                spec_hand_index(
                    owner,
                    hand_types()[kp],
                    Hand(s2.hands[owner as int]).spec_count(hand_types()[kp]),
                    perspective,
                ) as u16 as int,
            )[j]
        } else {
            0
        }),
    decreases k,
{
    if k > 0 {
        lemma_hand_features_one_more(net, s1, s2, owner, kp, k - 1, perspective, j);
        let pt = hand_types()[k - 1];
        let n1 = Hand(s1.hands[owner as int]).spec_count(pt);
        let n2 = Hand(s2.hands[owner as int]).spec_count(pt);
        let t1 = thermometer(owner, pt, n1, perspective);
        let t2 = thermometer(owner, pt, n2, perspective);
        lemma_col_sum_concat(net, hand_features(s1, owner, k - 1, perspective), t1, j);
        lemma_col_sum_concat(net, hand_features(s2, owner, k - 1, perspective), t2, j);
        assert(Hand(s2.hands[owner as int]).spec_count(hand_types()[k - 1]) == n2);
        if k - 1 == kp {
            assert(n2 == n1 + 1);
            assert(n1 >= 0) by {
                lemma_word_facts(s1.hands[owner as int], spec_shift(pt), spec_width(pt), spec_field_mask(pt));
            }
            assert(t2 == t1.push(spec_hand_index(owner, pt, n2, perspective) as u16));
            assert(t2.drop_last() =~= t1);
        } else {
            assert(n2 == n1);
        }
    }
}

proof fn lemma_count_small(h: u32, pt: u8)
    requires
        is_hand_type(pt),
    ensures
        0 <= Hand(h).spec_count(pt) <= 31,
{
    lemma_word_facts(h, spec_shift(pt), spec_width(pt), spec_field_mask(pt));
}

/// Column `j` of a row computed from scratch, as the bias plus the board's and both
/// hands' column sums, wrapped.
proof fn lemma_scratch_col(net: Network, s: Snap, p: u8, j: int)
    requires
        net.wf(),
        0 <= j < 128,
    ensures
        scratch_row(net, s, p).len() == 128,
        scratch_row(net, s, p)[j] as int == wrap16(
            net.ft_bias[j] + col_sum(net, board_features(s.board, p, 81), j) + col_sum(
                net,
                hand_features(s, 0, 7, p),
                j,
            ) + col_sum(net, hand_features(s, 1, 7, p), j),
        ),
{
    let bf = board_features(s.board, p, 81);
    let hb = hand_features(s, 0, 7, p);
    let hw = hand_features(s, 1, 7, p);
    lemma_acc_sum_col(net, spec_active_features(s, p), j);
    lemma_col_sum_concat(net, bf + hb, hw, j);
    lemma_col_sum_concat(net, bf, hb, j);
}

/// How a move changes the hand of the side that moves: a drop takes one piece of the
/// dropped kind, a capture adds one of the captured piece's unpromoted kind; the other
/// hand stays.
proof fn lemma_move_hands(s: Snap, mv: Move)
    requires
        snap_ok(s),
        pseudo_ok(s, mv),
        capture_room(s, mv),
    ensures
        ({
            let us = s.side;
            let a = spec_apply(s, mv);
            let target = s.board[mv.spec_to() as int];
            let u = crate::types::spec_unpromoted(spec_piece_type(target));
            &&& a.hands[spec_opposite(us) as int] == s.hands[spec_opposite(us) as int]
            &&& mv.spec_is_drop() ==> forall|t: int|
                0 <= t < 7 ==> #[trigger] Hand(s.hands[us as int]).spec_count(hand_types()[t])
                    == Hand(a.hands[us as int]).spec_count(hand_types()[t]) + (if t == mv.spec_moved() - 1 {
                    1int
                } else {
                    0
                })
            &&& !mv.spec_is_drop() && target != 0 ==> forall|t: int|
                0 <= t < 7 ==> #[trigger] Hand(a.hands[us as int]).spec_count(hand_types()[t])
                    == Hand(s.hands[us as int]).spec_count(hand_types()[t]) + (if t == u - 1 {
                    1int
                } else {
                    0
                })
            &&& !mv.spec_is_drop() && target == 0 ==> a.hands[us as int] == s.hands[us as int]
        }),
{
    let us = s.side;
    let a = spec_apply(s, mv);
    let h = Hand(s.hands[us as int]);
    lemma_opposite(us);
    if mv.spec_is_drop() {
        let pt = mv.spec_moved();
        lemma_remove_count(h, pt, pt);
        assert(a.hands[us as int] == (h.0 - spec_unit(pt)) as u32);
        assert forall|t: int| 0 <= t < 7 implies #[trigger] Hand(s.hands[us as int]).spec_count(hand_types()[t])
            == Hand(a.hands[us as int]).spec_count(hand_types()[t]) + (if t == pt - 1 {
            1int
        } else {
            0
        }) by {
            lemma_remove_count(h, pt, hand_types()[t]);
        }
    } else {
        let target = s.board[mv.spec_to() as int];
        if target != 0 {
            let u = crate::types::spec_unpromoted(spec_piece_type(target));
            lemma_field_room(h, u);
            lemma_add_count(h, u, u);
            assert(a.hands[us as int] == (h.0 + spec_unit(u)) as u32);
            assert forall|t: int| 0 <= t < 7 implies #[trigger] Hand(a.hands[us as int]).spec_count(hand_types()[t])
                == Hand(s.hands[us as int]).spec_count(hand_types()[t]) + (if t == u - 1 {
                1int
            } else {
                0
            }) by {
                lemma_add_count(h, u, hand_types()[t]);
            }
        }
    }
}

/// The column sum of the features of a piece on a square is its feature's row entry.
proof fn lemma_square_piece(net: Network, q: u8, sq: int, p: u8, j: int)
    requires
        q != 0,
        1 <= spec_piece_type(q) <= 15,
        0 <= sq < 81,
    ensures
        col_sum(net, square_features(q, sq, p), j) == feature_row(
            net,
            abs_feature(spec_piece_color(q), spec_piece_type(q), sq, p),
        )[j],
{
    let idx = spec_abs_index(spec_piece_color(q), spec_piece_type(q), sq, p);
    assert(0 <= idx < 65536);
    lemma_col_sum_one(net, idx as u16, j);
}

/// An empty square has no features.
proof fn lemma_square_empty(net: Network, sq: int, p: u8, j: int)
    ensures
        col_sum(net, square_features(0, sq, p), j) == 0,
{
    assert(square_features(0, sq, p) =~= Seq::<u16>::empty());
}

/// A hand feature of a count below 32 survives the cut to 16 bits.
proof fn lemma_hand_row(net: Network, owner: u8, pt: u8, k: int, p: u8)
    requires
        1 <= k <= 31,
    ensures
        feature_row(net, spec_hand_index(owner, pt, k, p) as u16 as int) == feature_row(
            net,
            hand_feature(owner, pt, k, p),
        ),
{
    let idx = spec_hand_index(owner, pt, k, p);
    assert(0 <= idx < 65536);
}

/// Column `j` of the row `push` computes after `mv` equals column `j` of the row
/// computed from scratch after it.
proof fn lemma_push_col(net: Network, s: Snap, mv: Move, p: u8, j: int)
    requires
        net.wf(),
        snap_ok(s),
        pseudo_ok(s, mv),
        capture_room(s, mv),
        !mv.spec_is_drop() ==> mv.spec_captured() == spec_piece_type(s.board[mv.spec_to() as int]),
        0 <= j < 128,
    ensures
        pushed_row(net, scratch_row(net, s, p), spec_apply(s, mv), mv, s.side, p).len() == 128,
        pushed_row(net, scratch_row(net, s, p), spec_apply(s, mv), mv, s.side, p)[j] == scratch_row(
            net,
            spec_apply(s, mv),
            p,
        )[j],
{
    let us = s.side;
    let them = spec_opposite(us);
    let a = spec_apply(s, mv);
    let to = mv.spec_to() as int;
    let from = mv.spec_from() as int;
    let pt = mv.spec_moved();
    let before = scratch_row(net, s, p);
    let b = net.ft_bias[j] as int;
    let cb = col_sum(net, board_features(s.board, p, 81), j);
    let h0 = col_sum(net, hand_features(s, 0, 7, p), j);
    let h1 = col_sum(net, hand_features(s, 1, 7, p), j);
    let x = b + cb + h0 + h1;
    lemma_opposite(us);
    lemma_scratch_col(net, s, p, j);
    lemma_scratch_col(net, a, p, j);
    lemma_move_hands(s, mv);
    lemma_hand_features_same(s, a, them, 7, p);
    if mv.spec_is_drop() {
        let piece = spec_make_piece(us, pt);
        lemma_piece_roundtrip(us, pt);
        let cnt = Hand(a.hands[us as int]).spec_count(pt) + 1;
        lemma_count_small(s.hands[us as int], pt);
        assert(hand_types()[pt - 1] == pt);
        assert(Hand(s.hands[us as int]).spec_count(hand_types()[pt - 1]) == cnt);
        let r_hand = feature_row(net, hand_feature(us, pt, cnt, p));
        let r_to = feature_row(net, abs_feature(us, pt, to, p));
        lemma_row_len(net, hand_feature(us, pt, cnt, p));
        lemma_row_len(net, abs_feature(us, pt, to, p));
        let a1 = with_row(before, r_hand, false);
        lemma_with_row_col(before, r_hand, false, x, j);
        lemma_with_row_col(a1, r_to, true, x - r_hand[j], j);
        // board: the target square gets the dropped piece
        lemma_board_update(net, s.board, to, piece, p, 81, j);
        lemma_square_piece(net, piece, to, p, j);
        lemma_square_empty(net, to, p, j);
        // hand: one piece fewer of the dropped kind
        lemma_hand_features_one_more(net, a, s, us, pt - 1, 7, p, j);
        lemma_hand_row(net, us, pt, cnt, p);
    } else {
        let target = s.board[to];
        let cap = mv.spec_captured();
        let final_pt = if mv.spec_is_promotion() {
            spec_promoted(pt)
        } else {
            pt
        };
        let fpiece = spec_make_piece(us, final_pt);
        lemma_piece_roundtrip(us, pt);
        lemma_piece_roundtrip(us, final_pt);
        let r_from = feature_row(net, abs_feature(us, pt, from, p));
        let r_fp = feature_row(net, abs_feature(us, final_pt, to, p));
        lemma_row_len(net, abs_feature(us, pt, from, p));
        lemma_row_len(net, abs_feature(us, final_pt, to, p));
        let a1 = with_row(before, r_from, false);
        let a2 = with_row(a1, r_fp, true);
        lemma_with_row_col(before, r_from, false, x, j);
        lemma_with_row_col(a1, r_fp, true, x - r_from[j], j);
        // board: the origin empties, the target gets the moved piece
        let b1 = s.board.update(from, 0u8);
        lemma_board_update(net, s.board, from, 0u8, p, 81, j);
        lemma_board_update(net, b1, to, fpiece, p, 81, j);
        assert(a.board == b1.update(to, fpiece));
        assert(b1[to] == target);
        lemma_square_piece(net, s.board[from], from, p, j);
        lemma_square_empty(net, from, p, j);
        lemma_square_piece(net, fpiece, to, p, j);
        if target != 0 {
            lemma_byte_facts(0, 0);
            let u = crate::types::spec_unpromoted(cap);
            lemma_square_piece(net, target, to, p, j);
            let r_cap = feature_row(net, abs_feature(them, cap, to, p));
            let cnt = Hand(a.hands[us as int]).spec_count(u);
            lemma_count_small(a.hands[us as int], u);
            assert(hand_types()[u - 1] == u);
            let r_h = feature_row(net, hand_feature(us, u, cnt, p));
            lemma_row_len(net, abs_feature(them, cap, to, p));
            lemma_row_len(net, hand_feature(us, u, cnt, p));
            let a3 = with_row(a2, r_cap, false);
            lemma_with_row_col(a2, r_cap, false, x - r_from[j] + r_fp[j], j);
            lemma_with_row_col(a3, r_h, true, x - r_from[j] + r_fp[j] - r_cap[j], j);
            lemma_hand_features_one_more(net, s, a, us, u - 1, 7, p, j);
            lemma_hand_row(net, us, u, cnt, p);
        } else {
            lemma_byte_facts(0, 0);
            lemma_square_empty(net, to, p, j);
            lemma_hand_features_same(s, a, us, 7, p);
        }
    }
}

/// For a move that can be played on `s`, whose captured kind is the kind standing on
/// its target square and whose capture has room in the mover's hand, the accumulator
/// row that `push` computes from the row computed from scratch before the move is the
/// row computed from scratch after it, for either perspective.
pub proof fn lemma_push_matches_refresh(net: Network, s: Snap, mv: Move, p: u8)
    requires
        net.wf(),
        snap_ok(s),
        pseudo_ok(s, mv),
        capture_room(s, mv),
        !mv.spec_is_drop() ==> mv.spec_captured() == spec_piece_type(s.board[mv.spec_to() as int]),
    ensures
        pushed_row(net, scratch_row(net, s, p), spec_apply(s, mv), mv, s.side, p) == scratch_row(
            net,
            spec_apply(s, mv),
            p,
        ),
{
    let pushed = pushed_row(net, scratch_row(net, s, p), spec_apply(s, mv), mv, s.side, p);
    let after = scratch_row(net, spec_apply(s, mv), p);
    lemma_push_col(net, s, mv, p, 0);
    lemma_scratch_col(net, spec_apply(s, mv), p, 0);
    assert forall|j: int| 0 <= j < 128 implies pushed[j] == after[j] by {
        lemma_push_col(net, s, mv, p, j);
    }
    assert(pushed =~= after);
}

/// With every transformer weight within 254 either way, the column sum of `feats` is
/// within 254 per feature.
proof fn lemma_col_sum_bound(net: Network, feats: Seq<u16>, j: int)
    requires
        net.wf(),
        0 <= j < 128,
        forall|i: int| 0 <= i < net.ft_weight@.len() ==> -254 <= #[trigger] net.ft_weight@[i] <= 254,
    ensures
        -254 * feats.len() <= col_sum(net, feats, j) <= 254 * feats.len(),
    decreases feats.len(),
{
    if feats.len() > 0 {
        lemma_col_sum_bound(net, feats.drop_last(), j);
        let f = feats.last() as int;
        if f < super::features::N_FEATURES {
            assert(feature_row(net, f)[j] == net.ft_weight@[f * 128 + j]);
        }
    }
}

/// The clamps of quantization-aware training keep the accumulator exact: with every
/// transformer weight within 254 either way, every bias within 508 and at most 40
/// active features, no entry of an accumulator summed from the bias wraps.
pub proof fn lemma_accumulator_exact(net: Network, feats: Seq<u16>, j: int)
    requires
        net.wf(),
        0 <= j < 128,
        feats.len() <= 40,
        forall|i: int| 0 <= i < net.ft_weight@.len() ==> -254 <= #[trigger] net.ft_weight@[i] <= 254,
        -508 <= net.ft_bias[j] <= 508,
    ensures
        acc_sum(net, feats)[j] as int == net.ft_bias[j] + col_sum(net, feats, j),
{
    lemma_col_sum_bound(net, feats, j);
    lemma_acc_sum_col(net, feats, j);
    lemma_wrap16_small(net.ft_bias[j] + col_sum(net, feats, j));
}

} // verus!
