//! The keys that `do_move` and `do_null_move` update incrementally are the keys of the
//! new position computed from scratch.
use crate::hand::{
    is_hand_type, lemma_add_count, lemma_field_room, lemma_remove_count, spec_field_mask, spec_unit,
    Hand,
};
use crate::mov::Move;
use crate::movegen::{game_ok, legal_move, lemma_legal_keeps_game_ok, pseudo_ok};
use crate::search::play_line;
use crate::position::{
    rep_count, rep_end, rep_match, rep_result, rep_scan, rep_verdict, spec_checkers, Repetition,
    applicable, board_key_upto, color_fields_ok, derived_ok, file_bit, hand_key_upto, hand_types,
    lemma_xor_assoc, next_state_ok, pawn_at, sound,
    null_state_ok, snap_ok, spec_apply, spec_board_key, spec_hand_key, spec_next_board_key,
    spec_next_hand_key, spec_null, add_times, Snap, StateInfo,
};
use crate::types::{
    spec_col,
    lemma_opposite, lemma_piece_roundtrip, lemma_piece_split, spec_make_piece, spec_opposite,
    spec_piece_color, spec_piece_type, spec_promoted, spec_unpromoted, valid_piece, BLACK, WHITE,
};
use crate::zobrist::{spec_hand_inc, spec_psq_key, SIDE_KEY};
use vstd::prelude::*;

verus! {

/// What square `i` holding `p` adds to the board key.
pub open spec fn key_contrib(p: u8, i: int) -> u64 {
    if p != 0 {
        spec_psq_key(p, i as u8)
    } else {
        0
    }
}

proof fn lemma_upto_step(b: Seq<u8>, n: int)
    requires
        n > 0,
    ensures
        board_key_upto(b, n) == board_key_upto(b, n - 1) ^ key_contrib(b[n - 1], n - 1),
{
    lemma_xor_assoc(board_key_upto(b, n - 1), 0, 0);
}

/// Changing square `i` changes the board key by the square's old and new contributions.
proof fn lemma_upto_update(b: Seq<u8>, i: int, v: u8, n: int)
    requires
        0 <= i < b.len(),
        0 <= n <= b.len(),
    ensures
        board_key_upto(b.update(i, v), n) == board_key_upto(b, n) ^ (if i < n {
            key_contrib(b[i], i) ^ key_contrib(v, i)
        } else {
            0u64
        }),
    decreases n,
{
    let b2 = b.update(i, v);
    if n == 0 {
        lemma_xor_assoc(0, 0, 0);
    } else {
        lemma_upto_update(b, i, v, n - 1);
        lemma_upto_step(b, n);
        lemma_upto_step(b2, n);
        let p = board_key_upto(b, n - 1);
        let d = key_contrib(b[i], i) ^ key_contrib(v, i);
        if n - 1 == i {
            lemma_xor_assoc(p, 0, 0);
            lemma_xor_assoc(p, key_contrib(b[i], i), key_contrib(v, i));
        } else if i < n - 1 {
            assert(b2[n - 1] == b[n - 1]);
            lemma_xor_assoc(p, d, key_contrib(b[n - 1], n - 1));
        } else {
            assert(b2[n - 1] == b[n - 1]);
            lemma_xor_assoc(p, 0, 0);
            lemma_xor_assoc(p ^ key_contrib(b[n - 1], n - 1), 0, 0);
        }
    }
}

/// The side-to-move part of the board key.
pub open spec fn side_term(side: u8) -> u64 {
    if side == WHITE {
        SIDE_KEY
    } else {
        0u64
    }
}

proof fn lemma_side_term_flip(side: u8)
    requires
        side <= 1,
    ensures
        side_term(spec_opposite(side)) == side_term(side) ^ SIDE_KEY,
{
    lemma_opposite(side);
    lemma_xor_assoc(0, 1, 0);
    lemma_xor_assoc(1, 0, 0);
}

/// The board key after a move, updated from the key before it, is the key of the
/// board after the move.
pub proof fn lemma_board_key_after_move(s: Snap, mv: Move)
    requires
        snap_ok(s),
        applicable(s, mv),
    ensures
        spec_next_board_key(spec_board_key(s.board, s.side), s.side, mv, s.board[mv.spec_to() as int])
            == spec_board_key(spec_apply(s, mv).board, spec_apply(s, mv).side),
{
    let us = s.side;
    let a = spec_apply(s, mv);
    let to = mv.spec_to() as int;
    let from = mv.spec_from() as int;
    let pt = mv.spec_moved();
    let u = board_key_upto(s.board, 81);
    let st = side_term(us);
    lemma_side_term_flip(us);
    lemma_piece_roundtrip(us, pt);
    if mv.spec_is_drop() {
        let piece = spec_make_piece(us, pt);
        lemma_upto_update(s.board, to, piece, 81);
        let q = spec_psq_key(piece, to as u8);
        assert(key_contrib(s.board[to], to) == 0u64);
        assert(key_contrib(piece, to) == q);
        lemma_xor_assoc(0, q, 0);
        assert(((st ^ u) ^ 1u64) ^ q == (st ^ 1u64) ^ (u ^ (0u64 ^ q))) by (bit_vector);
    } else {
        let target = s.board[to];
        let final_pt = if mv.spec_is_promotion() {
            spec_promoted(pt)
        } else {
            pt
        };
        lemma_piece_roundtrip(us, final_pt);
        let mp = spec_make_piece(us, pt);
        let fp = spec_make_piece(us, final_pt);
        let b1 = s.board.update(from, 0u8);
        lemma_upto_update(s.board, from, 0u8, 81);
        lemma_upto_update(b1, to, fp, 81);
        assert(b1[to] == target);
        let m = spec_psq_key(mp, from as u8);
        let f = spec_psq_key(fp, to as u8);
        let t = key_contrib(target, to);
        assert(key_contrib(s.board[from], from) == m);
        assert(key_contrib(fp, to) == f);
        assert(a.board == b1.update(to, fp));
        let k = st ^ u;
        assert((((k ^ 1u64) ^ t) ^ m) ^ f == (st ^ 1u64) ^ ((u ^ (m ^ 0u64)) ^ (t ^ f))) by (bit_vector)
            requires
                k == st ^ u,
        ;
        if target == 0 {
            lemma_xor_assoc(k ^ 1u64, 0, 0);
        }
    }
}

/// Passing flips the side part of the board key and leaves the board part.
pub proof fn lemma_board_key_after_null(s: Snap)
    requires
        snap_ok(s),
    ensures
        spec_board_key(s.board, s.side) ^ SIDE_KEY == spec_board_key(spec_null(s).board, spec_null(s).side),
{
    lemma_side_term_flip(s.side);
    let u = board_key_upto(s.board, 81);
    lemma_xor_assoc(side_term(s.side), u, SIDE_KEY);
}


/// 2 to the 64th, the modulus of word arithmetic.
pub open spec fn word_mod() -> int {
    0x1_0000_0000_0000_0000
}

/// Every piece in hand times its kind's increment, over color `c`'s first `j` kinds
/// and the earlier colors.
pub open spec fn hand_total(hands: Seq<u32>, c: int, j: int) -> int
    decreases c, j,
{
    if c <= 0 && j <= 0 {
        0
    } else if j <= 0 {
        hand_total(hands, c - 1, 7)
    } else {
        hand_total(hands, c, j - 1) + Hand(hands[c]).spec_count(hand_types()[j - 1])
            * spec_hand_inc(c as u8, hand_types()[j - 1])
    }
}

proof fn lemma_add_times(acc: u64, inc: u64, n: nat)
    ensures
        add_times(acc, inc, n) as int == (acc + n * inc) % word_mod(),
    decreases n,
{
    let m = word_mod();
    if n == 0 {
        vstd::arithmetic::div_mod::lemma_small_mod(acc as nat, m as nat);
    } else {
        lemma_add_times(acc, inc, (n - 1) as nat);
        let p = add_times(acc, inc, (n - 1) as nat);
        assert(vstd::wrapping::u64_specs::wrapping_add(p, inc) as int == (p + inc) % m) by {
            if p + inc >= m {
                vstd::arithmetic::div_mod::lemma_small_mod((p + inc - m) as nat, m as nat);
                vstd::arithmetic::div_mod::lemma_mod_sub_multiples_vanish((p + inc) as int, m);
            } else {
                vstd::arithmetic::div_mod::lemma_small_mod((p + inc) as nat, m as nat);
            }
        }
        vstd::arithmetic::div_mod::lemma_add_mod_noop_right(inc as int, acc + (n - 1) * inc, m);
        assert((n - 1) * inc + inc == n * inc) by (nonlinear_arith);
    }
}

/// The hand key is the hand total, wrapped to a word.
proof fn lemma_hand_key_total(hands: Seq<u32>, c: int, j: int, acc: u64)
    requires
        0 <= c <= 1,
        0 <= j <= 7,
    ensures
        hand_key_upto(hands, c, j, acc) as int == (acc + hand_total(hands, c, j)) % word_mod(),
    decreases c, j,
{
    let m = word_mod();
    if c <= 0 && j <= 0 {
        vstd::arithmetic::div_mod::lemma_small_mod(acc as nat, m as nat);
    } else if j <= 0 {
        lemma_hand_key_total(hands, c - 1, 7, acc);
    } else {
        lemma_hand_key_total(hands, c, j - 1, acc);
        let pt = hand_types()[j - 1];
        let inc = spec_hand_inc(c as u8, pt);
        let n = Hand(hands[c]).spec_count(pt);
        let prev = hand_key_upto(hands, c, j - 1, acc);
        lemma_add_times(prev, inc, n as nat);
        vstd::arithmetic::div_mod::lemma_add_mod_noop_right(n * inc, acc + hand_total(hands, c, j - 1), m);
    }
}

/// Changing the count of one kind `pt` (at position `kp` of the hand order) of one
/// color by `d` changes the total by `d` times its increment, once that kind is counted.
proof fn lemma_total_delta(h: Seq<u32>, h2: Seq<u32>, us: int, kp: int, d: int, c: int, j: int)
    requires
        0 <= us <= 1,
        0 <= kp < 7,
        0 <= c <= 1,
        0 <= j <= 7,
        forall|cc: int, k: int|
            0 <= cc < 2 && 0 <= k < 7 ==> #[trigger] Hand(h2[cc]).spec_count(hand_types()[k])
                == Hand(h[cc]).spec_count(hand_types()[k]) + (if cc == us && k == kp {
                d
            } else {
                0
            }),
    ensures
        hand_total(h2, c, j) == hand_total(h, c, j) + (if us < c || (us == c && kp < j) {
            d * spec_hand_inc(us as u8, hand_types()[kp])
        } else {
            0
        }),
    decreases c, j,
{
    if c <= 0 && j <= 0 {
    } else if j <= 0 {
        lemma_total_delta(h, h2, us, kp, d, c - 1, 7);
    } else {
        lemma_total_delta(h, h2, us, kp, d, c, j - 1);
        let k = j - 1;
        let pt = hand_types()[k];
        let inc = spec_hand_inc(c as u8, pt);
        let n = Hand(h[c]).spec_count(pt);
        let n2 = Hand(h2[c]).spec_count(pt);
        if c == us && k == kp {
            assert(n2 == n + d);
            assert(n2 * inc == n * inc + d * inc) by (nonlinear_arith)
                requires
                    n2 == n + d,
            ;
        } else {
            assert(n2 == n);
        }
    }
}


proof fn lemma_wrapping_add_mod(p: u64, inc: u64)
    ensures
        vstd::wrapping::u64_specs::wrapping_add(p, inc) as int == (p + inc) % word_mod(),
{
    let m = word_mod();
    if p + inc >= m {
        vstd::arithmetic::div_mod::lemma_small_mod((p + inc - m) as nat, m as nat);
        vstd::arithmetic::div_mod::lemma_mod_sub_multiples_vanish((p + inc) as int, m);
    } else {
        vstd::arithmetic::div_mod::lemma_small_mod((p + inc) as nat, m as nat);
    }
}

proof fn lemma_wrapping_sub_mod(p: u64, inc: u64)
    ensures
        vstd::wrapping::u64_specs::wrapping_sub(p, inc) as int == (p - inc) % word_mod(),
{
    let m = word_mod();
    if p - inc < 0 {
        vstd::arithmetic::div_mod::lemma_small_mod((p - inc + m) as nat, m as nat);
        vstd::arithmetic::div_mod::lemma_mod_add_multiples_vanish((p - inc) as int, m);
    } else {
        vstd::arithmetic::div_mod::lemma_small_mod((p - inc) as nat, m as nat);
    }
}

/// A capture by `mv` takes a real piece whose unpromoted kind has room in the mover's
/// hand.
pub open spec fn capture_room(s: Snap, mv: Move) -> bool {
    let target = s.board[mv.spec_to() as int];
    let u = spec_unpromoted(spec_piece_type(target));
    !mv.spec_is_drop() && target != 0 ==> {
        &&& valid_piece(target)
        &&& is_hand_type(u)
        &&& Hand(s.hands[s.side as int]).spec_count(u) < spec_field_mask(u)
    }
}

/// The hand key after a move, updated from the key before it, is the key of the hands
/// after the move.
pub proof fn lemma_hand_key_after_move(s: Snap, mv: Move)
    requires
        snap_ok(s),
        pseudo_ok(s, mv),
        capture_room(s, mv),
    ensures
        spec_next_hand_key(spec_hand_key(s.hands), s.side, mv, s.board[mv.spec_to() as int])
            == spec_hand_key(spec_apply(s, mv).hands),
{
    let m = word_mod();
    let us = s.side;
    let hs = s.hands;
    let a = spec_apply(s, mv);
    let target = s.board[mv.spec_to() as int];
    let key = spec_hand_key(hs);
    lemma_hand_key_total(hs, 1, 7, 0);
    lemma_hand_key_total(a.hands, 1, 7, 0);
    if mv.spec_is_drop() {
        let pt = mv.spec_moved();
        let kp = pt - 1;
        let h = Hand(hs[us as int]);
        lemma_remove_count(h, pt, pt);
        assert(a.hands[us as int] == (h.0 - spec_unit(pt)) as u32);
        assert forall|cc: int, k: int|
            0 <= cc < 2 && 0 <= k < 7 implies #[trigger] Hand(a.hands[cc]).spec_count(hand_types()[k])
            == Hand(hs[cc]).spec_count(hand_types()[k]) + (if cc == us && k == kp {
            -1int
        } else {
            0
        }) by {
            lemma_remove_count(h, pt, hand_types()[k]);
        }
        lemma_total_delta(hs, a.hands, us as int, kp, -1, 1, 7);
        let inc = spec_hand_inc(us, pt);
        let t = hand_total(hs, 1, 7);
        lemma_wrapping_sub_mod(key, inc);
        vstd::arithmetic::div_mod::lemma_small_mod(inc as nat, m as nat);
        vstd::arithmetic::div_mod::lemma_sub_mod_noop(t, inc as int, m);
        assert((t % m) % m == t % m) by {
            vstd::arithmetic::div_mod::lemma_mod_twice(t, m);
        }
    } else if target != 0 {
        let u = spec_unpromoted(spec_piece_type(target));
        let kp = u - 1;
        let h = Hand(hs[us as int]);
        lemma_field_room(h, u);
        lemma_add_count(h, u, u);
        assert(a.hands[us as int] == (h.0 + spec_unit(u)) as u32);
        assert forall|cc: int, k: int|
            0 <= cc < 2 && 0 <= k < 7 implies #[trigger] Hand(a.hands[cc]).spec_count(hand_types()[k])
            == Hand(hs[cc]).spec_count(hand_types()[k]) + (if cc == us && k == kp {
            1int
        } else {
            0
        }) by {
            lemma_add_count(h, u, hand_types()[k]);
        }
        lemma_total_delta(hs, a.hands, us as int, kp, 1, 1, 7);
        let inc = spec_hand_inc(us, u);
        let t = hand_total(hs, 1, 7);
        lemma_wrapping_add_mod(key, inc);
        vstd::arithmetic::div_mod::lemma_add_mod_noop_right(inc as int, t, m);
    } else {
        assert(a.hands == hs);
    }
}

/// The keys a record holds are those of its position, computed from scratch.
pub open spec fn keys_match(st: StateInfo, s: Snap) -> bool {
    &&& st.board_key == spec_board_key(s.board, s.side)
    &&& st.hand_key == spec_hand_key(s.hands)
}

/// A generated move keeps the incrementally updated keys equal to the keys computed
/// from scratch (when a capture has room in the hand).
pub proof fn lemma_keys_after_move(prev: StateInfo, s: Snap, mv: Move, st: StateInfo)
    requires
        snap_ok(s),
        pseudo_ok(s, mv),
        capture_room(s, mv),
        keys_match(prev, s),
        next_state_ok(prev, s, mv, st),
    ensures
        keys_match(st, spec_apply(s, mv)),
{
    lemma_board_key_after_move(s, mv);
    lemma_hand_key_after_move(s, mv);
}

/// A null move keeps the keys equal to the keys computed from scratch.
pub proof fn lemma_keys_after_null(prev: StateInfo, s: Snap, st: StateInfo)
    requires
        snap_ok(s),
        keys_match(prev, s),
        null_state_ok(prev, s, st),
    ensures
        keys_match(st, spec_null(s)),
{
    lemma_board_key_after_null(s);
}

/// In a sound position each king square that is set holds that king, and each
/// pawn-file word marks exactly the columns holding a pawn of its color.
pub proof fn lemma_sound_derived(s: Snap)
    requires
        sound(s),
    ensures
        derived_ok(s),
{
    assert forall|c: int| 0 <= c < 2 implies #[trigger] color_fields_ok(s, c) by {
        assert forall|col: int| 0 <= col < 16 implies (#[trigger] file_bit(s.pawn_files[c], col)
            <==> exists|sq: int| #[trigger] pawn_at(s.board, c as u8, sq) && spec_col(sq) == col) by {
            if col >= 9 {
                assert(!file_bit(s.pawn_files[c], col));
                if exists|sq: int| pawn_at(s.board, c as u8, sq) && spec_col(sq) == col {
                    let sq = choose|sq: int| pawn_at(s.board, c as u8, sq) && spec_col(sq) == col;
                    assert(0 <= sq < 81);
                }
            }
        }
    }
    assert(color_fields_ok(s, 0));
    assert(color_fields_ok(s, 1));
}

/// A position and its record are consistent: what `check_consistency` accepts.
pub open spec fn consistent(s: Snap, st: StateInfo) -> bool {
    derived_ok(s) && keys_match(st, s)
}

/// The records `st` follow `line` played from `s0`: one record per move, each made
/// from the one before as `do_move` makes it.
#[verifier::opaque]
pub open spec fn records_follow(s0: Snap, line: Seq<Move>, st: Seq<StateInfo>) -> bool {
    &&& st.len() == line.len() + 1
    &&& forall|i: int|
        0 <= i < line.len() ==> next_state_ok(
            st[i],
            play_line(s0, line.take(i)),
            #[trigger] line[i],
            st[i + 1],
        )
}

/// Each move of `line` is a generated legal move of the position it is played in, and
/// a capture among them has room in the mover's hand.
pub open spec fn generated_along(s0: Snap, line: Seq<Move>) -> bool {
    forall|i: int|
        0 <= i < line.len() ==> {
            let si = play_line(s0, line.take(i));
            &&& pseudo_ok(si, #[trigger] line[i])
            &&& legal_move(si, line[i])
            &&& capture_room(si, line[i])
        }
}

/// Playing generated legal moves from a consistent game position (with room in the
/// hand for every capture) keeps the position consistent: its king squares and
/// pawn-file words agree with the board, and the incrementally made keys of the last
/// record equal the keys computed from scratch.
pub proof fn lemma_consistent_along(s0: Snap, line: Seq<Move>, st: Seq<StateInfo>)
    requires
        game_ok(s0),
        keys_match(st[0], s0),
        records_follow(s0, line, st),
        generated_along(s0, line),
    ensures
        game_ok(play_line(s0, line)),
        consistent(play_line(s0, line), st[line.len() as int]),
    decreases line.len(),
{
    reveal(records_follow);
    if line.len() == 0 {
        lemma_sound_derived(s0);
    } else {
        let n = line.len() - 1;
        let pre = line.drop_last();
        assert forall|i: int| 0 <= i < pre.len() implies next_state_ok(
            st.take(n + 1)[i],
            play_line(s0, pre.take(i)),
            #[trigger] pre[i],
            st.take(n + 1)[i + 1],
        ) by {
            assert(pre.take(i) =~= line.take(i));
            assert(pre[i] == line[i]);
        }
        assert forall|i: int| 0 <= i < pre.len() implies {
            let si = play_line(s0, pre.take(i));
            &&& pseudo_ok(si, #[trigger] pre[i])
            &&& legal_move(si, pre[i])
            &&& capture_room(si, pre[i])
        } by {
            assert(pre.take(i) =~= line.take(i));
            assert(pre[i] == line[i]);
            assert(pseudo_ok(play_line(s0, line.take(i)), line[i]));
        }
        lemma_consistent_along(s0, pre, st.take(n + 1));
        let s = play_line(s0, pre);
        assert(line.take(n) =~= pre);
        assert(pseudo_ok(play_line(s0, line.take(n)), line[n]));
        lemma_legal_keeps_game_ok(s, line[n]);
        lemma_keys_after_move(st[n], s, line[n], st[n + 1]);
        lemma_sound_derived(spec_apply(s, line[n]));
    }
}

/// A null move keeps a consistent position consistent.
pub proof fn lemma_consistent_after_null(prev: StateInfo, s: Snap, st: StateInfo)
    requires
        snap_ok(s),
        consistent(s, prev),
        null_state_ok(prev, s, st),
    ensures
        consistent(spec_null(s), st),
{
    lemma_keys_after_null(prev, s, st);
    assert(color_fields_ok(spec_null(s), 0) == color_fields_ok(s, 0));
    assert(color_fields_ok(spec_null(s), 1) == color_fields_ok(s, 1));
}

/// The side to move after the first `j` moves of `line`.
pub open spec fn mover_at(s0: Snap, line: Seq<Move>, j: int) -> u8 {
    play_line(s0, line.take(j)).side
}

/// Move `j` of `line` gives check.
pub open spec fn gives_check_at(s0: Snap, line: Seq<Move>, j: int) -> bool {
    spec_checkers(spec_apply(play_line(s0, line.take(j)), line[j])) != Set::<int>::empty()
}

/// Every move that `c` made among the `d` plies before ply `n` of `line` gave check.
#[verifier::opaque]
pub open spec fn checked_throughout(s0: Snap, line: Seq<Move>, n: int, c: u8, d: int) -> bool {
    forall|j: int| n - d <= j < n && #[trigger] mover_at(s0, line, j) == c ==> gives_check_at(s0, line, j)
}

/// The sides alternate along a line.
proof fn lemma_mover_alternates(s0: Snap, line: Seq<Move>, j: int)
    requires
        s0.side <= 1,
        0 <= j < line.len(),
    ensures
        mover_at(s0, line, j) <= 1,
        mover_at(s0, line, j + 1) == spec_opposite(mover_at(s0, line, j)),
    decreases j,
{
    if j > 0 {
        lemma_mover_alternates(s0, line, j - 1);
        lemma_opposite(mover_at(s0, line, j - 1));
    } else {
        assert(line.take(0) =~= Seq::<Move>::empty());
        assert(mover_at(s0, line, 0) == s0.side);
    }
    assert(line.take(j + 1).drop_last() =~= line.take(j));
    assert(line.take(j + 1).last() == line[j]);
    lemma_opposite(mover_at(s0, line, j));
}

/// The check count of a record: `c` has given check on each of its moves of the last
/// `d` plies (an even number) exactly when the count of `c` in record `n` is at least `d`.
proof fn lemma_check_count(s0: Snap, line: Seq<Move>, st: Seq<StateInfo>, n: int, c: u8, d: int)
    requires
        s0.side <= 1,
        records_follow(s0, line, st),
        st[0].continuous_check[0] == 0,
        st[0].continuous_check[1] == 0,
        0 <= d <= n <= line.len(),
        d % 2 == 0,
        c <= 1,
    ensures
        (st[n].continuous_check[c as int] >= d) == checked_throughout(s0, line, n, c, d),
    decreases n,
{
    reveal(checked_throughout);
    reveal(records_follow);
    if d == 0 {
        assert(checked_throughout(s0, line, n, c, d));
    } else {
        let a = n - 2;
        let b = n - 1;
        lemma_check_count(s0, line, st, a, c, d - 2);
        lemma_mover_alternates(s0, line, a);
        lemma_mover_alternates(s0, line, b);
        let ma = mover_at(s0, line, a);
        let mb = mover_at(s0, line, b);
        lemma_opposite(ma);
        assert(next_state_ok(st[a], play_line(s0, line.take(a)), line[a], st[a + 1]));
        assert(next_state_ok(st[b], play_line(s0, line.take(b)), line[b], st[b + 1]));
        let j_c = if ma == c { a } else { b };
        assert(mover_at(s0, line, j_c) == c);
        assert(st[n].continuous_check[c as int] == if gives_check_at(s0, line, j_c) {
            st[a].continuous_check[c as int] + 2
        } else {
            0
        });
        if checked_throughout(s0, line, n, c, d) {
            assert(gives_check_at(s0, line, j_c));
            assert forall|j: int| a - (d - 2) <= j < a && #[trigger] mover_at(s0, line, j) == c implies gives_check_at(s0, line, j) by {
                assert(n - d <= j < n);
            }
        }
        if st[n].continuous_check[c as int] >= d {
            assert forall|j: int| n - d <= j < n && #[trigger] mover_at(s0, line, j) == c implies gives_check_at(s0, line, j) by {
                if j < a {
                    assert(a - (d - 2) <= j);
                } else if j != j_c {
                    assert(j == a || j == b);
                }
            }
        }
    }
}

/// The position `d` plies back is the third earlier occurrence of the current one.
pub open spec fn repetition_cycle(st: Seq<StateInfo>, d: int) -> bool {
    &&& 4 <= d <= rep_end(st)
    &&& d % 2 == 0
    &&& rep_match(st, d)
    &&& rep_count(st, d) == 2
}

/// A repetition verdict is the verdict of the cycle where it was found.
proof fn lemma_rep_scan_cycle(st: Seq<StateInfo>, side: u8, i: int)
    requires
        4 <= i,
        i % 2 == 0,
    ensures
        !(rep_scan(st, side, i) is NoRepetition) ==> exists|d: int|
            i <= d && repetition_cycle(st, d) && rep_scan(st, side, i) == #[trigger] rep_verdict(st.last(), side, d),
    decreases rep_end(st) + 2 - i,
{
    if i <= rep_end(st) && !(rep_match(st, i) && rep_count(st, i) == 2) {
        lemma_rep_scan_cycle(st, side, i + 2);
    }
}

/// The side to move at the end of a line is the side after all its moves.
proof fn lemma_mover_at_end(s0: Snap, line: Seq<Move>)
    requires
        s0.side <= 1,
    ensures
        mover_at(s0, line, line.len() as int) == play_line(s0, line).side,
        play_line(s0, line).side <= 1,
{
    let n = line.len() as int;
    assert(line.take(n) =~= line);
    if n > 0 {
        lemma_mover_alternates(s0, line, n - 1);
        lemma_opposite(mover_at(s0, line, n - 1));
    } else {
        assert(line.take(0) =~= Seq::<Move>::empty());
    }
}

/// The verdict at a cycle of `d` plies, in terms of who checked throughout it.
proof fn lemma_verdict_cases(top: StateInfo, side: u8, d: int, ct_them: bool, ct_side: bool)
    requires
        side <= 1,
        (top.continuous_check[spec_opposite(side) as int] >= d) == ct_them,
        (top.continuous_check[side as int] >= d) == ct_side,
    ensures
        rep_verdict(top, side, d) == Repetition::WinByPerpetual <==> ct_them,
        rep_verdict(top, side, d) == Repetition::LoseByPerpetual <==> !ct_them && ct_side,
        rep_verdict(top, side, d) == Repetition::Draw <==> !ct_them && !ct_side,
{
}

/// The perpetual-check rule along a game: when a position occurs for the fourth time,
/// the side to move wins if its opponent gave check with every one of its moves over
/// the cycle, loses if instead it gave check with every one of its own, and the game is
/// drawn otherwise.
pub proof fn lemma_perpetual_check_verdict(s0: Snap, line: Seq<Move>, st: Seq<StateInfo>)
    requires
        s0.side <= 1,
        records_follow(s0, line, st),
        st[0].continuous_check[0] == 0,
        st[0].continuous_check[1] == 0,
    ensures
        ({
            let side = play_line(s0, line).side;
            let them = spec_opposite(side);
            let n = line.len() as int;
            &&& rep_result(st, side) == Repetition::WinByPerpetual ==> exists|d: int|
                #[trigger] repetition_cycle(st, d) && checked_throughout(s0, line, n, them, d)
            &&& rep_result(st, side) == Repetition::LoseByPerpetual ==> exists|d: int|
                #[trigger] repetition_cycle(st, d) && checked_throughout(s0, line, n, side, d)
                    && !checked_throughout(s0, line, n, them, d)
            &&& rep_result(st, side) == Repetition::Draw ==> exists|d: int|
                #[trigger] repetition_cycle(st, d) && !checked_throughout(s0, line, n, them, d)
                    && !checked_throughout(s0, line, n, side, d)
        }),
{
    let side = play_line(s0, line).side;
    let them = spec_opposite(side);
    let n = line.len() as int;
    if !(rep_result(st, side) is NoRepetition) {
        lemma_rep_scan_cycle(st, side, 4);
        let d = choose|d: int|
            4 <= d && repetition_cycle(st, d) && rep_scan(st, side, 4) == #[trigger] rep_verdict(st.last(), side, d);
        lemma_mover_at_end(s0, line);
        assert(st.len() == line.len() + 1) by {
            reveal(records_follow);
        }
        assert(d <= n);
        lemma_opposite(side);
        lemma_check_count(s0, line, st, n, them, d);
        lemma_check_count(s0, line, st, n, side, d);
        assert(st.last() == st[n]);
        lemma_verdict_cases(
            st[n],
            side,
            d,
            checked_throughout(s0, line, n, them, d),
            checked_throughout(s0, line, n, side, d),
        );
    }
}

} // verus!
