//! A persistent engine object for a user interface: the game position with its history
//! (for sennichite), the transposition table and the evaluator survive across moves.
//! Rule queries answer with packed integers (see the packed `Move` encoding in `mov`).
use crate::dataset::{cell_byte, spec_cell_byte};
use crate::eval::network::{body_bytes, header_ok, Network, NET_BYTES};
use crate::eval::{AnyEval, Evaluator};
use crate::hand::Hand;
use crate::mov::{Move, MOVE_NULL_BITS};
use crate::movegen::{
    drops_of_kind, exact_tracking, forbidden_only_by_mate, fu_total, game_ok, generate_legal, king_safe,
    legal_drops_of, legal_move, legal_moves,
    legal_moves_from, lemma_fu_total_bound, lemma_legal_keeps_game_ok, moves_from_square,
    playable, pseudo_moves, pseudo_ok,
};
use crate::position::{
    file_bit, hand_types, kings_ok, occ_set, pawn_at, pawns_ok, rep_result, snap_ok, sound,
    spec_apply, spec_attackers, spec_checkers, parts_snap, startpos_board, Position, Repetition, Snap,
    MAX_STACK,
};
use crate::search::{
    node_ok, result_ok, room, root_found, search, tt_ok, info_ok, Limits, SearchInfo, SearchResult, SearchRun,
    Clock,
};
use crate::sfen::{
    move_to_usi, parse_sfen, parse_usi_move, push_decimal, spec_decimal, spec_parse_sfen,
    spec_parse_usi, sfen_text, text, to_sfen, usi_text,
};
use crate::tt::{lemma_small_table_ok, table_size_ok, TranspositionTable};
use crate::types::{
    col_of, droppable_row, lemma_opposite, lemma_piece_roundtrip, make_piece, opposite, promoted,
    row_of, spec_col, spec_droppable_row, spec_make_piece, spec_opposite, spec_promoted, spec_row,
    BLACK, FU, OU, SQ_NONE, WHITE,
};
use vstd::prelude::*;
use vstd::string::StringSliceAdditionalSpecFns;

verus! {

/// What `illegal_reason` answers for `mv` on `s` (`rules` when the engine answers rule
/// queries): 1 for a pawn dropped on a column that holds one of the mover's pawns, 3 for
/// a drop on a rank where the piece could never move again, 2 for a generated pawn drop
/// that leaves the mover's king safe and is forbidden only because it gives mate, and 4
/// for anything else.
pub open spec fn spec_illegal_reason(s: Snap, mv: Move, rules: bool) -> u8 {
    let pt = mv.spec_moved();
    let to = mv.spec_to() as int;
    if mv.spec_is_drop() && pt == FU && file_bit(s.pawn_files[s.side as int], spec_col(to)) {
        1
    } else if mv.spec_is_drop() && !spec_droppable_row(pt, spec_row(to) as u8, s.side) {
        3
    } else if mv.spec_is_drop() && pt == FU && rules && pseudo_moves(s).contains(mv) && king_safe(
        spec_apply(s, mv),
        s.side,
    ) && !legal_move(s, mv) {
        2
    } else {
        4
    }
}

/// The status bits of a repetition verdict.
pub open spec fn rep_bits(r: Repetition) -> u32 {
    match r {
        Repetition::Draw => 4,
        Repetition::WinByPerpetual => 8,
        Repetition::LoseByPerpetual => 16,
        Repetition::NoRepetition => 0,
    }
}

/// The index of `mv` in `v`, which holds it.
fn choose_index(v: &Vec<Move>, mv: Move) -> (r: usize)
    requires
        v@.contains(mv),
    ensures
        r < v@.len(),
        v@[r as int] == mv,
{
    let mut i: usize = 0;
    while i < v.len()
        invariant
            i <= v@.len(),
            v@.contains(mv),
            forall|j: int| 0 <= j < i ==> v@[j] != mv,
        decreases v.len() - i,
    {
        if v[i] == mv {
            return i;
        }
        i = i + 1;
    }
    proof {
        let j = choose|j: int| 0 <= j < v@.len() && v@[j] == mv;
        assert(v@[j] != mv);
    }
    0
}

/// The packed bits of each move.
pub open spec fn move_bits(ms: Seq<Move>) -> Seq<u32> {
    ms.map_values(|m: Move| m.0)
}

/// Some move of `ms` is a board move from `from` to `to`, promoting or not as asked.
pub open spec fn has_board_move(ms: Seq<Move>, from: u8, to: u8, promote: bool) -> bool {
    exists|i: int|
        0 <= i < ms.len() && !(#[trigger] ms[i]).spec_is_drop() && ms[i].spec_from() == from
            && ms[i].spec_to() == to && ms[i].spec_is_promotion() == promote
}

/// Some move of `ms` drops a piece of kind `pt` on `to`.
pub open spec fn has_drop(ms: Seq<Move>, pt: u8, to: u8) -> bool {
    exists|i: int|
        0 <= i < ms.len() && (#[trigger] ms[i]).spec_is_drop() && ms[i].spec_moved() == pt
            && ms[i].spec_to() == to
}

proof fn lemma_has_board_move_step(ms: Seq<Move>, i: int, from: u8, to: u8, promote: bool)
    requires
        0 <= i < ms.len(),
    ensures
        has_board_move(ms.take(i + 1), from, to, promote) == (has_board_move(ms.take(i), from, to, promote)
            || (!ms[i].spec_is_drop() && ms[i].spec_from() == from && ms[i].spec_to() == to
            && ms[i].spec_is_promotion() == promote)),
{
    let a = ms.take(i);
    let b = ms.take(i + 1);
    if has_board_move(b, from, to, promote) {
        let j = choose|j: int|
            0 <= j < b.len() && !(#[trigger] b[j]).spec_is_drop() && b[j].spec_from() == from
                && b[j].spec_to() == to && b[j].spec_is_promotion() == promote;
        if j < i {
            assert(a[j] == b[j]);
        }
    }
    if has_board_move(a, from, to, promote) {
        let j = choose|j: int|
            0 <= j < a.len() && !(#[trigger] a[j]).spec_is_drop() && a[j].spec_from() == from
                && a[j].spec_to() == to && a[j].spec_is_promotion() == promote;
        assert(b[j] == a[j]);
    }
    if !ms[i].spec_is_drop() && ms[i].spec_from() == from && ms[i].spec_to() == to
        && ms[i].spec_is_promotion() == promote {
        assert(b[i] == ms[i]);
    }
}

proof fn lemma_has_drop_step(ms: Seq<Move>, i: int, pt: u8, to: u8)
    requires
        0 <= i < ms.len(),
    ensures
        has_drop(ms.take(i + 1), pt, to) == (has_drop(ms.take(i), pt, to) || (ms[i].spec_is_drop()
            && ms[i].spec_moved() == pt && ms[i].spec_to() == to)),
{
    let a = ms.take(i);
    let b = ms.take(i + 1);
    if has_drop(b, pt, to) {
        let j = choose|j: int|
            0 <= j < b.len() && (#[trigger] b[j]).spec_is_drop() && b[j].spec_moved() == pt
                && b[j].spec_to() == to;
        if j < i {
            assert(a[j] == b[j]);
        }
    }
    if has_drop(a, pt, to) {
        let j = choose|j: int|
            0 <= j < a.len() && (#[trigger] a[j]).spec_is_drop() && a[j].spec_moved() == pt
                && a[j].spec_to() == to;
        assert(b[j] == a[j]);
    }
    if ms[i].spec_is_drop() && ms[i].spec_moved() == pt && ms[i].spec_to() == to {
        assert(b[i] == ms[i]);
    }
}

fn to_bits(ms: &Vec<Move>) -> (r: Vec<u32>)
    ensures
        r@ == move_bits(ms@),
{
    let mut out: Vec<u32> = Vec::new();
    let mut i: usize = 0;
    while i < ms.len()
        invariant
            i <= ms@.len(),
            out@ == move_bits(ms@.take(i as int)),
        decreases ms.len() - i,
    {
        out.push(ms[i].0);
        i = i + 1;
        proof {
            assert(out@ =~= move_bits(ms@.take(i as int)));
        }
    }
    proof {
        assert(ms@.take(ms@.len() as int) =~= ms@);
    }
    out
}

/// Lowercase hex digit of a nibble.
pub open spec fn hex_digit(n: u64) -> char {
    if n < 10 {
        (n + 48) as char
    } else {
        (n + 87) as char
    }
}

/// 16 hex digits of a word, most significant first.
pub open spec fn hex_chars(k: u64) -> Seq<char> {
    Seq::new(16, |i: int| hex_digit((k >> ((60 - 4 * i) as u64)) & 15u64))
}

fn hex_text(k: u64) -> (r: String)
    ensures
        r@ == hex_chars(k),
{
    let mut out = String::new();
    let mut i: u64 = 0;
    while i < 16
        invariant
            i <= 16,
            out@ == hex_chars(k).take(i as int),
        decreases 16 - i,
    {
        let sh: u64 = 60 - 4 * i;
        let n = (k >> sh) & 15;
        assert(n < 16) by (bit_vector)
            requires
                n == (k >> sh) & 15u64,
        ;
        let c = if n < 10 {
            (n as u8 + 48) as char
        } else {
            (n as u8 + 87) as char
        };
        crate::sfen::push_char(&mut out, c);
        i = i + 1;
        proof {
            assert(out@ =~= hex_chars(k).take(i as int));
        }
    }
    proof {
        assert(hex_chars(k).take(16) =~= hex_chars(k));
    }
    out
}

/// Whether the pawns and kings on the board agree with what the position tracks.
fn tracking_exact(pos: &Position) -> (r: bool)
    requires
        pos.wf(),
    ensures
        r == exact_tracking(pos.snap()),
{
    proof {
        pos.lemma_wf_board();
    }
    let ghost s = pos.snap();
    let board = pos.board();
    let k0 = pos.king_square(BLACK);
    let k1 = pos.king_square(WHITE);
    proof {
        lemma_piece_roundtrip(BLACK, OU);
        lemma_piece_roundtrip(WHITE, OU);
        lemma_piece_roundtrip(BLACK, FU);
        lemma_piece_roundtrip(WHITE, FU);
    }
    let king0 = make_piece(BLACK, OU);
    let king1 = make_piece(WHITE, OU);
    let pawn0 = make_piece(BLACK, FU);
    let pawn1 = make_piece(WHITE, FU);
    if (k0 != SQ_NONE && board[k0 as usize] != king0) || (k1 != SQ_NONE && board[k1 as usize] != king1) {
        return false;
    }
    let mut seen: Vec<bool> = Vec::new();
    while seen.len() < 18
        invariant
            seen@.len() <= 18,
            forall|i: int| 0 <= i < seen@.len() ==> !#[trigger] seen@[i],
        decreases 18 - seen@.len(),
    {
        seen.push(false);
    }
    let mut sq: u8 = 0;
    while sq < 81
        invariant
            sq <= 81,
            s == pos.snap(),
            board@ == s.board,
            s.board.len() == 81,
            seen@.len() == 18,
            k0 == s.king_sq[0],
            k1 == s.king_sq[1],
            king0 == spec_make_piece(0, OU),
            king1 == spec_make_piece(1, OU),
            pawn0 == spec_make_piece(0, FU),
            pawn1 == spec_make_piece(1, FU),
            pawn0 != pawn1,
            forall|c: int, col: int|
                0 <= c < 2 && 0 <= col < 9 ==> (#[trigger] seen@[c * 9 + col] <==> exists|t: int|
                    0 <= t < sq && #[trigger] pawn_at(s.board, c as u8, t) && spec_col(t) == col),
            forall|c: int, a: int, b: int|
                0 <= c < 2 && a < sq && b < sq && #[trigger] pawn_at(s.board, c as u8, a)
                    && #[trigger] pawn_at(s.board, c as u8, b) && spec_col(a) == spec_col(b) ==> a == b,
            forall|t: int| 0 <= t < sq && #[trigger] s.board[t] == king0 ==> t == k0,
            forall|t: int| 0 <= t < sq && #[trigger] s.board[t] == king1 ==> t == k1,
        decreases 81 - sq,
    {
        let p = board[sq as usize];
        if (p == king0 && sq != k0) || (p == king1 && sq != k1) {
            return false;
        }
        let ghost seen0 = seen@;
        if p == pawn0 || p == pawn1 {
            let cp: usize = if p == pawn0 {
                0
            } else {
                1
            };
            let col = col_of(sq) as usize;
            proof {
                assert(pawn_at(s.board, cp as u8, sq as int));
            }
            if seen[cp * 9 + col] {
                proof {
                    let t = choose|t: int|
                        0 <= t < sq && #[trigger] pawn_at(s.board, cp as u8, t) && spec_col(t) == col;
                    assert(pawn_at(s.board, cp as u8, t));
                    assert(!pawns_ok(s));
                }
                return false;
            }
            seen.set(cp * 9 + col, true);
            proof {
                assert forall|c: int, cl: int|
                    0 <= c < 2 && 0 <= cl < 9 implies (#[trigger] seen@[c * 9 + cl] <==> exists|t: int|
                    0 <= t < sq + 1 && #[trigger] pawn_at(s.board, c as u8, t) && spec_col(t) == cl) by {
                    if c == cp && cl == col {
                        assert(pawn_at(s.board, c as u8, sq as int));
                    } else {
                        assert(seen@[c * 9 + cl] == seen0[c * 9 + cl]);
                        if exists|t: int|
                            0 <= t < sq + 1 && #[trigger] pawn_at(s.board, c as u8, t) && spec_col(t) == cl {
                            let t = choose|t: int|
                                0 <= t < sq + 1 && #[trigger] pawn_at(s.board, c as u8, t) && spec_col(t) == cl;
                            if t == sq {
                                if c == 0 {
                                    assert(spec_make_piece(c as u8, FU) == pawn0);
                                } else {
                                    assert(spec_make_piece(c as u8, FU) == pawn1);
                                }
                                assert(c == cp);
                            }
                            assert(0 <= t < sq && pawn_at(s.board, c as u8, t) && spec_col(t) == cl);
                        }
                    }
                }
                assert forall|c: int, a: int, b: int|
                    0 <= c < 2 && a < sq + 1 && b < sq + 1 && #[trigger] pawn_at(s.board, c as u8, a)
                        && #[trigger] pawn_at(s.board, c as u8, b) && spec_col(a) == spec_col(b) implies a == b by {
                    if c == 0 {
                        assert(spec_make_piece(c as u8, FU) == pawn0);
                    } else {
                        assert(spec_make_piece(c as u8, FU) == pawn1);
                    }
                    if a == sq && b < sq {
                        assert(c == cp);
                        assert(!seen0[c * 9 + spec_col(a)]);
                    } else if b == sq && a < sq {
                        assert(c == cp);
                        assert(!seen0[c * 9 + spec_col(b)]);
                    }
                }
            }
        } else {
            proof {
                assert forall|c: int, cl: int|
                    0 <= c < 2 && 0 <= cl < 9 implies (#[trigger] seen@[c * 9 + cl] <==> exists|t: int|
                    0 <= t < sq + 1 && #[trigger] pawn_at(s.board, c as u8, t) && spec_col(t) == cl) by {
                    if exists|t: int|
                        0 <= t < sq + 1 && #[trigger] pawn_at(s.board, c as u8, t) && spec_col(t) == cl {
                        let t = choose|t: int|
                            0 <= t < sq + 1 && #[trigger] pawn_at(s.board, c as u8, t) && spec_col(t) == cl;
                        assert(t != sq);
                        assert(0 <= t < sq && pawn_at(s.board, c as u8, t) && spec_col(t) == cl);
                    }
                }
            }
        }
        sq = sq + 1;
    }
    let mut c: u8 = 0;
    while c < 2
        invariant
            c <= 2,
            s == pos.snap(),
            seen@.len() == 18,
            forall|c2: int, col2: int|
                0 <= c2 < 2 && 0 <= col2 < 9 ==> (#[trigger] seen@[c2 * 9 + col2] <==> exists|t: int|
                    0 <= t < 81 && #[trigger] pawn_at(s.board, c2 as u8, t) && spec_col(t) == col2),
            forall|cc: int, col: int|
                0 <= cc < c && 0 <= col < 16 ==> #[trigger] file_bit(s.pawn_files[cc], col) == (col
                    < 9 && seen@[cc * 9 + col]),
        decreases 2 - c,
    {
        let mut col: u8 = 0;
        while col < 16
            invariant
                c < 2,
                col <= 16,
                s == pos.snap(),
                seen@.len() == 18,
                forall|c2: int, col2: int|
                    0 <= c2 < 2 && 0 <= col2 < 9 ==> (#[trigger] seen@[c2 * 9 + col2] <==> exists|t: int|
                        0 <= t < 81 && #[trigger] pawn_at(s.board, c2 as u8, t) && spec_col(t) == col2),
                forall|cc: int, cl: int|
                    0 <= cc < c && 0 <= cl < 16 ==> #[trigger] file_bit(s.pawn_files[cc], cl) == (cl
                        < 9 && seen@[cc * 9 + cl]),
                forall|cl: int|
                    0 <= cl < col ==> #[trigger] file_bit(s.pawn_files[c as int], cl) == (cl < 9
                        && seen@[c * 9 + cl]),
            decreases 16 - col,
        {
            let has = pos.has_pawn_on_col(c, col);
            let expect = col < 9 && seen[c as usize * 9 + col as usize];
            if has != expect {
                proof {
                    if col < 9 {
                        assert(seen@[c * 9 + col] <==> exists|t: int|
                            0 <= t < 81 && #[trigger] pawn_at(s.board, c as u8, t) && spec_col(t) == col);
                    }
                    assert(!pawns_ok(s));
                }
                return false;
            }
            col = col + 1;
        }
        c = c + 1;
    }
    true
}

/// Whether the pawns and kings on the board agree with what the position tracks and
/// the side that just moved is not in check: the positions the move generator and
/// the search work on.
pub fn is_game_position(pos: &Position) -> (r: bool)
    requires
        pos.wf(),
    ensures
        r == node_ok(*pos),
{
    proof {
        pos.lemma_wf_board();
    }
    if !tracking_exact(pos) {
        return false;
    }
    let k0 = pos.king_square(BLACK);
    let k1 = pos.king_square(WHITE);
    if k0 == SQ_NONE || k1 == SQ_NONE {
        return false;
    }
    let side = pos.side_to_move();
    let them = opposite(side);
    proof {
        lemma_opposite(side);
    }
    let occ = pos.occupied();
    let kt = pos.king_square(them);
    if !pos.attackers_to(kt, occ, side).is_empty() {
        return false;
    }
    if pos.last_move().0 == MOVE_NULL_BITS {
        let ks = pos.king_square(side);
        if !pos.attackers_to(ks, occ, them).is_empty() {
            return false;
        }
    }
    true
}

/// Whether the move generator can work on `pos`: what the position tracks agrees with
/// its board, and the side to move has its king.
pub fn is_playable(pos: &Position) -> (r: bool)
    requires
        pos.wf(),
    ensures
        r == playable(pos.snap()),
{
    proof {
        pos.lemma_wf_board();
    }
    tracking_exact(pos) && pos.king_square(pos.side_to_move()) != SQ_NONE
}


/// The kind shown in a move's text: the dropped kind, or the moving piece's kind after
/// the move.
pub open spec fn kif_kind(mv: Move) -> u8 {
    if mv.spec_is_drop() {
        mv.spec_moved()
    } else if mv.spec_is_promotion() {
        spec_promoted(mv.spec_moved())
    } else {
        mv.spec_moved()
    }
}

/// Japanese name of a kind.
pub open spec fn spec_kanji_name(pt: u8) -> &'static str {
    if pt == 1 {
        "歩"
    } else if pt == 2 {
        "香"
    } else if pt == 3 {
        "桂"
    } else if pt == 4 {
        "銀"
    } else if pt == 5 {
        "金"
    } else if pt == 6 {
        "角"
    } else if pt == 7 {
        "飛"
    } else if pt == 8 {
        "玉"
    } else if pt == 9 {
        "と"
    } else if pt == 10 {
        "杏"
    } else if pt == 11 {
        "圭"
    } else if pt == 12 {
        "全"
    } else if pt == 13 {
        "馬"
    } else if pt == 14 {
        "龍"
    } else {
        ""
    }
}

/// Each kind from pawn to dragon has a name of one character, and no two kinds share a
/// name, so the text of a move tells which kind moved.
pub proof fn lemma_kanji_names_distinct(a: u8, b: u8)
    requires
        1 <= a <= 14,
        1 <= b <= 14,
    ensures
        spec_kanji_name(a)@.len() == 1,
        spec_kanji_name(a)@ == spec_kanji_name(b)@ ==> a == b,
{
    reveal_strlit("歩");
    reveal_strlit("香");
    reveal_strlit("桂");
    reveal_strlit("銀");
    reveal_strlit("金");
    reveal_strlit("角");
    reveal_strlit("飛");
    reveal_strlit("玉");
    reveal_strlit("と");
    reveal_strlit("杏");
    reveal_strlit("圭");
    reveal_strlit("全");
    reveal_strlit("馬");
    reveal_strlit("龍");
    if spec_kanji_name(a)@ == spec_kanji_name(b)@ {
        assert(spec_kanji_name(a)@[0] == spec_kanji_name(b)@[0]);
    }
}

/// Japanese numeral of a rank, from the top of the board.
pub open spec fn spec_kanji_rank(row: int) -> &'static str {
    if row == 0 {
        "一"
    } else if row == 1 {
        "二"
    } else if row == 2 {
        "三"
    } else if row == 3 {
        "四"
    } else if row == 4 {
        "五"
    } else if row == 5 {
        "六"
    } else if row == 6 {
        "七"
    } else if row == 7 {
        "八"
    } else {
        "九"
    }
}

fn kanji_name(pt: u8) -> (r: &'static str)
    ensures
        r == spec_kanji_name(pt),
{
    if pt == 1 {
        "歩"
    } else if pt == 2 {
        "香"
    } else if pt == 3 {
        "桂"
    } else if pt == 4 {
        "銀"
    } else if pt == 5 {
        "金"
    } else if pt == 6 {
        "角"
    } else if pt == 7 {
        "飛"
    } else if pt == 8 {
        "玉"
    } else if pt == 9 {
        "と"
    } else if pt == 10 {
        "杏"
    } else if pt == 11 {
        "圭"
    } else if pt == 12 {
        "全"
    } else if pt == 13 {
        "馬"
    } else if pt == 14 {
        "龍"
    } else {
        ""
    }
}

fn kanji_rank(row: u8) -> (r: &'static str)
    ensures
        r == spec_kanji_rank(row as int),
{
    if row == 0 {
        "一"
    } else if row == 1 {
        "二"
    } else if row == 2 {
        "三"
    } else if row == 3 {
        "四"
    } else if row == 4 {
        "五"
    } else if row == 5 {
        "六"
    } else if row == 6 {
        "七"
    } else if row == 7 {
        "八"
    } else {
        "九"
    }
}

/// The text of a move in simplified Japanese notation: side mark, file digit, rank
/// numeral, kind name, and 打 for a drop or 成 for a promotion.
pub open spec fn kif_chars(mv: Move, mover: u8) -> Seq<char> {
    let to = mv.spec_to() as int;
    (if mover == BLACK {
        "▲"@
    } else {
        "△"@
    }) + spec_decimal((9 - spec_col(to)) as nat) + spec_kanji_rank(spec_row(to))@
        + spec_kanji_name(kif_kind(mv))@ + (if mv.spec_is_drop() {
        "打"@
    } else if mv.spec_is_promotion() {
        "成"@
    } else {
        ""@
    })
}

/// Simplified Japanese move notation: kind name, destination and 成/打. The 同
/// contraction and the 上/引/寄/直 disambiguation of full notation are left out; USI
/// text is always available instead.
pub fn kif_text(pos_before: &Position, mv: Move, mover: u8) -> (r: String)
    requires
        mv.spec_to() < 81,
    ensures
        r@ == kif_chars(mv, mover),
{
    let to = mv.to();
    let mut out = if mover == BLACK {
        text("▲")
    } else {
        text("△")
    };
    let file = 9 - col_of(to);
    push_decimal(&mut out, file as u64);
    out.append(kanji_rank(row_of(to)));
    let pt = if mv.is_drop() {
        mv.moved_piece_type()
    } else if mv.is_promotion() {
        promoted(mv.moved_piece_type())
    } else {
        mv.moved_piece_type()
    };
    out.append(kanji_name(pt));
    if mv.is_drop() {
        out.append("打");
    } else if mv.is_promotion() {
        out.append("成");
    } else {
        out.append("");
    }
    out
}

/// The engine's state: the game so far, the table and the evaluator.
pub struct Engine {
    pos: Position,
    tt: TranspositionTable,
    eval: AnyEval,
    last_result: Option<SearchResult>,
    /// The position is one the move generator handles (always so for the start
    /// position); rule queries and searches answer only then.
    ok: bool,
}

impl Engine {
    /// The current position.
    pub closed spec fn snap(&self) -> Snap {
        self.pos.snap()
    }

    /// The positions of the game so far, oldest first, ending with the current one.
    pub closed spec fn history(&self) -> Seq<Snap> {
        self.pos.snaps()
    }

    /// Whether moves can be played and searched: the position is a game position. (The
    /// move lists and the status also answer on a position whose side to move has its
    /// king when the other side has none.)
    pub closed spec fn active(&self) -> bool {
        self.ok
    }

    pub closed spec fn inv(&self) -> bool {
        &&& self.pos.wf()
        &&& tt_ok(self.tt)
        &&& !self.ok ==> self.pos.stack().len() == 1 && self.pos.stack()[0].last_move.0 != MOVE_NULL_BITS
        &&& self.ok ==> {
            &&& node_ok(self.pos)
            &&& room(self.pos, 0)
            &&& forall|i: int| 0 <= i < self.pos.snaps().len() ==> game_ok(#[trigger] self.pos.snaps()[i])
            &&& forall|i: int|
                0 <= i < self.pos.stack().len() ==> (#[trigger] self.pos.stack()[i]).last_move.0
                    != MOVE_NULL_BITS
        }
    }

    /// Sets up a fresh game position: playable when it is a game position.
    fn install(&mut self, pos: Position)
        requires
            old(self).inv(),
            pos.wf(),
            pos.stack().len() == 1,
            pos.stack()[0].last_move.0 == 0,
        ensures
            final(self).inv(),
            final(self).snap() == pos.snap(),
            final(self).history() == pos.snaps(),
            final(self).history().len() == 1,
            final(self).active() == node_ok(pos),
    {
        let ok = is_game_position(&pos);
        proof {
            pos.lemma_wf_board();
        }
        self.pos = pos;
        self.ok = ok;
        self.tt.clear();
        self.last_result = None;
    }

    /// A new game from the start position with a table of about `tt_mb` megabytes.
    pub fn new(tt_mb: u32) -> (r: Engine)
        requires
            table_size_ok(tt_mb as int),
        ensures
            r.inv(),
            r.history().len() == 1,
            r.snap() == parts_snap(startpos_board(), seq![0u32, 0u32], BLACK, 0),
    {
        let mb = if tt_mb < 1 {
            1
        } else {
            tt_mb
        };
        let pos = Position::startpos();
        let ok = is_game_position(&pos);
        let tt = TranspositionTable::new(mb as usize);
        proof {
            pos.lemma_wf_board();
        }
        Engine { pos, tt, eval: AnyEval::hand_crafted(), last_result: None, ok }
    }

    /// The evaluator by name. This build carries no embedded net, so every name picks
    /// the hand-crafted evaluator (see `set_nnue_net` to use a net).
    pub fn set_evaluator(&mut self, name: &str)
        requires
            old(self).inv(),
        ensures
            final(self).inv(),
            final(self).snap() == old(self).snap(),
            final(self).history() == old(self).history(),
            final(self).active() == old(self).active(),
            final(self).net_in_use() is None,
    {
        self.eval = AnyEval::hand_crafted();
    }

    /// Uses the net in `bytes` if it loads; otherwise falls back to the hand-crafted
    /// evaluator. Returns whether the net is in use.
    pub fn set_nnue_net(&mut self, bytes: &[u8]) -> (r: bool)
        requires
            old(self).inv(),
        ensures
            final(self).inv(),
            final(self).snap() == old(self).snap(),
            final(self).history() == old(self).history(),
            final(self).active() == old(self).active(),
            r == (bytes@.len() >= NET_BYTES && header_ok(bytes@)),
            r ==> (final(self).net_in_use() matches Some(n) && n.wf() && body_bytes(n)
                == bytes@.subrange(32, NET_BYTES as int)),
            !r ==> final(self).net_in_use() is None,
    {
        if bytes.len() >= NET_BYTES {
            match Network::from_bytes(bytes) {
                Ok(net) => {
                    self.eval = AnyEval::nnue(net);
                    return true;
                },
                Err(_) => {},
            }
        }
        self.eval = AnyEval::hand_crafted();
        false
    }

    /// The network the evaluator runs, or `None` for the hand-crafted evaluator.
    pub closed spec fn net_in_use(&self) -> Option<Network> {
        match self.eval {
            AnyEval::Hc(_) => None,
            AnyEval::Nn(e) => Some(e.spec_net()),
        }
    }

    /// "nnue" or "hc" (hand-crafted).
    pub fn evaluator_name(&self) -> (r: String)
        ensures
            r@ == (if self.net_in_use() is Some {
                "nnue"@
            } else {
                "hc"@
            }),
    {
        proof {
            reveal_strlit("nnue");
            reveal_strlit("hc");
        }
        if self.eval.is_nnue() {
            text("nnue")
        } else {
            text("hc")
        }
    }

    /// Back to the start position with an empty table.
    pub fn reset(&mut self)
        requires
            old(self).inv(),
        ensures
            final(self).inv(),
            final(self).history().len() == 1,
            final(self).snap() == parts_snap(startpos_board(), seq![0u32, 0u32], BLACK, 0),
    {
        let pos = Position::startpos();
        self.install(pos);
    }

    /// Sets up the position of a SFEN text with an empty table.
    pub fn set_sfen(&mut self, sfen: &str) -> (r: Result<(), String>)
        requires
            old(self).inv(),
        ensures
            final(self).inv(),
            r is Ok <==> spec_parse_sfen(sfen.spec_bytes()) is Some,
            r is Ok ==> final(self).history().len() == 1,
            r is Err ==> final(self).snap() == old(self).snap() && final(self).history()
                == old(self).history() && final(self).active() == old(self).active(),
    {
        match parse_sfen(sfen) {
            Ok(p) => {
                self.install(p);
                Ok(())
            },
            Err(e) => Err(e),
        }
    }

    pub fn sfen(&self) -> (r: String)
        requires
            self.inv(),
        ensures
            r@ == sfen_text(self.snap()),
    {
        to_sfen(&self.pos)
    }

    pub fn side_to_move(&self) -> (r: u8)
        requires
            self.inv(),
        ensures
            r == self.snap().side,
    {
        self.pos.side_to_move()
    }

    pub fn ply(&self) -> (r: u32)
        ensures
            r == self.snap().ply,
    {
        self.pos.ply()
    }

    /// The position key as 16 lowercase hex digits (text, so that no precision is lost
    /// on a 64-bit key).
    pub fn key_hex(&self) -> (r: String)
        requires
            self.inv(),
        ensures
            r@ == hex_chars(self.key_spec()),
    {
        let k = self.pos.key();
        hex_text(k)
    }

    /// The key of the current position.
    pub closed spec fn key_spec(&self) -> u64 {
        self.pos.stack().last().board_key ^ self.pos.stack().last().hand_key
    }

    /// 81 cell bytes indexed by square (square = col * 9 + row): 0 for an empty
    /// square, else the kind, with bit 7 set for a white piece.
    pub fn board(&self) -> (r: Vec<u8>)
        requires
            self.inv(),
        ensures
            r@.len() == 81,
            forall|sq: int| 0 <= sq < 81 ==> #[trigger] r@[sq] == spec_cell_byte(self.snap().board[sq]),
    {
        proof {
            self.pos.lemma_wf_board();
        }
        let mut out: Vec<u8> = Vec::new();
        let mut sq: u8 = 0;
        while sq < 81
            invariant
                sq <= 81,
                out@.len() == sq,
                forall|t: int| 0 <= t < sq ==> #[trigger] out@[t] == spec_cell_byte(self.snap().board[t]),
            decreases 81 - sq,
        {
            out.push(cell_byte(self.pos.piece_at(sq)));
            sq = sq + 1;
        }
        out
    }

    /// 14 bytes: black's counts of FU, KYO, KEI, GIN, KIN, KAKU, HI, then white's.
    pub fn hands(&self) -> (r: Vec<u8>)
        requires
            self.inv(),
        ensures
            r@.len() == 14,
            forall|c: int, j: int|
                0 <= c < 2 && 0 <= j < 7 ==> #[trigger] r@[c * 7 + j] == Hand(self.snap().hands[c]).spec_count(
                    hand_types()[j],
                ),
    {
        let types = Hand::types();
        let mut out: Vec<u8> = Vec::new();
        let mut c: u8 = 0;
        while c < 2
            invariant
                c <= 2,
                out@.len() == c * 7,
                types@ == hand_types(),
                forall|cc: int, j: int|
                    0 <= cc < c && 0 <= j < 7 ==> #[trigger] out@[cc * 7 + j] == Hand(self.snap().hands[cc]).spec_count(
                        hand_types()[j],
                    ),
            decreases 2 - c,
        {
            let mut j: usize = 0;
            while j < 7
                invariant
                    c < 2,
                    j <= 7,
                    out@.len() == c * 7 + j,
                    types@ == hand_types(),
                    forall|cc: int, jj: int|
                        0 <= cc < c && 0 <= jj < 7 ==> #[trigger] out@[cc * 7 + jj] == Hand(self.snap().hands[cc]).spec_count(
                            hand_types()[jj],
                        ),
                    forall|jj: int|
                        0 <= jj < j ==> #[trigger] out@[c * 7 + jj] == Hand(self.snap().hands[c as int]).spec_count(
                            hand_types()[jj],
                        ),
                decreases 7 - j,
            {
                let n = self.pos.hand(c, types[j]);
                out.push(n as u8);
                j = j + 1;
            }
            c = c + 1;
        }
        out
    }

    pub fn last_move(&self) -> (r: u32)
        requires
            self.inv(),
        ensures
            r == self.last_move_spec(),
    {
        self.pos.last_move().0
    }

    /// Records the evaluator holds (see `Evaluator::frames`).
    pub closed spec fn eval_frames(&self) -> nat {
        self.eval.frames()
    }

    /// Whether the move generator can work on the current position: always when the
    /// engine is active, and otherwise when the side to move has its king.
    fn can_list(&self) -> (r: bool)
        requires
            self.inv(),
        ensures
            r == playable(self.snap()),
    {
        proof {
            self.pos.lemma_wf_board();
        }
        self.ok || is_playable(&self.pos)
    }

    /// Generates the legal moves of the current position.
    fn legal_list(&mut self) -> (r: Vec<Move>)
        requires
            old(self).inv(),
            playable(old(self).snap()),
        ensures
            final(self).inv(),
            final(self).snap() == old(self).snap(),
            final(self).history() == old(self).history(),
            final(self).active() == old(self).active(),
            final(self).eval_frames() == old(self).eval_frames(),
            final(self).key_spec() == old(self).key_spec(),
            final(self).repetition() == old(self).repetition(),
            r@ == legal_moves(old(self).snap()),
            forall|k: int|
                0 <= k < r@.len() ==> pseudo_ok(old(self).snap(), #[trigger] r@[k]) && legal_move(
                    old(self).snap(),
                    r@[k],
                ),
    {
        proof {
            self.pos.lemma_wf_board();
            lemma_fu_total_bound(self.pos.snap());
        }
        let mut moves: Vec<Move> = Vec::new();
        generate_legal(&mut self.pos, &mut moves);
        moves
    }

    /// The legal moves, as packed bits: also on a position the engine cannot play on
    /// whose side to move has its king, and none when the move generator cannot work.
    pub fn legal_moves(&mut self) -> (r: Vec<u32>)
        requires
            old(self).inv(),
        ensures
            final(self).inv(),
            final(self).snap() == old(self).snap(),
            final(self).history() == old(self).history(),
            final(self).active() == old(self).active(),
            final(self).eval_frames() == old(self).eval_frames(),
            playable(old(self).snap()) ==> r@ == move_bits(legal_moves(old(self).snap())),
            !playable(old(self).snap()) ==> r@.len() == 0,
    {
        if !self.can_list() {
            return Vec::new();
        }
        let moves = self.legal_list();
        to_bits(&moves)
    }

    /// The legal board moves leaving `from`, as packed bits.
    pub fn moves_from(&mut self, from: u8) -> (r: Vec<u32>)
        requires
            old(self).inv(),
        ensures
            final(self).inv(),
            final(self).snap() == old(self).snap(),
            final(self).history() == old(self).history(),
            final(self).active() == old(self).active(),
            final(self).eval_frames() == old(self).eval_frames(),
            playable(old(self).snap()) ==> r@ == move_bits(moves_from_square(legal_moves(old(self).snap()), from)),
            !playable(old(self).snap()) ==> r@.len() == 0,
    {
        if !self.can_list() {
            return Vec::new();
        }
        proof {
            self.pos.lemma_wf_board();
            lemma_fu_total_bound(self.pos.snap());
        }
        let mut moves: Vec<Move> = Vec::new();
        legal_moves_from(&mut self.pos, from, &mut moves);
        to_bits(&moves)
    }

    /// The legal drops of kind `piece_type`, as packed bits.
    pub fn drops_of(&mut self, piece_type: u8) -> (r: Vec<u32>)
        requires
            old(self).inv(),
        ensures
            final(self).inv(),
            final(self).snap() == old(self).snap(),
            final(self).history() == old(self).history(),
            final(self).active() == old(self).active(),
            final(self).eval_frames() == old(self).eval_frames(),
            playable(old(self).snap()) ==> r@ == move_bits(drops_of_kind(legal_moves(old(self).snap()), piece_type)),
            !playable(old(self).snap()) ==> r@.len() == 0,
    {
        if !self.can_list() {
            return Vec::new();
        }
        proof {
            self.pos.lemma_wf_board();
            lemma_fu_total_bound(self.pos.snap());
        }
        let mut moves: Vec<Move> = Vec::new();
        legal_drops_of(&mut self.pos, piece_type, &mut moves);
        to_bits(&moves)
    }

    /// Bit 0: a non-promoting board move from `from` to `to` is legal; bit 1: a
    /// promoting one is. 0 means illegal, 3 that both are (the user chooses).
    pub fn move_options(&mut self, from: u8, to: u8) -> (r: u8)
        requires
            old(self).inv(),
        ensures
            final(self).inv(),
            final(self).snap() == old(self).snap(),
            final(self).history() == old(self).history(),
            final(self).active() == old(self).active(),
            final(self).eval_frames() == old(self).eval_frames(),
            r == (if playable(old(self).snap()) && has_board_move(legal_moves(old(self).snap()), from, to, false) {
                1u8
            } else {
                0u8
            }) + (if playable(old(self).snap()) && has_board_move(legal_moves(old(self).snap()), from, to, true) {
                2u8
            } else {
                0u8
            }),
    {
        if !self.can_list() {
            return 0;
        }
        let all = self.legal_list();
        let mut plain = false;
        let mut promo = false;
        let mut i: usize = 0;
        while i < all.len()
            invariant
                i <= all@.len(),
                plain == has_board_move(all@.take(i as int), from, to, false),
                promo == has_board_move(all@.take(i as int), from, to, true),
            decreases all.len() - i,
        {
            let m = all[i];
            proof {
                lemma_has_board_move_step(all@, i as int, from, to, false);
                lemma_has_board_move_step(all@, i as int, from, to, true);
            }
            if !m.is_drop() && m.from() == from && m.to() == to {
                if m.is_promotion() {
                    promo = true;
                } else {
                    plain = true;
                }
            }
            i = i + 1;
        }
        proof {
            assert(all@.take(all@.len() as int) =~= all@);
        }
        (if plain {
            1
        } else {
            0
        }) + (if promo {
            2
        } else {
            0
        })
    }

    /// Whether dropping a piece of kind `piece_type` on `to` is legal.
    pub fn drop_option(&mut self, piece_type: u8, to: u8) -> (r: bool)
        requires
            old(self).inv(),
        ensures
            final(self).inv(),
            final(self).snap() == old(self).snap(),
            final(self).history() == old(self).history(),
            final(self).active() == old(self).active(),
            final(self).eval_frames() == old(self).eval_frames(),
            r == (playable(old(self).snap()) && has_drop(legal_moves(old(self).snap()), piece_type, to)),
    {
        if !self.can_list() {
            return false;
        }
        let all = self.legal_list();
        let mut found = false;
        let mut i: usize = 0;
        while i < all.len()
            invariant
                i <= all@.len(),
                found == has_drop(all@.take(i as int), piece_type, to),
            decreases all.len() - i,
        {
            let m = all[i];
            proof {
                lemma_has_drop_step(all@, i as int, piece_type, to);
            }
            if m.is_drop() && m.moved_piece_type() == piece_type && m.to() == to {
                found = true;
            }
            i = i + 1;
        }
        proof {
            assert(all@.take(all@.len() as int) =~= all@);
        }
        found
    }

    /// Best-effort reason why a move the user tried is not legal: 1 two pawns on a
    /// file, 2 pawn-drop mate, 3 a piece dropped where it could never move again,
    /// 4 anything else (the own king left in check, or not a move of the position).
    pub fn illegal_reason(&self, mv_bits: u32) -> (r: u8)
        requires
            self.inv(),
        ensures
            r == spec_illegal_reason(self.snap(), Move(mv_bits), self.active()),
    {
        let mv = Move(mv_bits);
        if mv.is_drop() {
            let pt = mv.moved_piece_type();
            let to_row = row_of(mv.to());
            let us = self.pos.side_to_move();
            if pt == FU && self.pos.has_pawn_on_col(us, col_of(mv.to())) {
                return 1;
            }
            if !droppable_row(pt, to_row, us) {
                return 3;
            }
            if pt == FU && self.ok {
                let mut p = self.pos.clone();
                proof {
                    p.lemma_wf_board();
                    lemma_fu_total_bound(p.snap());
                }
                if forbidden_only_by_mate(&mut p, mv) {
                    return 2;
                }
            }
        }
        4
    }

    /// Plays a legal move and returns its text in Japanese notation; any other move is
    /// refused, and so is a move once the game's record stack is full.
    pub fn do_move(&mut self, mv_bits: u32) -> (r: Result<String, String>)
        requires
            old(self).inv(),
        ensures
            final(self).inv(),
            final(self).active() == old(self).active(),
            r is Ok <==> old(self).active() && legal_moves(old(self).snap()).contains(Move(mv_bits))
                && old(self).history().len() + 193 <= MAX_STACK,
            r matches Ok(t) ==> t@ == kif_chars(Move(mv_bits), old(self).snap().side)
                && final(self).snap() == spec_apply(old(self).snap(), Move(mv_bits))
                && final(self).history() == old(self).history().push(final(self).snap()),
            r is Err ==> final(self).snap() == old(self).snap() && final(self).history()
                == old(self).history(),
    {
        let mv = Move(mv_bits);
        if !self.ok {
            return Err(text("illegal move"));
        }
        let legal = self.legal_list();
        let mut found = false;
        let mut i: usize = 0;
        while i < legal.len()
            invariant
                i <= legal@.len(),
                found ==> legal@.contains(mv),
                !found ==> forall|j: int| 0 <= j < i ==> legal@[j] != mv,
            decreases legal.len() - i,
        {
            if legal[i] == mv {
                found = true;
            }
            i = i + 1;
        }
        if !found {
            return Err(text("illegal move"));
        }
        proof {
            self.pos.lemma_wf_board();
        }
        if self.pos.game_ply_depth() + 194 > MAX_STACK {
            return Err(text("game too long"));
        }
        let ghost s = self.pos.snap();
        let ghost before = self.pos;
        let t = choose_index(&legal, mv);
        proof {
            assert(pseudo_ok(s, legal@[t as int]) && legal_move(s, legal@[t as int]));
            lemma_legal_keeps_game_ok(s, mv);
        }
        let mover = self.pos.side_to_move();
        let txt = kif_text(&self.pos, mv, mover);
        self.pos.do_move(mv);
        proof {
            self.pos.lemma_wf_board();
            assert forall|k: int| 0 <= k < self.pos.snaps().len() implies game_ok(#[trigger] self.pos.snaps()[k]) by {
                if k < before.snaps().len() {
                    assert(self.pos.snaps()[k] == before.snaps()[k]);
                }
            }
            assert forall|k: int|
                0 <= k < self.pos.stack().len() implies (#[trigger] self.pos.stack()[k]).last_move.0
                != MOVE_NULL_BITS by {
                if k < before.stack().len() {
                    assert(self.pos.stack()[k] == before.stack()[k]);
                }
            }
        }
        Ok(txt)
    }

    /// Reads a move in USI notation against the current position.
    pub fn parse_usi(&self, s: &str) -> (r: Result<u32, String>)
        requires
            self.inv(),
        ensures
            r matches Ok(b) ==> spec_parse_usi(self.snap().board, s.spec_bytes()) == Some(Move(b)),
            r is Err ==> spec_parse_usi(self.snap().board, s.spec_bytes()) is None,
    {
        match parse_usi_move(&self.pos, s) {
            Ok(m) => Ok(m.0),
            Err(e) => Err(e),
        }
    }

    /// The USI text of packed move bits.
    pub fn move_to_usi_str(&self, mv_bits: u32) -> (r: String)
        ensures
            r@ == usi_text(Move(mv_bits)),
    {
        move_to_usi(Move(mv_bits))
    }

    /// Takes back the last move; false when there is none.
    pub fn undo(&mut self) -> (r: bool)
        requires
            old(self).inv(),
        ensures
            final(self).inv(),
            final(self).active() == old(self).active(),
            r == (old(self).history().len() > 1),
            r ==> final(self).history() == old(self).history().drop_last() && final(self).snap()
                == old(self).history()[old(self).history().len() - 2],
            !r ==> final(self).history() == old(self).history() && final(self).snap() == old(self).snap(),
    {
        proof {
            self.pos.lemma_wf_board();
        }
        if self.pos.game_ply_depth() == 0 {
            return false;
        }
        let ghost before = self.pos;
        proof {
            assert(self.pos.stack()[self.pos.stack().len() - 1].last_move.0 != MOVE_NULL_BITS);
        }
        self.pos.undo_move();
        proof {
            self.pos.lemma_wf_board();
            before.lemma_wf_board();
            if self.ok {
                assert forall|k: int| 0 <= k < self.pos.snaps().len() implies game_ok(#[trigger] self.pos.snaps()[k]) by {
                    assert(self.pos.snaps()[k] == before.snaps()[k]);
                }
                assert forall|k: int|
                    0 <= k < self.pos.stack().len() implies (#[trigger] self.pos.stack()[k]).last_move.0
                    != MOVE_NULL_BITS by {
                    assert(self.pos.stack()[k] == before.stack()[k]);
                }
                assert(game_ok(before.snaps()[before.snaps().len() - 2]));
                assert(self.pos.stack().last().last_move.0 != MOVE_NULL_BITS);
            }
        }
        true
    }

    /// Bit 0 in check, bit 1 no legal move, bit 2 draw by repetition, bit 3 the side
    /// to move wins by its opponent's perpetual check, bit 4 it loses by its own.
    pub fn status(&mut self) -> (r: u32)
        requires
            old(self).inv(),
        ensures
            final(self).inv(),
            final(self).snap() == old(self).snap(),
            final(self).history() == old(self).history(),
            final(self).active() == old(self).active(),
            final(self).eval_frames() == old(self).eval_frames(),
            playable(old(self).snap()) ==> r == (if spec_checkers(old(self).snap()) != Set::<int>::empty() {
                1u32
            } else {
                0u32
            }) + (if legal_moves(old(self).snap()).len() == 0 {
                2u32
            } else {
                0u32
            }) + rep_bits(old(self).repetition()),
    {
        let mut bits: u32 = 0;
        proof {
            self.pos.lemma_wf_board();
            assert(self.pos.stack()[self.pos.stack().len() - 1].last_move.0 != MOVE_NULL_BITS);
        }
        if self.pos.in_check() {
            bits = bits + 1;
        }
        if self.can_list() {
            let moves = self.legal_list();
            if moves.len() == 0 {
                bits = bits + 2;
            }
        }
        match self.pos.detect_repetition() {
            Repetition::Draw => {
                bits = bits + 4;
            },
            Repetition::WinByPerpetual => {
                bits = bits + 8;
            },
            Repetition::LoseByPerpetual => {
                bits = bits + 16;
            },
            Repetition::NoRepetition => {},
        }
        bits
    }

    /// The repetition verdict of the current position.
    pub closed spec fn repetition(&self) -> Repetition {
        rep_result(self.pos.stack(), self.pos.snap().side)
    }

    /// Starts a search of the current position: to `depth` plies (at least 1), or for
    /// `movetime_ms` milliseconds when that is positive. `None` when the engine is not
    /// active.
    pub fn search_start<C: Clock>(&mut self, depth: u32, movetime_ms: u32, clock: &C) -> (r: Option<SearchRun>)
        requires
            old(self).inv(),
        ensures
            final(self).inv(),
            final(self).snap() == old(self).snap(),
            final(self).history() == old(self).history(),
            final(self).active() == old(self).active(),
            r is Some <==> old(self).active(),
            r matches Some(run) ==> run.inv() && run.root() == old(self).snap() && final(self).eval_frames() == 1,
    {
        if !self.ok {
            return None;
        }
        let limits = if movetime_ms > 0 {
            Limits::movetime(movetime_ms)
        } else {
            Limits::depth(if depth < 1 {
                1
            } else {
                depth
            })
        };
        Some(SearchRun::start(&mut self.pos, &mut self.eval, &self.tt, limits, clock))
    }

    /// Runs the next iteration of a search started by `search_start`.
    pub fn search_step<C: Clock>(&mut self, run: &mut SearchRun, clock: &C) -> (r: Option<SearchInfo>)
        requires
            old(self).inv(),
            old(self).active(),
            old(run).inv(),
            old(run).root() == old(self).snap(),
            old(self).eval_frames() >= 1,
        ensures
            final(self).inv(),
            final(self).snap() == old(self).snap(),
            final(self).history() == old(self).history(),
            final(self).active() == old(self).active(),
            final(self).eval_frames() == old(self).eval_frames(),
            final(run).inv(),
            final(run).root() == old(run).root(),
            old(run).steps_left() == 0 ==> r is None && final(run).steps_left() == 0,
            old(run).steps_left() > 0 ==> final(run).steps_left() < old(run).steps_left(),
            old(run).steps_left() > 0 && r is Some ==> final(run).depth() == old(run).depth() + 1,
            r matches Some(i) ==> info_ok(i, old(self).snap()) && i.depth == final(run).depth()
                && i.score_cp == final(run).best().score_cp,
            final(run).last_tree() matches Some(t) ==> root_found(t, old(self).snap(), final(run).best()),
    {
        proof {
            self.pos.lemma_wf_board();
        }
        let r = run.step(&mut self.pos, &mut self.eval, &mut self.tt, clock);
        proof {
            self.pos.lemma_wf_board();
        }
        r
    }

    /// The result of a search started by `search_start`, kept as the engine's last
    /// result.
    pub fn search_finish(&mut self, run: &SearchRun) -> (r: SearchResult)
        requires
            old(self).inv(),
            run.inv(),
        ensures
            final(self).inv(),
            final(self).snap() == old(self).snap(),
            final(self).history() == old(self).history(),
            final(self).active() == old(self).active(),
            result_ok(r, run.root()),
            r.best_move == run.best().best_move,
            r.score_cp == run.best().score_cp,
            r.depth == run.best().depth,
            r.pv@ == run.best().pv@,
            run.last_tree() matches Some(t) ==> root_found(t, run.root(), r),
    {
        let r = run.result();
        self.last_result = Some(run.result());
        r
    }

    /// Searches the current position to `depth` plies, or for `movetime_ms`
    /// milliseconds when that is positive; `None` when the engine is not active.
    pub fn search<C: Clock>(&mut self, depth: u32, movetime_ms: u32, clock: &C) -> (r: Option<SearchResult>)
        requires
            old(self).inv(),
        ensures
            final(self).inv(),
            final(self).snap() == old(self).snap(),
            final(self).history() == old(self).history(),
            final(self).active() == old(self).active(),
            r is Some <==> old(self).active(),
            r matches Some(res) ==> result_ok(res, old(self).snap()),
    {
        let mut run = match self.search_start(depth, movetime_ms, clock) {
            Some(run) => run,
            None => {
                return None;
            },
        };
        while run.running()
            invariant
                self.inv(),
                self.active(),
                self.snap() == old(self).snap(),
                self.history() == old(self).history(),
                run.inv(),
                run.root() == old(self).snap(),
                self.eval_frames() == 1,
            decreases run.steps_left(),
        {
            let _ = self.search_step(&mut run, clock);
        }
        Some(self.search_finish(&run))
    }

    /// Bits of the last move played (0 at the start of a game).
    pub closed spec fn last_move_spec(&self) -> u32 {
        self.pos.stack().last().last_move.0
    }
}


impl Default for Engine {
    fn default() -> (r: Engine)
        ensures
            r.inv(),
            r.history().len() == 1,
    {
        proof {
            lemma_small_table_ok(16);
        }
        Engine::new(16)
    }
}

} // verus!
