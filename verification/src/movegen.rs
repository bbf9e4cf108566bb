//! Move generation. Strategy: generate every pseudo-legal move (board moves respect
//! piece movement patterns and forced/optional promotion; drops respect the two-pawns
//! and dead-piece rules), then keep a move only when playing it does not leave the
//! mover's own king attacked, and, for a pawn drop that gives check, only when the
//! opponent has a reply (no mate by pawn drop).
use crate::bitboard::Bitboard;
use crate::hand::{lemma_remove_count, lemma_word_facts, spec_field_mask, spec_unit, Hand};
use crate::mov::{lemma_board_roundtrip, lemma_drop_roundtrip, spec_board_bits, spec_drop_bits, Move, MOVE_NULL_BITS};
use crate::position::{
    applicable, color_set, file_bit, hand_types, kings_ok, lemma_apply_snap_ok, occ_set,
    pawn_at, pawns_ok, snap_ok, sound, spec_apply, spec_attackers, spec_checkers, valid_cell,
    Position, Snap, MAX_STACK,
};
use crate::tables::{
    bishop_attacks, dragon_attacks, horse_attacks, lance_attacks, piece_attack, rook_attacks,
    step_attacks, step_target, rel_cols,
};
use crate::types::{
    lemma_byte_facts,
    can_promote, col_of, droppable_row, lemma_opposite, lemma_piece_roundtrip, lemma_piece_split,
    must_promote, opposite, piece_type, row_of, spec_can_promote, spec_col, spec_droppable_row,
    spec_make_piece, spec_must_promote, spec_opposite, spec_piece_color, spec_piece_type,
    spec_promoted, spec_row, Color, PieceType, Square, BLACK, FU, HI, KAKU, KEI, KYO, OU, RYU, SQ_NONE, UMA, WHITE,
};
use vstd::prelude::*;

verus! {

/// The squares of `set` below `n`, ascending.
pub open spec fn squares_in(set: Set<int>, n: int) -> Seq<u8>
    decreases n,
{
    if n <= 0 {
        Seq::empty()
    } else if set.contains(n - 1) {
        squares_in(set, n - 1).push((n - 1) as u8)
    } else {
        squares_in(set, n - 1)
    }
}

/// The board squares of `set`, ascending.
pub open spec fn board_squares(set: Set<int>) -> Seq<u8> {
    squares_in(set, 81)
}

/// The squares the piece on `from` may move to: those it attacks that do not hold a
/// piece of the side to move.
pub open spec fn move_targets(s: Snap, from: int) -> Set<int> {
    Set::new(
        |t: int|
            0 <= t < 81 && piece_attack(
                s.side,
                spec_piece_type(s.board[from]),
                from,
                occ_set(s.board),
                t,
            ) && !color_set(s.board, s.side).contains(t),
    )
}

/// The moves of the piece on `from` to `to`: the promotion alone where it is forced,
/// the plain move and then the promotion where promotion is optional, the plain move
/// otherwise.
pub open spec fn target_moves(s: Snap, from: u8, to: u8) -> Seq<Move> {
    let us = s.side;
    let pt = spec_piece_type(s.board[from as int]);
    let cap = spec_piece_type(s.board[to as int]);
    let plain = Move(spec_board_bits(from, to, pt, false, cap));
    let promo = Move(spec_board_bits(from, to, pt, true, cap));
    if spec_must_promote(pt, spec_row(to as int) as u8, us) {
        seq![promo]
    } else if spec_can_promote(pt, spec_row(from as int) as u8, spec_row(to as int) as u8, us) {
        seq![plain, promo]
    } else {
        seq![plain]
    }
}

/// The moves of the piece on `from` to each square of `tos` in turn.
pub open spec fn from_moves(s: Snap, from: u8, tos: Seq<u8>) -> Seq<Move>
    decreases tos.len(),
{
    if tos.len() == 0 {
        Seq::empty()
    } else {
        from_moves(s, from, tos.drop_last()) + target_moves(s, from, tos.last())
    }
}

/// The board moves of the pieces on each square of `froms` in turn.
pub open spec fn board_moves(s: Snap, froms: Seq<u8>) -> Seq<Move>
    decreases froms.len(),
{
    if froms.len() == 0 {
        Seq::empty()
    } else {
        let f = froms.last();
        board_moves(s, froms.drop_last()) + from_moves(
            s,
            f,
            board_squares(move_targets(s, f as int)),
        )
    }
}

/// A drop of `pt` on `to` is allowed by the dead-piece and two-pawns rules.
pub open spec fn drop_allowed(s: Snap, pt: u8, to: int) -> bool {
    &&& spec_droppable_row(pt, spec_row(to) as u8, s.side)
    &&& !(pt == FU && file_bit(s.pawn_files[s.side as int], spec_col(to)))
}

/// The drops of `pt` on each square of `tos` in turn, where allowed.
pub open spec fn drop_moves(s: Snap, pt: u8, tos: Seq<u8>) -> Seq<Move>
    decreases tos.len(),
{
    if tos.len() == 0 {
        Seq::empty()
    } else {
        let to = tos.last();
        drop_moves(s, pt, tos.drop_last()) + if drop_allowed(s, pt, to as int) {
            seq![Move(spec_drop_bits(pt, to))]
        } else {
            Seq::empty()
        }
    }
}

/// The drops of each kind of `pts` in turn that the side to move holds, onto the empty
/// squares.
pub open spec fn hand_drops(s: Snap, pts: Seq<u8>) -> Seq<Move>
    decreases pts.len(),
{
    if pts.len() == 0 {
        Seq::empty()
    } else {
        let pt = pts.last();
        hand_drops(s, pts.drop_last()) + if Hand(s.hands[s.side as int]).spec_count(pt) > 0 {
            drop_moves(s, pt, board_squares(Set::new(|t: int| 0 <= t < 81 && s.board[t] == 0)))
        } else {
            Seq::empty()
        }
    }
}

/// Every pseudo-legal move, in generation order: board moves by ascending origin and
/// target square, then drops by kind (FU, KYO, KEI, GIN, KIN, KAKU, HI) and square.
pub open spec fn pseudo_moves(s: Snap) -> Seq<Move> {
    board_moves(s, board_squares(color_set(s.board, s.side))) + hand_drops(s, hand_types())
}

/// The king of `c` is not attacked.
pub open spec fn king_safe(a: Snap, c: u8) -> bool {
    spec_attackers(a.board, a.king_sq[c as int] as int, occ_set(a.board), spec_opposite(c))
        == Set::<int>::empty()
}

/// Pawns in both hands.
pub open spec fn fu_total(s: Snap) -> nat {
    (Hand(s.hands[0]).spec_count(FU) + Hand(s.hands[1]).spec_count(FU)) as nat
}

/// `m` drops a pawn from the hand of the side to move and gives check.
pub open spec fn checking_pawn_drop(s: Snap, m: Move) -> bool {
    &&& m.spec_is_drop()
    &&& m.spec_moved() == FU
    &&& s.side <= 1
    &&& s.hands.len() == 2
    &&& Hand(s.hands[s.side as int]).spec_count(FU) >= 1
    &&& spec_checkers(spec_apply(s, m)) != Set::<int>::empty()
}

/// `m` does not leave the mover's king attacked, and a checking pawn drop leaves the
/// opponent a legal reply.
pub open spec fn legal_move(s: Snap, m: Move) -> bool
    decreases fu_total(s), 0nat,
{
    let a = spec_apply(s, m);
    &&& king_safe(a, s.side)
    &&& (checking_pawn_drop(s, m) ==> {
        proof {
            lemma_fu_drop_total(s, m);
        }
        filter_legal(a, pseudo_moves(a)).len() > 0
    })
}

/// The moves of `ms` that are legal in `s`, in order.
pub open spec fn filter_legal(s: Snap, ms: Seq<Move>) -> Seq<Move>
    decreases fu_total(s), ms.len() + 1,
{
    if ms.len() == 0 {
        Seq::empty()
    } else {
        filter_legal(s, ms.drop_last()) + if legal_move(s, ms.last()) {
            seq![ms.last()]
        } else {
            Seq::empty()
        }
    }
}

/// Every legal move of `s`, in generation order.
pub open spec fn legal_moves(s: Snap) -> Seq<Move> {
    filter_legal(s, pseudo_moves(s))
}

/// Dropping a pawn from a hand that holds one leaves one pawn fewer in the hands.
pub proof fn lemma_fu_drop_total(s: Snap, m: Move)
    requires
        m.spec_is_drop(),
        m.spec_moved() == FU,
        s.side <= 1,
        s.hands.len() == 2,
        Hand(s.hands[s.side as int]).spec_count(FU) >= 1,
    ensures
        fu_total(spec_apply(s, m)) < fu_total(s),
{
    let h = Hand(s.hands[s.side as int]);
    lemma_remove_count(h, FU, FU);
    lemma_word_facts(0, 0, 0, 0);
    assert(spec_unit(FU) == 1);
    let a = spec_apply(s, m);
    assert(a.hands[s.side as int] == (h.0 - spec_unit(FU)) as u32);
    assert(a.hands[1 - s.side] == s.hands[1 - s.side]);
}

/// Structurally sound, with pawns and kings tracked exactly.
pub open spec fn exact_tracking(s: Snap) -> bool {
    &&& snap_ok(s)
    &&& pawns_ok(s)
    &&& kings_ok(s)
}

/// A position the generator handles: tracked exactly, with the king of the side to
/// move on the board.
pub open spec fn playable(s: Snap) -> bool {
    &&& exact_tracking(s)
    &&& s.king_sq[s.side as int] != SQ_NONE
}

/// What every generated move satisfies: it can be played and taken back, a drop takes
/// a held piece of a droppable kind, and a board move goes to a square the moving piece
/// attacks.
pub open spec fn pseudo_ok(s: Snap, m: Move) -> bool {
    &&& applicable(s, m)
    &&& m.0 != MOVE_NULL_BITS
    &&& m.spec_captured() <= 14
    &&& if m.spec_is_drop() {
        &&& 1 <= m.spec_moved() <= 7
        &&& Hand(s.hands[s.side as int]).spec_count(m.spec_moved()) >= 1
    } else {
        piece_attack(
            s.side,
            m.spec_moved(),
            m.spec_from() as int,
            occ_set(s.board),
            m.spec_to() as int,
        )
    }
}

/// A wf bitboard lists its squares in the order `board_squares` gives.
pub proof fn lemma_squares_view(b: Bitboard, n: int)
    requires
        0 <= n <= 81,
    ensures
        b.squares_below(n) == squares_in(b@, n),
    decreases n,
{
    if n > 0 {
        lemma_squares_view(b, n - 1);
    }
}

/// Bit `col` after setting bit `c`.
proof fn lemma_set_bit_file(w: u16, c: int, col: int)
    requires
        0 <= c < 16,
        0 <= col < 16,
    ensures
        file_bit(crate::position::set_bit(w, c), col) == (file_bit(w, col) || col == c),
{
    let (cc, k) = (c as u16, col as u16);
    crate::position::lemma_file_word(w, cc, k);
}

/// Two sides that differ are each other's opposite.
proof fn lemma_other_side(a: u8, b: u8)
    requires
        a <= 1,
        b <= 1,
        a != b,
    ensures
        b == spec_opposite(a),
{
    lemma_byte_facts(a, b);
}

/// A board move to one of the moving piece's targets is a generated move.
proof fn lemma_board_move_ok(s: Snap, from: int, to: int, promote: bool)
    requires
        playable(s),
        color_set(s.board, s.side).contains(from),
        move_targets(s, from).contains(to),
    ensures
        pseudo_ok(
            s,
            Move(
                spec_board_bits(
                    from as u8,
                    to as u8,
                    spec_piece_type(s.board[from]),
                    promote,
                    spec_piece_type(s.board[to]),
                ),
            ),
        ),
{
    let us = s.side;
    let pt = spec_piece_type(s.board[from]);
    let target = s.board[to];
    lemma_piece_split(s.board[from]);
    lemma_piece_split(target);
    lemma_board_roundtrip(from as u8, to as u8, pt, promote, spec_piece_type(target));
    assert(valid_cell(s.board[from]));
    assert(valid_cell(target));
    lemma_opposite(us);
    if target != 0 {
        lemma_other_side(us, spec_piece_color(target));
        if spec_piece_type(target) == FU {
            let them = spec_opposite(us);
            assert(pawn_at(s.board, them, to));
            assert(file_bit(s.pawn_files[them as int], spec_col(to)));
        }
    }
    if pt == FU {
        assert(pawn_at(s.board, us, from));
        assert(file_bit(s.pawn_files[us as int], spec_col(from)));
    }
    if pt == OU {
        assert(s.king_sq[us as int] != SQ_NONE);
        assert(s.board[from] == spec_make_piece(us, OU));
    }
}

/// A drop allowed by the drop rules of a held piece onto an empty square is a
/// generated move.
proof fn lemma_drop_ok(s: Snap, pt: u8, to: int)
    requires
        playable(s),
        1 <= pt <= 7,
        Hand(s.hands[s.side as int]).spec_count(pt) >= 1,
        0 <= to < 81,
        s.board[to] == 0,
        drop_allowed(s, pt, to),
    ensures
        pseudo_ok(s, Move(spec_drop_bits(pt, to as u8))),
{
    lemma_drop_roundtrip(pt, to as u8);
}

/// Dropping a pawn keeps pawns and kings tracked exactly.
proof fn lemma_fu_drop_playable(s: Snap, m: Move)
    requires
        exact_tracking(s),
        pseudo_ok(s, m),
        m.spec_is_drop(),
        m.spec_moved() == FU,
    ensures
        exact_tracking(spec_apply(s, m)),
{
    let a = spec_apply(s, m);
    let us = s.side;
    let to = m.spec_to() as int;
    lemma_apply_snap_ok(s, m);
    lemma_opposite(us);
    lemma_piece_roundtrip(us, FU);
    assert forall|c: int|
        0 <= c < 2 implies {
        &&& (#[trigger] a.king_sq[c] == SQ_NONE ==> forall|t: int|
            0 <= t < 81 ==> #[trigger] a.board[t] != spec_make_piece(c as u8, OU))
        &&& (a.king_sq[c] != SQ_NONE ==> a.board[a.king_sq[c] as int] == spec_make_piece(
            c as u8,
            OU,
        ) && forall|t: int|
            0 <= t < 81 && #[trigger] a.board[t] == spec_make_piece(c as u8, OU) ==> t
                == a.king_sq[c])
    } by {
        lemma_piece_roundtrip(c as u8, OU);
        assert(a.king_sq[c] == s.king_sq[c]);
        if s.king_sq[c] != SQ_NONE {
            assert(s.board[s.king_sq[c] as int] == spec_make_piece(c as u8, OU));
        } else {
            assert forall|t: int| 0 <= t < 81 implies #[trigger] a.board[t] != spec_make_piece(c as u8, OU) by {
                if t != to {
                    assert(s.board[t] == a.board[t]);
                }
            }
        }
        assert forall|t: int|
            0 <= t < 81 && #[trigger] a.board[t] == spec_make_piece(c as u8, OU) implies t
            == a.king_sq[c] by {
            if t != to {
                assert(s.board[t] == a.board[t]);
            }
        }
    }
    assert(kings_ok(a));
    let w = s.pawn_files[us as int];
    assert forall|c: int, col: int|
        0 <= c < 2 && 0 <= col < 9 implies (#[trigger] file_bit(a.pawn_files[c], col) <==> exists|
        sq: int,
    | #[trigger] pawn_at(a.board, c as u8, sq) && spec_col(sq) == col) by {
        lemma_piece_roundtrip(c as u8, FU);
        if c == us {
            lemma_set_bit_file(w, spec_col(to), col);
            if file_bit(a.pawn_files[c], col) {
                if col == spec_col(to) {
                    assert(pawn_at(a.board, c as u8, to));
                } else {
                    assert(file_bit(s.pawn_files[c], col));
                    let sq = choose|sq: int| #[trigger] pawn_at(s.board, c as u8, sq) && spec_col(sq) == col;
                    assert(pawn_at(a.board, c as u8, sq));
                }
            }
            if exists|sq: int| #[trigger] pawn_at(a.board, c as u8, sq) && spec_col(sq) == col {
                let sq = choose|sq: int| #[trigger] pawn_at(a.board, c as u8, sq) && spec_col(sq) == col;
                if sq != to {
                    assert(pawn_at(s.board, c as u8, sq));
                    assert(file_bit(s.pawn_files[c], col));
                }
            }
        } else {
            assert(a.pawn_files[c] == s.pawn_files[c]);
            if file_bit(a.pawn_files[c], col) {
                let sq = choose|sq: int| #[trigger] pawn_at(s.board, c as u8, sq) && spec_col(sq) == col;
                assert(pawn_at(a.board, c as u8, sq));
            }
            if exists|sq: int| #[trigger] pawn_at(a.board, c as u8, sq) && spec_col(sq) == col {
                let sq = choose|sq: int| #[trigger] pawn_at(a.board, c as u8, sq) && spec_col(sq) == col;
                assert(sq != to);
                assert(pawn_at(s.board, c as u8, sq));
            }
        }
    }
    assert forall|c: int, col: int|
        0 <= c < 2 && 9 <= col < 16 implies !#[trigger] file_bit(a.pawn_files[c], col) by {
        if c == us {
            lemma_set_bit_file(w, spec_col(to), col);
        }
    }
    assert forall|c: int, x: int, y: int|
        0 <= c < 2 && #[trigger] pawn_at(a.board, c as u8, x) && #[trigger] pawn_at(
            a.board,
            c as u8,
            y,
        ) && spec_col(x) == spec_col(y) implies x == y by {
        lemma_piece_roundtrip(c as u8, FU);
        if x != to && y != to {
            assert(pawn_at(s.board, c as u8, x));
            assert(pawn_at(s.board, c as u8, y));
        } else if x == to && y != to {
            assert(pawn_at(s.board, c as u8, y));
            assert(file_bit(s.pawn_files[c], spec_col(y)));
        } else if y == to && x != to {
            assert(pawn_at(s.board, c as u8, x));
            assert(file_bit(s.pawn_files[c], spec_col(x)));
        }
    }
}

/// Attack set of a piece of kind `pt` and color `color` standing on `sq`, given
/// occupancy `occ`. It includes squares occupied by either color (the caller masks out
/// its own pieces).
pub fn piece_attacks(color: Color, pt: PieceType, sq: Square, occ: Bitboard) -> (r: Bitboard)
    requires
        sq < 81,
    ensures
        r.wf(),
        forall|t: int| #[trigger] r@.contains(t) <==> piece_attack(color, pt, sq as int, occ@, t),
{
    match pt {
        KYO => lance_attacks(color, sq, occ),
        KAKU => bishop_attacks(sq, occ),
        HI => rook_attacks(sq, occ),
        UMA => horse_attacks(sq, occ),
        RYU => dragon_attacks(sq, occ),
        _ => step_attacks(color, sq, pt),
    }
}

/// Appends the moves of the piece on `from` to `to`, in the order `target_moves` gives.
fn push_target_moves(pos: &Position, from: Square, to: Square, out: &mut Vec<Move>)
    requires
        pos.wf(),
        playable(pos.snap()),
        color_set(pos.snap().board, pos.snap().side).contains(from as int),
        move_targets(pos.snap(), from as int).contains(to as int),
    ensures
        final(out)@ == old(out)@ + target_moves(pos.snap(), from, to),
        forall|k: int|
            old(out)@.len() <= k < final(out)@.len() ==> pseudo_ok(pos.snap(), #[trigger] final(out)@[k]),
{
    let ghost s = pos.snap();
    proof {
        pos.lemma_wf_board();
    }
    let us = pos.side_to_move();
    let pt = piece_type(pos.piece_at(from));
    let captured_pt = piece_type(pos.piece_at(to));
    let from_row = row_of(from);
    let to_row = row_of(to);
    proof {
        lemma_board_move_ok(s, from as int, to as int, true);
        lemma_board_move_ok(s, from as int, to as int, false);
    }
    if must_promote(pt, to_row, us) {
        out.push(Move::new_board(from, to, pt, true, captured_pt));
    } else {
        out.push(Move::new_board(from, to, pt, false, captured_pt));
        if can_promote(pt, from_row, to_row, us) {
            out.push(Move::new_board(from, to, pt, true, captured_pt));
        }
    }
    proof {
        assert(final(out)@ =~= old(out)@ + target_moves(s, from, to));
    }
}

/// Appends every pseudo-legal move of the side to move, in the order `pseudo_moves`
/// gives.
fn generate_pseudo_legal(pos: &Position, out: &mut Vec<Move>)
    requires
        pos.wf(),
        playable(pos.snap()),
    ensures
        final(out)@ == old(out)@ + pseudo_moves(pos.snap()),
        forall|k: int|
            old(out)@.len() <= k < final(out)@.len() ==> pseudo_ok(pos.snap(), #[trigger] final(out)@[k]),
{
    let ghost s = pos.snap();
    let ghost start = out@;
    proof {
        pos.lemma_wf_board();
    }
    let us = pos.side_to_move();
    let own = pos.pieces_of_color(us);
    let occ = pos.occupied();
    let froms = own.iter().collect();
    proof {
        lemma_squares_view(own, 81);
    }
    let mut i: usize = 0;
    while i < froms.len()
        invariant
            pos.wf(),
            playable(s),
            s == pos.snap(),
            us == s.side,
            own.wf(),
            own@ == color_set(s.board, us),
            occ.wf(),
            occ@ == occ_set(s.board),
            froms@ == board_squares(own@),
            i <= froms.len(),
            out@ == start + board_moves(s, froms@.take(i as int)),
            forall|k: int| start.len() <= k < out@.len() ==> pseudo_ok(s, #[trigger] out@[k]),
        decreases froms.len() - i,
    {
        let from = froms[i];
        proof {
            lemma_board_squares_member(own@, i as int);
        }
        let pt = piece_type(pos.piece_at(from));
        let targets = piece_attacks(us, pt, from, occ).andnot(own);
        proof {
            assert(targets@ =~= move_targets(s, from as int));
        }
        let tos = targets.iter().collect();
        proof {
            lemma_squares_view(targets, 81);
        }
        let ghost before = out@;
        let mut j: usize = 0;
        while j < tos.len()
            invariant
                pos.wf(),
                playable(s),
                s == pos.snap(),
                color_set(s.board, s.side).contains(from as int),
                tos@ == board_squares(move_targets(s, from as int)),
                j <= tos.len(),
                out@ == before + from_moves(s, from, tos@.take(j as int)),
                forall|k: int| start.len() <= k < out@.len() ==> pseudo_ok(s, #[trigger] out@[k]),
                start.len() <= before.len(),
            decreases tos.len() - j,
        {
            let to = tos[j];
            proof {
                lemma_board_squares_member(move_targets(s, from as int), j as int);
            }
            push_target_moves(pos, from, to, out);
            proof {
                assert(tos@.take(j + 1).drop_last() =~= tos@.take(j as int));
                assert(out@ =~= before + from_moves(s, from, tos@.take(j + 1)));
            }
            j = j + 1;
        }
        proof {
            assert(tos@.take(tos.len() as int) =~= tos@);
            assert(froms@.take(i + 1).drop_last() =~= froms@.take(i as int));
            assert(out@ =~= start + board_moves(s, froms@.take(i + 1)));
        }
        i = i + 1;
    }
    proof {
        assert(froms@.take(froms.len() as int) =~= froms@);
    }
    let ghost mid = out@;
    let types = Hand::types();
    let empty_sqs = occ.not();
    let tos = empty_sqs.iter().collect();
    proof {
        lemma_squares_view(empty_sqs, 81);
        assert(empty_sqs@ =~= Set::new(|t: int| 0 <= t < 81 && s.board[t] == 0));
    }
    let mut k: usize = 0;
    while k < 7
        invariant
            pos.wf(),
            playable(s),
            s == pos.snap(),
            us == s.side,
            types@ == hand_types(),
            tos@ == board_squares(Set::new(|t: int| 0 <= t < 81 && s.board[t] == 0)),
            k <= 7,
            out@ == mid + hand_drops(s, hand_types().take(k as int)),
            start.len() <= mid.len(),
            forall|q: int| start.len() <= q < out@.len() ==> pseudo_ok(s, #[trigger] out@[q]),
        decreases 7 - k,
    {
        let pt = types[k];
        let ghost before = out@;
        if pos.hand(us, pt) > 0 {
            let mut j: usize = 0;
            while j < tos.len()
                invariant
                    pos.wf(),
                    playable(s),
                    s == pos.snap(),
                    us == s.side,
                    1 <= pt <= 7,
                    Hand(s.hands[s.side as int]).spec_count(pt) >= 1,
                    tos@ == board_squares(Set::new(|t: int| 0 <= t < 81 && s.board[t] == 0)),
                    j <= tos.len(),
                    out@ == before + drop_moves(s, pt, tos@.take(j as int)),
                    start.len() <= before.len(),
                    forall|q: int| start.len() <= q < out@.len() ==> pseudo_ok(s, #[trigger] out@[q]),
                decreases tos.len() - j,
            {
                let to = tos[j];
                proof {
                    lemma_board_squares_member(Set::new(|t: int| 0 <= t < 81 && s.board[t] == 0), j as int);
                }
                let row = row_of(to);
                let allowed = droppable_row(pt, row, us) && !(pt == FU && pos.has_pawn_on_col(us, col_of(to)));
                if allowed {
                    proof {
                        lemma_drop_ok(s, pt, to as int);
                    }
                    out.push(Move::new_drop(pt, to));
                }
                proof {
                    assert(tos@.take(j + 1).drop_last() =~= tos@.take(j as int));
                    assert(out@ =~= before + drop_moves(s, pt, tos@.take(j + 1)));
                }
                j = j + 1;
            }
            proof {
                assert(tos@.take(tos.len() as int) =~= tos@);
            }
        }
        proof {
            assert(hand_types().take(k + 1).drop_last() =~= hand_types().take(k as int));
            assert(out@ =~= mid + hand_drops(s, hand_types().take(k + 1)));
        }
        k = k + 1;
    }
    proof {
        assert(hand_types().take(7) =~= hand_types());
        assert(out@ =~= start + pseudo_moves(s));
    }
}

/// The piece a move leaves on its target square can still move from there: a pawn,
/// lance or knight that stays unpromoted attacks some board square (even on an empty
/// board).
pub open spec fn leaves_movable(side: u8, m: Move) -> bool {
    let pt = m.spec_moved();
    (!m.spec_is_promotion() && (pt == FU || pt == KYO || pt == KEI)) ==> exists|t: int|
        0 <= t < 81 && #[trigger] piece_attack(side, pt, m.spec_to() as int, Set::<int>::empty(), t)
}

/// A pawn or lance short of its last rank, or a knight short of its last two ranks,
/// attacks some board square.
proof fn lemma_alive(color: u8, pt: u8, sq: int)
    requires
        color <= 1,
        0 <= sq < 81,
        pt == FU || pt == KYO || pt == KEI,
        color == BLACK ==> spec_row(sq) >= (if pt == KEI { 2int } else { 1int }),
        color == WHITE ==> spec_row(sq) <= (if pt == KEI { 6int } else { 7int }),
    ensures
        exists|t: int| 0 <= t < 81 && #[trigger] piece_attack(color, pt, sq, Set::<int>::empty(), t),
{
    let r = spec_row(sq);
    let c = spec_col(sq);
    assert(sq == 9 * c + r);
    let fwd: int = if color == BLACK { -1 } else { 1 };
    if pt == FU || pt == KYO {
        let t = 9 * c + (r + fwd);
        assert(spec_row(t) == r + fwd && spec_col(t) == c);
        assert(piece_attack(color, pt, sq, Set::<int>::empty(), t));
    } else {
        let c2 = if c >= 1 { c - 1 } else { c + 1 };
        let t = 9 * c2 + (r + 2 * fwd);
        assert(spec_row(t) == r + 2 * fwd && spec_col(t) == c2);
        assert(piece_attack(color, pt, sq, Set::<int>::empty(), t));
    }
}

proof fn lemma_drop_moves_movable(s: Snap, pt: u8, tos: Seq<u8>)
    requires
        s.side <= 1,
        1 <= pt <= 7,
        forall|i: int| 0 <= i < tos.len() ==> #[trigger] tos[i] < 81,
    ensures
        forall|i: int|
            0 <= i < drop_moves(s, pt, tos).len() ==> leaves_movable(s.side, #[trigger] drop_moves(s, pt, tos)[i]),
    decreases tos.len(),
{
    if tos.len() > 0 {
        let pre = tos.drop_last();
        assert forall|i: int| 0 <= i < pre.len() implies #[trigger] pre[i] < 81 by {
            assert(pre[i] == tos[i]);
        }
        lemma_drop_moves_movable(s, pt, pre);
        let to = tos.last();
        assert(to == tos[tos.len() - 1]);
        if drop_allowed(s, pt, to as int) {
            lemma_drop_roundtrip(pt, to);
            if pt == FU || pt == KYO || pt == KEI {
                lemma_alive(s.side, pt, to as int);
            }
            assert(leaves_movable(s.side, Move(spec_drop_bits(pt, to))));
        }
        let a = drop_moves(s, pt, pre);
        assert forall|i: int| 0 <= i < drop_moves(s, pt, tos).len() implies leaves_movable(
            s.side,
            #[trigger] drop_moves(s, pt, tos)[i],
        ) by {
            if i < a.len() {
                assert(drop_moves(s, pt, tos)[i] == a[i]);
            }
        }
    }
}

proof fn lemma_hand_drops_movable(s: Snap, pts: Seq<u8>)
    requires
        s.side <= 1,
        forall|i: int| 0 <= i < pts.len() ==> 1 <= #[trigger] pts[i] <= 7,
    ensures
        forall|i: int|
            0 <= i < hand_drops(s, pts).len() ==> leaves_movable(s.side, #[trigger] hand_drops(s, pts)[i]),
    decreases pts.len(),
{
    if pts.len() > 0 {
        let pre = pts.drop_last();
        assert forall|i: int| 0 <= i < pre.len() implies 1 <= #[trigger] pre[i] <= 7 by {
            assert(pre[i] == pts[i]);
        }
        lemma_hand_drops_movable(s, pre);
        let pt = pts.last();
        assert(pt == pts[pts.len() - 1]);
        let empty = Set::new(|t: int| 0 <= t < 81 && s.board[t] == 0);
        let tos = board_squares(empty);
        assert forall|i: int| 0 <= i < tos.len() implies #[trigger] tos[i] < 81 by {
            lemma_board_squares_member(empty, i);
        }
        lemma_drop_moves_movable(s, pt, tos);
        let a = hand_drops(s, pre);
        assert forall|i: int| 0 <= i < hand_drops(s, pts).len() implies leaves_movable(
            s.side,
            #[trigger] hand_drops(s, pts)[i],
        ) by {
            if i < a.len() {
                assert(hand_drops(s, pts)[i] == a[i]);
            } else {
                assert(hand_drops(s, pts)[i] == drop_moves(s, pt, tos)[i - a.len()]);
            }
        }
    }
}

proof fn lemma_target_moves_movable(s: Snap, from: u8, to: u8)
    requires
        snap_ok(s),
        from < 81,
        to < 81,
    ensures
        forall|i: int|
            0 <= i < target_moves(s, from, to).len() ==> leaves_movable(s.side, #[trigger] target_moves(s, from, to)[i]),
{
    let pt = spec_piece_type(s.board[from as int]);
    let cap = spec_piece_type(s.board[to as int]);
    assert(valid_cell(s.board[from as int]) && valid_cell(s.board[to as int]));
    lemma_board_roundtrip(from, to, pt, false, cap);
    lemma_board_roundtrip(from, to, pt, true, cap);
    if !spec_must_promote(pt, spec_row(to as int) as u8, s.side) && (pt == FU || pt == KYO || pt == KEI) {
        lemma_alive(s.side, pt, to as int);
    }
}

proof fn lemma_from_moves_movable(s: Snap, from: u8, tos: Seq<u8>)
    requires
        snap_ok(s),
        from < 81,
        forall|i: int| 0 <= i < tos.len() ==> #[trigger] tos[i] < 81,
    ensures
        forall|i: int|
            0 <= i < from_moves(s, from, tos).len() ==> leaves_movable(s.side, #[trigger] from_moves(s, from, tos)[i]),
    decreases tos.len(),
{
    if tos.len() > 0 {
        let pre = tos.drop_last();
        assert forall|i: int| 0 <= i < pre.len() implies #[trigger] pre[i] < 81 by {
            assert(pre[i] == tos[i]);
        }
        lemma_from_moves_movable(s, from, pre);
        let to = tos.last();
        assert(to == tos[tos.len() - 1]);
        lemma_target_moves_movable(s, from, to);
        let a = from_moves(s, from, pre);
        assert forall|i: int| 0 <= i < from_moves(s, from, tos).len() implies leaves_movable(
            s.side,
            #[trigger] from_moves(s, from, tos)[i],
        ) by {
            if i < a.len() {
                assert(from_moves(s, from, tos)[i] == a[i]);
            } else {
                assert(from_moves(s, from, tos)[i] == target_moves(s, from, to)[i - a.len()]);
            }
        }
    }
}

proof fn lemma_board_moves_movable(s: Snap, froms: Seq<u8>)
    requires
        snap_ok(s),
        forall|i: int| 0 <= i < froms.len() ==> #[trigger] froms[i] < 81,
    ensures
        forall|i: int|
            0 <= i < board_moves(s, froms).len() ==> leaves_movable(s.side, #[trigger] board_moves(s, froms)[i]),
    decreases froms.len(),
{
    if froms.len() > 0 {
        let pre = froms.drop_last();
        assert forall|i: int| 0 <= i < pre.len() implies #[trigger] pre[i] < 81 by {
            assert(pre[i] == froms[i]);
        }
        lemma_board_moves_movable(s, pre);
        let f = froms.last();
        assert(f == froms[froms.len() - 1]);
        let tos = board_squares(move_targets(s, f as int));
        assert forall|i: int| 0 <= i < tos.len() implies #[trigger] tos[i] < 81 by {
            lemma_board_squares_member(move_targets(s, f as int), i);
        }
        lemma_from_moves_movable(s, f, tos);
        let a = board_moves(s, pre);
        assert forall|i: int| 0 <= i < board_moves(s, froms).len() implies leaves_movable(
            s.side,
            #[trigger] board_moves(s, froms)[i],
        ) by {
            if i < a.len() {
                assert(board_moves(s, froms)[i] == a[i]);
            } else {
                assert(board_moves(s, froms)[i] == from_moves(s, f, tos)[i - a.len()]);
            }
        }
    }
}

proof fn lemma_filter_movable(s: Snap, ms: Seq<Move>)
    requires
        forall|j: int| 0 <= j < ms.len() ==> leaves_movable(s.side, #[trigger] ms[j]),
    ensures
        forall|i: int|
            0 <= i < filter_legal(s, ms).len() ==> leaves_movable(s.side, #[trigger] filter_legal(s, ms)[i]),
    decreases ms.len(),
{
    if ms.len() > 0 {
        let pre = ms.drop_last();
        assert forall|j: int| 0 <= j < pre.len() implies leaves_movable(s.side, #[trigger] pre[j]) by {
            assert(pre[j] == ms[j]);
        }
        lemma_filter_movable(s, pre);
        let a = filter_legal(s, pre);
        assert(leaves_movable(s.side, ms[ms.len() - 1]));
        assert forall|i: int| 0 <= i < filter_legal(s, ms).len() implies leaves_movable(
            s.side,
            #[trigger] filter_legal(s, ms)[i],
        ) by {
            if i < a.len() {
                assert(filter_legal(s, ms)[i] == a[i]);
            } else {
                assert(filter_legal(s, ms)[i] == ms.last());
            }
        }
    }
}

/// No legal move leaves a pawn, lance or knight unpromoted where it could never move
/// again (a pawn or lance on its last rank, a knight on its last two ranks), whether
/// it is dropped there or moved there.
pub proof fn lemma_no_dead_pieces(s: Snap)
    requires
        snap_ok(s),
    ensures
        forall|i: int|
            0 <= i < legal_moves(s).len() ==> leaves_movable(s.side, #[trigger] legal_moves(s)[i]),
{
    let froms = board_squares(color_set(s.board, s.side));
    assert forall|i: int| 0 <= i < froms.len() implies #[trigger] froms[i] < 81 by {
        lemma_board_squares_member(color_set(s.board, s.side), i);
    }
    lemma_board_moves_movable(s, froms);
    assert forall|i: int| 0 <= i < hand_types().len() implies 1 <= #[trigger] hand_types()[i] <= 7 by {
        assert(hand_types() == seq![1u8, 2u8, 3u8, 4u8, 5u8, 6u8, 7u8]);
    }
    lemma_hand_drops_movable(s, hand_types());
    let b = board_moves(s, froms);
    let ps = pseudo_moves(s);
    assert forall|j: int| 0 <= j < ps.len() implies leaves_movable(s.side, #[trigger] ps[j]) by {
        if j < b.len() {
            assert(ps[j] == b[j]);
        } else {
            assert(ps[j] == hand_drops(s, hand_types())[j - b.len()]);
        }
    }
    lemma_filter_movable(s, ps);
}

/// The `i`-th square that `board_squares` lists is a board square of the set.
pub proof fn lemma_board_squares_member(set: Set<int>, i: int)
    requires
        0 <= i < board_squares(set).len(),
    ensures
        set.contains(board_squares(set)[i] as int),
        0 <= board_squares(set)[i] < 81,
{
    lemma_squares_in_member(set, 81, i);
}

proof fn lemma_squares_in_member(set: Set<int>, n: int, i: int)
    requires
        0 <= n <= 81,
        0 <= i < squares_in(set, n).len(),
    ensures
        set.contains(squares_in(set, n)[i] as int),
        0 <= squares_in(set, n)[i] < n,
    decreases n,
{
    if n > 0 {
        if set.contains(n - 1) && i == squares_in(set, n - 1).len() {
        } else {
            lemma_squares_in_member(set, n - 1, i);
        }
    }
}

/// Plays `mv`, tests it for legality, and takes it back.
fn is_legal_after_pseudo(pos: &mut Position, mv: Move) -> (r: bool)
    requires
        old(pos).wf(),
        playable(old(pos).snap()),
        pseudo_ok(old(pos).snap(), mv),
        old(pos).stack().len() + fu_total(old(pos).snap()) < MAX_STACK,
    ensures
        r == legal_move(old(pos).snap(), mv),
        final(pos).wf(),
        final(pos).snap() == old(pos).snap(),
        final(pos).stack() == old(pos).stack(),
        final(pos).snaps() == old(pos).snaps(),
    decreases fu_total(old(pos).snap()), 0nat,
{
    let ghost s = pos.snap();
    proof {
        pos.lemma_wf_board();
        lemma_opposite(s.side);
    }
    let us = pos.side_to_move();
    pos.do_move(mv);
    proof {
        pos.lemma_wf_board();
    }
    let king = pos.king_square(us);
    let occ = pos.occupied();
    let att = pos.attackers_to(king, occ, opposite(us));
    let mut ok = att.is_empty();
    if ok && mv.is_drop() && mv.moved_piece_type() == FU && pos.in_check() {
        proof {
            lemma_fu_drop_total(s, mv);
            lemma_fu_drop_playable(s, mv);
            assert(spec_checkers(pos.snap()) != Set::<int>::empty());
        }
        let mut replies: Vec<Move> = Vec::new();
        generate_legal(pos, &mut replies);
        if replies.len() == 0 {
            ok = false;
        }
    }
    pos.undo_move();
    ok
}

/// Whether `mv` is a generated move that leaves the mover's king safe and still is not
/// legal: a pawn drop that gives mate. The position is left as it was.
pub fn forbidden_only_by_mate(pos: &mut Position, mv: Move) -> (r: bool)
    requires
        old(pos).wf(),
        playable(old(pos).snap()),
        old(pos).stack().len() + fu_total(old(pos).snap()) < MAX_STACK,
    ensures
        r == (pseudo_moves(old(pos).snap()).contains(mv) && king_safe(
            spec_apply(old(pos).snap(), mv),
            old(pos).snap().side,
        ) && !legal_move(old(pos).snap(), mv)),
        final(pos).wf(),
        final(pos).snap() == old(pos).snap(),
        final(pos).stack() == old(pos).stack(),
        final(pos).snaps() == old(pos).snaps(),
{
    let ghost s = pos.snap();
    let mut pseudo: Vec<Move> = Vec::new();
    generate_pseudo_legal(pos, &mut pseudo);
    let mut found = false;
    let mut i: usize = 0;
    while i < pseudo.len()
        invariant
            i <= pseudo@.len(),
            pseudo@ == Seq::<Move>::empty() + pseudo_moves(s),
            found <==> exists|k: int| 0 <= k < i && pseudo@[k] == mv,
        decreases pseudo.len() - i,
    {
        if pseudo[i] == mv {
            found = true;
        }
        i = i + 1;
    }
    proof {
        assert(pseudo@ =~= pseudo_moves(s));
        if found {
            let k = choose|k: int| 0 <= k < i && pseudo@[k] == mv;
            assert(pseudo_moves(s).contains(mv));
        } else {
            assert(!pseudo_moves(s).contains(mv)) by {
                if pseudo_moves(s).contains(mv) {
                    let k = choose|k: int| 0 <= k < pseudo_moves(s).len() && pseudo_moves(s)[k] == mv;
                    assert(pseudo@[k] == mv);
                }
            }
        }
    }
    if !found {
        return false;
    }
    proof {
        let k = choose|k: int| 0 <= k < pseudo@.len() && pseudo@[k] == mv;
        assert(pseudo_ok(s, pseudo@[k]));
        pos.lemma_wf_board();
        lemma_opposite(s.side);
    }
    let us = pos.side_to_move();
    pos.do_move(mv);
    proof {
        pos.lemma_wf_board();
    }
    let king = pos.king_square(us);
    let occ = pos.occupied();
    let att = pos.attackers_to(king, occ, opposite(us));
    let safe = att.is_empty();
    pos.undo_move();
    if !safe {
        return false;
    }
    !is_legal_after_pseudo(pos, mv)
}

/// Every legal move of the side to move, in generation order. The position is left as
/// it was.
pub fn generate_legal(pos: &mut Position, out: &mut Vec<Move>)
    requires
        old(pos).wf(),
        playable(old(pos).snap()),
        old(pos).stack().len() + fu_total(old(pos).snap()) < MAX_STACK,
    ensures
        final(out)@ == legal_moves(old(pos).snap()),
        forall|k: int|
            0 <= k < final(out)@.len() ==> pseudo_ok(old(pos).snap(), #[trigger] final(out)@[k])
                && legal_move(old(pos).snap(), final(out)@[k]),
        forall|k: int|
            0 <= k < final(out)@.len() ==> leaves_movable(old(pos).snap().side, #[trigger] final(out)@[k]),
        final(pos).wf(),
        final(pos).snap() == old(pos).snap(),
        final(pos).stack() == old(pos).stack(),
        final(pos).snaps() == old(pos).snaps(),
    decreases fu_total(old(pos).snap()), 1nat,
{
    let ghost s = pos.snap();
    out.clear();
    let mut pseudo: Vec<Move> = Vec::new();
    generate_pseudo_legal(pos, &mut pseudo);
    proof {
        assert(pseudo@ =~= pseudo_moves(s));
    }
    let mut i: usize = 0;
    while i < pseudo.len()
        invariant
            pos.wf(),
            playable(s),
            pos.snap() == s,
            pos.stack() == old(pos).stack(),
            pos.snaps() == old(pos).snaps(),
            s == old(pos).snap(),
            pos.stack().len() + fu_total(s) < MAX_STACK,
            pseudo@ == pseudo_moves(s),
            forall|k: int| 0 <= k < pseudo@.len() ==> pseudo_ok(s, #[trigger] pseudo@[k]),
            i <= pseudo.len(),
            out@ == filter_legal(s, pseudo@.take(i as int)),
            forall|k: int|
                0 <= k < out@.len() ==> pseudo_ok(s, #[trigger] out@[k]) && legal_move(s, out@[k]),
        decreases pseudo.len() - i,
    {
        let mv = pseudo[i];
        let legal = is_legal_after_pseudo(pos, mv);
        proof {
            assert(pseudo@.take(i + 1).drop_last() =~= pseudo@.take(i as int));
            assert(pseudo@.take(i + 1).last() == mv);
        }
        if legal {
            out.push(mv);
        }
        proof {
            assert(out@ =~= filter_legal(s, pseudo@.take(i + 1)));
        }
        i = i + 1;
    }
    proof {
        assert(pseudo@.take(pseudo.len() as int) =~= pseudo@);
        lemma_no_dead_pieces(s);
    }
}

/// A position reachable in a game: sound, with both kings on the board.
pub open spec fn game_ok(s: Snap) -> bool {
    &&& sound(s)
    &&& s.king_sq[0] != SQ_NONE
    &&& s.king_sq[1] != SQ_NONE
}

/// Bit `col` after clearing bit `c`.
proof fn lemma_clear_bit_file(w: u16, c: int, col: int)
    requires
        0 <= c < 16,
        0 <= col < 16,
    ensures
        file_bit(crate::position::clear_bit(w, c), col) == (file_bit(w, col) && col != c),
{
    let (cc, k) = (c as u16, col as u16);
    crate::position::lemma_file_word(w, cc, k);
}

/// Two packed pieces of real sides and kinds are equal only when side and kind are.
proof fn lemma_piece_eq(c1: u8, p1: u8, c2: u8, p2: u8)
    requires
        c1 <= 1,
        c2 <= 1,
        p1 < 16,
        p2 < 16,
    ensures
        (spec_make_piece(c1, p1) == spec_make_piece(c2, p2)) == (c1 == c2 && p1 == p2),
{
    lemma_piece_roundtrip(c1, p1);
    lemma_piece_roundtrip(c2, p2);
}

/// A board move of a sound position never captures a king.
proof fn lemma_no_king_capture(s: Snap, m: Move)
    requires
        game_ok(s),
        pseudo_ok(s, m),
        !m.spec_is_drop(),
    ensures
        s.board[m.spec_to() as int] != spec_make_piece(spec_opposite(s.side), OU),
{
    let us = s.side;
    let them = spec_opposite(us);
    let from = m.spec_from() as int;
    let to = m.spec_to() as int;
    lemma_opposite(us);
    lemma_piece_roundtrip(us, m.spec_moved());
    lemma_piece_roundtrip(them, OU);
    if s.board[to] == spec_make_piece(them, OU) {
        assert(s.king_sq[them as int] != SQ_NONE);
        assert(s.king_sq[them as int] == to);
        assert(spec_attackers(s.board, to, occ_set(s.board), us).contains(from));
    }
}

/// A legal board move keeps kings tracked exactly and both kings on the board.
proof fn lemma_board_move_kings(s: Snap, m: Move)
    requires
        game_ok(s),
        pseudo_ok(s, m),
        !m.spec_is_drop(),
    ensures
        kings_ok(spec_apply(s, m)),
        spec_apply(s, m).king_sq[0] != SQ_NONE,
        spec_apply(s, m).king_sq[1] != SQ_NONE,
{
    let a = spec_apply(s, m);
    let us = s.side;
    let them = spec_opposite(us);
    let pt = m.spec_moved();
    let from = m.spec_from() as int;
    let to = m.spec_to() as int;
    let final_pt = if m.spec_is_promotion() {
        spec_promoted(pt)
    } else {
        pt
    };
    lemma_opposite(us);
    lemma_no_king_capture(s, m);
    let target = s.board[to];
    lemma_piece_split(target);
    assert(valid_cell(target));
    assert forall|c: int|
        0 <= c < 2 implies {
        &&& (#[trigger] a.king_sq[c] == SQ_NONE ==> forall|t: int|
            0 <= t < 81 ==> #[trigger] a.board[t] != spec_make_piece(c as u8, OU))
        &&& (a.king_sq[c] != SQ_NONE ==> a.board[a.king_sq[c] as int] == spec_make_piece(
            c as u8,
            OU,
        ) && forall|t: int|
            0 <= t < 81 && #[trigger] a.board[t] == spec_make_piece(c as u8, OU) ==> t
                == a.king_sq[c])
    } by {
        let k = s.king_sq[c];
        lemma_piece_eq(us, final_pt, c as u8, OU);
        lemma_piece_eq(us, pt, c as u8, OU);
        lemma_piece_roundtrip(c as u8, OU);
        assert(k != SQ_NONE);
        assert(s.board[k as int] == spec_make_piece(c as u8, OU));
        if pt == OU && c == us {
            assert(a.king_sq[c] == to);
            assert forall|t: int|
                0 <= t < 81 && #[trigger] a.board[t] == spec_make_piece(c as u8, OU) implies t
                == a.king_sq[c] by {
                if t != to && t != from {
                    assert(s.board[t] == a.board[t]);
                }
            }
        } else {
            assert(a.king_sq[c] == k);
            if k as int == from {
                lemma_piece_eq(us, pt, c as u8, OU);
            }
            if k as int == to {
                if c != us {
                    lemma_other_side(us, c as u8);
                }
                lemma_piece_split(s.board[to]);
            }
            assert(a.board[k as int] == s.board[k as int]);
            assert forall|t: int|
                0 <= t < 81 && #[trigger] a.board[t] == spec_make_piece(c as u8, OU) implies t
                == a.king_sq[c] by {
                if t != to && t != from {
                    assert(s.board[t] == a.board[t]);
                }
                if t == to {
                    if c != us {
                        lemma_other_side(us, c as u8);
                    }
                }
            }
        }
    }
}

/// A legal board move keeps the pawn files exact and at most one pawn per file.
proof fn lemma_board_move_pawns(s: Snap, m: Move)
    requires
        game_ok(s),
        pseudo_ok(s, m),
        !m.spec_is_drop(),
    ensures
        pawns_ok(spec_apply(s, m)),
{
    let a = spec_apply(s, m);
    let us = s.side;
    let them = spec_opposite(us);
    let pt = m.spec_moved();
    let from = m.spec_from() as int;
    let to = m.spec_to() as int;
    let promo = m.spec_is_promotion();
    let final_pt = if promo {
        spec_promoted(pt)
    } else {
        pt
    };
    let target = s.board[to];
    lemma_opposite(us);
    lemma_piece_split(target);
    assert(valid_cell(target));
    lemma_piece_roundtrip(us, pt);
    let tcap = target != 0 && spec_piece_type(target) == FU;
    // Pawns of each side after the move.
    assert forall|c: int, sq: int| 0 <= c < 2 implies #[trigger] pawn_at(a.board, c as u8, sq) == (
    if sq == to {
        c == us && pt == FU && !promo
    } else if sq == from {
        false
    } else {
        pawn_at(s.board, c as u8, sq)
    }) by {
        lemma_piece_eq(us, final_pt, c as u8, FU);
        lemma_piece_roundtrip(c as u8, FU);
        if 0 <= sq < 81 && sq != to && sq != from {
            assert(a.board[sq] == s.board[sq]);
        }
    }
    // The captured pawn was the only pawn of its side in its file.
    if tcap {
        lemma_other_side(us, spec_piece_color(target));
        assert(pawn_at(s.board, them, to));
    }
    if pt == FU {
        assert(pawn_at(s.board, us, from));
        assert(step_target(us, FU, from, to));
        assert(spec_col(to) == spec_col(from));
    }
    assert forall|c: int, col: int|
        0 <= c < 2 && 0 <= col < 9 implies (#[trigger] file_bit(a.pawn_files[c], col) <==> exists|
        sq: int,
    | #[trigger] pawn_at(a.board, c as u8, sq) && spec_col(sq) == col) by {
        let w = s.pawn_files[c];
        lemma_piece_eq(us, pt, c as u8, FU);
        lemma_piece_roundtrip(c as u8, FU);
        if c == them && tcap {
            lemma_clear_bit_file(w, spec_col(to), col);
        }
        if c == us && pt == FU && promo {
            lemma_clear_bit_file(w, spec_col(from), col);
        }
        if file_bit(a.pawn_files[c], col) {
            assert(file_bit(w, col));
            let sq = choose|sq: int| #[trigger] pawn_at(s.board, c as u8, sq) && spec_col(sq) == col;
            if sq == from {
                assert(pawn_at(a.board, c as u8, to));
            } else if sq == to {
                assert(false);
            } else {
                assert(pawn_at(a.board, c as u8, sq));
            }
        }
        if exists|sq: int| #[trigger] pawn_at(a.board, c as u8, sq) && spec_col(sq) == col {
            let sq = choose|sq: int| #[trigger] pawn_at(a.board, c as u8, sq) && spec_col(sq) == col;
            if sq == to {
                assert(pawn_at(s.board, c as u8, from));
                assert(file_bit(w, col));
            } else {
                assert(pawn_at(s.board, c as u8, sq));
                assert(file_bit(w, col));
                if c == them && tcap {
                    assert(pawn_at(s.board, them, to));
                }
                if c == us && pt == FU && promo {
                    assert(pawn_at(s.board, us, from));
                }
            }
        }
    }
    assert forall|c: int, col: int|
        0 <= c < 2 && 9 <= col < 16 implies !#[trigger] file_bit(a.pawn_files[c], col) by {
        let w = s.pawn_files[c];
        if c == them && tcap {
            lemma_clear_bit_file(w, spec_col(to), col);
        }
        if c == us && pt == FU && promo {
            lemma_clear_bit_file(w, spec_col(from), col);
        }
    }
    assert forall|c: int, x: int, y: int|
        0 <= c < 2 && #[trigger] pawn_at(a.board, c as u8, x) && #[trigger] pawn_at(
            a.board,
            c as u8,
            y,
        ) && spec_col(x) == spec_col(y) implies x == y by {
        if x == to && y != to {
            assert(pawn_at(s.board, c as u8, from));
            assert(pawn_at(s.board, c as u8, y));
        } else if y == to && x != to {
            assert(pawn_at(s.board, c as u8, from));
            assert(pawn_at(s.board, c as u8, x));
        } else if x != to && y != to {
            assert(pawn_at(s.board, c as u8, x));
            assert(pawn_at(s.board, c as u8, y));
        }
    }
}

/// A drop of a piece other than a pawn keeps pawns and kings tracked exactly.
proof fn lemma_piece_drop_playable(s: Snap, m: Move)
    requires
        exact_tracking(s),
        pseudo_ok(s, m),
        m.spec_is_drop(),
        m.spec_moved() != FU,
    ensures
        exact_tracking(spec_apply(s, m)),
{
    let a = spec_apply(s, m);
    let us = s.side;
    let pt = m.spec_moved();
    let to = m.spec_to() as int;
    lemma_apply_snap_ok(s, m);
    lemma_opposite(us);
    assert forall|c: int|
        0 <= c < 2 implies {
        &&& (#[trigger] a.king_sq[c] == SQ_NONE ==> forall|t: int|
            0 <= t < 81 ==> #[trigger] a.board[t] != spec_make_piece(c as u8, OU))
        &&& (a.king_sq[c] != SQ_NONE ==> a.board[a.king_sq[c] as int] == spec_make_piece(
            c as u8,
            OU,
        ) && forall|t: int|
            0 <= t < 81 && #[trigger] a.board[t] == spec_make_piece(c as u8, OU) ==> t
                == a.king_sq[c])
    } by {
        lemma_piece_eq(us, pt, c as u8, OU);
        lemma_piece_roundtrip(c as u8, OU);
        if s.king_sq[c] != SQ_NONE {
            assert(s.board[s.king_sq[c] as int] == spec_make_piece(c as u8, OU));
        } else {
            assert forall|t: int| 0 <= t < 81 implies #[trigger] a.board[t] != spec_make_piece(c as u8, OU) by {
                if t != to {
                    assert(s.board[t] == a.board[t]);
                }
            }
        }
        assert forall|t: int|
            0 <= t < 81 && #[trigger] a.board[t] == spec_make_piece(c as u8, OU) implies t
            == a.king_sq[c] by {
            if t != to {
                assert(s.board[t] == a.board[t]);
            }
        }
    }
    assert forall|c: int, sq: int| 0 <= c < 2 implies #[trigger] pawn_at(a.board, c as u8, sq)
        == pawn_at(s.board, c as u8, sq) by {
        lemma_piece_eq(us, pt, c as u8, FU);
        lemma_piece_roundtrip(c as u8, FU);
    }
    assert forall|c: int, col: int|
        0 <= c < 2 && 0 <= col < 9 implies (#[trigger] file_bit(a.pawn_files[c], col) <==> exists|
        sq: int,
    | #[trigger] pawn_at(a.board, c as u8, sq) && spec_col(sq) == col) by {
        if file_bit(a.pawn_files[c], col) {
            let sq = choose|sq: int| #[trigger] pawn_at(s.board, c as u8, sq) && spec_col(sq) == col;
            assert(pawn_at(a.board, c as u8, sq));
        }
        if exists|sq: int| #[trigger] pawn_at(a.board, c as u8, sq) && spec_col(sq) == col {
            let sq = choose|sq: int| #[trigger] pawn_at(a.board, c as u8, sq) && spec_col(sq) == col;
            assert(pawn_at(s.board, c as u8, sq));
        }
    }
    assert forall|c: int, x: int, y: int|
        0 <= c < 2 && #[trigger] pawn_at(a.board, c as u8, x) && #[trigger] pawn_at(
            a.board,
            c as u8,
            y,
        ) && spec_col(x) == spec_col(y) implies x == y by {
        assert(pawn_at(s.board, c as u8, x));
        assert(pawn_at(s.board, c as u8, y));
    }
}

/// A legal move of a game position leads to a game position: the invariant that
/// every move keeps.
pub proof fn lemma_legal_keeps_game_ok(s: Snap, m: Move)
    requires
        game_ok(s),
        pseudo_ok(s, m),
        legal_move(s, m),
    ensures
        game_ok(spec_apply(s, m)),
{
    let a = spec_apply(s, m);
    let us = s.side;
    lemma_opposite(us);
    lemma_apply_snap_ok(s, m);
    if m.spec_is_drop() {
        if m.spec_moved() == FU {
            lemma_fu_drop_playable(s, m);
        } else {
            lemma_piece_drop_playable(s, m);
        }
    } else {
        lemma_board_move_kings(s, m);
        lemma_board_move_pawns(s, m);
    }
    assert(king_safe(a, us));
}

/// The board moves of `ms` that start on `from`, in order.
pub open spec fn moves_from_square(ms: Seq<Move>, from: u8) -> Seq<Move>
    decreases ms.len(),
{
    if ms.len() == 0 {
        Seq::empty()
    } else {
        let m = ms.last();
        moves_from_square(ms.drop_last(), from) + if !m.spec_is_drop() && m.spec_from() == from {
            seq![m]
        } else {
            Seq::empty()
        }
    }
}

/// The drops of kind `pt` in `ms`, in order.
pub open spec fn drops_of_kind(ms: Seq<Move>, pt: u8) -> Seq<Move>
    decreases ms.len(),
{
    if ms.len() == 0 {
        Seq::empty()
    } else {
        let m = ms.last();
        drops_of_kind(ms.drop_last(), pt) + if m.spec_is_drop() && m.spec_moved() == pt {
            seq![m]
        } else {
            Seq::empty()
        }
    }
}

/// The legal moves of the piece on `from`, in generation order.
pub fn legal_moves_from(pos: &mut Position, from: Square, out: &mut Vec<Move>)
    requires
        old(pos).wf(),
        playable(old(pos).snap()),
        old(pos).stack().len() + fu_total(old(pos).snap()) < MAX_STACK,
    ensures
        final(out)@ == moves_from_square(legal_moves(old(pos).snap()), from),
        final(pos).wf(),
        final(pos).snap() == old(pos).snap(),
        final(pos).stack() == old(pos).stack(),
        final(pos).snaps() == old(pos).snaps(),
{
    let mut all: Vec<Move> = Vec::new();
    generate_legal(pos, &mut all);
    out.clear();
    let mut i: usize = 0;
    while i < all.len()
        invariant
            i <= all.len(),
            out@ == moves_from_square(all@.take(i as int), from),
        decreases all.len() - i,
    {
        let m = all[i];
        if !m.is_drop() && m.from() == from {
            out.push(m);
        }
        proof {
            assert(all@.take(i + 1).drop_last() =~= all@.take(i as int));
            assert(out@ =~= moves_from_square(all@.take(i + 1), from));
        }
        i = i + 1;
    }
    proof {
        assert(all@.take(all.len() as int) =~= all@);
    }
}

/// The legal drops of kind `pt`, in generation order.
pub fn legal_drops_of(pos: &mut Position, pt: PieceType, out: &mut Vec<Move>)
    requires
        old(pos).wf(),
        playable(old(pos).snap()),
        old(pos).stack().len() + fu_total(old(pos).snap()) < MAX_STACK,
    ensures
        final(out)@ == drops_of_kind(legal_moves(old(pos).snap()), pt),
        Hand(old(pos).snap().hands[old(pos).snap().side as int]).spec_count(pt) == 0
            ==> final(out)@.len() == 0,
        final(pos).wf(),
        final(pos).snap() == old(pos).snap(),
        final(pos).stack() == old(pos).stack(),
        final(pos).snaps() == old(pos).snaps(),
{
    let ghost s = pos.snap();
    let mut all: Vec<Move> = Vec::new();
    generate_legal(pos, &mut all);
    out.clear();
    let mut i: usize = 0;
    while i < all.len()
        invariant
            i <= all.len(),
            out@ == drops_of_kind(all@.take(i as int), pt),
            forall|k: int| 0 <= k < all@.len() ==> pseudo_ok(s, #[trigger] all@[k]),
            Hand(s.hands[s.side as int]).spec_count(pt) == 0 ==> out@.len() == 0,
        decreases all.len() - i,
    {
        let m = all[i];
        proof {
            assert(pseudo_ok(s, all@[i as int]));
        }
        if m.is_drop() && m.moved_piece_type() == pt {
            out.push(m);
        }
        proof {
            assert(all@.take(i + 1).drop_last() =~= all@.take(i as int));
            assert(out@ =~= drops_of_kind(all@.take(i + 1), pt));
        }
        i = i + 1;
    }
    proof {
        assert(all@.take(all.len() as int) =~= all@);
    }
}

/// Whether `mv` is one of the legal moves.
pub fn is_legal(pos: &mut Position, mv: Move) -> (r: bool)
    requires
        old(pos).wf(),
        playable(old(pos).snap()),
        old(pos).stack().len() + fu_total(old(pos).snap()) < MAX_STACK,
    ensures
        r == legal_moves(old(pos).snap()).contains(mv),
        final(pos).wf(),
        final(pos).snap() == old(pos).snap(),
        final(pos).stack() == old(pos).stack(),
        final(pos).snaps() == old(pos).snaps(),
{
    let ghost s = pos.snap();
    let mut all: Vec<Move> = Vec::new();
    generate_legal(pos, &mut all);
    let mut i: usize = 0;
    while i < all.len()
        invariant
            i <= all.len(),
            all@ == legal_moves(s),
            s == old(pos).snap(),
            pos.wf(),
            pos.snap() == old(pos).snap(),
            pos.stack() == old(pos).stack(),
            pos.snaps() == old(pos).snaps(),
            forall|k: int| 0 <= k < i ==> all@[k] != mv,
        decreases all.len() - i,
    {
        if all[i].0 == mv.0 {
            proof {
                assert(all@[i as int] == mv);
            }
            return true;
        }
        i = i + 1;
    }
    false
}

/// Each hand holds at most 31 pawns.
pub proof fn lemma_fu_total_bound(s: Snap)
    ensures
        fu_total(s) <= 62,
{
    let a = s.hands[0];
    let b = s.hands[1];
    lemma_word_facts(a, 0, 0, 31);
    lemma_word_facts(b, 0, 0, 31);
    assert(spec_field_mask(FU) == 31);
}

} // verus!
