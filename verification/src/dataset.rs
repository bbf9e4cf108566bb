//! Training-data record format: a plain 100-byte record (board cells, hand counts,
//! side to move, score and result).
use crate::hand::{
    clean, is_hand_type, lemma_add_count, lemma_clean_add, lemma_clean_eq, lemma_field_capacity,
    lemma_field_room, lemma_word_facts, spec_field_mask, spec_max_count, spec_shift,
    spec_unit, spec_width, Hand,
};
use crate::position::{hand_types, parts_snap, valid_cell, Position, Snap};
use crate::types::{
    lemma_byte_facts, lemma_piece_roundtrip, lemma_piece_split, make_piece, piece_color,
    piece_type, spec_make_piece, spec_piece_color, spec_piece_type, valid_piece, Color, Piece,
    BLACK, NO_PIECE, WHITE,
};
use vstd::prelude::*;

verus! {

pub const RECORD_SIZE: usize = 100;

#[derive(Clone, Copy)]
pub struct Record {
    pub board: [u8; 81],
    pub hands: [u8; 14],
    pub side: u8,
    /// Centipawns, from `side`'s point of view.
    pub score: i16,
    /// +1/0/-1 from `side`'s point of view.
    pub result: i8,
}

/// The byte a board cell is stored as: 0 for an empty square, else the piece's kind,
/// with bit 7 set for a white (gote) piece.
pub open spec fn spec_cell_byte(p: u8) -> u8 {
    if p == 0 {
        0
    } else if spec_piece_color(p) == WHITE {
        spec_piece_type(p) | 0x80u8
    } else {
        spec_piece_type(p)
    }
}

/// The piece a stored cell byte denotes: bit 7 picks white, the low bits the kind;
/// a byte of no real kind denotes an empty square.
pub open spec fn spec_piece_from_cell(c: u8) -> u8 {
    let pt = c & 0x7Fu8;
    if 1 <= pt <= 14 {
        spec_make_piece(
            if c & 0x80u8 != 0 {
                WHITE
            } else {
                BLACK
            },
            pt,
        )
    } else {
        0
    }
}

pub fn cell_byte(p: Piece) -> (r: u8)
    ensures
        r == spec_cell_byte(p),
{
    if p == NO_PIECE {
        0
    } else if piece_color(p) == WHITE {
        piece_type(p) | 0x80
    } else {
        piece_type(p)
    }
}

pub fn piece_from_cell(c: u8) -> (r: Piece)
    ensures
        r == spec_piece_from_cell(c),
        valid_cell(r),
{
    let pt = c & 0x7F;
    if 1 <= pt && pt <= 14 {
        let color = if c & 0x80 != 0 {
            WHITE
        } else {
            BLACK
        };
        proof {
            lemma_piece_roundtrip(color, pt);
        }
        make_piece(color, pt)
    } else {
        proof {
            lemma_byte_facts(0, 0);
        }
        NO_PIECE
    }
}

/// Every cell byte reads back as a board byte.
pub proof fn lemma_piece_from_cell_valid(c: u8)
    ensures
        valid_cell(spec_piece_from_cell(c)),
{
    lemma_byte_facts(0, 0);
    let pt = c & 0x7Fu8;
    if 1 <= pt <= 14 {
        lemma_piece_roundtrip(WHITE, pt);
        lemma_piece_roundtrip(BLACK, pt);
    }
}

/// An empty square or a real piece survives being stored as a cell byte and read back.
pub proof fn lemma_cell_roundtrip(p: u8)
    requires
        valid_piece(p),
    ensures
        spec_piece_from_cell(spec_cell_byte(p)) == p,
{
    lemma_byte_facts(p, 0);
    let pt = spec_piece_type(p);
    lemma_byte_facts(pt, 0);
    if p != 0 {
        lemma_piece_split(p);
    }
}

/// `unit` added `n` times to `h`, wrapping.
pub open spec fn add_n(h: u32, unit: u32, n: nat) -> u32
    decreases n,
{
    if n == 0 {
        h
    } else {
        vstd::wrapping::u32_specs::wrapping_add(add_n(h, unit, (n - 1) as nat), unit)
    }
}

/// Hand word of color `c` built from the record's counts of the first `k` kinds.
pub open spec fn record_hand(r: Record, c: int, k: int) -> u32
    decreases k,
{
    if k <= 0 {
        0
    } else {
        let pt = hand_types()[k - 1];
        add_n(record_hand(r, c, k - 1), spec_unit(pt), r.hands[c * 7 + k - 1] as nat)
    }
}

/// Little-endian bytes of the record.
pub open spec fn record_bytes(r: Record) -> Seq<u8> {
    r.board@ + r.hands@ + seq![
        r.side,
        ((r.score as u16) & 0xff) as u8,
        ((r.score as u16) >> 8u16) as u8,
        r.result as u8,
        0u8,
    ]
}

/// `r` records position `s` with `score` and `result`: each cell's byte, each hand's
/// counts in the order of `hand_types`, black's hand first, and the side to move.
pub open spec fn describes(r: Record, s: Snap, score: i16, result: i8) -> bool {
    &&& forall|sq: int| 0 <= sq < 81 ==> #[trigger] r.board[sq] == spec_cell_byte(s.board[sq])
    &&& forall|c: int, j: int|
        0 <= c < 2 && 0 <= j < 7 ==> #[trigger] r.hands[c * 7 + j] == Hand(s.hands[c]).spec_count(
            hand_types()[j],
        )
    &&& r.side == s.side
    &&& r.score == score
    &&& r.result == result
}

impl Record {
    pub fn from_position(pos: &Position, score: i16, result: i8) -> (r: Record)
        requires
            pos.wf(),
        ensures
            describes(r, pos.snap(), score, result),
    {
        let mut board = [0u8;81];
        let mut sq: u8 = 0;
        while sq < 81
            invariant
                sq <= 81,
                forall|t: int| 0 <= t < sq ==> #[trigger] board[t] == spec_cell_byte(pos.snap().board[t]),
            decreases 81 - sq,
        {
            board[sq as usize] = cell_byte(pos.piece_at(sq));
            sq = sq + 1;
        }
        let types = Hand::types();
        let mut hands = [0u8;14];
        let mut c: usize = 0;
        while c < 2
            invariant
                c <= 2,
                types@ == hand_types(),
                forall|cc: int, j: int|
                    0 <= cc < c && 0 <= j < 7 ==> #[trigger] hands[cc * 7 + j] == Hand(pos.snap().hands[cc]).spec_count(
                        hand_types()[j],
                    ),
            decreases 2 - c,
        {
            let mut j: usize = 0;
            while j < 7
                invariant
                    c < 2,
                    j <= 7,
                    types@ == hand_types(),
                    forall|cc: int, jj: int|
                        0 <= cc < c && 0 <= jj < 7 ==> #[trigger] hands[cc * 7 + jj] == Hand(pos.snap().hands[cc]).spec_count(
                            hand_types()[jj],
                        ),
                    forall|jj: int|
                        0 <= jj < j ==> #[trigger] hands[c * 7 + jj] == Hand(pos.snap().hands[c as int]).spec_count(
                            hand_types()[jj],
                        ),
                decreases 7 - j,
            {
                let n = pos.hand(c as u8, types[j]);
                hands[c * 7 + j] = n as u8;
                j = j + 1;
            }
            c = c + 1;
        }
        Record { board, hands, side: pos.side_to_move(), score, result }
    }

    /// The position the record describes, at move 1.
    pub fn to_position(&self) -> (p: Position)
        requires
            self.side <= 1,
        ensures
            p.wf(),
            p.snap() == parts_snap(
                Seq::new(81, |sq: int| spec_piece_from_cell(self.board[sq])),
                seq![record_hand(*self, 0, 7), record_hand(*self, 1, 7)],
                self.side,
                1,
            ),
    {
        let mut board = [NO_PIECE;81];
        let mut sq: usize = 0;
        while sq < 81
            invariant
                sq <= 81,
                forall|t: int| 0 <= t < sq ==> #[trigger] board[t] == spec_piece_from_cell(self.board[t]),
            decreases 81 - sq,
        {
            board[sq] = piece_from_cell(self.board[sq]);
            sq = sq + 1;
        }
        let types = Hand::types();
        let mut hands = [Hand::empty(), Hand::empty()];
        let mut c: usize = 0;
        while c < 2
            invariant
                c <= 2,
                types@ == hand_types(),
                forall|cc: int| 0 <= cc < c ==> #[trigger] hands[cc].0 == record_hand(*self, cc, 7),
                forall|cc: int| c <= cc < 2 ==> #[trigger] hands[cc].0 == 0,
            decreases 2 - c,
        {
            let mut j: usize = 0;
            while j < 7
                invariant
                    c < 2,
                    j <= 7,
                    types@ == hand_types(),
                    forall|cc: int| 0 <= cc < c ==> #[trigger] hands[cc].0 == record_hand(*self, cc, 7),
                    forall|cc: int| c < cc < 2 ==> #[trigger] hands[cc].0 == 0,
                    hands[c as int].0 == record_hand(*self, c as int, j as int),
                decreases 7 - j,
            {
                let pt = types[j];
                proof {
                    assert(pt < 15);
                }
                let n = self.hands[c * 7 + j];
                let ghost h0 = hands[c as int].0;
                let mut k: u8 = 0;
                while k < n
                    invariant
                        c < 2,
                        k <= n,
                        pt == hand_types()[j as int],
                        pt < 15,
                        hands[c as int].0 == add_n(h0, spec_unit(pt), k as nat),
                        forall|cc: int| 0 <= cc < c ==> #[trigger] hands[cc].0 == record_hand(*self, cc, 7),
                        forall|cc: int| c < cc < 2 ==> #[trigger] hands[cc].0 == 0,
                    decreases n - k,
                {
                    let mut h = hands[c];
                    h.add(pt);
                    hands[c] = h;
                    k = k + 1;
                }
                j = j + 1;
            }
            c = c + 1;
        }
        proof {
            assert(board@ =~= Seq::new(81, |t: int| spec_piece_from_cell(self.board[t])));
            lemma_byte_facts(0, 0);
            assert forall|t: int| 0 <= t < 81 implies valid_cell(#[trigger] board@[t]) by {
                assert(board@[t] == spec_piece_from_cell(self.board[t]));
                lemma_piece_from_cell_valid(self.board[t]);
            }
        }
        Position::from_parts(board, hands, self.side, 1)
    }

    pub fn to_bytes(&self) -> (r: [u8; 100])
        ensures
            r@ == record_bytes(*self),
    {
        let mut out = [0u8;100];
        let mut i: usize = 0;
        while i < 81
            invariant
                i <= 81,
                forall|t: int| 0 <= t < i ==> #[trigger] out[t] == self.board[t],
                forall|t: int| i <= t < 100 ==> #[trigger] out[t] == 0,
            decreases 81 - i,
        {
            out[i] = self.board[i];
            i = i + 1;
        }
        let mut j: usize = 0;
        while j < 14
            invariant
                j <= 14,
                forall|t: int| 0 <= t < 81 ==> #[trigger] out[t] == self.board[t],
                forall|t: int| 0 <= t < j ==> #[trigger] out[81 + t] == self.hands[t],
                forall|t: int| 81 + j <= t < 100 ==> #[trigger] out[t] == 0,
            decreases 14 - j,
        {
            out[81 + j] = self.hands[j];
            j = j + 1;
        }
        out[95] = self.side;
        let u = self.score as u16;
        out[96] = (u & 0xff) as u8;
        out[97] = (u >> 8u16) as u8;
        out[98] = self.result as u8;
        proof {
            let rb = record_bytes(*self);
            assert(rb.len() == 100);
            assert forall|t: int| 0 <= t < 100 implies #[trigger] out@[t] == rb[t] by {
                if t < 81 {
                    assert(out[t] == self.board[t]);
                } else if t < 95 {
                    let u = t - 81;
                    assert(out[81 + u] == self.hands[u]);
                }
            }
            assert(out@ =~= rb);
        }
        out
    }

    pub fn from_bytes(b: &[u8]) -> (r: Record)
        requires
            b@.len() >= 99,
        ensures
            record_bytes(r).subrange(0, 99) == b@.subrange(0, 99),
    {
        let mut board = [0u8;81];
        let mut i: usize = 0;
        while i < 81
            invariant
                i <= 81,
                b@.len() >= 99,
                forall|t: int| 0 <= t < i ==> #[trigger] board[t] == b@[t],
            decreases 81 - i,
        {
            board[i] = b[i];
            i = i + 1;
        }
        let mut hands = [0u8;14];
        let mut j: usize = 0;
        while j < 14
            invariant
                j <= 14,
                b@.len() >= 99,
                forall|t: int| 0 <= t < j ==> #[trigger] hands[t] == b@[81 + t],
            decreases 14 - j,
        {
            hands[j] = b[81 + j];
            j = j + 1;
        }
        let side = b[95];
        let (lo, hi) = (b[96], b[97]);
        let score = ((lo as u16) | ((hi as u16) << 8u16)) as i16;
        let result = b[98] as i8;
        proof {
            lemma_score_bytes(lo, hi, score, score, b@[98], result, result);
        }
        let r = Record { board, hands, side, score, result };
        proof {
            assert(record_bytes(r).subrange(0, 99) =~= b@.subrange(0, 99));
        }
        r
    }
}

/// Reading back the bytes a record writes gives the same record.
pub proof fn lemma_record_roundtrip(a: Record, b: Record)
    requires
        record_bytes(b).subrange(0, 99) == record_bytes(a).subrange(0, 99),
    ensures
        b.board@ == a.board@,
        b.hands@ == a.hands@,
        b.side == a.side,
        b.score == a.score,
        b.result == a.result,
{
    let (x, y) = (record_bytes(a), record_bytes(b));
    assert forall|t: int| 0 <= t < 81 implies b.board@[t] == a.board@[t] by {
        assert(x.subrange(0, 99)[t] == x[t]);
        assert(y.subrange(0, 99)[t] == y[t]);
    }
    assert forall|t: int| 0 <= t < 14 implies b.hands@[t] == a.hands@[t] by {
        assert(x.subrange(0, 99)[81 + t] == x[81 + t]);
        assert(y.subrange(0, 99)[81 + t] == y[81 + t]);
    }
    assert(b.board@ =~= a.board@);
    assert(b.hands@ =~= a.hands@);
    assert(x.subrange(0, 99)[95] == x[95] && y.subrange(0, 99)[95] == y[95]);
    assert(x.subrange(0, 99)[96] == x[96] && y.subrange(0, 99)[96] == y[96]);
    assert(x.subrange(0, 99)[97] == x[97] && y.subrange(0, 99)[97] == y[97]);
    assert(x.subrange(0, 99)[98] == x[98] && y.subrange(0, 99)[98] == y[98]);
    lemma_score_bytes(0, 0, a.score, b.score, 0, a.result, b.result);
}

/// The score's two little-endian bytes and the result's byte determine them, and
/// reading them back from those bytes gives the same values.
proof fn lemma_score_bytes(lo: u8, hi: u8, s1: i16, s2: i16, last: u8, r1: i8, r2: i8)
    by (bit_vector)
    ensures
        s1 == (((lo as u16) | ((hi as u16) << 8u16)) as u16) as i16 ==> ((s1 as u16) & 0xff) as u8 == lo
            && ((s1 as u16) >> 8u16) as u8 == hi,
        ((last as i8) as u8) == last,
        ((s1 as u16) & 0xff) as u8 == ((s2 as u16) & 0xff) as u8 && ((s1 as u16) >> 8u16) as u8 == ((s2
            as u16) >> 8u16) as u8 ==> s1 == s2,
        (r1 as u8) == (r2 as u8) ==> r1 == r2,
{
}

/// Adding `n` pieces of a droppable kind to a word whose field has room for them raises
/// that kind's count by `n` and leaves the other counts.
proof fn lemma_add_n_count(h: u32, pt: u8, n: nat, other: u8)
    requires
        is_hand_type(pt),
        Hand(h).spec_count(pt) + n <= spec_field_mask(pt),
    ensures
        Hand(add_n(h, spec_unit(pt), n)).spec_count(other) == Hand(h).spec_count(other) + (if other
            == pt {
            n as int
        } else {
            0
        }),
    decreases n,
{
    if n > 0 {
        lemma_add_n_count(h, pt, (n - 1) as nat, pt);
        lemma_add_n_count(h, pt, (n - 1) as nat, other);
        let w = Hand(add_n(h, spec_unit(pt), (n - 1) as nat));
        lemma_field_room(w, pt);
        lemma_add_count(w, pt, other);
    }
}

/// Adding pieces of one kind to a clean word, while its field has room, keeps it clean.
proof fn lemma_add_n_clean(h: u32, pt: u8, n: nat)
    requires
        is_hand_type(pt),
        clean(h),
        Hand(h).spec_count(pt) + n <= spec_field_mask(pt),
    ensures
        clean(add_n(h, spec_unit(pt), n)),
    decreases n,
{
    if n > 0 {
        let m = (n - 1) as nat;
        lemma_add_n_clean(h, pt, m);
        lemma_add_n_count(h, pt, m, pt);
        let w = add_n(h, spec_unit(pt), m);
        lemma_clean_add(w, pt);
    }
}

/// The hand word that `to_position` builds is clean.
proof fn lemma_record_hand_clean(r: Record, c: int, k: int)
    requires
        0 <= c < 2,
        0 <= k <= 7,
        forall|t: int| 0 <= t < 7 ==> r.hands[c * 7 + t] <= spec_max_count(#[trigger] hand_types()[t]),
    ensures
        clean(record_hand(r, c, k)),
    decreases k,
{
    if k == 0 {
        lemma_word_facts(0, 0, 0, 0);
        assert(0u32 & 0xF322_2220u32 == 0) by (bit_vector);
    } else {
        let q = hand_types()[k - 1];
        lemma_record_hand_clean(r, c, k - 1);
        lemma_record_hand(r, c, k - 1, k - 1);
        lemma_field_capacity(q);
        assert(r.hands[c * 7 + k - 1] <= spec_max_count(hand_types()[k - 1]));
        lemma_add_n_clean(record_hand(r, c, k - 1), q, r.hands[c * 7 + k - 1] as nat);
    }
}

/// The hand word that `to_position` builds holds the record's counts.
proof fn lemma_record_hand(r: Record, c: int, k: int, j: int)
    requires
        0 <= c < 2,
        0 <= k <= 7,
        0 <= j < 7,
        forall|t: int| 0 <= t < 7 ==> r.hands[c * 7 + t] <= spec_max_count(#[trigger] hand_types()[t]),
    ensures
        Hand(record_hand(r, c, k)).spec_count(hand_types()[j]) == if j < k {
            r.hands[c * 7 + j] as int
        } else {
            0
        },
    decreases k,
{
    let pt = hand_types()[j];
    if k == 0 {
        lemma_word_facts(0, spec_shift(pt), spec_width(pt), spec_field_mask(pt));
    } else {
        let q = hand_types()[k - 1];
        lemma_record_hand(r, c, k - 1, j);
        lemma_record_hand(r, c, k - 1, k - 1);
        lemma_field_capacity(q);
        assert(r.hands[c * 7 + k - 1] <= spec_max_count(hand_types()[k - 1]));
        lemma_add_n_count(record_hand(r, c, k - 1), q, r.hands[c * 7 + k - 1] as nat, pt);
    }
}

/// Reading back the record of a position gives that position's board, side to move and
/// hand counts, when every cell holds a real piece or nothing and no hand holds more of
/// a kind than the game has.
pub proof fn lemma_position_roundtrip(s: Snap, r: Record, score: i16, result: i8)
    requires
        s.board.len() == 81,
        s.hands.len() == 2,
        forall|sq: int| 0 <= sq < 81 ==> valid_piece(#[trigger] s.board[sq]),
        forall|c: int, t: int|
            0 <= c < 2 && 0 <= t < 7 ==> #[trigger] Hand(s.hands[c]).spec_count(hand_types()[t])
                <= spec_max_count(hand_types()[t]),
        describes(r, s, score, result),
    ensures
        ({
            let q = parts_snap(
                Seq::new(81, |sq: int| spec_piece_from_cell(r.board[sq])),
                seq![record_hand(r, 0, 7), record_hand(r, 1, 7)],
                r.side,
                1,
            );
            &&& q.board == s.board
            &&& q.side == s.side
            &&& forall|c: int, t: int|
                0 <= c < 2 && 0 <= t < 7 ==> #[trigger] Hand(q.hands[c]).spec_count(hand_types()[t])
                    == Hand(s.hands[c]).spec_count(hand_types()[t])
            &&& clean(s.hands[0]) && clean(s.hands[1]) ==> q.hands == s.hands
        }),
{
    let q = parts_snap(
        Seq::new(81, |sq: int| spec_piece_from_cell(r.board[sq])),
        seq![record_hand(r, 0, 7), record_hand(r, 1, 7)],
        r.side,
        1,
    );
    assert forall|sq: int| 0 <= sq < 81 implies q.board[sq] == s.board[sq] by {
        lemma_cell_roundtrip(s.board[sq]);
    }
    assert(q.board =~= s.board);
    assert forall|c: int, t: int|
        0 <= c < 2 && 0 <= t < 7 implies #[trigger] Hand(q.hands[c]).spec_count(hand_types()[t])
        == Hand(s.hands[c]).spec_count(hand_types()[t]) by {
        assert forall|u: int| 0 <= u < 7 implies r.hands[c * 7 + u] <= spec_max_count(
            #[trigger] hand_types()[u],
        ) by {
            assert(r.hands[c * 7 + u] == Hand(s.hands[c]).spec_count(hand_types()[u]));
        }
        lemma_record_hand(r, c, 7, t);
    }
    if clean(s.hands[0]) && clean(s.hands[1]) {
        assert forall|c: int| 0 <= c < 2 implies q.hands[c] == s.hands[c] by {
            assert forall|u: int| 0 <= u < 7 implies r.hands[c * 7 + u] <= spec_max_count(
                #[trigger] hand_types()[u],
            ) by {
                assert(r.hands[c * 7 + u] == Hand(s.hands[c]).spec_count(hand_types()[u]));
            }
            lemma_record_hand_clean(r, c, 7);
            assert(Hand(q.hands[c]).spec_count(hand_types()[0]) == Hand(s.hands[c]).spec_count(hand_types()[0]));
            assert(Hand(q.hands[c]).spec_count(hand_types()[1]) == Hand(s.hands[c]).spec_count(hand_types()[1]));
            assert(Hand(q.hands[c]).spec_count(hand_types()[2]) == Hand(s.hands[c]).spec_count(hand_types()[2]));
            assert(Hand(q.hands[c]).spec_count(hand_types()[3]) == Hand(s.hands[c]).spec_count(hand_types()[3]));
            assert(Hand(q.hands[c]).spec_count(hand_types()[4]) == Hand(s.hands[c]).spec_count(hand_types()[4]));
            assert(Hand(q.hands[c]).spec_count(hand_types()[5]) == Hand(s.hands[c]).spec_count(hand_types()[5]));
            assert(Hand(q.hands[c]).spec_count(hand_types()[6]) == Hand(s.hands[c]).spec_count(hand_types()[6]));
            lemma_clean_eq(q.hands[c], s.hands[c]);
        }
        assert(q.hands =~= s.hands);
    }
}

} // verus!
