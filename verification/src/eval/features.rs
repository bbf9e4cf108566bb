//! NNUE feature indexing: two blocks.
//!
//!   A. Absolute piece-square: 81 squares x 14 piece kinds x 2 (own/opponent) = 2268
//!   B. Hand, unary (thermometer): 2 x (18+4+4+4+4+2+2) = 76
//!
//! N = 2344. A perspective's feature set is determined by board and hands alone, so an
//! incremental update never needs a full refresh. Inference and training both go
//! through `active_features`.
use crate::hand::Hand;
use crate::position::{hand_types, Position, Snap};
use crate::types::{
    is_none, piece_color, piece_type, spec_piece_color, spec_piece_type, Color, PieceType, Square,
    BLACK, FU, GIN, HI, KAKU, KEI, KIN, KYO, WHITE,
};
use vstd::prelude::*;

verus! {

pub const ABS_BASE: usize = 0;

pub const ABS_SIZE: usize = 81 * 14 * 2;

pub const HAND_BASE: usize = ABS_BASE + ABS_SIZE;

pub const HAND_SIZE: usize = 76;

pub const N_FEATURES: usize = HAND_BASE + HAND_SIZE;

/// Width of one side's half of the hand block.
pub const HAND_HALF_WIDTH: usize = 38;

/// Offset of a hand kind within one side's half of the hand block, and the most
/// pieces of that kind (0 and 0 for kinds that are never held).
pub open spec fn spec_hand_layout(pt: u8) -> (int, int) {
    if pt == FU {
        (0, 18)
    } else if pt == KYO {
        (18, 4)
    } else if pt == KEI {
        (22, 4)
    } else if pt == GIN {
        (26, 4)
    } else if pt == KIN {
        (30, 4)
    } else if pt == KAKU {
        (34, 2)
    } else if pt == HI {
        (36, 2)
    } else {
        (0, 0)
    }
}

pub fn hand_layout(pt: PieceType) -> (r: (usize, i32))
    ensures
        r.0 == spec_hand_layout(pt).0,
        r.1 == spec_hand_layout(pt).1,
        r.0 <= 36,
{
    match pt {
        FU => (0, 18),
        KYO => (18, 4),
        KEI => (22, 4),
        GIN => (26, 4),
        KIN => (30, 4),
        KAKU => (34, 2),
        HI => (36, 2),
        _ => (0, 0),
    }
}

/// The square as seen from `perspective`: unchanged for black, turned half way round
/// for white.
pub open spec fn spec_psq(sq: int, perspective: u8) -> int {
    if perspective == BLACK {
        sq
    } else {
        80 - sq
    }
}

pub fn psq(sq: Square, perspective: Color) -> (r: Square)
    requires
        sq < 81,
    ensures
        r == spec_psq(sq as int, perspective),
        r < 81,
{
    if perspective == BLACK {
        sq
    } else {
        80 - sq
    }
}

/// Index of the piece-square feature of a piece of kind `pt` owned by `owner` on `sq`.
pub open spec fn spec_abs_index(owner: u8, pt: u8, sq: int, perspective: u8) -> int {
    let powner = if owner == perspective {
        0int
    } else {
        1int
    };
    ABS_BASE + (powner * 14 + (pt - 1)) * 81 + spec_psq(sq, perspective)
}

pub fn abs_index(owner: Color, pt: PieceType, sq: Square, perspective: Color) -> (r: usize)
    requires
        1 <= pt <= 15,
        sq < 81,
    ensures
        r == spec_abs_index(owner, pt, sq as int, perspective),
        r < 2349,
{
    let powner: usize = if owner == perspective {
        0
    } else {
        1
    };
    ABS_BASE + (powner * 14 + (pt as usize - 1)) * 81 + psq(sq, perspective) as usize
}

/// Index of the `k`-th (1-based) hand feature of kind `pt` held by `owner`: having
/// `n` such pieces activates the features for `k = 1..=n` together.
pub open spec fn spec_hand_index(owner: u8, pt: u8, k: int, perspective: u8) -> int {
    let powner = if owner == perspective {
        0int
    } else {
        1int
    };
    HAND_BASE + powner * HAND_HALF_WIDTH + spec_hand_layout(pt).0 + (k - 1)
}

pub fn hand_index(owner: Color, pt: PieceType, k: i32, perspective: Color) -> (r: usize)
    requires
        1 <= k,
    ensures
        r == spec_hand_index(owner, pt, k as int, perspective),
{
    let powner: usize = if owner == perspective {
        0
    } else {
        1
    };
    let (base, _max) = hand_layout(pt);
    HAND_BASE + powner * HAND_HALF_WIDTH + base + (k as usize - 1)
}

/// Piece-square features of the squares below `n`, ascending (a byte with no kind in
/// it gives none).
pub open spec fn board_features(board: Seq<u8>, perspective: u8, n: int) -> Seq<u16>
    decreases n,
{
    if n <= 0 {
        Seq::empty()
    } else {
        let p = board[n - 1];
        board_features(board, perspective, n - 1) + if p != 0 && spec_piece_type(p) >= 1 {
            seq![
                spec_abs_index(
                    spec_piece_color(p),
                    spec_piece_type(p),
                    n - 1,
                    perspective,
                ) as u16,
            ]
        } else {
            Seq::empty()
        }
    }
}

/// Hand features `1..=n` of kind `pt` held by `owner`.
pub open spec fn thermometer(owner: u8, pt: u8, n: int, perspective: u8) -> Seq<u16>
    decreases n,
{
    if n <= 0 {
        Seq::empty()
    } else {
        thermometer(owner, pt, n - 1, perspective).push(
            spec_hand_index(owner, pt, n, perspective) as u16,
        )
    }
}

/// Hand features of the first `k` droppable kinds held by `owner`.
pub open spec fn hand_features(s: Snap, owner: u8, k: int, perspective: u8) -> Seq<u16>
    decreases k,
{
    if k <= 0 {
        Seq::empty()
    } else {
        let pt = hand_types()[k - 1];
        hand_features(s, owner, k - 1, perspective) + thermometer(
            owner,
            pt,
            Hand(s.hands[owner as int]).spec_count(pt),
            perspective,
        )
    }
}

/// Every active feature of `perspective`: piece-square features by ascending square,
/// then black's hand features and white's, kinds in hand order.
pub open spec fn spec_active_features(s: Snap, perspective: u8) -> Seq<u16> {
    board_features(s.board, perspective, 81) + hand_features(s, BLACK, 7, perspective)
        + hand_features(s, WHITE, 7, perspective)
}

/// Pieces on the squares below `n`.
pub open spec fn board_count(board: Seq<u8>, n: int) -> nat
    decreases n,
{
    if n <= 0 {
        0
    } else {
        board_count(board, n - 1) + if board[n - 1] != 0 && spec_piece_type(board[n - 1]) >= 1 {
            1nat
        } else {
            0nat
        }
    }
}

/// Pieces of the first `k` droppable kinds in hand word `h`.
pub open spec fn hand_total(h: u32, k: int) -> nat
    decreases k,
{
    if k <= 0 {
        0
    } else {
        hand_total(h, k - 1) + Hand(h).spec_count(hand_types()[k - 1]) as nat
    }
}

/// All active feature indices for `perspective` at the current position.
pub fn active_features(pos: &Position, perspective: Color, out: &mut Vec<u16>)
    requires
        pos.wf(),
    ensures
        final(out)@ == spec_active_features(pos.snap(), perspective),
{
    let ghost s = pos.snap();
    proof {
        pos.lemma_wf_board();
    }
    out.clear();
    let mut sq: u8 = 0;
    while sq < 81
        invariant
            sq <= 81,
            s == pos.snap(),
            pos.wf(),
            out@ == board_features(s.board, perspective, sq as int),
        decreases 81 - sq,
    {
        let p = pos.piece_at(sq);
        if !is_none(p) && piece_type(p) >= 1 {
            let idx = abs_index(piece_color(p), piece_type(p), sq, perspective);
            out.push(idx as u16);
        }
        proof {
            assert(out@ =~= board_features(s.board, perspective, sq + 1));
        }
        sq = sq + 1;
    }
    let types = Hand::types();
    let mut c: u8 = 0;
    while c < 2
        invariant
            c <= 2,
            s == pos.snap(),
            types@ == hand_types(),
            out@ == board_features(s.board, perspective, 81) + (if c == 0 {
                Seq::<u16>::empty()
            } else if c == 1 {
                hand_features(s, BLACK, 7, perspective)
            } else {
                hand_features(s, BLACK, 7, perspective) + hand_features(s, WHITE, 7, perspective)
            }),
        decreases 2 - c,
    {
        let ghost before = out@;
        let mut j: usize = 0;
        while j < 7
            invariant
                c < 2,
                j <= 7,
                s == pos.snap(),
                types@ == hand_types(),
                out@ == before + hand_features(s, c, j as int, perspective),
            decreases 7 - j,
        {
            let pt = types[j];
            let n = pos.hand(c, pt);
            let ghost mid = out@;
            let mut k: i32 = 1;
            while k <= n
                invariant
                    1 <= k <= n + 1,
                    n <= 31,
                    out@ == mid + thermometer(c, pt, k - 1, perspective),
                decreases n + 1 - k,
            {
                out.push(hand_index(c, pt, k, perspective) as u16);
                proof {
                    assert(out@ =~= mid + thermometer(c, pt, k as int, perspective));
                }
                k = k + 1;
            }
            proof {
                assert(out@ =~= before + hand_features(s, c, j + 1, perspective));
            }
            j = j + 1;
        }
        proof {
            assert(out@ =~= board_features(s.board, perspective, 81) + (if c + 1 == 1 {
                hand_features(s, BLACK, 7, perspective)
            } else {
                hand_features(s, BLACK, 7, perspective) + hand_features(s, WHITE, 7, perspective)
            }));
        }
        c = c + 1;
    }
    proof {
        assert(out@ =~= spec_active_features(s, perspective));
    }
}

/// There are as many active features as pieces on the board plus pieces in hand.
pub proof fn lemma_active_feature_count(s: Snap, perspective: u8)
    ensures
        spec_active_features(s, perspective).len() == board_count(s.board, 81) + hand_total(
            s.hands[0],
            7,
        ) + hand_total(s.hands[1], 7),
{
    lemma_board_features_len(s.board, perspective, 81);
    lemma_hand_features_len(s, BLACK, 7, perspective);
    lemma_hand_features_len(s, WHITE, 7, perspective);
}

proof fn lemma_board_features_len(board: Seq<u8>, perspective: u8, n: int)
    ensures
        board_features(board, perspective, n).len() == board_count(board, n),
    decreases n,
{
    if n > 0 {
        lemma_board_features_len(board, perspective, n - 1);
    }
}

proof fn lemma_thermometer_len(owner: u8, pt: u8, n: int, perspective: u8)
    ensures
        thermometer(owner, pt, n, perspective).len() == if n > 0 {
            n
        } else {
            0
        },
    decreases n,
{
    if n > 0 {
        lemma_thermometer_len(owner, pt, n - 1, perspective);
    }
}

proof fn lemma_hand_features_len(s: Snap, owner: u8, k: int, perspective: u8)
    ensures
        hand_features(s, owner, k, perspective).len() == hand_total(s.hands[owner as int], k),
    decreases k,
{
    if k > 0 {
        lemma_hand_features_len(s, owner, k - 1, perspective);
        let pt = hand_types()[k - 1];
        let n = Hand(s.hands[owner as int]).spec_count(pt);
        lemma_thermometer_len(owner, pt, n, perspective);
    }
}

} // verus!
