//! NNUE evaluator: absolute piece-square and hand features only (no king-relative
//! block), so every move is a small fixed set of column updates and the accumulator
//! never needs a refresh inside the search.
use super::accumulator::{add_col, feature_row, refresh, scratch_row, sub_col, with_row, Frame};
use super::features::{abs_index, hand_index, spec_abs_index, spec_hand_index, N_FEATURES};
use super::network::{spec_forward, Network};
use super::{Evaluator, EVAL_LIMIT};
use crate::hand::Hand;
use crate::mov::Move;
use crate::position::{Position, Snap};
use crate::types::{
    lemma_opposite, opposite, promoted, spec_opposite, spec_promoted, spec_unpromoted, unpromoted,
    Color, PieceType, Square, BLACK, WHITE,
};
use vstd::prelude::*;

verus! {

/// The piece-square feature of a piece, or an index outside the table (no feature) for
/// a byte that is no kind or a square off the board.
pub open spec fn abs_feature(owner: u8, pt: u8, sq: int, p: u8) -> int {
    if 1 <= pt <= 15 && 0 <= sq < 81 {
        spec_abs_index(owner, pt, sq, p)
    } else {
        N_FEATURES as int
    }
}

/// The `k`-th hand feature, or no feature when `k` is not positive.
pub open spec fn hand_feature(owner: u8, pt: u8, k: int, p: u8) -> int {
    if k >= 1 {
        spec_hand_index(owner, pt, k, p)
    } else {
        N_FEATURES as int
    }
}

/// The accumulator row of perspective `p` after `mover` played `mv`, from the row
/// `acc` before it; `after` is the position after the move.
pub open spec fn pushed_row(net: Network, acc: Seq<i16>, after: Snap, mv: Move, mover: u8, p: u8) -> Seq<i16> {
    let them = spec_opposite(mover);
    let to = mv.spec_to() as int;
    if mv.spec_is_drop() {
        let pt = mv.spec_moved();
        let old_count = Hand(after.hands[mover as int]).spec_count(pt) + 1;
        with_row(
            with_row(acc, feature_row(net, hand_feature(mover, pt, old_count, p)), false),
            feature_row(net, abs_feature(mover, pt, to, p)),
            true,
        )
    } else {
        let moved = mv.spec_moved();
        let final_pt = if mv.spec_is_promotion() {
            spec_promoted(moved)
        } else {
            moved
        };
        let a1 = with_row(acc, feature_row(net, abs_feature(mover, moved, mv.spec_from() as int, p)), false);
        let a2 = with_row(a1, feature_row(net, abs_feature(mover, final_pt, to, p)), true);
        let cap = mv.spec_captured();
        if cap != 0 {
            let unpro = spec_unpromoted(cap);
            let a3 = with_row(a2, feature_row(net, abs_feature(them, cap, to, p)), false);
            with_row(
                a3,
                feature_row(net, hand_feature(mover, unpro, Hand(after.hands[mover as int]).spec_count(unpro), p)),
                true,
            )
        } else {
            a2
        }
    }
}

fn abs_feat(owner: Color, pt: PieceType, sq: Square, p: Color) -> (r: usize)
    ensures
        r == abs_feature(owner, pt, sq as int, p),
{
    if 1 <= pt && pt <= 15 && sq < 81 {
        abs_index(owner, pt, sq, p)
    } else {
        N_FEATURES
    }
}

fn hand_feat(owner: Color, pt: PieceType, k: i32, p: Color) -> (r: usize)
    ensures
        r == hand_feature(owner, pt, k as int, p),
{
    if k >= 1 {
        hand_index(owner, pt, k, p)
    } else {
        N_FEATURES
    }
}

pub struct Nnue {
    net: Network,
    stack: Vec<Frame>,
}

impl Nnue {
    /// The network this evaluator runs.
    pub closed spec fn spec_net(&self) -> Network {
        self.net
    }

    /// The accumulator records, oldest first.
    pub closed spec fn spec_stack(&self) -> Seq<Frame> {
        self.stack@
    }

    pub closed spec fn inv(&self) -> bool {
        self.net.wf()
    }

    pub fn new(net: Network) -> (r: Nnue)
        requires
            net.wf(),
        ensures
            r.inv(),
            r.spec_net() == net,
            r.spec_stack().len() == 0,
    {
        Nnue { net, stack: Vec::new() }
    }

    pub fn net(&self) -> (r: &Network)
        ensures
            *r == self.spec_net(),
    {
        &self.net
    }

    /// The accumulator record on top of the stack, if any.
    pub fn top(&self) -> (r: Option<Frame>)
        ensures
            r == if self.spec_stack().len() > 0 {
                Some(self.spec_stack().last())
            } else {
                None
            },
    {
        if self.stack.len() > 0 {
            Some(self.stack[self.stack.len() - 1])
        } else {
            None
        }
    }
}

impl Evaluator for Nnue {
    closed spec fn frames(&self) -> nat {
        self.stack@.len()
    }

    /// The network run on the top accumulator, the side to move's row first.
    open spec fn value(&self, s: Snap) -> int {
        spec_forward(
            self.spec_net(),
            if s.side == BLACK {
                self.spec_stack().last()
            } else {
                [self.spec_stack().last()[1], self.spec_stack().last()[0]]
            },
        )
    }

    /// Recomputes the accumulator of `pos` from scratch.
    fn refresh(&mut self, pos: &Position)
        ensures
            final(self).spec_stack().len() == 1,
            final(self).spec_net() == old(self).spec_net(),
            old(self).inv() ==> final(self).spec_stack()[0][0]@ == scratch_row(old(self).spec_net(), pos.snap(), BLACK),
            old(self).inv() ==> final(self).spec_stack()[0][1]@ == scratch_row(old(self).spec_net(), pos.snap(), WHITE),
    {
        self.stack.clear();
        if self.net.ft_weight.len() == N_FEATURES * 128 {
            let f = refresh(pos, &self.net);
            self.stack.push(f);
        } else {
            self.stack.push([[0i16;128];2]);
        }
    }

    /// Updates the top accumulator by the columns the move changes and pushes it.
    fn push(&mut self, pos: &Position, mv: Move, mover: Color)
        ensures
            final(self).spec_net() == old(self).spec_net(),
            final(self).spec_stack().drop_last() == old(self).spec_stack(),
            old(self).inv() && mover <= 1 ==> final(self).spec_stack().last()[0]@ == pushed_row(
                old(self).spec_net(),
                old(self).spec_stack().last()[0]@,
                pos.snap(),
                mv,
                mover,
                BLACK,
            ),
            old(self).inv() && mover <= 1 ==> final(self).spec_stack().last()[1]@ == pushed_row(
                old(self).spec_net(),
                old(self).spec_stack().last()[1]@,
                pos.snap(),
                mv,
                mover,
                WHITE,
            ),
    {
        let n = self.stack.len();
        let mut frame = self.stack[n - 1];
        if mover > 1 || self.net.ft_weight.len() != N_FEATURES * 128 {
            self.stack.push(frame);
            return;
        }
        proof {
            lemma_opposite(mover);
        }
        let them = opposite(mover);
        let ghost top = frame;
        let mut p: u8 = 0;
        while p < 2
            invariant
                p <= 2,
                mover <= 1,
                them == spec_opposite(mover),
                self.net.wf(),
                pos.wf(),
                forall|q: int| 0 <= q < p ==> #[trigger] frame[q]@ == pushed_row(self.net, top[q]@, pos.snap(), mv, mover, q as u8),
                forall|q: int| p <= q < 2 ==> #[trigger] frame[q] == top[q],
            decreases 2 - p,
        {
            let mut acc = frame[p as usize];
            if mv.is_drop() {
                let pt = mv.moved_piece_type();
                let old_count = pos.hand(mover, pt) + 1;
                sub_col(&mut acc, hand_feat(mover, pt, old_count, p), &self.net);
                add_col(&mut acc, abs_feat(mover, pt, mv.to(), p), &self.net);
            } else {
                let moved = mv.moved_piece_type();
                let final_pt = if mv.is_promotion() {
                    promoted(moved)
                } else {
                    moved
                };
                sub_col(&mut acc, abs_feat(mover, moved, mv.from(), p), &self.net);
                add_col(&mut acc, abs_feat(mover, final_pt, mv.to(), p), &self.net);
                let cap = mv.captured_piece_type();
                if cap != 0 {
                    sub_col(&mut acc, abs_feat(them, cap, mv.to(), p), &self.net);
                    let unpro = unpromoted(cap);
                    let new_count = pos.hand(mover, unpro);
                    add_col(&mut acc, hand_feat(mover, unpro, new_count, p), &self.net);
                }
            }
            frame[p as usize] = acc;
            p = p + 1;
        }
        self.stack.push(frame);
    }

    fn pop(&mut self) {
        self.stack.pop();
    }

    /// Runs the network on the top accumulator, the side to move's row first.
    fn eval(&mut self, pos: &Position) -> (r: i32)
        ensures
            r == spec_forward(
                old(self).spec_net(),
                if pos.snap().side == BLACK {
                    old(self).spec_stack().last()
                } else {
                    [old(self).spec_stack().last()[1], old(self).spec_stack().last()[0]]
                },
            ),
    {
        let n = self.stack.len();
        let frame = self.stack[n - 1];
        let stm = pos.side_to_move();
        let ordered = if stm == BLACK {
            frame
        } else {
            [frame[1], frame[0]]
        };
        self.net.forward(&ordered)
    }
}

} // verus!
