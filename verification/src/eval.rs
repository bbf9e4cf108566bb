//! Pluggable evaluation. `Evaluator` lets the search stay generic over a cheap
//! hand-crafted evaluator and an NNUE one; `push` and `pop` let a stateful evaluator
//! keep an incremental accumulator in step with `Position::do_move` and `undo_move`,
//! and a stateless one does nothing in them.
pub mod accumulator;
pub mod features;
pub mod handcrafted;
pub mod incremental;
pub mod network;
pub mod nnue;

use crate::mov::Move;
use crate::position::{Position, Snap};
use crate::types::{Color, BLACK};
use handcrafted::spec_evaluate;
use network::spec_forward;
pub use handcrafted::HandCrafted;
pub use nnue::Nnue;
use vstd::prelude::*;

verus! {

/// The largest magnitude an evaluation may have.
pub const EVAL_LIMIT: i32 = 268_435_456;

/// Evaluates a position from the side to move's point of view, in centipawns.
pub trait Evaluator {
    /// Records held: a refresh leaves one, each push adds one and each pop takes one.
    spec fn frames(&self) -> nat;

    /// Starts over from `pos`.
    fn refresh(&mut self, pos: &Position)
        requires
            pos.wf(),
        ensures
            final(self).frames() == 1,
    ;

    /// Called right after `pos.do_move(mv)`; `mover` is the side that made the move.
    fn push(&mut self, pos: &Position, mv: Move, mover: Color)
        requires
            pos.wf(),
            old(self).frames() >= 1,
        ensures
            final(self).frames() == old(self).frames() + 1,
    ;

    /// Called right after `pos.undo_move()`.
    fn pop(&mut self)
        ensures
            final(self).frames() == if old(self).frames() > 0 {
                (old(self).frames() - 1) as nat
            } else {
                0
            },
    ;

    /// The score `eval` gives for position `s` in this state of the evaluator, from the
    /// side to move's point of view.
    spec fn value(&self, s: Snap) -> int;

    fn eval(&mut self, pos: &Position) -> (r: i32)
        requires
            pos.wf(),
            old(self).frames() >= 1,
        ensures
            final(self).frames() == old(self).frames(),
            -EVAL_LIMIT <= r <= EVAL_LIMIT,
            r == old(self).value(pos.snap()),
    ;
}

/// A choice of evaluator made at run time, for callers that need one concrete type.
pub enum AnyEval {
    Hc(HandCrafted),
    Nn(Box<Nnue>),
}

impl AnyEval {
    pub fn hand_crafted() -> (r: AnyEval)
        ensures
            r is Hc,
    {
        AnyEval::Hc(HandCrafted::new())
    }

    pub fn nnue(net: network::Network) -> (r: AnyEval)
        requires
            net.wf(),
        ensures
            r matches AnyEval::Nn(e) && e.inv() && e.spec_net() == net && e.spec_stack().len() == 0,
    {
        AnyEval::Nn(Box::new(Nnue::new(net)))
    }

    pub fn is_nnue(&self) -> (r: bool)
        ensures
            r == (self is Nn),
    {
        match self {
            AnyEval::Hc(_) => false,
            AnyEval::Nn(_) => true,
        }
    }
}

impl Evaluator for AnyEval {
    open spec fn frames(&self) -> nat {
        match self {
            AnyEval::Hc(e) => e.frames(),
            AnyEval::Nn(e) => e.frames(),
        }
    }

    open spec fn value(&self, s: Snap) -> int {
        match self {
            AnyEval::Hc(e) => e.value(s),
            AnyEval::Nn(e) => e.value(s),
        }
    }

    fn refresh(&mut self, pos: &Position) {
        match self {
            AnyEval::Hc(e) => e.refresh(pos),
            AnyEval::Nn(e) => e.refresh(pos),
        }
    }

    fn push(&mut self, pos: &Position, mv: Move, mover: Color) {
        match self {
            AnyEval::Hc(e) => e.push(pos, mv, mover),
            AnyEval::Nn(e) => e.push(pos, mv, mover),
        }
    }

    fn pop(&mut self) {
        match self {
            AnyEval::Hc(e) => e.pop(),
            AnyEval::Nn(e) => e.pop(),
        }
    }

    /// The hand-crafted score, or the network run on the top accumulator, for the side
    /// to move.
    fn eval(&mut self, pos: &Position) -> (r: i32)
        ensures
            match *old(self) {
                AnyEval::Hc(_) => r == (if pos.snap().side == BLACK {
                    spec_evaluate(pos.snap())
                } else {
                    -spec_evaluate(pos.snap())
                }),
                AnyEval::Nn(e) => r == spec_forward(
                    e.spec_net(),
                    if pos.snap().side == BLACK {
                        e.spec_stack().last()
                    } else {
                        [e.spec_stack().last()[1], e.spec_stack().last()[0]]
                    },
                ),
            },
            (*final(self) is Hc) == (*old(self) is Hc),
    {
        match self {
            AnyEval::Hc(e) => e.eval(pos),
            AnyEval::Nn(e) => e.eval(pos),
        }
    }
}

} // verus!
