//! Packed 32-bit move encoding.
//! bits 0..=6 to | 7..=13 from | 14 promote | 15 drop | 16..=20 moved pt | 21..=25 captured pt
use crate::types::{PieceType, Square};
use vstd::prelude::*;

verus! {

/// A move packed into 32 bits; 0 is "no move".
#[derive(Clone, Copy, PartialEq, Eq, Structural, Default, Hash, Debug)]
pub struct Move(pub u32);

/// The bits of the null move (the side to move passes); it sets a reserved bit so it
/// differs from "no move" and from every packed real move.
pub const MOVE_NULL_BITS: u32 = 0x0400_0000;

/// No move.
pub fn move_none() -> (r: Move)
    ensures
        r.0 == 0,
{
    Move(0)
}

/// The null move: the side to move passes.
pub fn move_null() -> (r: Move)
    ensures
        r.0 == MOVE_NULL_BITS,
{
    Move(MOVE_NULL_BITS)
}

pub open spec fn spec_board_bits(from: u8, to: u8, moved: u8, promote: bool, captured: u8) -> u32 {
    let bits = (to as u32) | ((from as u32) << 7u32) | ((moved as u32) << 16u32) | ((
    captured as u32) << 21u32);
    if promote {
        bits | 0x4000u32
    } else {
        bits
    }
}

pub open spec fn spec_drop_bits(pt: u8, to: u8) -> u32 {
    (to as u32) | 0x8000u32 | ((pt as u32) << 16u32)
}

/// The debugging text of a move.
pub open spec fn debug_chars(m: Move) -> Seq<char> {
    if m.0 == 0 {
        "none"@
    } else if m.spec_is_drop() {
        crate::sfen::spec_decimal(m.spec_moved() as nat) + seq!['*'] + crate::sfen::spec_decimal(
            m.spec_to() as nat,
        )
    } else {
        crate::sfen::spec_decimal(m.spec_from() as nat) + crate::sfen::spec_decimal(m.spec_to() as nat)
            + (if m.spec_is_promotion() {
            seq!['+']
        } else {
            Seq::<char>::empty()
        }) + (if m.spec_captured() != 0 {
            seq!['x']
        } else {
            Seq::<char>::empty()
        })
    }
}

impl Move {
    pub open spec fn spec_to(self) -> u8 {
        (self.0 & 0x7Fu32) as u8
    }

    pub open spec fn spec_from(self) -> u8 {
        ((self.0 >> 7u32) & 0x7Fu32) as u8
    }

    pub open spec fn spec_is_promotion(self) -> bool {
        (self.0 >> 14u32) & 1u32 != 0
    }

    pub open spec fn spec_is_drop(self) -> bool {
        (self.0 >> 15u32) & 1u32 != 0
    }

    pub open spec fn spec_moved(self) -> u8 {
        ((self.0 >> 16u32) & 0x1Fu32) as u8
    }

    pub open spec fn spec_captured(self) -> u8 {
        ((self.0 >> 21u32) & 0x1Fu32) as u8
    }

    /// A move from `from` to `to` of a piece of kind `moved`, promoting or not, taking a
    /// piece of kind `captured` (0 for none).
    pub fn new_board(from: Square, to: Square, moved: PieceType, promote: bool, captured: PieceType) -> (r: Move)
        ensures
            r.0 == spec_board_bits(from, to, moved, promote, captured),
    {
        let mut bits = (to as u32) | ((from as u32) << 7u32) | ((moved as u32) << 16u32) | ((
        captured as u32) << 21u32);
        if promote {
            bits = bits | 0x4000u32;
        }
        Move(bits)
    }

    /// A drop of a piece of kind `pt` from the hand onto `to`.
    pub fn new_drop(pt: PieceType, to: Square) -> (r: Move)
        ensures
            r.0 == spec_drop_bits(pt, to),
    {
        Move((to as u32) | 0x8000u32 | ((pt as u32) << 16u32))
    }

    pub fn to(self) -> (r: Square)
        ensures
            r == self.spec_to(),
            r < 128,
    {
        let b = self.0;
        proof {
            lemma_field_bounds(b);
        }
        (b & 0x7F) as Square
    }

    pub fn from(self) -> (r: Square)
        ensures
            r == self.spec_from(),
            r < 128,
    {
        let b = self.0;
        proof {
            lemma_field_bounds(b);
        }
        ((b >> 7) & 0x7F) as Square
    }

    pub fn is_promotion(self) -> (r: bool)
        ensures
            r == self.spec_is_promotion(),
    {
        (self.0 >> 14) & 1 != 0
    }

    pub fn is_drop(self) -> (r: bool)
        ensures
            r == self.spec_is_drop(),
    {
        (self.0 >> 15) & 1 != 0
    }

    pub fn moved_piece_type(self) -> (r: PieceType)
        ensures
            r == self.spec_moved(),
            r < 32,
    {
        let b = self.0;
        proof {
            lemma_field_bounds(b);
        }
        ((b >> 16) & 0x1F) as PieceType
    }

    pub fn captured_piece_type(self) -> (r: PieceType)
        ensures
            r == self.spec_captured(),
            r < 32,
    {
        let b = self.0;
        proof {
            lemma_field_bounds(b);
        }
        ((b >> 21) & 0x1F) as PieceType
    }

    /// Debugging text: "none", "{kind}*{to}" for a drop, or "{from}{to}" followed by
    /// "+" for a promotion and "x" for a capture, with numbers in decimal.
    pub fn debug_text(self) -> (r: String)
        ensures
            r@ == debug_chars(self),
    {
        if self.is_none() {
            return crate::sfen::text("none");
        }
        let mut out = String::new();
        if self.is_drop() {
            crate::sfen::push_decimal(&mut out, self.moved_piece_type() as u64);
            crate::sfen::push_char(&mut out, '*');
            crate::sfen::push_decimal(&mut out, self.to() as u64);
        } else {
            crate::sfen::push_decimal(&mut out, self.from() as u64);
            crate::sfen::push_decimal(&mut out, self.to() as u64);
            if self.is_promotion() {
                crate::sfen::push_char(&mut out, '+');
            }
            if self.is_capture() {
                crate::sfen::push_char(&mut out, 'x');
            }
        }
        out
    }

    pub fn is_capture(self) -> (r: bool)
        ensures
            r == (self.spec_captured() != 0),
    {
        self.captured_piece_type() != 0
    }

    pub fn is_none(self) -> (r: bool)
        ensures
            r == (self.0 == 0),
    {
        self.0 == 0
    }

    pub fn is_null(self) -> (r: bool)
        ensures
            r == (self.0 == MOVE_NULL_BITS),
    {
        self.0 == MOVE_NULL_BITS
    }

    /// The low 16 bits (to, from, promote, drop): the part of a move that does not
    /// depend on the board it is played on.
    pub fn core16(self) -> (r: u16)
        ensures
            r == (self.0 & 0xFFFFu32) as u16,
    {
        (self.0 & 0xFFFF) as u16
    }
}

/// Every field of a board move comes back out of its packed form.
pub proof fn lemma_board_roundtrip(from: u8, to: u8, moved: u8, promote: bool, captured: u8)
    requires
        from < 128,
        to < 128,
        moved < 32,
        captured < 32,
    ensures
        ({
            let m = Move(spec_board_bits(from, to, moved, promote, captured));
            &&& m.spec_from() == from
            &&& m.spec_to() == to
            &&& m.spec_moved() == moved
            &&& m.spec_captured() == captured
            &&& m.spec_is_promotion() == promote
            &&& !m.spec_is_drop()
            &&& m.0 != MOVE_NULL_BITS
            &&& (moved != 0 ==> m.0 != 0)
        }),
{
    let (f, t, mv, c) = (from as u32, to as u32, moved as u32, captured as u32);
    let b = (t | (f << 7u32) | (mv << 16u32) | (c << 21u32));
    assert(f < 128 && t < 128 && mv < 32 && c < 32 ==> {
        &&& ((b & 0x7Fu32) == t)
        &&& (((b >> 7u32) & 0x7Fu32) == f)
        &&& (((b >> 16u32) & 0x1Fu32) == mv)
        &&& (((b >> 21u32) & 0x1Fu32) == c)
        &&& (((b >> 14u32) & 1u32) == 0)
        &&& (((b >> 15u32) & 1u32) == 0)
        &&& (((b | 0x4000u32) & 0x7Fu32) == t)
        &&& ((((b | 0x4000u32) >> 7u32) & 0x7Fu32) == f)
        &&& ((((b | 0x4000u32) >> 16u32) & 0x1Fu32) == mv)
        &&& ((((b | 0x4000u32) >> 21u32) & 0x1Fu32) == c)
        &&& ((((b | 0x4000u32) >> 14u32) & 1u32) == 1)
        &&& ((((b | 0x4000u32) >> 15u32) & 1u32) == 0)
        &&& b != 0x0400_0000u32
        &&& (b | 0x4000u32) != 0x0400_0000u32
        &&& (mv != 0 ==> b != 0)
        &&& (b | 0x4000u32) != 0
    }) by (bit_vector)
        requires
            b == (t | (f << 7u32) | (mv << 16u32) | (c << 21u32)),
    ;
    let m = Move(spec_board_bits(from, to, moved, promote, captured));
    assert(promote ==> m.0 == b | 0x4000u32);
    assert(!promote ==> m.0 == b);
    assert(m.spec_to() == to);
    assert(m.spec_from() == from);
    assert(m.spec_moved() == moved);
    assert(m.spec_captured() == captured);
    assert(m.spec_is_promotion() == promote);
    assert(!m.spec_is_drop());
    assert(m.0 != MOVE_NULL_BITS);
    assert(moved != 0 ==> mv != 0);
    assert(moved != 0 ==> m.0 != 0);
}

/// Every field of a drop comes back out of its packed form.
pub proof fn lemma_drop_roundtrip(pt: u8, to: u8)
    requires
        pt < 32,
        to < 128,
    ensures
        ({
            let m = Move(spec_drop_bits(pt, to));
            &&& m.spec_to() == to
            &&& m.spec_moved() == pt
            &&& m.spec_captured() == 0
            &&& !m.spec_is_promotion()
            &&& m.spec_is_drop()
            &&& m.0 != MOVE_NULL_BITS
            &&& m.0 != 0
        }),
{
    let (p, t) = (pt as u32, to as u32);
    let b = t | 0x8000u32 | (p << 16u32);
    assert(p < 32 && t < 128 ==> {
        &&& ((b & 0x7Fu32) == t)
        &&& (((b >> 16u32) & 0x1Fu32) == p)
        &&& (((b >> 21u32) & 0x1Fu32) == 0)
        &&& (((b >> 14u32) & 1u32) == 0)
        &&& (((b >> 15u32) & 1u32) == 1)
        &&& b != 0x0400_0000u32
        &&& b != 0
    }) by (bit_vector)
        requires
            b == t | 0x8000u32 | (p << 16u32),
    ;
}

/// Each packed field of a move word fits its width, and the null word holds no kind.
pub proof fn lemma_field_bounds(x: u32)
    by (bit_vector)
    ensures
        x & 0x7Fu32 < 128,
        (x >> 7u32) & 0x7Fu32 < 128,
        (x >> 16u32) & 0x1Fu32 < 32,
        (x >> 21u32) & 0x1Fu32 < 32,
        x == 0x0400_0000u32 ==> ((x >> 16u32) & 0x1Fu32) == 0,
{
}

/// Two moves that agree on every packed field are the same move.
pub proof fn lemma_fields_determine_move(a: Move, b: Move)
    requires
        a.0 < 0x0400_0000,
        b.0 < 0x0400_0000,
        a.spec_to() == b.spec_to(),
        a.spec_from() == b.spec_from(),
        a.spec_is_promotion() == b.spec_is_promotion(),
        a.spec_is_drop() == b.spec_is_drop(),
        a.spec_moved() == b.spec_moved(),
        a.spec_captured() == b.spec_captured(),
    ensures
        a == b,
{
    let (x, y) = (a.0, b.0);
    lemma_field_bounds(x);
    lemma_field_bounds(y);
    assert(x < 0x0400_0000u32 && y < 0x0400_0000u32 && (x & 0x7Fu32) == (y & 0x7Fu32) && ((x
        >> 7u32) & 0x7Fu32) == ((y >> 7u32) & 0x7Fu32) && (((x >> 14u32) & 1u32) != 0) == (((y
        >> 14u32) & 1u32) != 0) && (((x >> 15u32) & 1u32) != 0) == (((y >> 15u32) & 1u32) != 0)
        && ((x >> 16u32) & 0x1Fu32) == ((y >> 16u32) & 0x1Fu32) && ((x >> 21u32) & 0x1Fu32) == ((y
        >> 21u32) & 0x1Fu32) ==> x == y) by (bit_vector);
}

/// A move plus its ordering score, used in move lists (the score is kept outside
/// `Move` so the packed encoding stays canonical).
#[derive(Clone, Copy, Debug, Default)]
pub struct ExtMove {
    pub mv: Move,
    pub score: i32,
}

} // verus!
