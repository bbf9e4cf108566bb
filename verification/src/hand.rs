//! Packed per-side hand-piece counts. Each field has a spare guard bit so no field can
//! overflow into its neighbour, even transiently during incremental updates.
use crate::types::{PieceType, FU, GIN, HI, KAKU, KEI, KIN, KYO};
use vstd::prelude::*;

verus! {

/// Bit offset of the field of a hand-holding kind (0 for every other kind).
pub open spec fn spec_shift(pt: PieceType) -> u32 {
    if pt == FU {
        0
    } else if pt == KYO {
        6
    } else if pt == KEI {
        10
    } else if pt == GIN {
        14
    } else if pt == KIN {
        18
    } else if pt == KAKU {
        22
    } else if pt == HI {
        26
    } else {
        0
    }
}

/// Bit width of the field of a hand-holding kind (0 for every other kind).
pub open spec fn spec_width(pt: PieceType) -> u32 {
    if pt == FU {
        5
    } else if pt == KYO || pt == KEI || pt == GIN || pt == KIN {
        3
    } else if pt == KAKU || pt == HI {
        2
    } else {
        0
    }
}

/// The most pieces of a kind that the game has, 0 for kinds that are never held.
pub open spec fn spec_max_count(pt: PieceType) -> i32 {
    if pt == FU {
        18
    } else if pt == KYO || pt == KEI || pt == GIN || pt == KIN {
        4
    } else if pt == KAKU || pt == HI {
        2
    } else {
        0
    }
}

/// The kinds a hand can hold.
pub open spec fn is_hand_type(pt: PieceType) -> bool {
    pt == FU || pt == KYO || pt == KEI || pt == GIN || pt == KIN || pt == KAKU || pt == HI
}

/// All bits set in the field of `pt`.
pub open spec fn spec_field_mask(pt: PieceType) -> u32 {
    ((1u32 << spec_width(pt)) - 1) as u32
}

/// The number read from the field of `pt` in the packed word `v`.
pub open spec fn spec_field(v: u32, pt: PieceType) -> u32 {
    (v >> spec_shift(pt)) & spec_field_mask(pt)
}

/// The amount that adding one piece of `pt` adds to the packed word.
pub open spec fn spec_unit(pt: PieceType) -> u32 {
    1u32 << spec_shift(pt)
}

fn shift_of(pt: PieceType) -> (r: u32)
    ensures
        r == spec_shift(pt),
        r <= 26,
{
    match pt {
        FU => 0,
        KYO => 6,
        KEI => 10,
        GIN => 14,
        KIN => 18,
        KAKU => 22,
        HI => 26,
        _ => 0,
    }
}

fn width_of(pt: PieceType) -> (r: u32)
    ensures
        r == spec_width(pt),
        r <= 5,
{
    match pt {
        FU => 5,
        KYO | KEI | GIN | KIN => 3,
        KAKU | HI => 2,
        _ => 0,
    }
}

/// The two hands' counts packed into a word: FU in bits 0..=4, KYO 6..=8, KEI 10..=12,
/// GIN 14..=16, KIN 18..=20, KAKU 22..=23 and HI 26..=27.
#[derive(Clone, Copy, PartialEq, Eq, Default, Debug)]
pub struct Hand(pub u32);

impl Hand {
    /// Number of pieces of kind `pt` in this hand.
    pub open spec fn spec_count(self, pt: PieceType) -> int {
        spec_field(self.0, pt) as int
    }

    /// The hand with nothing in it.
    pub fn empty() -> (r: Hand)
        ensures
            r.0 == 0,
            forall|pt: PieceType| #[trigger] r.spec_count(pt) == 0,
    {
        assert forall|pt: PieceType| #[trigger] Hand(0).spec_count(pt) == 0 by {
            let s = spec_shift(pt);
            let m = spec_field_mask(pt);
            lemma_word_facts(0, s, 0, m);
        }
        Hand(0)
    }

    /// The seven droppable kinds, in the order FU, KYO, KEI, GIN, KIN, KAKU, HI.
    pub fn types() -> (r: [PieceType; 7])
        ensures
            r@ == seq![FU, KYO, KEI, GIN, KIN, KAKU, HI],
    {
        let r = [FU, KYO, KEI, GIN, KIN, KAKU, HI];
        assert(r@ =~= seq![FU, KYO, KEI, GIN, KIN, KAKU, HI]);
        r
    }

    pub fn count(self, pt: PieceType) -> (r: i32)
        ensures
            r == self.spec_count(pt),
            0 <= r <= 31,
            r <= spec_field_mask(pt),
    {
        let shift = shift_of(pt);
        let width = width_of(pt);
        proof {
            lemma_word_facts(self.0, shift, width, 0);
        }
        let mask: u32 = (1u32 << width) - 1;
        let v = self.0;
        proof {
            lemma_word_facts(v, shift, width, mask);
        }
        ((v >> shift) & mask) as i32
    }

    pub fn has(self, pt: PieceType) -> (r: bool)
        requires
            pt < 15,
        ensures
            r == (self.spec_count(pt) > 0),
    {
        self.count(pt) > 0
    }

    /// Puts one more piece of kind `pt` into the hand (the packed word wraps).
    pub fn add(&mut self, pt: PieceType)
        requires
            pt < 15,
        ensures
            final(self).0 == vstd::wrapping::u32_specs::wrapping_add(old(self).0, spec_unit(pt)),
    {
        let shift = shift_of(pt);
        self.0 = self.0.wrapping_add(1u32 << shift);
    }

    /// Takes one piece of kind `pt` out of the hand (the packed word wraps). When the
    /// field's count is positive, that count drops by one and no other field changes
    /// (see `lemma_remove_count`).
    pub fn remove(&mut self, pt: PieceType)
        requires
            pt < 15,
        ensures
            final(self).0 == vstd::wrapping::u32_specs::wrapping_sub(old(self).0, spec_unit(pt)),
    {
        let shift = shift_of(pt);
        self.0 = self.0.wrapping_sub(1u32 << shift);
    }

    pub fn max_count(pt: PieceType) -> (r: i32)
        requires
            pt < 15,
        ensures
            r == spec_max_count(pt),
    {
        match pt {
            FU => 18,
            KYO | KEI | GIN | KIN => 4,
            KAKU | HI => 2,
            _ => 0,
        }
    }

    /// No droppable kind has a positive count.
    pub open spec fn spec_is_empty(self) -> bool {
        &&& self.spec_count(FU) == 0
        &&& self.spec_count(KYO) == 0
        &&& self.spec_count(KEI) == 0
        &&& self.spec_count(GIN) == 0
        &&& self.spec_count(KIN) == 0
        &&& self.spec_count(KAKU) == 0
        &&& self.spec_count(HI) == 0
    }

    pub fn is_empty(self) -> (r: bool)
        ensures
            r == self.spec_is_empty(),
    {
        let types = Hand::types();
        let mut i: usize = 0;
        while i < 7
            invariant
                i <= 7,
                types@ == seq![FU, KYO, KEI, GIN, KIN, KAKU, HI],
                forall|j: int| 0 <= j < i ==> self.spec_count(#[trigger] types@[j]) == 0,
            decreases 7 - i,
        {
            if self.count(types[i]) != 0 {
                return false;
            }
            i = i + 1;
        }
        assert(self.spec_count(types@[0]) == 0);
        assert(self.spec_count(types@[1]) == 0);
        assert(self.spec_count(types@[2]) == 0);
        assert(self.spec_count(types@[3]) == 0);
        assert(self.spec_count(types@[4]) == 0);
        assert(self.spec_count(types@[5]) == 0);
        assert(self.spec_count(types@[6]) == 0);
        true
    }
}

proof fn lemma_field_add(v: u32, s: u32, w: u32, s2: u32, w2: u32)
    by (bit_vector)
    requires
        1 <= w <= 5,
        w2 <= 5,
        s + w < 32,
        s2 + w2 < 32,
        s + w < s2 || s2 + w2 < s || (s == s2 && w == w2),
        ((v >> s) & (((1u32 << w) - 1) as u32)) < (((1u32 << w) - 1) as u32),
        v + (1u32 << s) <= 0xFFFF_FFFFu32,
    ensures
        (((v + (1u32 << s)) as u32 >> s) & (((1u32 << w) - 1) as u32)) == ((v >> s) & (((1u32 << w) - 1) as u32))
            + 1,
        s != s2 ==> (((v + (1u32 << s)) as u32 >> s2) & (((1u32 << w2) - 1) as u32)) == ((v >> s2) & (((1u32 << w2) - 1) as u32)),
{
}

proof fn lemma_field_sub(v: u32, s: u32, w: u32, s2: u32, w2: u32)
    by (bit_vector)
    requires
        1 <= w <= 5,
        w2 <= 5,
        s + w < 32,
        s2 + w2 < 32,
        s + w < s2 || s2 + w2 < s || (s == s2 && w == w2),
        ((v >> s) & (((1u32 << w) - 1) as u32)) >= 1,
    ensures
        v >= (1u32 << s),
        (((v - (1u32 << s)) as u32 >> s) & (((1u32 << w) - 1) as u32)) == ((v >> s) & (((1u32 << w) - 1) as u32))
            - 1,
        s != s2 ==> (((v - (1u32 << s)) as u32 >> s2) & (((1u32 << w2) - 1) as u32)) == ((v >> s2) & (((1u32 << w2) - 1) as u32)),
{
}

proof fn lemma_room_bits(v: u32, s: u32, w: u32)
    by (bit_vector)
    requires
        1 <= w <= 5,
        s + w < 32,
        ((v >> s) & (((1u32 << w) - 1) as u32)) < (((1u32 << w) - 1) as u32),
    ensures
        v + (1u32 << s) <= 0xFFFF_FFFFu32,
{
}

/// A field that is not full can take one more piece without the word overflowing.
pub proof fn lemma_field_room(h: Hand, pt: PieceType)
    requires
        is_hand_type(pt),
        h.spec_count(pt) < spec_field_mask(pt),
    ensures
        h.0 + spec_unit(pt) <= u32::MAX,
{
    lemma_room_bits(h.0, spec_shift(pt), spec_width(pt));
}

/// Adding a piece of a droppable kind whose field is not full raises that kind's count
/// by one and leaves the count of every other kind unchanged.
pub proof fn lemma_add_count(h: Hand, pt: PieceType, other: PieceType)
    requires
        is_hand_type(pt),
        h.spec_count(pt) < spec_field_mask(pt),
        h.0 + spec_unit(pt) <= u32::MAX,
    ensures
        Hand((h.0 + spec_unit(pt)) as u32).spec_count(pt) == h.spec_count(pt) + 1,
        other != pt ==> Hand((h.0 + spec_unit(pt)) as u32).spec_count(other) == h.spec_count(
            other,
        ),
{
    if other != pt && is_hand_type(other) {
        lemma_field_add(h.0, spec_shift(pt), spec_width(pt), spec_shift(other), spec_width(other));
    } else {
        lemma_field_add(h.0, spec_shift(pt), spec_width(pt), spec_shift(pt), spec_width(pt));
        if other != pt {
            let v = (h.0 + spec_unit(pt)) as u32;
            let s2 = spec_shift(other);
            lemma_word_facts(v, s2, 0, 0);
            assert(spec_field_mask(other) == 0);
            lemma_word_facts(h.0, s2, 0, 0);
        }
    }
}

/// Removing a piece of a droppable kind whose count is positive lowers that kind's
/// count by one and leaves the count of every other kind unchanged.
pub proof fn lemma_remove_count(h: Hand, pt: PieceType, other: PieceType)
    requires
        is_hand_type(pt),
        h.spec_count(pt) >= 1,
    ensures
        h.0 >= spec_unit(pt),
        Hand((h.0 - spec_unit(pt)) as u32).spec_count(pt) == h.spec_count(pt) - 1,
        other != pt ==> Hand((h.0 - spec_unit(pt)) as u32).spec_count(other) == h.spec_count(
            other,
        ),
{
    if other != pt && is_hand_type(other) {
        lemma_field_sub(h.0, spec_shift(pt), spec_width(pt), spec_shift(other), spec_width(other));
    } else {
        lemma_field_sub(h.0, spec_shift(pt), spec_width(pt), spec_shift(pt), spec_width(pt));
        if other != pt {
            let v = (h.0 - spec_unit(pt)) as u32;
            let s2 = spec_shift(other);
            lemma_word_facts(v, s2, 0, 0);
            assert(spec_field_mask(other) == 0);
            lemma_word_facts(h.0, s2, 0, 0);
        }
    }
}

/// Adding a piece and then removing it again gives back the same hand, and so does
/// removing and then adding.
pub proof fn lemma_add_remove_inverse(h: Hand, pt: PieceType)
    ensures
        vstd::wrapping::u32_specs::wrapping_sub(
            vstd::wrapping::u32_specs::wrapping_add(h.0, spec_unit(pt)),
            spec_unit(pt),
        ) == h.0,
        vstd::wrapping::u32_specs::wrapping_add(
            vstd::wrapping::u32_specs::wrapping_sub(h.0, spec_unit(pt)),
            spec_unit(pt),
        ) == h.0,
{
}

/// The field of every droppable kind can hold at least as many pieces as the game has.
pub proof fn lemma_field_capacity(pt: PieceType)
    requires
        is_hand_type(pt),
    ensures
        spec_max_count(pt) < spec_field_mask(pt),
{
    lemma_word_facts(0, 0, 0, 0);
}

/// Facts about fields of a hand word: masks of small widths, empty fields and the
/// field of the empty word.
pub proof fn lemma_word_facts(v: u32, s: u32, w: u32, m: u32)
    by (bit_vector)
    ensures
        (0u32 >> s) & m == 0,
        w <= 5 ==> (1u32 << w) >= 1 && (((1u32 << w) - 1) as u32) <= 31,
        ((v >> s) & m) <= m,
        (1u32 << 0u32) == 1,
        (v >> s) & 0u32 == 0,
        (1u32 << 5u32) - 1 == 31,
        (1u32 << 3u32) - 1 == 7,
        (1u32 << 2u32) - 1 == 3,
{
}

/// The bits of a hand word that lie outside every count field.
pub const HAND_GUARD_BITS: u32 = 0xF322_2220;

/// A hand word whose bits outside the count fields are all clear, as every hand built
/// by adding and removing pieces is.
pub open spec fn clean(w: u32) -> bool {
    w & HAND_GUARD_BITS == 0
}

/// Adding a piece of a droppable kind to a clean word whose field for it is not full
/// keeps the word clean.
pub proof fn lemma_clean_add(w: u32, pt: PieceType)
    requires
        is_hand_type(pt),
        clean(w),
        spec_field(w, pt) < spec_field_mask(pt),
    ensures
        w + spec_unit(pt) <= u32::MAX,
        clean((w + spec_unit(pt)) as u32),
{
    lemma_field_room(Hand(w), pt);
    lemma_word_facts(w, 0, 0, 0);
    let x = (w + spec_unit(pt)) as u32;
    if pt == FU {
        assert(spec_unit(pt) == 1u32 << 0u32);
        assert(x & 0xF322_2220u32 == 0) by (bit_vector)
            requires
                w & 0xF322_2220u32 == 0,
                (w >> 0u32) & 31u32 < 31,
                x == w + (1u32 << 0u32),
        ;
    } else if pt == KYO {
        assert(x & 0xF322_2220u32 == 0) by (bit_vector)
            requires
                w & 0xF322_2220u32 == 0,
                (w >> 6u32) & 7u32 < 7,
                x == w + (1u32 << 6u32),
        ;
    } else if pt == KEI {
        assert(x & 0xF322_2220u32 == 0) by (bit_vector)
            requires
                w & 0xF322_2220u32 == 0,
                (w >> 10u32) & 7u32 < 7,
                x == w + (1u32 << 10u32),
        ;
    } else if pt == GIN {
        assert(x & 0xF322_2220u32 == 0) by (bit_vector)
            requires
                w & 0xF322_2220u32 == 0,
                (w >> 14u32) & 7u32 < 7,
                x == w + (1u32 << 14u32),
        ;
    } else if pt == KIN {
        assert(x & 0xF322_2220u32 == 0) by (bit_vector)
            requires
                w & 0xF322_2220u32 == 0,
                (w >> 18u32) & 7u32 < 7,
                x == w + (1u32 << 18u32),
        ;
    } else if pt == KAKU {
        assert(x & 0xF322_2220u32 == 0) by (bit_vector)
            requires
                w & 0xF322_2220u32 == 0,
                (w >> 22u32) & 3u32 < 3,
                x == w + (1u32 << 22u32),
        ;
    } else {
        assert(x & 0xF322_2220u32 == 0) by (bit_vector)
            requires
                w & 0xF322_2220u32 == 0,
                (w >> 26u32) & 3u32 < 3,
                x == w + (1u32 << 26u32),
        ;
    }
}

/// Two clean hand words with the same count of every droppable kind are the same word.
pub proof fn lemma_clean_eq(a: u32, b: u32)
    requires
        clean(a),
        clean(b),
        spec_field(a, FU) == spec_field(b, FU),
        spec_field(a, KYO) == spec_field(b, KYO),
        spec_field(a, KEI) == spec_field(b, KEI),
        spec_field(a, GIN) == spec_field(b, GIN),
        spec_field(a, KIN) == spec_field(b, KIN),
        spec_field(a, KAKU) == spec_field(b, KAKU),
        spec_field(a, HI) == spec_field(b, HI),
    ensures
        a == b,
{
    lemma_word_facts(a, 0, 0, 0);
    assert(a == b) by (bit_vector)
        requires
            a & 0xF322_2220u32 == 0,
            b & 0xF322_2220u32 == 0,
            (a >> 0u32) & 31u32 == (b >> 0u32) & 31u32,
            (a >> 6u32) & 7u32 == (b >> 6u32) & 7u32,
            (a >> 10u32) & 7u32 == (b >> 10u32) & 7u32,
            (a >> 14u32) & 7u32 == (b >> 14u32) & 7u32,
            (a >> 18u32) & 7u32 == (b >> 18u32) & 7u32,
            (a >> 22u32) & 3u32 == (b >> 22u32) & 3u32,
            (a >> 26u32) & 3u32 == (b >> 26u32) & 3u32,
    ;
}

} // verus!
