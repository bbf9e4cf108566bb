//! 81-square bitboard as two u64 words, split at column 7 (square 63) so that every
//! file (9 contiguous squares, since sq = col*9+row) lives entirely inside one word.
use crate::types::Square;
use vstd::prelude::*;

verus! {

/// Squares held by the first word (columns 0..=6).
pub const WORD0_SQUARES: u32 = 63;

/// Squares held by the second word (columns 7..=8).
pub const WORD1_SQUARES: u32 = 18;

/// The valid bits of the first word.
pub const MASK0: u64 = 0x7FFF_FFFF_FFFF_FFFF;

/// The valid bits of the second word.
pub const MASK1: u64 = 0x3_FFFF;

/// Bit `i` of `w` is set.
pub open spec fn bit(w: u64, i: int) -> bool {
    0 <= i < 64 && ((w >> (i as u64)) & 1u64) == 1u64
}

/// Number of set bits of `w` among bits `0..n`.
pub open spec fn bits_below(w: u64, n: int) -> nat
    decreases n,
{
    if n <= 0 {
        0
    } else {
        bits_below(w, n - 1) + (if bit(w, n - 1) {
            1nat
        } else {
            0nat
        })
    }
}

/// Number of set bits of a word.
pub open spec fn popcount(w: u64) -> nat {
    bits_below(w, 64)
}

proof fn lemma_bits_below_bound(w: u64, n: int)
    requires
        n >= 0,
    ensures
        bits_below(w, n) <= n,
    decreases n,
{
    if n > 0 {
        lemma_bits_below_bound(w, n - 1);
    }
}

/// Bit `i` (and bit `j`) of words built with the bit operators, in one query.
proof fn lemma_bit_facts(x: u64, y: u64, i: u64, j: u64)
    by (bit_vector)
    requires
        i < 64,
        j < 64,
    ensures
        (((x & y) >> i) & 1u64 == 1u64) == (((x >> i) & 1u64 == 1u64) && ((y >> i) & 1u64
            == 1u64)),
        (((x | y) >> i) & 1u64 == 1u64) == (((x >> i) & 1u64 == 1u64) || ((y >> i) & 1u64
            == 1u64)),
        (((x ^ y) >> i) & 1u64 == 1u64) == (((x >> i) & 1u64 == 1u64) != ((y >> i) & 1u64
            == 1u64)),
        (((!x & y) >> i) & 1u64 == 1u64) == (((x >> i) & 1u64 != 1u64) && ((y >> i) & 1u64
            == 1u64)),
        (((1u64 << i) >> j) & 1u64 == 1u64) == (i == j),
        ((0x7FFF_FFFF_FFFF_FFFFu64 >> i) & 1u64 == 1u64) == (i < 63),
        ((0x3_FFFFu64 >> i) & 1u64 == 1u64) == (i < 18),
        x <= 0x7FFF_FFFF_FFFF_FFFFu64 && i >= 63 ==> (x >> i) & 1u64 != 1u64,
        x <= 0x3_FFFFu64 && i >= 18 ==> (x >> i) & 1u64 != 1u64,
        (0u64 >> i) & 1u64 != 1u64,
{
}

/// Bounds of the two words under the bit operators, single bits, and clearing a set
/// bit, in one query.
proof fn lemma_word_bounds(x: u64, y: u64, s: u64)
    by (bit_vector)
    ensures
        ((x >> s) & 1u64 != 0u64) == ((x >> s) & 1u64 == 1u64),
        (x >> s) & 1u64 == 0u64 || (x >> s) & 1u64 == 1u64,
        s < 63 ==> (1u64 << s) <= 0x7FFF_FFFF_FFFF_FFFFu64,
        s < 18 ==> (1u64 << s) <= 0x3_FFFFu64,
        x <= 0x7FFF_FFFF_FFFF_FFFFu64 || y <= 0x7FFF_FFFF_FFFF_FFFFu64 ==> (x & y)
            <= 0x7FFF_FFFF_FFFF_FFFFu64,
        x <= 0x3_FFFFu64 || y <= 0x3_FFFFu64 ==> (x & y) <= 0x3_FFFFu64,
        x <= 0x7FFF_FFFF_FFFF_FFFFu64 && y <= 0x7FFF_FFFF_FFFF_FFFFu64 ==> (x | y)
            <= 0x7FFF_FFFF_FFFF_FFFFu64 && (x ^ y) <= 0x7FFF_FFFF_FFFF_FFFFu64,
        x <= 0x3_FFFFu64 && y <= 0x3_FFFFu64 ==> (x | y) <= 0x3_FFFFu64 && (x ^ y) <= 0x3_FFFFu64,
        (!x & 0x7FFF_FFFF_FFFF_FFFFu64) <= 0x7FFF_FFFF_FFFF_FFFFu64,
        (!x & 0x3_FFFFu64) <= 0x3_FFFFu64,
        x <= 0x7FFF_FFFF_FFFF_FFFFu64 ==> (x >> 63u64) & 1u64 != 1u64,
        (y & (!0u64 & 0x3_FFFFu64)) <= y,
        (y & (!(1u64 << 0u64) & 0x3_FFFFu64)) <= y,
        (x >> 63u64) & 1u64 == 1u64 ==> (x & (!0u64 & 0x7FFF_FFFF_FFFF_FFFFu64)) < x,
        x == 0 ==> (x & (!0u64 & 0x7FFF_FFFF_FFFF_FFFFu64)) == 0,
        s < 64 && (x >> s) & 1u64 == 1u64 ==> (x & (!(1u64 << s) & y)) < x,
{
}

proof fn lemma_bit_and(x: u64, y: u64, i: u64)
    requires
        i < 64,
    ensures
        (((x & y) >> i) & 1u64 == 1u64) == (((x >> i) & 1u64 == 1u64) && ((y >> i) & 1u64
            == 1u64)),
{
    lemma_bit_facts(x, y, i, 0);
}

proof fn lemma_bit_or(x: u64, y: u64, i: u64)
    requires
        i < 64,
    ensures
        (((x | y) >> i) & 1u64 == 1u64) == (((x >> i) & 1u64 == 1u64) || ((y >> i) & 1u64
            == 1u64)),
{
    lemma_bit_facts(x, y, i, 0);
}

proof fn lemma_bit_xor(x: u64, y: u64, i: u64)
    requires
        i < 64,
    ensures
        (((x ^ y) >> i) & 1u64 == 1u64) == (((x >> i) & 1u64 == 1u64) != ((y >> i) & 1u64
            == 1u64)),
{
    lemma_bit_facts(x, y, i, 0);
}

proof fn lemma_bit_not_mask(x: u64, m: u64, i: u64)
    requires
        i < 64,
    ensures
        (((!x & m) >> i) & 1u64 == 1u64) == (((x >> i) & 1u64 != 1u64) && ((m >> i) & 1u64
            == 1u64)),
{
    lemma_bit_facts(x, m, i, 0);
}

proof fn lemma_bit_single(i: u64, j: u64)
    requires
        i < 64,
        j < 64,
    ensures
        (((1u64 << i) >> j) & 1u64 == 1u64) == (i == j),
{
    lemma_bit_facts(0, 0, i, j);
}

proof fn lemma_mask_bits(i: u64)
    requires
        i < 64,
    ensures
        ((0x7FFF_FFFF_FFFF_FFFFu64 >> i) & 1u64 == 1u64) == (i < 63),
        ((0x3_FFFFu64 >> i) & 1u64 == 1u64) == (i < 18),
{
    lemma_bit_facts(0, 0, i, 0);
}

proof fn lemma_small_high_bits(x: u64, i: u64)
    requires
        i < 64,
    ensures
        x <= 0x7FFF_FFFF_FFFF_FFFFu64 && i >= 63 ==> (x >> i) & 1u64 != 1u64,
        x <= 0x3_FFFFu64 && i >= 18 ==> (x >> i) & 1u64 != 1u64,
{
    lemma_bit_facts(x, 0, i, 0);
}

proof fn lemma_zero_bits(i: u64)
    requires
        i < 64,
    ensures
        (0u64 >> i) & 1u64 != 1u64,
{
    lemma_bit_facts(0, 0, i, 0);
}

/// A set of squares. Bits 0..=62 of `p[0]` hold squares 0..=62 and bits 0..=17 of
/// `p[1]` hold squares 63..=80.
#[derive(Clone, Copy, PartialEq, Eq, Default, Debug)]
pub struct Bitboard {
    pub p: [u64; 2],
}

impl View for Bitboard {
    type V = Set<int>;

    /// The board squares (0..81) that are set.
    open spec fn view(&self) -> Set<int> {
        Set::new(|sq: int| 0 <= sq < 81 && self.has(sq))
    }
}

/// The board squares 0..81.
pub open spec fn all_squares() -> Set<int> {
    Set::new(|sq: int| 0 <= sq < 81)
}

impl Bitboard {
    /// Square `sq` (any index the two words can address, 0..127) is set.
    pub open spec fn has(self, sq: int) -> bool {
        if 0 <= sq < 63 {
            bit(self.p[0], sq)
        } else if 63 <= sq < 127 {
            bit(self.p[1], sq - 63)
        } else {
            false
        }
    }

    /// No bit outside the 81 board squares is set.
    pub open spec fn wf(self) -> bool {
        self.p[0] <= MASK0 && self.p[1] <= MASK1
    }

    /// Order used to show that draining a bitboard terminates.
    pub open spec fn measure(self) -> nat {
        (self.p[1] as nat) * 0x1_0000_0000_0000_0000nat + (self.p[0] as nat)
    }

    pub open spec fn spec_words(a: u64, b: u64) -> Bitboard {
        Bitboard { p: [a, b] }
    }

    pub open spec fn spec_and(self, o: Bitboard) -> Bitboard {
        Bitboard { p: [self.p[0] & o.p[0], self.p[1] & o.p[1]] }
    }

    pub open spec fn spec_or(self, o: Bitboard) -> Bitboard {
        Bitboard { p: [self.p[0] | o.p[0], self.p[1] | o.p[1]] }
    }

    pub open spec fn spec_xor(self, o: Bitboard) -> Bitboard {
        Bitboard { p: [self.p[0] ^ o.p[0], self.p[1] ^ o.p[1]] }
    }

    /// Complement within the 81 board squares.
    pub open spec fn spec_not(self) -> Bitboard {
        Bitboard { p: [!self.p[0] & MASK0, !self.p[1] & MASK1] }
    }

    pub open spec fn spec_single(sq: int) -> Bitboard {
        if sq < 63 {
            Bitboard { p: [1u64 << (sq as u64), 0] }
        } else {
            Bitboard { p: [0, 1u64 << ((sq - 63) as u64)] }
        }
    }

    pub open spec fn spec_set(self, sq: int) -> Bitboard {
        self.spec_or(Bitboard::spec_single(sq))
    }

    pub open spec fn spec_clear(self, sq: int) -> Bitboard {
        self.spec_and(Bitboard::spec_single(sq).spec_not())
    }

    pub open spec fn spec_toggle(self, sq: int) -> Bitboard {
        self.spec_xor(Bitboard::spec_single(sq))
    }

    /// Number of set bits in both words.
    pub open spec fn spec_count(self) -> nat {
        popcount(self.p[0]) + popcount(self.p[1])
    }

    /// Lowest set bit as a square index, reading word 0 before word 1.
    pub open spec fn spec_lsb(self) -> Option<u8> {
        if self.p[0] != 0 {
            Some(vstd::std_specs::bits::u64_trailing_zeros(self.p[0]) as u8)
        } else if self.p[1] != 0 {
            Some((63 + vstd::std_specs::bits::u64_trailing_zeros(self.p[1])) as u8)
        } else {
            None
        }
    }

    /// Highest set bit as a square index, reading word 1 before word 0.
    pub open spec fn spec_msb(self) -> Option<u8> {
        if self.p[1] != 0 {
            Some((63 + 63 - vstd::std_specs::bits::u64_leading_zeros(self.p[1])) as u8)
        } else if self.p[0] != 0 {
            Some((63 - vstd::std_specs::bits::u64_leading_zeros(self.p[0])) as u8)
        } else {
            None
        }
    }

    /// The set squares below `n`, ascending.
    pub open spec fn squares_below(self, n: int) -> Seq<u8>
        decreases n,
    {
        if n <= 0 {
            Seq::empty()
        } else if self.has(n - 1) {
            self.squares_below(n - 1).push((n - 1) as u8)
        } else {
            self.squares_below(n - 1)
        }
    }

    /// The set board squares, ascending.
    pub open spec fn squares(self) -> Seq<u8> {
        self.squares_below(81)
    }

    /// The squares that popping the lowest square repeatedly yields, in order.
    pub open spec fn drain(self) -> Seq<u8>
        decreases self.measure(),
    {
        match self.spec_lsb() {
            None => Seq::empty(),
            Some(s) => {
                if self.spec_clear(s as int).measure() < self.measure() {
                    seq![s].add(self.spec_clear(s as int).drain())
                } else {
                    Seq::empty()
                }
            },
        }
    }

    /// The bitboard with no square set.
    pub fn empty() -> (r: Bitboard)
        ensures
            r == Bitboard::spec_words(0, 0),
            r.wf(),
            r@ == Set::<int>::empty(),
    {
        proof {
            lemma_empty_view(Bitboard::spec_words(0, 0));
        }
        Bitboard { p: [0, 0] }
    }

    pub fn from_word(word: usize, bits: u64) -> (r: Bitboard)
        ensures
            r == (if word == 0 {
                Bitboard::spec_words(bits, 0)
            } else {
                Bitboard::spec_words(0, bits)
            }),
    {
        if word == 0 {
            Bitboard { p: [bits, 0] }
        } else {
            Bitboard { p: [0, bits] }
        }
    }

    pub fn single(sq: Square) -> (r: Bitboard)
        requires
            sq < 127,
        ensures
            r == Bitboard::spec_single(sq as int),
            forall|t: int| #[trigger] r.has(t) <==> t == sq,
            sq < 81 ==> r.wf() && r@ == set![sq as int],
    {
        proof {
            lemma_single_has(sq as int);
        }
        let sq = sq as u32;
        if sq < WORD0_SQUARES {
            Bitboard { p: [1u64 << sq, 0] }
        } else {
            Bitboard { p: [0, 1u64 << (sq - WORD0_SQUARES)] }
        }
    }

    pub fn contains(self, sq: Square) -> (r: bool)
        requires
            sq < 127,
        ensures
            r == self.has(sq as int),
            sq < 81 ==> r == self@.contains(sq as int),
    {
        let sq = sq as u64;
        if sq < 63 {
            let w = self.p[0];
            proof {
                lemma_word_bounds(w, 0, sq);
            }
            (w >> sq) & 1 != 0
        } else {
            let w = self.p[1];
            let k = sq - 63;
            proof {
                lemma_word_bounds(w, 0, k);
            }
            (w >> k) & 1 != 0
        }
    }

    pub fn and(self, o: Bitboard) -> (r: Bitboard)
        ensures
            r == self.spec_and(o),
            r@ == self@.intersect(o@),
            self.wf() || o.wf() ==> r.wf(),
    {
        proof {
            lemma_and_view(self, o);
        }
        Bitboard { p: [self.p[0] & o.p[0], self.p[1] & o.p[1]] }
    }

    pub fn or(self, o: Bitboard) -> (r: Bitboard)
        ensures
            r == self.spec_or(o),
            r@ == self@.union(o@),
            self.wf() && o.wf() ==> r.wf(),
    {
        proof {
            lemma_or_view(self, o);
        }
        Bitboard { p: [self.p[0] | o.p[0], self.p[1] | o.p[1]] }
    }

    pub fn xor(self, o: Bitboard) -> (r: Bitboard)
        ensures
            r == self.spec_xor(o),
            r@ == self@.difference(o@).union(o@.difference(self@)),
            self.wf() && o.wf() ==> r.wf(),
    {
        proof {
            lemma_xor_view(self, o);
        }
        Bitboard { p: [self.p[0] ^ o.p[0], self.p[1] ^ o.p[1]] }
    }

    /// Complement, masked to exactly the 81 board squares so that stray high bits
    /// never leak into counts or iteration.
    pub fn not(self) -> (r: Bitboard)
        ensures
            r == self.spec_not(),
            r.wf(),
            r@ == all_squares().difference(self@),
    {
        proof {
            lemma_not_view(self);
        }
        Bitboard { p: [!self.p[0] & MASK0, !self.p[1] & MASK1] }
    }

    /// The squares of `self` that are not in `rhs`.
    pub fn andnot(self, rhs: Bitboard) -> (r: Bitboard)
        ensures
            r == self.spec_and(rhs.spec_not()),
            r@ == self@.difference(rhs@),
            r.wf(),
    {
        let n = rhs.not();
        let r = self.and(n);
        assert(r@ =~= self@.difference(rhs@));
        r
    }

    pub fn set(&mut self, sq: Square)
        requires
            sq < 127,
        ensures
            *final(self) == old(self).spec_set(sq as int),
            sq < 81 ==> final(self)@ == old(self)@.insert(sq as int),
            sq < 81 && old(self).wf() ==> final(self).wf(),
    {
        let s = Bitboard::single(sq);
        let r = self.or(s);
        proof {
            if sq < 81 {
                assert(r@ =~= old(self)@.insert(sq as int));
            }
        }
        *self = r;
    }

    pub fn clear(&mut self, sq: Square)
        requires
            sq < 127,
        ensures
            *final(self) == old(self).spec_clear(sq as int),
            final(self)@ == old(self)@.remove(sq as int),
            final(self).wf(),
    {
        let s = Bitboard::single(sq);
        let n = s.not();
        let r = self.and(n);
        proof {
            assert(r@ =~= old(self)@.remove(sq as int));
        }
        *self = r;
    }

    pub fn toggle(&mut self, sq: Square)
        requires
            sq < 127,
        ensures
            *final(self) == old(self).spec_toggle(sq as int),
            sq < 81 && !old(self)@.contains(sq as int) ==> final(self)@ == old(self)@.insert(
                sq as int,
            ),
            sq < 81 && old(self)@.contains(sq as int) ==> final(self)@ == old(self)@.remove(
                sq as int,
            ),
            sq < 81 && old(self).wf() ==> final(self).wf(),
    {
        let s = Bitboard::single(sq);
        let r = self.xor(s);
        proof {
            if sq < 81 {
                if old(self)@.contains(sq as int) {
                    assert(r@ =~= old(self)@.remove(sq as int));
                } else {
                    assert(r@ =~= old(self)@.insert(sq as int));
                }
            }
        }
        *self = r;
    }

    pub fn is_empty(self) -> (r: bool)
        ensures
            r == (self.p[0] == 0 && self.p[1] == 0),
            self.wf() ==> r == (self@ == Set::<int>::empty()),
    {
        proof {
            lemma_empty_view(self);
        }
        self.p[0] == 0 && self.p[1] == 0
    }

    pub fn count_ones(self) -> (r: u32)
        ensures
            r == self.spec_count(),
    {
        count_word(self.p[0]) + count_word(self.p[1])
    }

    /// Lowest-numbered set square, or None if empty.
    pub fn lsb(self) -> (r: Option<Square>)
        ensures
            r == self.spec_lsb(),
            self.wf() ==> match r {
                Some(s) => s < 81 && self@.contains(s as int) && forall|t: int|
                    0 <= t < s ==> !#[trigger] self@.contains(t),
                None => self@ == Set::<int>::empty(),
            },
    {
        proof {
            lemma_lsb_view(self);
        }
        if self.p[0] != 0 {
            Some(self.p[0].trailing_zeros() as Square)
        } else if self.p[1] != 0 {
            Some((WORD0_SQUARES + self.p[1].trailing_zeros()) as Square)
        } else {
            None
        }
    }

    /// Highest-numbered set square, or None if empty.
    pub fn msb(self) -> (r: Option<Square>)
        ensures
            r == self.spec_msb(),
            self.wf() ==> match r {
                Some(s) => s < 81 && self@.contains(s as int) && forall|t: int|
                    s < t ==> !#[trigger] self@.contains(t),
                None => self@ == Set::<int>::empty(),
            },
    {
        proof {
            lemma_msb_view(self);
        }
        if self.p[1] != 0 {
            let lz = self.p[1].leading_zeros();
            Some((WORD0_SQUARES + 63 - lz) as Square)
        } else if self.p[0] != 0 {
            let lz = self.p[0].leading_zeros();
            Some((63 - lz) as Square)
        } else {
            None
        }
    }

    /// Pop and return the lowest-numbered set square.
    pub fn pop_lsb(&mut self) -> (r: Option<Square>)
        ensures
            r == old(self).spec_lsb(),
            r is None ==> *final(self) == *old(self),
            r matches Some(s) ==> *final(self) == old(self).spec_clear(s as int)
                && final(self).wf() && final(self)@ == old(self)@.remove(s as int)
                && final(self).measure() < old(self).measure(),
            old(self).wf() ==> match r {
                Some(s) => s < 81 && old(self)@.contains(s as int),
                None => old(self)@ == Set::<int>::empty(),
            },
    {
        let sq = self.lsb();
        match sq {
            None => None,
            Some(s) => {
                proof {
                    lemma_lsb_clear_decreases(*old(self));
                }
                self.clear(s);
                Some(s)
            },
        }
    }

    pub fn iter(self) -> (r: BitboardIter)
        ensures
            r.rest() == self,
    {
        BitboardIter(self)
    }
}

/// The bits of `w` counted one by one.
fn count_word(w: u64) -> (r: u32)
    ensures
        r == popcount(w),
        r <= 64,
{
    let mut c: u32 = 0;
    let mut i: u64 = 0;
    while i < 64
        invariant
            i <= 64,
            c == bits_below(w, i as int),
            c <= i,
        decreases 64 - i,
    {
        let b = (w >> i) & 1;
        proof {
            lemma_word_bounds(w, 0, i);
            assert(bit(w, i as int) == (b == 1));
        }
        c = c + b as u32;
        i = i + 1;
    }
    c
}

/// Pops the squares of a bitboard from the lowest up.
pub struct BitboardIter(Bitboard);

impl BitboardIter {
    /// The squares that are still to come.
    pub closed spec fn rest(self) -> Bitboard {
        self.0
    }

    pub fn next(&mut self) -> (r: Option<Square>)
        ensures
            r == old(self).rest().spec_lsb(),
            r is None ==> final(self).rest() == old(self).rest(),
            r matches Some(s) ==> final(self).rest() == old(self).rest().spec_clear(s as int)
                && final(self).rest().measure() < old(self).rest().measure(),
    {
        self.0.pop_lsb()
    }

    /// All the squares that the iterator still yields, in order.
    pub fn collect(self) -> (r: Vec<Square>)
        ensures
            r@ == self.rest().drain(),
            self.rest().wf() ==> r@ == self.rest().squares(),
    {
        let ghost start = self.rest();
        let mut it = self;
        let mut out: Vec<Square> = Vec::new();
        proof {
            lemma_drain_unfold(it.rest());
        }
        loop
            invariant
                out@ + it.rest().drain() == start.drain(),
            ensures
                out@ == start.drain(),
            decreases it.rest().measure(),
        {
            let ghost before = it.rest();
            proof {
                lemma_drain_unfold(before);
            }
            match it.next() {
                None => {
                    assert(out@ =~= start.drain());
                    break ;
                },
                Some(s) => {
                    out.push(s);
                    assert(out@ + it.rest().drain() =~= start.drain());
                },
            }
        }
        proof {
            if start.wf() {
                lemma_drain_is_squares(start);
            }
        }
        out
    }
}

proof fn lemma_single_has(sq: int)
    requires
        0 <= sq < 127,
    ensures
        forall|t: int| #[trigger] Bitboard::spec_single(sq).has(t) <==> t == sq,
        sq < 81 ==> Bitboard::spec_single(sq).wf() && Bitboard::spec_single(sq)@ == set![sq],
{
    let b = Bitboard::spec_single(sq);
    assert forall|t: int| #[trigger] b.has(t) <==> t == sq by {
        if 0 <= t < 63 {
            if sq < 63 {
                lemma_bit_single(sq as u64, t as u64);
            } else {
                lemma_zero_bits(t as u64);
            }
        } else if 63 <= t < 127 {
            if sq < 63 {
                lemma_zero_bits((t - 63) as u64);
            } else {
                lemma_bit_single((sq - 63) as u64, (t - 63) as u64);
            }
        }
    }
    if sq < 81 {
        if sq < 63 {
            let s = sq as u64;
            lemma_word_bounds(0, 0, s);
        } else {
            let s = (sq - 63) as u64;
            lemma_word_bounds(0, 0, s);
        }
        assert(b@ =~= set![sq]);
    }
}

/// Bits above the board squares are clear in a well-formed bitboard.
pub proof fn lemma_wf_no_high(b: Bitboard)
    requires
        b.wf(),
    ensures
        forall|t: int| #[trigger] b.has(t) ==> 0 <= t < 81,
{
    assert forall|t: int| #[trigger] b.has(t) implies 0 <= t < 81 by {
        if 81 <= t < 127 {
            lemma_small_high_bits(b.p[1], (t - 63) as u64);
        }
    }
}

proof fn lemma_and_view(a: Bitboard, o: Bitboard)
    ensures
        a.spec_and(o)@ == a@.intersect(o@),
        forall|t: int| #[trigger] a.spec_and(o).has(t) == (a.has(t) && o.has(t)),
        a.wf() || o.wf() ==> a.spec_and(o).wf(),
{
    let r = a.spec_and(o);
    assert forall|t: int| #[trigger] r.has(t) == (a.has(t) && o.has(t)) by {
        if 0 <= t < 63 {
            lemma_bit_and(a.p[0], o.p[0], t as u64);
        } else if 63 <= t < 127 {
            lemma_bit_and(a.p[1], o.p[1], (t - 63) as u64);
        }
    }
    assert(r@ =~= a@.intersect(o@));
    let (x0, y0, x1, y1) = (a.p[0], o.p[0], a.p[1], o.p[1]);
    lemma_word_bounds(x0, y0, 0);
    lemma_word_bounds(x1, y1, 0);
}

proof fn lemma_or_view(a: Bitboard, o: Bitboard)
    ensures
        a.spec_or(o)@ == a@.union(o@),
        forall|t: int| #[trigger] a.spec_or(o).has(t) == (a.has(t) || o.has(t)),
        a.wf() && o.wf() ==> a.spec_or(o).wf(),
{
    let r = a.spec_or(o);
    assert forall|t: int| #[trigger] r.has(t) == (a.has(t) || o.has(t)) by {
        if 0 <= t < 63 {
            lemma_bit_or(a.p[0], o.p[0], t as u64);
        } else if 63 <= t < 127 {
            lemma_bit_or(a.p[1], o.p[1], (t - 63) as u64);
        }
    }
    assert(r@ =~= a@.union(o@));
    let (x0, y0, x1, y1) = (a.p[0], o.p[0], a.p[1], o.p[1]);
    lemma_word_bounds(x0, y0, 0);
    lemma_word_bounds(x1, y1, 0);
}

proof fn lemma_xor_view(a: Bitboard, o: Bitboard)
    ensures
        a.spec_xor(o)@ == a@.difference(o@).union(o@.difference(a@)),
        forall|t: int| #[trigger] a.spec_xor(o).has(t) == (a.has(t) != o.has(t)),
        a.wf() && o.wf() ==> a.spec_xor(o).wf(),
{
    let r = a.spec_xor(o);
    assert forall|t: int| #[trigger] r.has(t) == (a.has(t) != o.has(t)) by {
        if 0 <= t < 63 {
            lemma_bit_xor(a.p[0], o.p[0], t as u64);
        } else if 63 <= t < 127 {
            lemma_bit_xor(a.p[1], o.p[1], (t - 63) as u64);
        }
    }
    assert(r@ =~= a@.difference(o@).union(o@.difference(a@)));
    let (x0, y0, x1, y1) = (a.p[0], o.p[0], a.p[1], o.p[1]);
    lemma_word_bounds(x0, y0, 0);
    lemma_word_bounds(x1, y1, 0);
}

proof fn lemma_not_view(a: Bitboard)
    ensures
        a.spec_not()@ == all_squares().difference(a@),
        a.spec_not().wf(),
        forall|t: int|
            #![trigger a.spec_not().has(t)]
            0 <= t < 81 ==> (a.spec_not().has(t) == !a.has(t)),
        forall|t: int| #[trigger] a.spec_not().has(t) ==> 0 <= t < 81,
{
    let r = a.spec_not();
    let (x0, x1) = (a.p[0], a.p[1]);
    lemma_word_bounds(x0, 0, 0);
    lemma_word_bounds(x1, 0, 0);
    assert forall|t: int|
        #![trigger r.has(t)]
        0 <= t < 81 ==> (r.has(t) == !a.has(t)) by {
        if 0 <= t < 63 {
            lemma_bit_not_mask(x0, MASK0, t as u64);
            lemma_mask_bits(t as u64);
        } else if 63 <= t < 81 {
            lemma_bit_not_mask(x1, MASK1, (t - 63) as u64);
            lemma_mask_bits((t - 63) as u64);
        }
    }
    lemma_wf_no_high(r);
    assert(r@ =~= all_squares().difference(a@));
}

proof fn lemma_empty_view(a: Bitboard)
    ensures
        a.wf() ==> ((a.p[0] == 0 && a.p[1] == 0) == (a@ == Set::<int>::empty())),
{
    if a.wf() {
        if a.p[0] == 0 && a.p[1] == 0 {
            assert forall|t: int| !#[trigger] a@.contains(t) by {
                if 0 <= t < 63 {
                    lemma_zero_bits(t as u64);
                } else if 63 <= t < 81 {
                    lemma_zero_bits((t - 63) as u64);
                }
            }
            assert(a@ =~= Set::<int>::empty());
        } else {
            if a.p[0] != 0 {
                let x = a.p[0];
                let tz = vstd::std_specs::bits::u64_trailing_zeros(x);
                lemma_word_bounds(x, 0, 0);
                assert(a@.contains(tz as int));
            } else {
                let x = a.p[1];
                let tz = vstd::std_specs::bits::u64_trailing_zeros(x);
                lemma_small_high_bits(x, tz as u64);
                assert(a@.contains(63 + tz as int));
            }
        }
    }
}

proof fn lemma_lsb_view(a: Bitboard)
    ensures
        a.wf() ==> match a.spec_lsb() {
            Some(s) => s < 81 && a@.contains(s as int) && forall|t: int|
                0 <= t < s ==> !#[trigger] a@.contains(t),
            None => a@ == Set::<int>::empty(),
        },
{
    lemma_empty_view(a);
    if a.wf() {
        if a.p[0] != 0 {
            let x = a.p[0];
            let tz = vstd::std_specs::bits::u64_trailing_zeros(x);
            lemma_word_bounds(x, 0, 0);
            assert forall|t: int| 0 <= t < tz implies !#[trigger] a@.contains(t) by {
                assert((x >> (t as u64)) & 1u64 == 0u64);
            }
        } else if a.p[1] != 0 {
            let x = a.p[1];
            let tz = vstd::std_specs::bits::u64_trailing_zeros(x);
            lemma_small_high_bits(x, tz as u64);
            assert forall|t: int| 0 <= t < 63 + tz implies !#[trigger] a@.contains(t) by {
                if t < 63 {
                    lemma_zero_bits(t as u64);
                } else {
                    assert((x >> ((t - 63) as u64)) & 1u64 == 0u64);
                }
            }
        }
    }
}

proof fn lemma_msb_view(a: Bitboard)
    ensures
        a.wf() ==> match a.spec_msb() {
            Some(s) => s < 81 && a@.contains(s as int) && forall|t: int|
                s < t ==> !#[trigger] a@.contains(t),
            None => a@ == Set::<int>::empty(),
        },
{
    lemma_empty_view(a);
    if a.wf() {
        if a.p[1] != 0 {
            let x = a.p[1];
            let lz = vstd::std_specs::bits::u64_leading_zeros(x);
            let s = 63 - lz;
            let su = s as u64;
            assert((x >> su) & 1u64 != 0u64);
            lemma_word_bounds(x, 0, su);
            assert(s < 18) by {
                if s >= 18 {
                    lemma_small_high_bits(x, su);
                }
            }
            assert forall|t: int| 63 + s < t implies !#[trigger] a@.contains(t) by {
                if t < 81 {
                    assert((x >> ((t - 63) as u64)) & 1u64 == 0u64);
                }
            }
        } else if a.p[0] != 0 {
            let x = a.p[0];
            let lz = vstd::std_specs::bits::u64_leading_zeros(x);
            let s = 63 - lz;
            let su = s as u64;
            assert((x >> su) & 1u64 != 0u64);
            lemma_word_bounds(x, 0, su);
            assert(s < 63) by {
                if s >= 63 {
                    lemma_small_high_bits(x, su);
                }
            }
            assert forall|t: int| s < t implies !#[trigger] a@.contains(t) by {
                if t < 63 {
                    assert((x >> (t as u64)) & 1u64 == 0u64);
                } else if t < 81 {
                    lemma_zero_bits((t - 63) as u64);
                }
            }
        }
    }
}

/// Clearing the lowest square of a non-empty bitboard makes it strictly smaller.
proof fn lemma_lsb_clear_decreases(a: Bitboard)
    ensures
        a.spec_lsb() matches Some(s) ==> a.spec_clear(s as int).measure() < a.measure()
            && a.spec_clear(s as int).wf(),
{
    if let Some(s) = a.spec_lsb() {
        let c = a.spec_clear(s as int);
        lemma_not_view(Bitboard::spec_single(s as int));
        lemma_and_view(a, Bitboard::spec_single(s as int).spec_not());
        if a.p[0] != 0 {
            let tz = vstd::std_specs::bits::u64_trailing_zeros(a.p[0]);
            let t = tz as u64;
            assert(t < 64);
            assert(s as int == t as int);
            let x = a.p[0];
            let y = a.p[1];
            if t < 63 {
                assert(Bitboard::spec_single(s as int).p[0] == 1u64 << t);
                assert(Bitboard::spec_single(s as int).p[1] == 0);
                lemma_word_bounds(x, MASK0, t);
                lemma_word_bounds(x, y, 0);
            } else {
                assert(Bitboard::spec_single(s as int).p[0] == 0);
                assert(Bitboard::spec_single(s as int).p[1] == 1u64 << 0u64);
                lemma_word_bounds(x, y, 0);
            }
            assert(c.p[0] < a.p[0]);
            assert(c.p[1] <= a.p[1]);
        } else {
            let tz = vstd::std_specs::bits::u64_trailing_zeros(a.p[1]);
            let t = tz as u64;
            assert(t < 64);
            assert(s as int == 63 + t as int);
            assert(Bitboard::spec_single(s as int).p[1] == 1u64 << t);
            assert(Bitboard::spec_single(s as int).p[0] == 0);
            lemma_word_bounds(a.p[1], MASK1, t);
            let x = a.p[0];
            lemma_word_bounds(x, 0, 0);
            assert(c.p[1] < a.p[1]);
            assert(c.p[0] == 0);
        }
    }
}

proof fn lemma_drain_unfold(a: Bitboard)
    ensures
        a.drain() == match a.spec_lsb() {
            None => Seq::<u8>::empty(),
            Some(s) => seq![s].add(a.spec_clear(s as int).drain()),
        },
{
    lemma_lsb_clear_decreases(a);
}

proof fn lemma_squares_below_empty(a: Bitboard, n: int)
    requires
        forall|t: int| 0 <= t < n ==> !#[trigger] a.has(t),
    ensures
        a.squares_below(n) == Seq::<u8>::empty(),
    decreases n,
{
    if n > 0 {
        lemma_squares_below_empty(a, n - 1);
    }
}

proof fn lemma_squares_below_same(a: Bitboard, b: Bitboard, n: int)
    requires
        forall|t: int| 0 <= t < n ==> (#[trigger] a.has(t) == b.has(t)),
    ensures
        a.squares_below(n) == b.squares_below(n),
    decreases n,
{
    if n > 0 {
        lemma_squares_below_same(a, b, n - 1);
    }
}

/// With the lowest square `s` removed, the ascending list loses its first element.
proof fn lemma_squares_below_pop(a: Bitboard, c: Bitboard, s: int, n: int)
    requires
        0 <= s < n <= 127,
        a.has(s),
        !c.has(s),
        forall|t: int| 0 <= t < s ==> !#[trigger] a.has(t),
        forall|t: int| 0 <= t < 127 && t != s ==> (#[trigger] c.has(t) == a.has(t)),
    ensures
        a.squares_below(n) == seq![s as u8].add(c.squares_below(n)),
    decreases n,
{
    if n == s + 1 {
        lemma_squares_below_empty(a, s);
        lemma_squares_below_empty(c, s + 1);
        assert(a.squares_below(n) =~= seq![s as u8].add(c.squares_below(n)));
    } else {
        lemma_squares_below_pop(a, c, s, n - 1);
        assert(a.squares_below(n) =~= seq![s as u8].add(c.squares_below(n)));
    }
}

/// For a well-formed bitboard, popping squares from the lowest up yields exactly the
/// set squares in ascending order.
pub proof fn lemma_drain_is_squares(a: Bitboard)
    requires
        a.wf(),
    ensures
        a.drain() == a.squares(),
    decreases a.measure(),
{
    lemma_drain_unfold(a);
    lemma_lsb_view(a);
    match a.spec_lsb() {
        None => {
            lemma_empty_view(a);
            assert forall|t: int| 0 <= t < 81 implies !#[trigger] a.has(t) by {
                assert(!a@.contains(t));
            }
            lemma_squares_below_empty(a, 81);
        },
        Some(s) => {
            let c = a.spec_clear(s as int);
            lemma_lsb_clear_decreases(a);
            lemma_and_view(a, Bitboard::spec_single(s as int).spec_not());
            lemma_not_view(Bitboard::spec_single(s as int));
            lemma_single_has(s as int);
            lemma_wf_no_high(a);
            lemma_wf_no_high(c);
            lemma_drain_is_squares(c);
            assert forall|t: int| 0 <= t < s implies !#[trigger] a.has(t) by {
                assert(!a@.contains(t));
            }
            assert forall|t: int| 0 <= t < 127 && t != s implies (#[trigger] c.has(t) == a.has(
                t,
            )) by {
                if t < 81 {
                    assert(Bitboard::spec_single(s as int).spec_not().has(t));
                }
            }
            lemma_squares_below_pop(a, c, s as int, 81);
        },
    }
}


impl core::ops::Not for Bitboard {
    type Output = Bitboard;

    fn not(self) -> (r: Bitboard)
        ensures
            r == self.spec_not(),
    {
        Bitboard::not(self)
    }
}

impl vstd::std_specs::ops::NotSpecImpl for Bitboard {
    open spec fn obeys_not_spec() -> bool {
        true
    }

    open spec fn not_req(self) -> bool {
        true
    }

    open spec fn not_spec(self) -> Bitboard {
        self.spec_not()
    }
}

impl core::ops::BitAnd for Bitboard {
    type Output = Bitboard;

    fn bitand(self, rhs: Bitboard) -> (r: Bitboard)
        ensures
            r == self.spec_and(rhs),
    {
        self.and(rhs)
    }
}

impl vstd::std_specs::ops::BitAndSpecImpl for Bitboard {
    open spec fn obeys_bitand_spec() -> bool {
        true
    }

    open spec fn bitand_req(self, rhs: Bitboard) -> bool {
        true
    }

    open spec fn bitand_spec(self, rhs: Bitboard) -> Bitboard {
        self.spec_and(rhs)
    }
}

impl core::ops::BitOr for Bitboard {
    type Output = Bitboard;

    fn bitor(self, rhs: Bitboard) -> (r: Bitboard)
        ensures
            r == self.spec_or(rhs),
    {
        self.or(rhs)
    }
}

impl vstd::std_specs::ops::BitOrSpecImpl for Bitboard {
    open spec fn obeys_bitor_spec() -> bool {
        true
    }

    open spec fn bitor_req(self, rhs: Bitboard) -> bool {
        true
    }

    open spec fn bitor_spec(self, rhs: Bitboard) -> Bitboard {
        self.spec_or(rhs)
    }
}

impl core::ops::BitXor for Bitboard {
    type Output = Bitboard;

    fn bitxor(self, rhs: Bitboard) -> (r: Bitboard)
        ensures
            r == self.spec_xor(rhs),
    {
        self.xor(rhs)
    }
}

impl vstd::std_specs::ops::BitXorSpecImpl for Bitboard {
    open spec fn obeys_bitxor_spec() -> bool {
        true
    }

    open spec fn bitxor_req(self, rhs: Bitboard) -> bool {
        true
    }

    open spec fn bitxor_spec(self, rhs: Bitboard) -> Bitboard {
        self.spec_xor(rhs)
    }
}

} // verus!
