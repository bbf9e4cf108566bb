//! Transposition table. Single-slot-per-index (no clustering) with a full 64-bit key
//! comparison and a full `Move` stored, so a stored move never needs reconstructing
//! against the current board.
use crate::mov::{move_none, Move};
use vstd::arithmetic::power2::{lemma_pow2_unfold, pow2};
use vstd::prelude::*;

verus! {

/// How a stored score relates to the true value of the position.
#[derive(Clone, Copy, PartialEq, Eq, Structural, Debug)]
pub enum Bound {
    NoBound,
    Exact,
    Lower,
    Upper,
}

#[derive(Clone, Copy)]
pub struct TTEntry {
    pub key: u64,
    pub mv: Move,
    pub score: i32,
    pub eval: i32,
    pub depth: i32,
    pub bound: Bound,
}

/// The empty slot.
pub open spec fn spec_default_entry() -> TTEntry {
    TTEntry { key: 0, mv: Move(0), score: 0, eval: 0, depth: -1i32, bound: Bound::NoBound }
}

impl TTEntry {
    /// The empty slot: no bound, depth -1.
    pub fn empty() -> (r: TTEntry)
        ensures
            r == spec_default_entry(),
    {
        TTEntry { key: 0, mv: move_none(), score: 0, eval: 0, depth: -1, bound: Bound::NoBound }
    }
}

impl Default for TTEntry {
    fn default() -> (r: TTEntry)
        ensures
            r == spec_default_entry(),
    {
        TTEntry::empty()
    }
}

pub struct TranspositionTable {
    entries: Vec<TTEntry>,
    mask: usize,
}

/// The entry size the table divides its byte budget by.
pub open spec fn entry_size() -> int {
    if vstd::layout::size_of::<TTEntry>() < 1 {
        1
    } else {
        vstd::layout::size_of::<TTEntry>() as int
    }
}

/// A table of `mb` megabytes (at least one) can be laid out: its byte count fits in a
/// `usize`, and so does the power of two its entry count is rounded up to.
pub open spec fn table_size_ok(mb: int) -> bool {
    let bytes = (if mb < 1 {
        1
    } else {
        mb
    }) * 1048576;
    &&& bytes <= usize::MAX
    &&& bytes / entry_size() <= usize::MAX / 2 + 1
}

/// Any table of at most 1024 megabytes can be laid out on every target.
pub proof fn lemma_small_table_ok(mb: int)
    requires
        0 <= mb <= 1024,
    ensures
        table_size_ok(mb),
{
    let bytes = (if mb < 1 {
        1
    } else {
        mb
    }) * 1048576;
    let d = entry_size();
    assert(bytes / d <= bytes) by (nonlinear_arith)
        requires
            bytes >= 0,
            d >= 1,
    ;
}

/// The smallest power of two that is at least `n`.
pub open spec fn is_next_pow2(n: nat, p: nat) -> bool {
    &&& exists|k: nat| p == #[trigger] pow2(k)
    &&& p >= n
    &&& (p == 1 || p / 2 < n)
}

fn next_power_of_two(n: usize) -> (r: usize)
    requires
        1 <= n <= usize::MAX / 2 + 1,
    ensures
        is_next_pow2(n as nat, r as nat),
        r <= 2 * n,
{
    let mut p: usize = 1;
    let ghost mut k: nat = 0;
    proof {
        vstd::arithmetic::power2::lemma2_to64();
    }
    while p < n
        invariant
            1 <= n <= usize::MAX / 2 + 1,
            p == pow2(k),
            1 <= p,
            p == 1 || p / 2 < n,
            p <= 2 * n,
        decreases 2 * n - p,
    {
        proof {
            lemma_pow2_unfold(k + 1);
        }
        p = p * 2;
        proof {
            k = k + 1;
        }
    }
    p
}

impl TranspositionTable {
    /// The slots, in index order.
    pub closed spec fn slots(&self) -> Seq<TTEntry> {
        self.entries@
    }

    /// The table has a power-of-two number of slots and indexes by the low key bits.
    pub closed spec fn wf(&self) -> bool {
        &&& self.entries@.len() == self.mask + 1
        &&& exists|k: nat| self.entries@.len() == #[trigger] pow2(k)
    }

    /// The slot that `key` maps to.
    pub closed spec fn slot_of(&self, key: u64) -> int {
        ((key as usize) & self.mask) as int
    }

    /// Whether a table of `mb` megabytes can be laid out (see `table_size_ok`).
    pub fn fits(mb: usize) -> (r: bool)
        ensures
            r == table_size_ok(mb as int),
    {
        let m = if mb < 1 {
            1
        } else {
            mb
        };
        if m > usize::MAX / 1048576 {
            proof {
                assert(m * 1048576 > usize::MAX) by (nonlinear_arith)
                    requires
                        m > usize::MAX / 1048576,
                ;
            }
            return false;
        }
        proof {
            assert(m * 1048576 <= usize::MAX) by (nonlinear_arith)
                requires
                    m <= usize::MAX / 1048576,
            ;
        }
        let bytes = m * 1048576;
        let sz = core::mem::size_of::<TTEntry>();
        let es = if sz < 1 {
            1
        } else {
            sz
        };
        bytes / es <= usize::MAX / 2 + 1
    }

    /// A table of about `mb` megabytes: the number of entries that fit, at least 1024,
    /// rounded up to a power of two and then halved.
    pub fn new(mb: usize) -> (r: TranspositionTable)
        requires
            table_size_ok(mb as int),
        ensures
            r.wf(),
            forall|i: int| 0 <= i < r.slots().len() ==> #[trigger] r.slots()[i] == spec_default_entry(),
            ({
                let bytes = (if mb < 1 {
                    1
                } else {
                    mb as int
                }) * 1024 * 1024;
                let per = bytes / (if vstd::layout::size_of::<TTEntry>() < 1 {
                    1
                } else {
                    vstd::layout::size_of::<TTEntry>() as int
                });
                let n = if per < 1024 {
                    1024
                } else {
                    per
                };
                is_next_pow2(n as nat, 2 * r.slots().len())
            }),
    {
        let m = if mb < 1 {
            1
        } else {
            mb
        };
        let bytes = m * 1024 * 1024;
        let sz = core::mem::size_of::<TTEntry>();
        let entry_size = if sz < 1 {
            1
        } else {
            sz
        };
        let per = bytes / entry_size;
        let n0 = if per < 1024 {
            1024
        } else {
            per
        };
        let p = next_power_of_two(n0);
        let n = p / 2;
        let ghost k = choose|k: nat| p == pow2(k);
        proof {
            if k == 0 {
                vstd::arithmetic::power2::lemma2_to64();
                assert(false);
            }
            lemma_pow2_unfold(k);
            assert(n == pow2((k - 1) as nat));
        }
        let mut entries: Vec<TTEntry> = Vec::new();
        while entries.len() < n
            invariant
                entries.len() <= n,
                forall|i: int| 0 <= i < entries.len() ==> #[trigger] entries@[i] == spec_default_entry(),
            decreases n - entries.len(),
        {
            entries.push(TTEntry::empty());
        }
        let r = TranspositionTable { entries, mask: n - 1 };
        assert(r.entries@.len() == pow2((k - 1) as nat));
        r
    }

    fn index(&self, key: u64) -> (r: usize)
        requires
            self.wf(),
        ensures
            r as int == self.slot_of(key),
            r < self.slots().len(),
    {
        proof {
            self.lemma_slot_in_range(key);
        }
        let m = self.mask;
        let k = key as usize;
        k & m
    }

    /// Every key maps to a slot of the table.
    pub proof fn lemma_slot_in_range(&self, key: u64)
        requires
            self.wf(),
        ensures
            0 <= self.slot_of(key) < self.slots().len(),
    {
        lemma_and_le(key as usize, self.mask);
    }

    /// The entry for `key`, if its slot holds one stored under that exact key.
    pub fn probe(&self, key: u64) -> (r: Option<TTEntry>)
        requires
            self.wf(),
        ensures
            ({
                let e = self.slots()[self.slot_of(key)];
                r == if e.bound != Bound::NoBound && e.key == key {
                    Some(e)
                } else {
                    None
                }
            }),
    {
        let e = self.entries[self.index(key)];
        if e.bound != Bound::NoBound && e.key == key {
            Some(e)
        } else {
            None
        }
    }

    /// Stores a search result for `key`. An existing entry for the same key from a
    /// deeper search is kept unless the new bound is exact; a missing move keeps the
    /// move already stored for the same key.
    pub fn store(&mut self, key: u64, mv: Move, score: i32, eval: i32, depth: i32, bound: Bound)
        requires
            old(self).wf(),
        ensures
            final(self).wf(),
            final(self).slot_of(key) == old(self).slot_of(key),
            forall|k: u64| #[trigger] final(self).slot_of(k) == old(self).slot_of(k),
            ({
                let i = old(self).slot_of(key);
                let e = old(self).slots()[i];
                if e.bound != Bound::NoBound && e.key == key && e.depth > depth && bound != Bound::Exact {
                    final(self).slots() == old(self).slots()
                } else {
                    final(self).slots() == old(self).slots().update(
                        i,
                        TTEntry {
                            key,
                            mv: if mv.0 == 0 && e.key == key {
                                e.mv
                            } else {
                                mv
                            },
                            score,
                            eval,
                            depth,
                            bound,
                        },
                    )
                }
            }),
    {
        let idx = self.index(key);
        let slot = self.entries[idx];
        if slot.bound != Bound::NoBound && slot.key == key && slot.depth > depth && bound != Bound::Exact {
            return ;
        }
        let mv = if mv.is_none() && slot.key == key {
            slot.mv
        } else {
            mv
        };
        self.entries.set(idx, TTEntry { key, mv, score, eval, depth, bound });
    }

    /// Empties every slot.
    pub fn clear(&mut self)
        requires
            old(self).wf(),
        ensures
            final(self).wf(),
            final(self).slots().len() == old(self).slots().len(),
            forall|k: u64| #[trigger] final(self).slot_of(k) == old(self).slot_of(k),
            forall|i: int| 0 <= i < final(self).slots().len() ==> #[trigger] final(self).slots()[i] == spec_default_entry(),
    {
        let n = self.entries.len();
        let mut i: usize = 0;
        while i < n
            invariant
                i <= n,
                self.entries@.len() == n,
                self.mask == old(self).mask,
                n == old(self).entries@.len(),
                old(self).wf(),
                forall|j: int| 0 <= j < i ==> #[trigger] self.entries@[j] == spec_default_entry(),
            decreases n - i,
        {
            self.entries.set(i, TTEntry::empty());
            i = i + 1;
        }
    }
}

/// A store that is not skipped is read back by a probe of the same key: the probe
/// finds an entry with that key and the stored score, eval, depth and bound.
pub proof fn lemma_probe_after_store(
    before: TranspositionTable,
    after: TranspositionTable,
    key: u64,
    mv: Move,
    score: i32,
    eval: i32,
    depth: i32,
    bound: Bound,
)
    requires
        before.wf(),
        after.wf(),
        bound != Bound::NoBound,
        after.slot_of(key) == before.slot_of(key),
        ({
            let i = before.slot_of(key);
            let e = before.slots()[i];
            after.slots() == before.slots().update(
                i,
                TTEntry {
                    key,
                    mv: if mv.0 == 0 && e.key == key {
                        e.mv
                    } else {
                        mv
                    },
                    score,
                    eval,
                    depth,
                    bound,
                },
            )
        }),
        0 <= before.slot_of(key) < before.slots().len(),
    ensures
        ({
            let e = after.slots()[after.slot_of(key)];
            &&& e.key == key
            &&& e.score == score
            &&& e.eval == eval
            &&& e.depth == depth
            &&& e.bound == bound
        }),
{
}

proof fn lemma_and_le(k: usize, m: usize)
    by (bit_vector)
    ensures
        k & m <= m,
{
}

pub const MATE: i32 = 30000;

pub const MATE_IN_MAX_PLY: i32 = 29000;

/// Score of delivering mate `ply` plies from the root.
pub fn mate_in(ply: u32) -> (r: i32)
    requires
        ply <= i32::MAX,
    ensures
        r == MATE - ply,
{
    MATE - ply as i32
}

/// Score of being mated `ply` plies from the root.
pub fn mated_in(ply: u32) -> (r: i32)
    requires
        ply <= i32::MAX,
    ensures
        r == -MATE + ply,
{
    -MATE + ply as i32
}

pub open spec fn spec_score_to_tt(score: int, ply: int) -> int {
    if score >= MATE_IN_MAX_PLY {
        score + ply
    } else if score <= -MATE_IN_MAX_PLY {
        score - ply
    } else {
        score
    }
}

pub open spec fn spec_score_from_tt(score: int, ply: int) -> int {
    if score >= MATE_IN_MAX_PLY {
        score - ply
    } else if score <= -MATE_IN_MAX_PLY {
        score + ply
    } else {
        score
    }
}

/// Adjusts a mate score for storage (ply-from-root to ply-from-this-node), so a mate
/// score found at a different depth is still meaningful when reused.
pub fn score_to_tt(score: i32, ply: u32) -> (r: i32)
    requires
        ply <= i32::MAX,
        i32::MIN <= spec_score_to_tt(score as int, ply as int) <= i32::MAX,
    ensures
        r == spec_score_to_tt(score as int, ply as int),
{
    if score >= MATE_IN_MAX_PLY {
        score + ply as i32
    } else if score <= -MATE_IN_MAX_PLY {
        score - ply as i32
    } else {
        score
    }
}

pub fn score_from_tt(score: i32, ply: u32) -> (r: i32)
    requires
        ply <= i32::MAX,
        i32::MIN <= spec_score_from_tt(score as int, ply as int) <= i32::MAX,
    ensures
        r == spec_score_from_tt(score as int, ply as int),
{
    if score >= MATE_IN_MAX_PLY {
        score - ply as i32
    } else if score <= -MATE_IN_MAX_PLY {
        score + ply as i32
    } else {
        score
    }
}

/// Reading a stored score back at the same ply gives the score that was stored.
pub proof fn lemma_score_tt_roundtrip(score: int, ply: int)
    requires
        ply >= 0,
    ensures
        spec_score_from_tt(spec_score_to_tt(score, ply), ply) == score,
{
}

} // verus!
