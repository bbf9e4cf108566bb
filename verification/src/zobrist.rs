//! Zobrist keys drawn from a fixed-seed SplitMix64 generator. Each key is the output
//! of the generator at a fixed position in its stream, computed directly from that
//! position, so no random table has to be stored or built before first use.
use crate::hand::is_hand_type;
use crate::types::{Color, Piece, PieceType, Square, FU, GIN, HI, KAKU, KEI, KIN, KYO};
use vstd::prelude::*;
use vstd::wrapping::u64_specs;

verus! {

/// XOR with the board key to flip the side to move.
pub const SIDE_KEY: u64 = 1;

/// The SplitMix64 increment.
pub const GAMMA: u64 = 0x9E37_79B9_7F4A_7C15;

/// Seed of the stream that the piece-square keys come from.
pub const PSQ_SEED: u64 = 0x5367_6f67_695f_4e4e;

/// Seed of the stream that the hand increments come from.
pub const HAND_SEED: u64 = 0x486a_6e64_5f5a_6f62;

/// The SplitMix64 output function applied to a generator state.
pub open spec fn spec_mix(z: u64) -> u64 {
    let a = u64_specs::wrapping_mul(z ^ (z >> 30u64), 0xBF58_476D_1CE4_E5B9u64);
    let b = u64_specs::wrapping_mul(a ^ (a >> 27u64), 0x94D0_49BB_1331_11EBu64);
    b ^ (b >> 31u64)
}

/// The generator state after `n` steps from `seed`: each step adds `GAMMA`.
pub open spec fn splitmix_state(seed: u64, n: nat) -> u64
    decreases n,
{
    if n == 0 {
        seed
    } else {
        u64_specs::wrapping_add(splitmix_state(seed, (n - 1) as nat), GAMMA)
    }
}

/// The `n`-th output (counting from 0) of the generator started at `seed`: the state
/// is advanced first, then mixed.
pub open spec fn splitmix_output(seed: u64, n: nat) -> u64 {
    spec_mix(splitmix_state(seed, n + 1))
}

/// The key of piece byte `piece` on square `sq`: the outputs are laid out piece by
/// piece, 81 squares each, with bit 0 cleared.
pub open spec fn spec_psq_key(piece: Piece, sq: Square) -> u64 {
    splitmix_output(PSQ_SEED, (piece as nat) * 81 + sq as nat) & !1u64
}

/// Position of a droppable kind in the order FU, KYO, KEI, GIN, KIN, KAKU, HI.
pub open spec fn hand_index(pt: PieceType) -> nat {
    if pt == FU {
        0
    } else if pt == KYO {
        1
    } else if pt == KEI {
        2
    } else if pt == GIN {
        3
    } else if pt == KIN {
        4
    } else if pt == KAKU {
        5
    } else {
        6
    }
}

/// The hand-key increment of one piece of kind `pt` in `color`'s hand: the outputs
/// are laid out color by color, seven droppable kinds each; other kinds have 0.
pub open spec fn spec_hand_inc(color: Color, pt: PieceType) -> u64 {
    if is_hand_type(pt) {
        splitmix_output(HAND_SEED, (color as nat) * 7 + hand_index(pt))
    } else {
        0
    }
}

fn mix(z: u64) -> (r: u64)
    ensures
        r == spec_mix(z),
{
    let a = (z ^ (z >> 30u64)).wrapping_mul(0xBF58_476D_1CE4_E5B9u64);
    let b = (a ^ (a >> 27u64)).wrapping_mul(0x94D0_49BB_1331_11EBu64);
    b ^ (b >> 31u64)
}

proof fn lemma_state_closed_form(seed: u64, n: nat)
    ensures
        splitmix_state(seed, n) == ((seed as nat + n * (GAMMA as nat)) % 0x1_0000_0000_0000_0000nat) as u64,
    decreases n,
{
    if n > 0 {
        lemma_state_closed_form(seed, (n - 1) as nat);
        let m = 0x1_0000_0000_0000_0000int;
        let prev = seed as int + (n - 1) * (GAMMA as int);
        vstd::arithmetic::div_mod::lemma_add_mod_noop(prev, GAMMA as int, m);
        assert(prev + GAMMA as int == seed as int + n * (GAMMA as int)) by (nonlinear_arith)
            requires
                prev == seed as int + (n - 1) * (GAMMA as int),
        ;
        vstd::arithmetic::div_mod::lemma_mod_twice(GAMMA as int, m);
        vstd::arithmetic::div_mod::lemma_small_mod(GAMMA as nat, m as nat);
    }
}

/// The `n`-th output of the generator, computed from `n` directly.
fn splitmix_at(seed: u64, n: u64) -> (r: u64)
    requires
        n < 0xFFFF_FFFF,
    ensures
        r == splitmix_output(seed, n as nat),
{
    let state = seed.wrapping_add((n + 1).wrapping_mul(GAMMA));
    proof {
        lemma_state_closed_form(seed, (n + 1) as nat);
        let m = 0x1_0000_0000_0000_0000int;
        let k = (n + 1) as int;
        let prod = k * (GAMMA as int);
        assert(prod >= 0) by (nonlinear_arith)
            requires
                k >= 0,
                prod == k * (GAMMA as int),
        ;
        vstd::arithmetic::div_mod::lemma_add_mod_noop(seed as int, prod, m);
        vstd::arithmetic::div_mod::lemma_small_mod(seed as nat, m as nat);
        vstd::arithmetic::div_mod::lemma_mod_bound(prod, m);
        vstd::arithmetic::div_mod::lemma_mod_twice(prod, m);
    }
    mix(state)
}

/// The key of piece byte `piece` standing on square `sq`; bit 0 is always clear so it
/// never collides with the side-to-move bit.
pub fn psq_key(piece: Piece, sq: Square) -> (r: u64)
    requires
        piece < 32,
        sq < 81,
    ensures
        r == spec_psq_key(piece, sq),
        r & 1 == 0,
{
    let n = (piece as u64) * 81 + sq as u64;
    let v = splitmix_at(PSQ_SEED, n);
    assert((v & !1u64) & 1u64 == 0) by (bit_vector);
    v & !1u64
}

fn hand_slot(pt: PieceType) -> (r: u64)
    ensures
        r == hand_index(pt),
{
    match pt {
        FU => 0,
        KYO => 1,
        KEI => 2,
        GIN => 3,
        KIN => 4,
        KAKU => 5,
        _ => 6,
    }
}

/// Additive increment per (color, piece type) for the hand key. Adding or removing
/// one piece is a single wrapping add or sub, which composes for incremental update.
pub fn hand_inc(color: Color, pt: PieceType) -> (r: u64)
    requires
        color < 2,
        pt < 15,
    ensures
        r == spec_hand_inc(color, pt),
{
    if pt == FU || pt == KYO || pt == KEI || pt == GIN || pt == KIN || pt == KAKU || pt == HI {
        let n = (color as u64) * 7 + hand_slot(pt);
        splitmix_at(HAND_SEED, n)
    } else {
        0
    }
}

/// Adding an increment to a key and subtracting it again, both wrapping, gives back
/// the key.
pub proof fn lemma_wrapping_add_sub(k: u64, inc: u64)
    ensures
        u64_specs::wrapping_sub(u64_specs::wrapping_add(k, inc), inc) == k,
        u64_specs::wrapping_add(u64_specs::wrapping_sub(k, inc), inc) == k,
{
}

} // verus!
