//! Board geometry: directions, rays, the squares between two squares, and the attack
//! sets of sliding and stepping pieces. Every set is computed on demand by walking
//! the board, so nothing has to be built before first use.
use crate::bitboard::Bitboard;
use crate::types::{
    lemma_byte_facts,
    col_of, lemma_square_roundtrip, spec_opposite, make_square, row_of, spec_col, spec_make_square, spec_row, Color,
    PieceType, Square, BLACK, FU, GIN, HI, KAKU, KEI, KIN, KYO, NGIN, NKEI, NKYO, OU, RYU, TO, UMA,
};
use vstd::prelude::*;

verus! {

/// Row step of direction `d`. Directions are numbered so that `d ^ 1` is the opposite
/// direction: 0=N 1=S 2=W 3=E 4=NW 5=SE 6=NE 7=SW.
pub open spec fn spec_dr(d: int) -> int {
    if d == 0 || d == 4 || d == 6 {
        -1
    } else if d == 1 || d == 5 || d == 7 {
        1
    } else {
        0
    }
}

/// Column step of direction `d`.
pub open spec fn spec_dc(d: int) -> int {
    if d == 2 || d == 4 || d == 7 {
        -1
    } else if d == 3 || d == 5 || d == 6 {
        1
    } else {
        0
    }
}

/// `k` times a unit step `u` (which is -1, 0 or 1).
pub open spec fn times_unit(k: int, u: int) -> int {
    if u == 1 {
        k
    } else if u == -1 {
        -k
    } else {
        0
    }
}

pub open spec fn abs_int(x: int) -> int {
    if x < 0 {
        -x
    } else {
        x
    }
}

/// King-move distance between two squares.
pub open spec fn ray_dist(a: int, b: int) -> int {
    let rr = abs_int(spec_row(b) - spec_row(a));
    let cc = abs_int(spec_col(b) - spec_col(a));
    if rr < cc {
        cc
    } else {
        rr
    }
}

/// `t` is the board square reached from `sq` by `k` steps in direction `d`.
pub open spec fn ray_at(sq: int, d: int, k: int, t: int) -> bool {
    &&& 0 <= t < 81
    &&& spec_row(t) == spec_row(sq) + times_unit(k, spec_dr(d))
    &&& spec_col(t) == spec_col(sq) + times_unit(k, spec_dc(d))
}

/// `t` lies on the ray leaving `sq` in direction `d` (not counting `sq` itself).
pub open spec fn in_ray(sq: int, d: int, t: int) -> bool {
    &&& 0 <= sq < 81
    &&& 0 <= d < 8
    &&& ray_dist(sq, t) >= 1
    &&& ray_at(sq, d, ray_dist(sq, t), t)
}

/// `t` is attacked along direction `d` by a slider on `sq`: it lies on the ray and no
/// square of `occ` lies on the ray strictly before it.
pub open spec fn ray_attack(sq: int, d: int, occ: Set<int>, t: int) -> bool {
    &&& in_ray(sq, d, t)
    &&& forall|u: int|
        #![trigger in_ray(sq, d, u), occ.contains(u)]
        in_ray(sq, d, u) && ray_dist(sq, u) < ray_dist(sq, t) ==> !occ.contains(u)
}

/// Row and column offsets of `t` from `sq`, seen from `color`'s side of the board
/// (black moves up the board, toward row 0).
pub open spec fn rel_rows(color: Color, sq: int, t: int) -> int {
    if color == BLACK {
        spec_row(t) - spec_row(sq)
    } else {
        spec_row(sq) - spec_row(t)
    }
}

pub open spec fn rel_cols(color: Color, sq: int, t: int) -> int {
    if color == BLACK {
        spec_col(t) - spec_col(sq)
    } else {
        spec_col(sq) - spec_col(t)
    }
}

/// The moves of the gold general and of the pieces that move like it once promoted.
pub open spec fn gold_like(pt: PieceType) -> bool {
    pt == KIN || pt == TO || pt == NKYO || pt == NKEI || pt == NGIN
}

/// `t` is one step-move of a piece of kind `pt` and `color` standing on `sq`. Sliding
/// kinds (KYO, KAKU, HI, UMA, RYU) have no step-moves here.
pub open spec fn step_target(color: Color, pt: PieceType, sq: int, t: int) -> bool {
    let a = rel_rows(color, sq, t);
    let b = rel_cols(color, sq, t);
    &&& 0 <= sq < 81
    &&& 0 <= t < 81
    &&& if pt == FU {
        a == -1 && b == 0
    } else if pt == KEI {
        a == -2 && (b == -1 || b == 1)
    } else if pt == GIN {
        (a == -1 && -1 <= b <= 1) || (a == 1 && (b == -1 || b == 1))
    } else if gold_like(pt) {
        (a == -1 && -1 <= b <= 1) || (a == 0 && (b == -1 || b == 1)) || (a == 1 && b == 0)
    } else if pt == OU {
        -1 <= a <= 1 && -1 <= b <= 1 && (a != 0 || b != 0)
    } else {
        false
    }
}

/// `t` is one orthogonal step from `sq`.
pub open spec fn orth_step(sq: int, t: int) -> bool {
    &&& 0 <= sq < 81
    &&& 0 <= t < 81
    &&& abs_int(spec_row(t) - spec_row(sq)) + abs_int(spec_col(t) - spec_col(sq)) == 1
}

/// `t` is one diagonal step from `sq`.
pub open spec fn diag_step(sq: int, t: int) -> bool {
    &&& 0 <= sq < 81
    &&& 0 <= t < 81
    &&& abs_int(spec_row(t) - spec_row(sq)) == 1
    &&& abs_int(spec_col(t) - spec_col(sq)) == 1
}

pub open spec fn bishop_attack(sq: int, occ: Set<int>, t: int) -> bool {
    ray_attack(sq, 4, occ, t) || ray_attack(sq, 5, occ, t) || ray_attack(sq, 6, occ, t)
        || ray_attack(sq, 7, occ, t)
}

pub open spec fn rook_attack(sq: int, occ: Set<int>, t: int) -> bool {
    ray_attack(sq, 0, occ, t) || ray_attack(sq, 1, occ, t) || ray_attack(sq, 2, occ, t)
        || ray_attack(sq, 3, occ, t)
}

pub open spec fn spec_forward_dir(color: Color) -> int {
    if color == BLACK {
        0
    } else {
        1
    }
}

/// The squares a piece of kind `pt` and `color` on `sq` attacks with occupancy `occ`
/// (squares of either color; the caller masks out its own pieces).
pub open spec fn piece_attack(color: Color, pt: PieceType, sq: int, occ: Set<int>, t: int) -> bool {
    if pt == KYO {
        ray_attack(sq, spec_forward_dir(color), occ, t)
    } else if pt == KAKU {
        bishop_attack(sq, occ, t)
    } else if pt == HI {
        rook_attack(sq, occ, t)
    } else if pt == UMA {
        bishop_attack(sq, occ, t) || orth_step(sq, t)
    } else if pt == RYU {
        rook_attack(sq, occ, t) || diag_step(sq, t)
    } else {
        step_target(color, pt, sq, t)
    }
}

pub open spec fn spec_opposite_dir(d: u8) -> u8 {
    d ^ 1
}

pub fn opposite_dir(d: u8) -> (r: u8)
    ensures
        r == spec_opposite_dir(d),
        d < 8 ==> r < 8 && spec_dr(r as int) == -spec_dr(d as int) && spec_dc(r as int)
            == -spec_dc(d as int),
{
    proof {
        lemma_opposite_dir(d);
    }
    d ^ 1
}

proof fn lemma_opposite_dir(d: u8)
    ensures
        d < 8 ==> (d ^ 1u8) < 8 && spec_dr((d ^ 1u8) as int) == -spec_dr(d as int) && spec_dc(
            (d ^ 1u8) as int,
        ) == -spec_dc(d as int),
{
    if d < 8 {
        lemma_byte_facts(d, 0);
    }
}

/// The square `dr` rows and `dc` columns away from `sq`, if that is on the board.
pub fn sq_step(sq: Square, dr: i32, dc: i32) -> (r: Option<Square>)
    requires
        dr <= i32::MAX - 8,
        dc <= i32::MAX - 28,
    ensures
        ({
            let row = spec_row(sq as int) + dr;
            let col = spec_col(sq as int) + dc;
            if 0 <= row < 9 && 0 <= col < 9 {
                r == Some(spec_make_square(row, col) as u8)
            } else {
                r is None
            }
        }),
{
    let row = row_of(sq) as i32 + dr;
    let col = col_of(sq) as i32 + dc;
    if 0 <= row && row < 9 && 0 <= col && col < 9 {
        Some(make_square(row as u8, col as u8))
    } else {
        None
    }
}

/// Direction in which `color`'s pieces move forward: black toward row 0 (N), white
/// toward row 8 (S).
pub fn forward_dir(color: Color) -> (r: u8)
    ensures
        r == spec_forward_dir(color),
{
    if color == BLACK {
        0
    } else {
        1
    }
}

fn dir_delta(d: u8) -> (r: (i32, i32))
    requires
        d < 8,
    ensures
        r.0 == spec_dr(d as int),
        r.1 == spec_dc(d as int),
{
    match d {
        0 => (-1, 0),
        1 => (1, 0),
        2 => (0, -1),
        3 => (0, 1),
        4 => (-1, -1),
        5 => (1, 1),
        6 => (-1, 1),
        _ => (1, -1),
    }
}

/// `cur` stands `k` steps from `sq` in direction `d`.
spec fn walked(sq: int, d: int, k: int, cur: int) -> bool {
    &&& 0 <= cur < 81
    &&& spec_row(cur) == spec_row(sq) + times_unit(k, spec_dr(d))
    &&& spec_col(cur) == spec_col(sq) + times_unit(k, spec_dc(d))
}

proof fn lemma_walked_dist(sq: int, d: int, k: int, t: int)
    requires
        0 <= sq < 81,
        0 <= d < 8,
        k >= 0,
        walked(sq, d, k, t),
    ensures
        ray_dist(sq, t) == k,
        k >= 1 ==> in_ray(sq, d, t),
        k == 0 ==> t == sq,
{
    if k == 0 {
        assert(t == spec_col(t) * 9 + spec_row(t));
        assert(sq == spec_col(sq) * 9 + spec_row(sq));
    }
}

/// Stepping once more along the ray from the square `k` steps out reaches the only
/// square `k + 1` steps out, and when that step leaves the board the ray has no
/// square farther than `k`.
proof fn lemma_walk_step(sq: int, d: int, k: int, cur: int, next: Option<u8>)
    requires
        0 <= sq < 81,
        0 <= d < 8,
        k >= 0,
        walked(sq, d, k, cur),
        ({
            let row = spec_row(cur) + spec_dr(d);
            let col = spec_col(cur) + spec_dc(d);
            if 0 <= row < 9 && 0 <= col < 9 {
                next == Some(spec_make_square(row, col) as u8)
            } else {
                next is None
            }
        }),
    ensures
        next matches Some(n) ==> walked(sq, d, k + 1, n as int) && in_ray(sq, d, n as int)
            && ray_dist(sq, n as int) == k + 1 && k + 1 <= 8 && forall|t: int|
            #![trigger in_ray(sq, d, t)]
            in_ray(sq, d, t) && ray_dist(sq, t) == k + 1 ==> t == n,
        next is None ==> forall|t: int| #![trigger in_ray(sq, d, t)] in_ray(sq, d, t) ==> ray_dist(sq, t) <= k,
{
    let row = spec_row(cur) + spec_dr(d);
    let col = spec_col(cur) + spec_dc(d);
    if 0 <= row < 9 && 0 <= col < 9 {
        let n = spec_make_square(row, col);
        lemma_square_roundtrip(row, col);
        assert(walked(sq, d, k + 1, n));
        lemma_walked_dist(sq, d, k + 1, n);
        assert forall|t: int| #![trigger in_ray(sq, d, t)] in_ray(sq, d, t) && ray_dist(sq, t) == k + 1 implies t == n by {
            assert(t == spec_col(t) * 9 + spec_row(t));
        }
    } else {
        assert forall|t: int| #![trigger in_ray(sq, d, t)] in_ray(sq, d, t) implies ray_dist(sq, t) <= k by {
        }
    }
}

/// The squares attacked from `sq` along direction `d`, stopping at and including the
/// first square of `occ`.
pub fn ray_attacks(sq: Square, d: u8, occ: Bitboard) -> (r: Bitboard)
    requires
        sq < 81,
        d < 8,
    ensures
        r.wf(),
        forall|t: int| #[trigger] r@.contains(t) <==> ray_attack(sq as int, d as int, occ@, t),
{
    let (dr, dc) = dir_delta(d);
    let mut bb = Bitboard::empty();
    let mut cur = sq;
    let ghost mut k: int = 0;
    loop
        invariant_except_break
            walked(sq as int, d as int, k, cur as int),
            forall|t: int|
                #[trigger] bb@.contains(t) <==> (in_ray(sq as int, d as int, t) && ray_dist(
                    sq as int,
                    t,
                ) <= k),
            forall|t: int|
                #![trigger in_ray(sq as int, d as int, t)]
                in_ray(sq as int, d as int, t) && ray_dist(sq as int, t) <= k ==> !occ@.contains(t),
        invariant
            0 <= k <= 8,
            sq < 81,
            d < 8,
            dr == spec_dr(d as int),
            dc == spec_dc(d as int),
            bb.wf(),
        ensures
            bb.wf(),
            forall|t: int| #[trigger] bb@.contains(t) <==> ray_attack(sq as int, d as int, occ@, t),
        decreases 8 - k,
    {
        let step = sq_step(cur, dr, dc);
        proof {
            lemma_walk_step(sq as int, d as int, k, cur as int, step);
        }
        match step {
            None => {
                assert forall|t: int| #[trigger] bb@.contains(t) <==> ray_attack(
                    sq as int,
                    d as int,
                    occ@,
                    t,
                ) by {
                    if in_ray(sq as int, d as int, t) {
                        assert(ray_dist(sq as int, t) <= k);
                    }
                }
                break ;
            },
            Some(next) => {
                bb.set(next);
                proof {
                    k = k + 1;
                }
                if occ.contains(next) {
                    assert forall|t: int| #[trigger] bb@.contains(t) <==> ray_attack(
                        sq as int,
                        d as int,
                        occ@,
                        t,
                    ) by {
                        if in_ray(sq as int, d as int, t) {
                            if ray_dist(sq as int, t) > k {
                                assert(in_ray(sq as int, d as int, next as int));
                                assert(occ@.contains(next as int));
                            }
                            if ray_dist(sq as int, t) == k {
                                assert(t == next);
                            }
                        }
                    }
                    break ;
                }
                cur = next;
            },
        }
    }
    bb
}

pub fn bishop_attacks(sq: Square, occ: Bitboard) -> (r: Bitboard)
    requires
        sq < 81,
    ensures
        r.wf(),
        forall|t: int| #[trigger] r@.contains(t) <==> bishop_attack(sq as int, occ@, t),
{
    let a = ray_attacks(sq, 4, occ);
    let b = ray_attacks(sq, 5, occ);
    let c = ray_attacks(sq, 6, occ);
    let e = ray_attacks(sq, 7, occ);
    a.or(b).or(c).or(e)
}

pub fn rook_attacks(sq: Square, occ: Bitboard) -> (r: Bitboard)
    requires
        sq < 81,
    ensures
        r.wf(),
        forall|t: int| #[trigger] r@.contains(t) <==> rook_attack(sq as int, occ@, t),
{
    let a = ray_attacks(sq, 0, occ);
    let b = ray_attacks(sq, 1, occ);
    let c = ray_attacks(sq, 2, occ);
    let e = ray_attacks(sq, 3, occ);
    a.or(b).or(c).or(e)
}

pub fn lance_attacks(color: Color, sq: Square, occ: Bitboard) -> (r: Bitboard)
    requires
        sq < 81,
    ensures
        r.wf(),
        forall|t: int| #[trigger] r@.contains(t) <==> ray_attack(
            sq as int,
            spec_forward_dir(color),
            occ@,
            t,
        ),
{
    ray_attacks(sq, forward_dir(color), occ)
}

/// `bb` plus the square `dr` rows and `dc` columns from `sq`, if that is on the board.
fn add_step(bb: Bitboard, sq: Square, dr: i32, dc: i32) -> (r: Bitboard)
    requires
        sq < 81,
        -2 <= dr <= 2,
        -2 <= dc <= 2,
        bb.wf(),
    ensures
        r.wf(),
        forall|t: int| #[trigger]
            r@.contains(t) <==> (bb@.contains(t) || (0 <= t < 81 && spec_row(t) == spec_row(
                sq as int,
            ) + dr && spec_col(t) == spec_col(sq as int) + dc)),
{
    let mut out = bb;
    match sq_step(sq, dr, dc) {
        Some(t) => {
            proof {
                lemma_square_roundtrip(spec_row(sq as int) + dr, spec_col(sq as int) + dc);
            }
            out.set(t);
            assert forall|u: int| #[trigger]
                out@.contains(u) <==> (bb@.contains(u) || (0 <= u < 81 && spec_row(u) == spec_row(
                    sq as int,
                ) + dr && spec_col(u) == spec_col(sq as int) + dc)) by {
                if 0 <= u < 81 && spec_row(u) == spec_row(sq as int) + dr && spec_col(u) == spec_col(
                    sq as int,
                ) + dc {
                    assert(u == spec_col(u) * 9 + spec_row(u));
                }
            }
        },
        None => {
        },
    }
    out
}

/// The step-moves of a piece of kind `pt` and `color` on `sq` (empty for the sliding
/// kinds).
pub fn step_attacks(color: Color, sq: Square, pt: PieceType) -> (r: Bitboard)
    requires
        sq < 81,
    ensures
        r.wf(),
        forall|t: int| #[trigger] r@.contains(t) <==> step_target(color, pt, sq as int, t),
{
    let s: i32 = if color == BLACK {
        1
    } else {
        -1
    };
    let mut bb = Bitboard::empty();
    if pt == FU {
        bb = add_step(bb, sq, -s, 0);
    } else if pt == KEI {
        bb = add_step(bb, sq, -2 * s, -s);
        bb = add_step(bb, sq, -2 * s, s);
    } else if pt == GIN {
        bb = add_step(bb, sq, -s, -s);
        bb = add_step(bb, sq, -s, 0);
        bb = add_step(bb, sq, -s, s);
        bb = add_step(bb, sq, s, -s);
        bb = add_step(bb, sq, s, s);
    } else if pt == KIN || pt == TO || pt == NKYO || pt == NKEI || pt == NGIN {
        bb = add_step(bb, sq, -s, -s);
        bb = add_step(bb, sq, -s, 0);
        bb = add_step(bb, sq, -s, s);
        bb = add_step(bb, sq, 0, -s);
        bb = add_step(bb, sq, 0, s);
        bb = add_step(bb, sq, s, 0);
    } else if pt == OU {
        bb = add_step(bb, sq, -1, -1);
        bb = add_step(bb, sq, -1, 0);
        bb = add_step(bb, sq, -1, 1);
        bb = add_step(bb, sq, 0, -1);
        bb = add_step(bb, sq, 0, 1);
        bb = add_step(bb, sq, 1, -1);
        bb = add_step(bb, sq, 1, 0);
        bb = add_step(bb, sq, 1, 1);
    }
    bb
}

/// The four orthogonal neighbours of `sq`.
pub fn orth_steps(sq: Square) -> (r: Bitboard)
    requires
        sq < 81,
    ensures
        r.wf(),
        forall|t: int| #[trigger] r@.contains(t) <==> orth_step(sq as int, t),
{
    let mut bb = Bitboard::empty();
    bb = add_step(bb, sq, -1, 0);
    bb = add_step(bb, sq, 1, 0);
    bb = add_step(bb, sq, 0, -1);
    bb = add_step(bb, sq, 0, 1);
    bb
}

/// The four diagonal neighbours of `sq`.
pub fn diag_steps(sq: Square) -> (r: Bitboard)
    requires
        sq < 81,
    ensures
        r.wf(),
        forall|t: int| #[trigger] r@.contains(t) <==> diag_step(sq as int, t),
{
    let mut bb = Bitboard::empty();
    bb = add_step(bb, sq, -1, -1);
    bb = add_step(bb, sq, 1, 1);
    bb = add_step(bb, sq, -1, 1);
    bb = add_step(bb, sq, 1, -1);
    bb
}

/// The eight neighbours of `sq`.
pub fn king_steps(sq: Square) -> (r: Bitboard)
    requires
        sq < 81,
    ensures
        r.wf(),
        forall|t: int| #[trigger] r@.contains(t) <==> step_target(BLACK, OU, sq as int, t),
{
    step_attacks(BLACK, sq, OU)
}

pub fn horse_attacks(sq: Square, occ: Bitboard) -> (r: Bitboard)
    requires
        sq < 81,
    ensures
        r.wf(),
        forall|t: int| #[trigger]
            r@.contains(t) <==> (bishop_attack(sq as int, occ@, t) || orth_step(sq as int, t)),
{
    bishop_attacks(sq, occ).or(orth_steps(sq))
}

pub fn dragon_attacks(sq: Square, occ: Bitboard) -> (r: Bitboard)
    requires
        sq < 81,
    ensures
        r.wf(),
        forall|t: int| #[trigger]
            r@.contains(t) <==> (rook_attack(sq as int, occ@, t) || diag_step(sq as int, t)),
{
    rook_attacks(sq, occ).or(diag_steps(sq))
}

/// The direction from `a` toward `b` when the two lie on a common rank, file or
/// diagonal.
pub open spec fn spec_direction(a: int, b: int) -> Option<u8> {
    let rr = spec_row(b) - spec_row(a);
    let cc = spec_col(b) - spec_col(a);
    if rr == 0 && cc == 0 {
        None
    } else if cc == 0 {
        if rr < 0 {
            Some(0u8)
        } else {
            Some(1u8)
        }
    } else if rr == 0 {
        if cc < 0 {
            Some(2u8)
        } else {
            Some(3u8)
        }
    } else if rr == cc {
        if rr < 0 {
            Some(4u8)
        } else {
            Some(5u8)
        }
    } else if rr == -cc {
        if rr < 0 {
            Some(6u8)
        } else {
            Some(7u8)
        }
    } else {
        None
    }
}

/// The computed direction is the one whose ray holds `b`, and no ray holds `b` when
/// there is none.
pub proof fn lemma_direction_in_ray(a: int, b: int)
    requires
        0 <= a < 81,
        0 <= b < 81,
    ensures
        spec_direction(a, b) matches Some(d) ==> d < 8 && in_ray(a, d as int, b),
        spec_direction(a, b) is None ==> forall|d: int| #![trigger in_ray(a, d, b)] !in_ray(a, d, b),
        forall|d: int| #![trigger in_ray(a, d, b)] in_ray(a, d, b) ==> spec_direction(a, b) == Some(d as u8),
{
    if spec_direction(a, b) is None {
        assert forall|d: int| #![trigger in_ray(a, d, b)] !in_ray(a, d, b) by {
            if spec_row(b) == spec_row(a) && spec_col(b) == spec_col(a) {
                assert(b == spec_col(b) * 9 + spec_row(b));
                assert(a == spec_col(a) * 9 + spec_row(a));
            }
        }
    }
}

/// The direction from `a` toward `b`, if they lie on a common rank, file or diagonal.
pub fn direction_between(a: Square, b: Square) -> (r: Option<u8>)
    requires
        a < 81,
        b < 81,
    ensures
        r == spec_direction(a as int, b as int),
        r matches Some(d) ==> d < 8 && in_ray(a as int, d as int, b as int),
        r is None ==> forall|d: int| #![trigger in_ray(a as int, d, b as int)] !in_ray(a as int, d, b as int),
{
    proof {
        lemma_direction_in_ray(a as int, b as int);
    }
    let rr: i32 = row_of(b) as i32 - row_of(a) as i32;
    let cc: i32 = col_of(b) as i32 - col_of(a) as i32;
    if rr == 0 && cc == 0 {
        None
    } else if cc == 0 {
        if rr < 0 {
            Some(0)
        } else {
            Some(1)
        }
    } else if rr == 0 {
        if cc < 0 {
            Some(2)
        } else {
            Some(3)
        }
    } else if rr == cc {
        if rr < 0 {
            Some(4)
        } else {
            Some(5)
        }
    } else if rr == -cc {
        if rr < 0 {
            Some(6)
        } else {
            Some(7)
        }
    } else {
        None
    }
}

/// The squares strictly between `a` and `b` on their common line (none when the two
/// are not aligned).
pub open spec fn spec_between(a: int, b: int, t: int) -> bool {
    match spec_direction(a, b) {
        Some(d) => in_ray(a, d as int, t) && in_ray(b, spec_opposite_dir(d) as int, t),
        None => false,
    }
}

/// Squares strictly between `a` and `b` if they are aligned, else empty.
pub fn between(a: Square, b: Square) -> (r: Bitboard)
    requires
        a < 81,
        b < 81,
    ensures
        r.wf(),
        forall|t: int| #[trigger] r@.contains(t) <==> spec_between(a as int, b as int, t),
{
    match direction_between(a, b) {
        Some(d) => {
            let e = Bitboard::empty();
            let x = ray_attacks(a, d, e);
            let y = ray_attacks(b, opposite_dir(d), e);
            let r = x.and(y);
            assert forall|t: int| #[trigger] r@.contains(t) <==> spec_between(
                a as int,
                b as int,
                t,
            ) by {
                if in_ray(a as int, d as int, t) {
                    assert(ray_attack(a as int, d as int, e@, t));
                }
                if in_ray(b as int, spec_opposite_dir(d) as int, t) {
                    assert(ray_attack(b as int, spec_opposite_dir(d) as int, e@, t));
                }
            }
            r
        },
        None => {
            let r = Bitboard::empty();
            r
        },
    }
}

/// `b` and `c` lie on a common line through the pivot `a`.
pub open spec fn spec_aligned(a: int, b: int, c: int) -> bool {
    match (spec_direction(a, b), spec_direction(a, c)) {
        (Some(d1), Some(d2)) => d1 == d2 || d1 == spec_opposite_dir(d2),
        _ => false,
    }
}

/// True if `b` and `c` lie on a common line through `a` (a is the pivot, e.g. a king).
pub fn aligned(a: Square, b: Square, c: Square) -> (r: bool)
    requires
        a < 81,
        b < 81,
        c < 81,
    ensures
        r == spec_aligned(a as int, b as int, c as int),
{
    match (direction_between(a, b), direction_between(a, c)) {
        (Some(d1), Some(d2)) => d1 == d2 || d1 == opposite_dir(d2),
        _ => false,
    }
}

/// A square lies on the ray from `sq` in direction `d` exactly when `sq` lies on the
/// ray from that square in the opposite direction, at the same distance.
pub proof fn lemma_in_ray_symmetric(sq: int, d: int, t: int)
    requires
        0 <= sq < 81,
        0 <= d < 8,
        0 <= t < 81,
    ensures
        in_ray(sq, d, t) == in_ray(t, spec_opposite_dir(d as u8) as int, sq),
        ray_dist(sq, t) == ray_dist(t, sq),
{
    lemma_opposite_dir(d as u8);
}

/// A slider on `sq` attacks `t` along `d` exactly when a slider on `t` attacks `sq`
/// along the opposite direction: the squares strictly between are the same.
pub proof fn lemma_ray_attack_symmetric(sq: int, d: int, occ: Set<int>, t: int)
    requires
        0 <= sq < 81,
        0 <= d < 8,
        0 <= t < 81,
    ensures
        ray_attack(sq, d, occ, t) == ray_attack(t, spec_opposite_dir(d as u8) as int, occ, sq),
{
    let e = spec_opposite_dir(d as u8) as int;
    lemma_opposite_dir(d as u8);
    lemma_in_ray_symmetric(sq, d, t);
    if in_ray(sq, d, t) {
        assert forall|u: int|
            #![trigger in_ray(sq, d, u)]
            #![trigger in_ray(t, e, u)]
            (in_ray(sq, d, u) && ray_dist(sq, u) < ray_dist(sq, t)) == (in_ray(t, e, u)
                && ray_dist(t, u) < ray_dist(t, sq)) by {
            if in_ray(sq, d, u) && ray_dist(sq, u) < ray_dist(sq, t) {
                assert(u == spec_col(u) * 9 + spec_row(u));
            }
            if in_ray(t, e, u) && ray_dist(t, u) < ray_dist(t, sq) {
                assert(u == spec_col(u) * 9 + spec_row(u));
            }
        }
    }
}

/// Stepping patterns are symmetric: a piece of `color` on `sq` steps to `t` exactly when
/// the same kind of the other color on `t` steps to `sq`.
pub proof fn lemma_step_symmetric(color: Color, pt: PieceType, sq: int, t: int)
    requires
        color <= 1,
    ensures
        step_target(color, pt, sq, t) == step_target(spec_opposite(color), pt, t, sq),
{
    lemma_byte_facts(0, 0);
    lemma_byte_facts(1, 0);
}

/// The one-step neighbour relations are symmetric.
pub proof fn lemma_steps_symmetric(sq: int, t: int)
    ensures
        orth_step(sq, t) == orth_step(t, sq),
        diag_step(sq, t) == diag_step(t, sq),
        step_target(BLACK, OU, sq, t) == step_target(BLACK, OU, t, sq),
{
}


/// Directions along which square numbers grow: S, E, SE and NE.
pub open spec fn dir_increasing(d: int) -> bool {
    d == 1 || d == 3 || d == 5 || d == 6
}

/// A square `k` steps along a ray is `k` times the direction's square step away.
pub proof fn lemma_ray_square(f: int, d: int, q: int)
    requires
        in_ray(f, d, q),
    ensures
        q == f + ray_dist(f, q) * (9 * spec_dc(d) + spec_dr(d)),
{
    let k = ray_dist(f, q);
    assert(q == spec_col(q) * 9 + spec_row(q));
    assert(f == spec_col(f) * 9 + spec_row(f));
    assert(spec_row(q) == spec_row(f) + k * spec_dr(d));
    assert(spec_col(q) == spec_col(f) + k * spec_dc(d));
    assert(spec_col(q) * 9 == spec_col(f) * 9 + k * spec_dc(d) * 9) by (nonlinear_arith)
        requires
            spec_col(q) == spec_col(f) + k * spec_dc(d),
    ;
    assert(k * (9 * spec_dc(d) + spec_dr(d)) == k * spec_dc(d) * 9 + k * spec_dr(d)) by (nonlinear_arith);
}

/// Along a ray, the nearer of two squares has the smaller number exactly when the
/// direction is increasing.
pub proof fn lemma_ray_order(f: int, d: int, q1: int, q2: int)
    requires
        in_ray(f, d, q1),
        in_ray(f, d, q2),
    ensures
        dir_increasing(d) ==> (q1 < q2 <==> ray_dist(f, q1) < ray_dist(f, q2)),
        !dir_increasing(d) ==> (q1 > q2 <==> ray_dist(f, q1) < ray_dist(f, q2)),
{
    lemma_ray_square(f, d, q1);
    lemma_ray_square(f, d, q2);
    let st = 9 * spec_dc(d) + spec_dr(d);
    let k1 = ray_dist(f, q1);
    let k2 = ray_dist(f, q2);
    if dir_increasing(d) {
        assert(st > 0);
        assert(k1 < k2 <==> k1 * st < k2 * st) by (nonlinear_arith)
            requires
                st > 0,
        ;
    } else {
        assert(st < 0);
        assert(k1 < k2 <==> k1 * st > k2 * st) by (nonlinear_arith)
            requires
                st < 0,
        ;
    }
}

/// For a square `p` on the ray from `k` in direction `d`, the squares strictly between
/// the two are the squares of that ray nearer to `k` than `p`.
pub proof fn lemma_between_on_ray(k: int, d: int, p: int, u: int)
    requires
        in_ray(k, d, p),
    ensures
        spec_between(k, p, u) == (in_ray(k, d, u) && ray_dist(k, u) < ray_dist(k, p)),
{
    lemma_direction_in_ray(k, p);
    assert(spec_direction(k, p) == Some(d as u8));
    let e = spec_opposite_dir(d as u8) as int;
    lemma_opposite_dir(d as u8);
    if 0 <= u < 81 {
        lemma_in_ray_symmetric(k, d, p);
        lemma_ray_attack_symmetric(k, d, Set::<int>::empty(), p);
        if in_ray(k, d, u) && ray_dist(k, u) < ray_dist(k, p) {
            assert(u == spec_col(u) * 9 + spec_row(u));
            assert(in_ray(p, e, u));
        }
        if in_ray(k, d, u) && in_ray(p, e, u) {
            assert(u == spec_col(u) * 9 + spec_row(u));
            assert(ray_dist(k, u) < ray_dist(k, p));
        }
    }
}

/// Directions are symmetric: when `b` lies in direction `d` from `a`, `a` lies in the
/// opposite direction from `b`.
pub proof fn lemma_direction_symmetric(a: int, b: int)
    requires
        0 <= a < 81,
        0 <= b < 81,
    ensures
        spec_direction(a, b) matches Some(d) ==> spec_direction(b, a) == Some(spec_opposite_dir(d)),
        spec_direction(a, b) is None ==> spec_direction(b, a) is None,
{
    lemma_direction_in_ray(a, b);
    lemma_direction_in_ray(b, a);
    if let Some(d) = spec_direction(a, b) {
        lemma_in_ray_symmetric(a, d as int, b);
        lemma_opposite_dir(d);
        assert(in_ray(b, spec_opposite_dir(d) as int, a));
    } else if let Some(e) = spec_direction(b, a) {
        lemma_in_ray_symmetric(b, e as int, a);
        lemma_opposite_dir(e);
        assert(in_ray(a, spec_opposite_dir(e) as int, b));
    }
}

} // verus!
