//! Pin detection: the pieces that stand alone between their king and an enemy slider
//! lined up with it.
use crate::bitboard::Bitboard;
use crate::position::{color_set, occ_set, Position, Snap};
use crate::tables::{
    between, dir_increasing, forward_dir, in_ray, lemma_between_on_ray, lemma_ray_order,
    ray_attack, ray_attacks, ray_dist, spec_between, spec_forward_dir,
};
use crate::types::{
    lemma_opposite, lemma_piece_roundtrip, opposite, spec_make_piece, spec_opposite, spec_piece_color,
    Color, Square, HI, KAKU, KYO, RYU, SQ_NONE, UMA,
};
use vstd::prelude::*;

verus! {

/// An enemy piece `p` can pin toward `color`'s king along direction `d` (pointing from
/// the king to the piece): a lance straight ahead of the king, a bishop or horse on a
/// diagonal, a rook or dragon on a rank or file.
pub open spec fn pin_slider(color: u8, d: int, p: u8) -> bool {
    let them = spec_opposite(color);
    ||| (d == spec_forward_dir(color) && p == spec_make_piece(them, KYO))
    ||| (4 <= d < 8 && (p == spec_make_piece(them, KAKU) || p == spec_make_piece(them, UMA)))
    ||| (0 <= d < 4 && (p == spec_make_piece(them, HI) || p == spec_make_piece(them, RYU)))
}

/// The occupied squares strictly between squares `a` and `b`.
pub open spec fn blockers(s: Snap, a: int, b: int) -> Set<int> {
    Set::new(|t: int| spec_between(a, b, t) && occ_set(s.board).contains(t))
}

/// The piece of `color` on `b` is pinned: it is the only piece between its king and an
/// enemy slider lined up with the king.
pub open spec fn pinned_at(s: Snap, color: u8, b: int) -> bool {
    let k = s.king_sq[color as int] as int;
    &&& s.king_sq[color as int] != SQ_NONE
    &&& color_set(s.board, color).contains(b)
    &&& exists|d: int, p: int|
        0 <= d < 8 && #[trigger] in_ray(k, d, p) && pin_slider(color, d, s.board[p]) && blockers(s, k, p)
            == set![b]
}

/// The square of `candidates` nearest to `from` along `ray`, the ray leaving `from` in
/// direction `d`.
fn first_on_ray(ray: Bitboard, candidates: Bitboard, from: Square, d: u8) -> (r: Option<Square>)
    requires
        ray.wf(),
        from < 81,
        d < 8,
        forall|t: int| #[trigger] ray@.contains(t) <==> in_ray(from as int, d as int, t),
    ensures
        r is None <==> forall|t: int| !(ray@.contains(t) && #[trigger] candidates@.contains(t)),
        r matches Some(p) ==> {
            &&& in_ray(from as int, d as int, p as int)
            &&& candidates@.contains(p as int)
            &&& forall|t: int|
                in_ray(from as int, d as int, t) && #[trigger] candidates@.contains(t) ==> ray_dist(
                    from as int,
                    p as int,
                ) <= ray_dist(from as int, t)
        },
{
    let hits = ray.and(candidates);
    if hits.is_empty() {
        proof {
            assert forall|t: int| !(ray@.contains(t) && #[trigger] candidates@.contains(t)) by {
                assert(!hits@.contains(t));
            }
        }
        return None;
    }
    let r = if d == 1 || d == 3 || d == 5 || d == 6 {
        hits.lsb()
    } else {
        hits.msb()
    };
    proof {
        if let Some(p) = r {
            assert forall|t: int|
                in_ray(from as int, d as int, t) && #[trigger] candidates@.contains(t) implies ray_dist(
                from as int,
                p as int,
            ) <= ray_dist(from as int, t) by {
                assert(hits@.contains(t));
                lemma_ray_order(from as int, d as int, p as int, t);
            }
        }
    }
    r
}

/// The only occupied square of `bl`, when it has exactly one and it holds one of `ours`.
fn single_blocker(bl: Bitboard, ours: Bitboard) -> (r: Option<Square>)
    requires
        bl.wf(),
    ensures
        r matches Some(b) ==> bl@ == set![b as int] && ours@.contains(b as int),
        r is None ==> forall|b: int| !(bl@ == set![b] && ours@.contains(b)),
{
    match bl.lsb() {
        None => {
            proof {
                assert forall|b: int| !(bl@ == set![b] && ours@.contains(b)) by {
                    if bl@ == set![b] {
                        assert(bl@.contains(b));
                    }
                }
            }
            None
        },
        Some(b) => {
            let mut rest = bl;
            rest.clear(b);
            if rest.is_empty() && ours.contains(b) {
                proof {
                    assert(bl@ =~= set![b as int]) by {
                        assert forall|t: int| bl@.contains(t) implies t == b by {
                            if t != b {
                                assert(rest@.contains(t));
                            }
                        }
                    }
                }
                Some(b)
            } else {
                proof {
                    assert forall|c: int| !(bl@ == set![c] && ours@.contains(c)) by {
                        if bl@ == set![c] {
                            assert(bl@.contains(b as int));
                            assert(c == b);
                            assert(rest@ =~= Set::<int>::empty());
                        }
                    }
                }
                None
            }
        },
    }
}


/// An enemy lance on `p`, straight ahead of `color`'s king, pins the piece on `b`.
pub open spec fn lance_pin(s: Snap, color: u8, p: int, b: int) -> bool {
    let k = s.king_sq[color as int] as int;
    &&& in_ray(k, spec_forward_dir(color), p)
    &&& s.board[p] == spec_make_piece(spec_opposite(color), KYO)
    &&& blockers(s, k, p) == set![b]
    &&& color_set(s.board, color).contains(b)
}

/// The sliders that pin along direction `d` other than lances.
pub open spec fn dir_slider(color: u8, d: int, p: u8) -> bool {
    let them = spec_opposite(color);
    ||| (4 <= d < 8 && (p == spec_make_piece(them, KAKU) || p == spec_make_piece(them, UMA)))
    ||| (0 <= d < 4 && (p == spec_make_piece(them, HI) || p == spec_make_piece(them, RYU)))
}

/// An enemy bishop, horse, rook or dragon on `p`, along direction `d` from `color`'s
/// king, pins the piece on `b`.
pub open spec fn dir_pin(s: Snap, color: u8, d: int, p: int, b: int) -> bool {
    let k = s.king_sq[color as int] as int;
    &&& 0 <= d < 8
    &&& in_ray(k, d, p)
    &&& dir_slider(color, d, s.board[p])
    &&& blockers(s, k, p) == set![b]
    &&& color_set(s.board, color).contains(b)
}

/// The piece on `b` is pinned along direction `d` by the nearest slider there.
proof fn lemma_nearest_pinner(s: Snap, color: u8, d: int, p0: int, p: int, b: int)
    requires
        color <= 1,
        s.board.len() == 81,
        0 <= d < 8,
        s.king_sq[color as int] < 81,
        in_ray(s.king_sq[color as int] as int, d, p0),
        dir_slider(color, d, s.board[p0]),
        ray_dist(s.king_sq[color as int] as int, p0) <= ray_dist(s.king_sq[color as int] as int, p),
        dir_pin(s, color, d, p, b),
    ensures
        p0 == p,
{
    let k = s.king_sq[color as int] as int;
    if p0 != p {
        lemma_opposite(color);
        lemma_piece_roundtrip(spec_opposite(color), KAKU);
        lemma_piece_roundtrip(spec_opposite(color), UMA);
        lemma_piece_roundtrip(spec_opposite(color), HI);
        lemma_piece_roundtrip(spec_opposite(color), RYU);
        if ray_dist(k, p0) == ray_dist(k, p) {
            assert(p0 == crate::types::spec_col(p0) * 9 + crate::types::spec_row(p0));
            assert(p == crate::types::spec_col(p) * 9 + crate::types::spec_row(p));
        }
        lemma_between_on_ray(k, d, p, p0);
        assert(blockers(s, k, p).contains(p0));
        assert(p0 == b);
    }
}

/// The piece pinned along direction `d` from `color`'s king by the nearest of
/// `sliders` on that ray, if any.
fn pinned_along(
    king: Square,
    d: u8,
    sliders: Bitboard,
    occ: Bitboard,
    ours: Bitboard,
    Ghost(s): Ghost<Snap>,
    Ghost(color): Ghost<u8>,
) -> (r: Option<Square>)
    requires
        king < 81,
        d < 8,
        color <= 1,
        s.board.len() == 81,
        s.king_sq.len() == 2,
        s.king_sq[color as int] == king,
        sliders.wf(),
        occ.wf(),
        ours.wf(),
        occ@ == occ_set(s.board),
        ours@ == color_set(s.board, color),
        forall|t: int| #[trigger] sliders@.contains(t) <==> 0 <= t < 81 && dir_slider(color, d as int, s.board[t]),
    ensures
        r matches Some(b) ==> exists|p: int| #[trigger] dir_pin(s, color, d as int, p, b as int),
        forall|b: int, p: int| #[trigger] dir_pin(s, color, d as int, p, b) ==> r == Some(b as u8),
{
    let empty = Bitboard::empty();
    let ray = ray_attacks(king, d, empty);
    proof {
        assert forall|t: int| #[trigger] ray@.contains(t) <==> in_ray(king as int, d as int, t) by {
            if in_ray(king as int, d as int, t) {
                assert(ray_attack(king as int, d as int, empty@, t));
            }
        }
    }
    let cands = ray.and(sliders);
    match first_on_ray(ray, cands, king, d) {
        None => {
            proof {
                assert forall|b: int, p: int| #[trigger] dir_pin(s, color, d as int, p, b) implies false by {
                    assert(ray@.contains(p) && cands@.contains(p));
                }
            }
            None
        },
        Some(p0) => {
            let bl = between(king, p0).and(occ);
            proof {
                assert(bl@ =~= blockers(s, king as int, p0 as int));
            }
            let found = single_blocker(bl, ours);
            proof {
                if let Some(b) = found {
                    assert(dir_pin(s, color, d as int, p0 as int, b as int));
                }
                assert forall|b: int, p: int| #[trigger] dir_pin(s, color, d as int, p, b) implies found == Some(b as u8) by {
                    assert(cands@.contains(p));
                    lemma_nearest_pinner(s, color, d as int, p0 as int, p, b);
                    assert(bl@ == set![b]);
                    assert(bl@.contains(b));
                    if let Some(b0) = found {
                        assert(bl@.contains(b0 as int));
                    }
                }
            }
            found
        },
    }
}

impl Position {
    /// Pieces of `color` pinned against their own king: a lance straight ahead of the
    /// king, or the nearest bishop or horse on a diagonal, or the nearest rook or dragon
    /// on a rank or file, with exactly one piece between it and the king, of `color`.
    pub fn pinned_pieces(&self, color: Color) -> (r: Bitboard)
        requires
            self.wf(),
            color < 2,
        ensures
            r.wf(),
            forall|b: int| #[trigger] r@.contains(b) <==> pinned_at(self.snap(), color, b),
    {
        proof {
            self.lemma_wf_board();
        }
        let ghost s = self.snap();
        let king = self.king_square(color);
        if king == SQ_NONE {
            let e = Bitboard::empty();
            return e;
        }
        let ghost k = king as int;
        let them = opposite(color);
        proof {
            lemma_opposite(color);
        }
        let occ = self.occupied();
        let ours = self.pieces_of_color(color);
        let empty = Bitboard::empty();
        let mut pinned = Bitboard::empty();
        let fwd = forward_dir(color);
        let lance_ray = ray_attacks(king, fwd, empty);
        let lances0 = lance_ray.and(self.pieces(them, KYO));
        let mut lances = lances0;
        proof {
            lemma_piece_roundtrip(them, KYO);
            assert forall|t: int| #[trigger] lance_ray@.contains(t) <==> in_ray(k, fwd as int, t) by {
                if in_ray(k, fwd as int, t) {
                    assert(ray_attack(k, fwd as int, empty@, t));
                }
            }
            assert forall|t: int| #[trigger] lances0@.contains(t) <==> (in_ray(king as int, spec_forward_dir(color), t)
                && s.board[t] == spec_make_piece(them, KYO)) by {
                if 0 <= t < 81 {
                    crate::types::lemma_piece_split(s.board[t]);
                }
            }
        }
        while !lances.is_empty()
            invariant
                s == self.snap(),
                king == s.king_sq[color as int],
                king < 81,
                color < 2,
                them == spec_opposite(color),
                lances.wf(),
                pinned.wf(),
                occ@ == occ_set(s.board),
                ours@ == color_set(s.board, color),
                forall|t: int| #[trigger] lances0@.contains(t) <==> (in_ray(king as int, spec_forward_dir(color), t)
                    && s.board[t] == spec_make_piece(them, KYO)),
                forall|t: int| #[trigger] lances@.contains(t) ==> lances0@.contains(t),
                forall|b: int| #[trigger] pinned@.contains(b) <==> exists|p: int|
                    lances0@.contains(p) && !lances@.contains(p) && #[trigger] lance_pin(s, color, p, b),
            ensures
                lances@ == Set::<int>::empty(),
            decreases lances.measure(),
        {
            let ghost before = lances@;
            let ghost pinned0 = pinned@;
            let p = match lances.pop_lsb() {
                Some(p) => p,
                None => {
                    break;
                },
            };
            let bl = between(king, p).and(occ);
            proof {
                assert(bl@ =~= blockers(s, king as int, p as int));
            }
            let found = single_blocker(bl, ours);
            match found {
                Some(b) => {
                    proof {
                        assert(bl@.contains(b as int));
                        assert(b < 81);
                    }
                    pinned.set(b);
                },
                None => {},
            }
            proof {
                assert(before.contains(p as int));
                assert(lances0@.contains(p as int));
                assert forall|b: int| #[trigger] pinned@.contains(b) <==> exists|q: int|
                    lances0@.contains(q) && !lances@.contains(q) && #[trigger] lance_pin(s, color, q, b) by {
                    if found == Some(b as u8) && 0 <= b < 81 {
                        assert(lance_pin(s, color, p as int, b));
                    }
                    if lance_pin(s, color, p as int, b) {
                        assert(lances0@.contains(p as int) && !lances@.contains(p as int));
                        assert(blockers(s, king as int, p as int) == set![b]);
                        if let Some(b0) = found {
                            assert(set![b] =~= set![b0 as int]);
                            assert(set![b].contains(b));
                        }
                    }
                    if exists|q: int| lances0@.contains(q) && !lances@.contains(q) && #[trigger] lance_pin(s, color, q, b) {
                        let q = choose|q: int| lances0@.contains(q) && !lances@.contains(q) && #[trigger] lance_pin(s, color, q, b);
                        if q != p {
                            assert(!before.contains(q));
                        }
                    }
                    if pinned0.contains(b) {
                        let q = choose|q: int| lances0@.contains(q) && !before.contains(q) && #[trigger] lance_pin(s, color, q, b);
                        assert(!lances@.contains(q));
                    }
                }
            }
        }
        proof {
            assert forall|b: int| #[trigger] pinned@.contains(b) <==> (exists|p: int| #[trigger] lance_pin(s, color, p, b))
                || exists|dd: int, p: int| 0 <= dd < 0 && #[trigger] dir_pin(s, color, dd, p, b) by {
                if exists|p: int| #[trigger] lance_pin(s, color, p, b) {
                    let p = choose|p: int| #[trigger] lance_pin(s, color, p, b);
                    assert(lances0@.contains(p) && !lances@.contains(p));
                }
            }
        }
        let bishops = self.pieces(them, KAKU).or(self.pieces(them, UMA));
        let rooks = self.pieces(them, HI).or(self.pieces(them, RYU));
        proof {
            lemma_piece_roundtrip(them, KAKU);
            lemma_piece_roundtrip(them, UMA);
            lemma_piece_roundtrip(them, HI);
            lemma_piece_roundtrip(them, RYU);
            assert forall|t: int| #[trigger] bishops@.contains(t) <==> 0 <= t < 81 && (s.board[t]
                == spec_make_piece(them, KAKU) || s.board[t] == spec_make_piece(them, UMA)) by {
                if 0 <= t < 81 {
                    crate::types::lemma_piece_split(s.board[t]);
                }
            }
            assert forall|t: int| #[trigger] rooks@.contains(t) <==> 0 <= t < 81 && (s.board[t]
                == spec_make_piece(them, HI) || s.board[t] == spec_make_piece(them, RYU)) by {
                if 0 <= t < 81 {
                    crate::types::lemma_piece_split(s.board[t]);
                }
            }
        }
        let mut d: u8 = 0;
        while d < 8
            invariant
                s == self.snap(),
                king == s.king_sq[color as int],
                king < 81,
                color < 2,
                them == spec_opposite(color),
                s.board.len() == 81,
                s.king_sq.len() == 2,
                pinned.wf(),
                bishops.wf(),
                rooks.wf(),
                occ.wf(),
                ours.wf(),
                occ@ == occ_set(s.board),
                ours@ == color_set(s.board, color),
                d <= 8,
                forall|t: int| #[trigger] bishops@.contains(t) <==> 0 <= t < 81 && (s.board[t]
                    == spec_make_piece(them, KAKU) || s.board[t] == spec_make_piece(them, UMA)),
                forall|t: int| #[trigger] rooks@.contains(t) <==> 0 <= t < 81 && (s.board[t]
                    == spec_make_piece(them, HI) || s.board[t] == spec_make_piece(them, RYU)),
                forall|b: int| #[trigger] pinned@.contains(b) <==> (exists|p: int| #[trigger] lance_pin(s, color, p, b))
                    || exists|dd: int, p: int| 0 <= dd < d && #[trigger] dir_pin(s, color, dd, p, b),
            decreases 8 - d,
        {
            let sliders = if d >= 4 {
                bishops
            } else {
                rooks
            };
            let ghost pinned0 = pinned@;
            let found = pinned_along(king, d, sliders, occ, ours, Ghost(s), Ghost(color as u8));
            match found {
                Some(b) => {
                    proof {
                        let p = choose|p: int| #[trigger] dir_pin(s, color, d as int, p, b as int);
                        assert(blockers(s, king as int, p).contains(b as int));
                    }
                    pinned.set(b);
                },
                None => {},
            }
            proof {
                assert forall|b: int| #[trigger] pinned@.contains(b) <==> (exists|p: int| #[trigger] lance_pin(s, color, p, b))
                    || exists|dd: int, p: int| 0 <= dd < d + 1 && #[trigger] dir_pin(s, color, dd, p, b) by {
                    if found == Some(b as u8) && 0 <= b < 81 {
                        let p = choose|p: int| #[trigger] dir_pin(s, color, d as int, p, b);
                        assert(dir_pin(s, color, d as int, p, b));
                    }
                    if exists|dd: int, p: int| 0 <= dd < d + 1 && #[trigger] dir_pin(s, color, dd, p, b) {
                        let (dd, p) = choose|dd: int, p: int| 0 <= dd < d + 1 && #[trigger] dir_pin(s, color, dd, p, b);
                        if dd == d {
                            assert(found == Some(b as u8));
                            assert(b < 81);
                        } else {
                            assert(pinned0.contains(b));
                        }
                    }
                    if pinned0.contains(b) {
                        if exists|dd: int, p: int| 0 <= dd < d && #[trigger] dir_pin(s, color, dd, p, b) {
                            let (dd, p) = choose|dd: int, p: int| 0 <= dd < d && #[trigger] dir_pin(s, color, dd, p, b);
                            assert(0 <= dd < d + 1 && dir_pin(s, color, dd, p, b));
                        }
                    }
                }
            }
            d = d + 1;
        }
        proof {
            assert forall|b: int| #[trigger] pinned@.contains(b) <==> pinned_at(s, color, b) by {
                if pinned_at(s, color, b) {
                    let (dd, p) = choose|dd: int, p: int|
                        0 <= dd < 8 && #[trigger] in_ray(king as int, dd, p) && pin_slider(color, dd, s.board[p])
                            && blockers(s, king as int, p) == set![b];
                    if dir_slider(color, dd, s.board[p]) {
                        assert(dir_pin(s, color, dd, p, b));
                    } else {
                        assert(lance_pin(s, color, p, b));
                    }
                }
                if exists|p: int| #[trigger] lance_pin(s, color, p, b) {
                    let p = choose|p: int| #[trigger] lance_pin(s, color, p, b);
                    assert(in_ray(king as int, spec_forward_dir(color), p));
                }
                if exists|dd: int, p: int| 0 <= dd < 8 && #[trigger] dir_pin(s, color, dd, p, b) {
                    let (dd, p) = choose|dd: int, p: int| 0 <= dd < 8 && #[trigger] dir_pin(s, color, dd, p, b);
                    assert(in_ray(king as int, dd, p));
                }
            }
        }
        pinned
    }
}

} // verus!
