use shogi_wasm::bitboard::Bitboard;
use shogi_wasm::tables::{aligned, between, direction_between, opposite_dir, ray_attacks, step_attacks};
use shogi_wasm::types::{make_square, BLACK, FU, WHITE};

#[test]
fn direction_and_between_sanity() {
    let a = make_square(0, 0);
    let b = make_square(3, 0);
    assert!(direction_between(a, b).is_some());
    let bw = between(a, b);
    assert_eq!(bw.count_ones(), 2);
    assert!(bw.contains(make_square(1, 0)));
    assert!(bw.contains(make_square(2, 0)));
}

#[test]
fn unaligned_squares_have_no_direction() {
    let a = make_square(0, 0);
    let b = make_square(1, 3);
    assert!(direction_between(a, b).is_none());
    assert!(between(a, b).is_empty());
}

#[test]
fn aligned_pivot_both_sides() {
    let k = make_square(4, 4);
    let s1 = make_square(2, 4);
    let s2 = make_square(6, 4);
    assert!(aligned(k, s1, s2));
    let off = make_square(4, 5);
    assert!(!aligned(k, s1, off));
}

#[test]
fn ray_attacks_stops_at_blocker() {
    let sq = make_square(4, 4);
    let mut occ = Bitboard::empty();
    occ.set(make_square(2, 4));
    let att = ray_attacks(sq, 0, occ);
    assert!(att.contains(make_square(3, 4)));
    assert!(att.contains(make_square(2, 4)));
    assert!(!att.contains(make_square(1, 4)));
    assert!(!att.contains(make_square(0, 4)));
}

#[test]
fn ray_attacks_no_blocker_reaches_edge() {
    let sq = make_square(4, 4);
    let att = ray_attacks(sq, 1, Bitboard::empty());
    for r in 5..9 {
        assert!(att.contains(make_square(r, 4)));
    }
}

#[test]
fn pawn_step_direction_differs_by_color() {
    let sq = make_square(4, 4);
    let black = step_attacks(BLACK, sq, FU);
    let white = step_attacks(WHITE, sq, FU);
    assert!(black.contains(make_square(3, 4)));
    assert!(white.contains(make_square(5, 4)));
}

#[test]
fn rays_are_symmetric_on_an_empty_board() {
    // If t is on the ray from sq in direction d, then sq is on the ray from t in the
    // opposite direction.
    for sq in 0u8..81 {
        for d in 0u8..8 {
            for t in ray_attacks(sq, d, Bitboard::empty()).iter().collect() {
                assert!(ray_attacks(t, d ^ 1, Bitboard::empty()).contains(sq));
            }
        }
    }
}

#[test]
fn direction_between_is_symmetric() {
    assert_eq!(direction_between(0, 3), Some(1));
    assert_eq!(direction_between(3, 0), Some(opposite_dir(1)));
    assert_eq!(direction_between(0, 28), None);
    assert_eq!(direction_between(28, 0), None);
    for a in 0u8..81 {
        for b in 0u8..81 {
            match direction_between(a, b) {
                Some(d) => assert_eq!(direction_between(b, a), Some(opposite_dir(d))),
                None => assert_eq!(direction_between(b, a), None),
            }
        }
    }
}
