use shogi_wasm::eval::features::{abs_index, active_features, hand_index, psq, N_FEATURES};
use shogi_wasm::position::Position;
use shogi_wasm::sfen::parse_sfen;
use shogi_wasm::types::{BLACK, FU, KAKU, OU, WHITE};

#[test]
fn feature_count_matches_spec() {
    assert_eq!(N_FEATURES, 2344);
}

#[test]
fn active_feature_count_is_always_40_at_startpos() {
    let pos = Position::startpos();
    let mut feats = Vec::new();
    active_features(&pos, BLACK, &mut feats);
    assert_eq!(feats.len(), 40);
    active_features(&pos, WHITE, &mut feats);
    assert_eq!(feats.len(), 40);
}

#[test]
fn indices_are_in_range_and_perspectives_differ() {
    let pos = Position::startpos();
    let mut b = Vec::new();
    let mut w = Vec::new();
    active_features(&pos, BLACK, &mut b);
    active_features(&pos, WHITE, &mut w);
    for &f in b.iter().chain(w.iter()) {
        assert!((f as usize) < N_FEATURES);
    }
    assert_ne!(b, w);
}

#[test]
fn thermometer_hand_encoding_is_monotonic() {
    let sfen = "4k4/9/9/9/9/9/9/9/4K4 b 3P 1";
    let pos = parse_sfen(sfen).unwrap();
    let mut feats = Vec::new();
    active_features(&pos, BLACK, &mut feats);
    let i1 = hand_index(BLACK, FU, 1, BLACK);
    let i2 = hand_index(BLACK, FU, 2, BLACK);
    let i3 = hand_index(BLACK, FU, 3, BLACK);
    for i in [i1, i2, i3] {
        assert!(feats.contains(&(i as u16)), "expected feature {i} active for 3 pawns in hand");
    }
}

#[test]
fn feature_indices_by_formula() {
    assert_eq!(psq(10, BLACK), 10);
    assert_eq!(psq(10, WHITE), 70);
    assert_eq!(abs_index(BLACK, FU, 0, BLACK), 0);
    assert_eq!(abs_index(WHITE, OU, 5, BLACK), (14 + 7) * 81 + 5);
    assert_eq!(hand_index(WHITE, KAKU, 2, BLACK), 2268 + 38 + 34 + 1);
    let pos = parse_sfen("4k4/9/9/9/9/9/9/9/4K4 b 3P 1").unwrap();
    let mut feats = Vec::new();
    active_features(&pos, BLACK, &mut feats);
    assert_eq!(feats.len(), 5);
}
