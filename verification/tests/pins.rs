use shogi_wasm::sfen::parse_sfen;
use shogi_wasm::types::{BLACK, WHITE};

fn squares(b: shogi_wasm::bitboard::Bitboard) -> Vec<u8> {
    (0u8..81).filter(|&sq| b.contains(sq)).collect()
}

#[test]
fn rook_pins_gold_on_the_file() {
    let pos = parse_sfen("k3r4/9/9/9/9/9/9/4G4/4K4 b - 1").unwrap();
    assert_eq!(squares(pos.pinned_pieces(BLACK)), vec![4 * 9 + 7]);
    assert!(squares(pos.pinned_pieces(WHITE)).is_empty());
}

#[test]
fn lance_ahead_of_the_king_pins() {
    let pos = parse_sfen("k3l4/9/9/9/9/9/9/4G4/4K4 b - 1").unwrap();
    assert_eq!(squares(pos.pinned_pieces(BLACK)), vec![4 * 9 + 7]);
}

#[test]
fn lance_behind_the_king_does_not_pin() {
    let pos = parse_sfen("4k4/4G4/9/9/9/9/9/9/4L4 w - 1").unwrap();
    assert!(squares(pos.pinned_pieces(WHITE)).is_empty());
}

#[test]
fn bishop_pins_on_the_diagonal_and_two_blockers_do_not() {
    let pos = parse_sfen("k8/9/9/9/8b/9/9/5S3/4K4 b - 1").unwrap();
    assert_eq!(squares(pos.pinned_pieces(BLACK)), vec![5 * 9 + 7]);
    let two = parse_sfen("k8/9/9/9/8b/9/6G2/5S3/4K4 b - 1").unwrap();
    assert!(squares(two.pinned_pieces(BLACK)).is_empty());
    let enemy = parse_sfen("k8/9/9/9/8b/9/9/5s3/4K4 b - 1").unwrap();
    assert!(squares(enemy.pinned_pieces(BLACK)).is_empty());
}

#[test]
fn no_king_no_pins() {
    let pos = parse_sfen("k3r4/9/9/9/9/9/9/4G4/9 b - 1").unwrap();
    assert!(squares(pos.pinned_pieces(BLACK)).is_empty());
}
