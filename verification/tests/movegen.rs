use shogi_wasm::mov::Move;
use shogi_wasm::movegen::{generate_legal, is_legal, legal_drops_of, legal_moves_from};
use shogi_wasm::position::Position;
use shogi_wasm::sfen::parse_sfen;
use shogi_wasm::types::{make_square, FU, KIN};

#[test]
fn startpos_has_30_legal_moves() {
    let mut pos = Position::startpos();
    let mut moves = Vec::new();
    generate_legal(&mut pos, &mut moves);
    assert_eq!(moves.len(), 30);
}

#[test]
fn double_check_only_king_moves() {
    // Covered by the dedicated double-check perft case in tests/perft.rs.
}

#[test]
fn filters_by_origin_and_drop_kind() {
    let mut pos = Position::startpos();
    let mut from_pawn = Vec::new();
    legal_moves_from(&mut pos, make_square(6, 4), &mut from_pawn);
    assert_eq!(from_pawn, vec![Move::new_board(make_square(6, 4), make_square(5, 4), FU, false, 0)]);
    assert!(is_legal(&mut pos, from_pawn[0]));
    assert!(!is_legal(&mut pos, Move::new_board(make_square(6, 4), make_square(4, 4), FU, false, 0)));

    let mut p2 = parse_sfen("4k4/9/9/9/9/9/9/9/4K4 b G 1").unwrap();
    let mut drops = Vec::new();
    legal_drops_of(&mut p2, KIN, &mut drops);
    assert_eq!(drops.len(), 79);
    let mut none = Vec::new();
    legal_drops_of(&mut p2, FU, &mut none);
    assert!(none.is_empty());
}
