use shogi_wasm::mov::{move_none, move_null, Move};
use shogi_wasm::types::{FU, GIN, KAKU};

#[test]
fn board_move_roundtrip() {
    let mv = Move::new_board(10, 20, GIN, true, KAKU);
    assert_eq!(mv.from(), 10);
    assert_eq!(mv.to(), 20);
    assert_eq!(mv.moved_piece_type(), GIN);
    assert!(mv.is_promotion());
    assert!(!mv.is_drop());
    assert_eq!(mv.captured_piece_type(), KAKU);
    assert!(mv.is_capture());
}

#[test]
fn drop_move_roundtrip() {
    let mv = Move::new_drop(FU, 42);
    assert!(mv.is_drop());
    assert_eq!(mv.to(), 42);
    assert_eq!(mv.moved_piece_type(), FU);
    assert!(!mv.is_capture());
    assert!(!mv.is_promotion());
}

#[test]
fn move_none_is_zero() {
    assert!(move_none().is_none());
    assert_eq!(move_none().0, 0);
}

#[test]
fn packed_bits_and_null_move() {
    let mv = Move::new_board(10, 20, GIN, true, KAKU);
    assert_eq!(mv.0, 20 | (10 << 7) | (1 << 14) | ((GIN as u32) << 16) | ((KAKU as u32) << 21));
    assert_eq!(Move::new_drop(FU, 42).0, 42 | 0x8000 | (1 << 16));
    assert!(move_null().is_null());
    assert!(!move_null().is_none());
    assert_eq!(mv.core16(), (mv.0 & 0xFFFF) as u16);
}

#[test]
fn debug_text_of_moves() {
    assert_eq!(move_none().debug_text(), "none");
    assert_eq!(Move::new_drop(5, 40).debug_text(), "5*40");
    assert_eq!(Move::new_board(24, 23, 1, false, 0).debug_text(), "2423");
    assert_eq!(Move::new_board(70, 10, 6, true, 3).debug_text(), "7010+x");
}
