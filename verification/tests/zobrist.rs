use shogi_wasm::types::{make_piece, BLACK, FU, WHITE};
use shogi_wasm::zobrist::{hand_inc, psq_key};

#[test]
fn psq_entries_distinct_and_even() {
    assert_eq!(psq_key(make_piece(BLACK, FU), 0) & 1, 0);
    assert_ne!(psq_key(make_piece(BLACK, FU), 0), psq_key(make_piece(BLACK, FU), 1));
    assert_ne!(psq_key(make_piece(BLACK, FU), 0), psq_key(make_piece(WHITE, FU), 0));
}

#[test]
fn hand_inc_add_sub_cancel() {
    let mut k: u64 = 12345;
    k = k.wrapping_add(hand_inc(BLACK, FU));
    k = k.wrapping_sub(hand_inc(BLACK, FU));
    assert_eq!(k, 12345);
}
