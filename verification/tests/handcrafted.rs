use shogi_wasm::eval::handcrafted::{evaluate, HandCrafted};
use shogi_wasm::eval::Evaluator;
use shogi_wasm::position::Position;
use shogi_wasm::sfen::parse_sfen;

#[test]
fn startpos_is_near_zero() {
    let pos = Position::startpos();
    let s = evaluate(&pos);
    assert!(s.abs() < 60, "startpos eval should be near zero, got {s}");
}

#[test]
fn extra_rook_is_a_large_advantage() {
    let sfen = "9/9/9/9/4k4/9/9/9/4K4 b R 1";
    let pos = shogi_wasm::sfen::parse_sfen(sfen).unwrap();
    let s = evaluate(&pos);
    assert!(s > 500, "black up a rook in hand should score well above zero, got {s}");
}

#[test]
fn side_to_move_view_and_exact_values() {
    // Two bare kings far apart: only the king-proximity terms count.
    let pos = parse_sfen("4k4/9/9/9/9/9/9/9/4K4 b R 1").unwrap();
    let black_view = evaluate(&pos);
    let mut hc = HandCrafted::new();
    hc.refresh(&pos);
    assert_eq!(hc.eval(&pos), black_view);
    let pos_w = parse_sfen("4k4/9/9/9/9/9/9/9/4K4 w R 1").unwrap();
    assert_eq!(hc.eval(&pos_w), -evaluate(&pos_w));
    // A rook in hand counts 990 * 8 / 10 = 792 on top of the symmetric king terms.
    let bare = parse_sfen("4k4/9/9/9/9/9/9/9/4K4 b - 1").unwrap();
    assert_eq!(black_view - evaluate(&bare), 792);
}
