use shogi_wasm::movegen::generate_legal;
use shogi_wasm::perft::{perft, perft_divide};
use shogi_wasm::position::Position;
use shogi_wasm::sfen::{move_to_usi, parse_sfen};
use shogi_wasm::types::OU;

#[test]
fn perft_startpos_depth_1_to_4() {
    let expected: [u64; 4] = [30, 900, 25_470, 719_731];
    let mut pos = Position::startpos();
    for (i, &want) in expected.iter().enumerate() {
        let depth = (i + 1) as u32;
        let got = perft(&mut pos, depth);
        assert_eq!(got, want, "perft(startpos, {depth}) = {got}, want {want}");
    }
}

#[test]
fn perft_wide_branching_position() {
    let sfen = "l6nl/5+P1gk/2np1S3/p1p4Pp/3P2Sp1/1PPb2P1P/P5GS1/R8/LN4bKL w GR5pnsg 1";
    let mut pos = parse_sfen(sfen).expect("sfen parses");
    let got = perft(&mut pos, 1);
    assert!(got > 150, "expected a wide branching position, got only {got} moves");
}

#[test]
fn perft_uchifuzume_is_illegal() {
    let sfen = "kN7/1N7/N8/NN7/9/9/9/9/4K4 b P 1";
    let mut pos = parse_sfen(sfen).expect("sfen parses");
    assert!(!pos.in_check(), "white must not already be in check before the drop");

    let mut moves = Vec::new();
    generate_legal(&mut pos, &mut moves);
    let has_mating_drop = moves.iter().any(|m| m.is_drop() && move_to_usi(*m) == "P*9b");
    assert!(!has_mating_drop, "dropping a pawn for checkmate must be illegal (uchifuzume)");
}

#[test]
fn perft_pawn_drop_check_with_escape_is_legal() {
    let sfen = "kN7/1N7/N8/N8/9/9/9/9/4K4 b P 1";
    let mut pos = parse_sfen(sfen).expect("sfen parses");
    let mut moves = Vec::new();
    generate_legal(&mut pos, &mut moves);
    let has_drop = moves.iter().any(|m| m.is_drop() && move_to_usi(*m) == "P*9b");
    assert!(has_drop, "with the defender removed, the pawn drop should be legal (king can capture)");
}

#[test]
fn perft_double_check_king_moves_only() {
    let sfen = "4l4/9/9/9/4K4/9/9/6b2/9 b - 1";
    let mut pos = parse_sfen(sfen).expect("sfen parses");
    assert!(pos.checkers().count_ones() >= 1);
    let mut moves = Vec::new();
    generate_legal(&mut pos, &mut moves);
    assert!(!moves.is_empty(), "must have at least one legal king move");
    assert!(moves.iter().all(|m| !m.is_drop() && m.moved_piece_type() == OU), "in double check, only king moves are legal, got {moves:?}");
}

#[test]
fn divide_sums_to_perft() {
    let mut pos = Position::startpos();
    let parts = perft_divide(&mut pos, 2);
    assert_eq!(parts.len(), 30);
    assert_eq!(parts.iter().map(|p| p.1).sum::<u64>(), 900);
    let ones = perft_divide(&mut pos, 1);
    assert!(ones.iter().all(|p| p.1 == 1));
}

#[test]
fn perft_checked_agrees_with_perft() {
    let mut pos = Position::startpos();
    assert_eq!(shogi_wasm::perft::perft_checked(&mut pos, 3), Ok(25_470));
    let mut wide = parse_sfen("l6nl/5+P1gk/2np1S3/p1p4Pp/3P2Sp1/1PPb2P1P/P5GS1/R8/LN4bKL w GR5pnsg 1").unwrap();
    let plain = perft(&mut wide, 2);
    assert_eq!(shogi_wasm::perft::perft_checked(&mut wide, 2), Ok(plain));
}

#[test]
fn keys_stay_consistent_along_a_game() {
    let mut pos = Position::startpos();
    for usi in ["7g7f", "3c3d", "8h2b+", "3a2b", "B*4e"] {
        let mv = shogi_wasm::sfen::parse_usi_move(&pos, usi).unwrap();
        let mut legal = Vec::new();
        generate_legal(&mut pos, &mut legal);
        assert!(legal.contains(&mv), "{usi} must be legal");
        pos.do_move(mv);
        assert_eq!(pos.check_consistency(), Ok(()));
    }
}
