use shogi_wasm::position::Position;
use shogi_wasm::sfen::{move_to_usi, parse_sfen, parse_usi_move, to_sfen};
use shogi_wasm::types::{BLACK, FU, WHITE};

const HIRATE: &str = "lnsgkgsnl/1r5b1/ppppppppp/9/9/9/PPPPPPPPP/1B5R1/LNSGKGSNL b - 1";

#[test]
fn hirate_roundtrip() {
    let pos = parse_sfen(HIRATE).expect("parse");
    assert_eq!(to_sfen(&pos), HIRATE);
}

#[test]
fn hirate_matches_startpos() {
    let parsed = parse_sfen(HIRATE).unwrap();
    let built = Position::startpos();
    assert_eq!(to_sfen(&parsed), to_sfen(&built));
}

#[test]
fn usi_move_roundtrip() {
    let pos = Position::startpos();
    let mv = parse_usi_move(&pos, "7g7f").unwrap();
    assert_eq!(move_to_usi(mv), "7g7f");
    assert_eq!(mv.moved_piece_type(), FU);
}

#[test]
fn usi_drop_roundtrip() {
    let s = "P*5e";
    let sfen = "9/9/9/9/4k4/9/9/9/4K4 b P 1";
    let pos = parse_sfen(sfen).unwrap();
    let mv = parse_usi_move(&pos, s).unwrap();
    assert_eq!(move_to_usi(mv), s);
    assert!(mv.is_drop());
}

#[test]
fn hand_field_roundtrip() {
    let sfen = "lnsgkgsnl/1r5b1/pppppppp1/9/9/9/PPPPPPPPP/1B5R1/LNSGKGSNL b Pp 1";
    let pos = parse_sfen(sfen).unwrap();
    assert_eq!(pos.hand(BLACK, FU), 1);
    assert_eq!(pos.hand(WHITE, FU), 1);
    assert_eq!(to_sfen(&pos), sfen);
}

#[test]
fn malformed_texts_are_refused() {
    assert!(parse_sfen("lnsgkgsnl/1r5b1 b").is_err());
    assert!(parse_sfen("9/9/9/9/9/9/9/9 b - 1").is_err());
    assert!(parse_sfen("9/9/9/9/9/9/9/9/8 b - 1").is_err());
    assert!(parse_sfen("9/9/9/9/9/9/9/9/90 b - 1").is_err());
    assert!(parse_sfen("9/9/9/9/9/9/9/9/x8 b - 1").is_err());
    assert!(parse_sfen("9/9/9/9/9/9/9/9/+G8 b - 1").is_err());
    assert!(parse_sfen("9/9/9/9/9/9/9/9/9 x - 1").is_err());
    assert!(parse_sfen("9/9/9/9/9/9/9/9/9 b 3 1").is_err());
    assert!(parse_sfen("9/9/9/9/9/9/9/9/9 b Q 1").is_err());
    let pos = Position::startpos();
    assert!(parse_usi_move(&pos, "7g7").is_err());
    assert!(parse_usi_move(&pos, "0g7f").is_err());
    assert!(parse_usi_move(&pos, "7j7f").is_err());
    assert!(parse_usi_move(&pos, "5e5d").is_err());
    assert!(parse_usi_move(&pos, "Q*5e").is_err());
}

#[test]
fn move_numbers_promotions_and_counts() {
    let pos = parse_sfen("4k4/9/9/9/9/9/9/9/4K4 w 2R3p 77").unwrap();
    assert_eq!(to_sfen(&pos), "4k4/9/9/9/9/9/9/9/4K4 w 2R3p 77");
    let pos = parse_sfen("4k4/9/9/9/9/9/9/9/4K4 b - x").unwrap();
    assert_eq!(pos.ply(), 1);
    let pos = parse_sfen("+P3k4/9/9/9/9/9/9/9/4K4 b - 0").unwrap();
    assert_eq!(to_sfen(&pos), "+P3k4/9/9/9/9/9/9/9/4K4 b - 1");
    let promo = parse_usi_move(&Position::startpos(), "8h2b+").unwrap();
    assert!(promo.is_promotion());
    assert_eq!(move_to_usi(promo), "8h2b+");
}

#[test]
fn king_in_hand_is_rejected() {
    assert!(parse_sfen("4k4/9/9/9/9/9/9/9/4K4 b K 1").is_err());
    assert!(parse_sfen("4k4/9/9/9/9/9/9/9/4K4 b k 1").is_err());
    assert!(parse_sfen("4k4/9/9/9/9/9/9/9/4K4 b P 1").is_ok());
}
