use shogi_wasm::engine::{kif_text, Engine};
use shogi_wasm::mov::Move;
use shogi_wasm::position::Position;
use shogi_wasm::search::Clock;

struct FixedClock;

impl Clock for FixedClock {
    fn now_ms(&self) -> u64 {
        0
    }
}

#[test]
fn fresh_engine_reports_the_start_position() {
    let mut e = Engine::new(1);
    assert_eq!(e.sfen(), "lnsgkgsnl/1r5b1/ppppppppp/9/9/9/PPPPPPPPP/1B5R1/LNSGKGSNL b - 1");
    assert_eq!(e.side_to_move(), 0);
    assert_eq!(e.legal_moves().len(), 30);
    let board = e.board();
    assert_eq!(board.len(), 81);
    assert_eq!(board[0], 2 | 0x80);
    assert_eq!(board[8], 2);
    assert_eq!(board[4 * 9 + 8], 8);
    assert_eq!(board[4 * 9 + 4], 0);
    assert_eq!(e.hands(), vec![0u8; 14]);
    assert_eq!(e.last_move(), 0);
    assert_eq!(e.key_hex().len(), 16);
    assert_eq!(e.evaluator_name(), "hc");
    assert_eq!(e.status(), 0);
}

#[test]
fn playing_and_taking_back_a_move() {
    let mut e = Engine::new(1);
    let key0 = e.key_hex();
    let bits = e.parse_usi("7g7f").expect("usi parses");
    assert_eq!(e.move_to_usi_str(bits), "7g7f");
    let text = e.do_move(bits).expect("legal move");
    assert_eq!(text, "▲7六歩");
    assert_eq!(e.side_to_move(), 1);
    assert_eq!(e.last_move(), bits);
    assert_ne!(e.key_hex(), key0);
    assert!(e.do_move(bits).is_err());
    assert!(e.undo());
    assert_eq!(e.key_hex(), key0);
    assert!(!e.undo());
}

#[test]
fn moves_from_a_square_and_promotion_options() {
    let mut e = Engine::new(1);
    let from = 2 * 9 + 6; // 7g, the pawn in front of the bishop's file neighbour
    let moves = e.moves_from(from);
    assert_eq!(moves.len(), 1);
    assert_eq!(e.move_options(from, from - 1), 1);
    assert_eq!(e.move_options(from, from - 2), 0);
    e.set_sfen("4k4/9/9/4P4/9/9/9/9/4K4 b - 1").unwrap();
    let pawn = 4 * 9 + 3;
    assert_eq!(e.move_options(pawn, pawn - 1), 3);
    e.set_sfen("k8/4P4/9/9/9/9/9/9/4K4 b - 1").unwrap();
    let pawn = 4 * 9 + 1;
    assert_eq!(e.move_options(pawn, pawn - 1), 2);
}

#[test]
fn drops_and_reasons_for_illegal_drops() {
    let mut e = Engine::new(1);
    e.set_sfen("4k4/9/9/9/9/9/4P4/9/4K4 b P 1").unwrap();
    let five_e = 4 * 9 + 4;
    let four_e = 5 * 9 + 4;
    assert!(!e.drop_option(1, five_e));
    assert!(e.drop_option(1, four_e));
    let nifu = Move::new_drop(1, five_e).0;
    assert_eq!(e.illegal_reason(nifu), 1);
    let dead_end = Move::new_drop(1, 5 * 9).0;
    assert_eq!(e.illegal_reason(dead_end), 3);
    let drops = e.drops_of(1);
    assert!(drops.contains(&Move::new_drop(1, four_e).0));
    assert_eq!(e.illegal_reason(Move::new_drop(5, four_e).0), 4);
    e.set_sfen("kN7/1N7/N8/NN7/9/9/9/9/4K4 b P 1").unwrap();
    assert_eq!(e.illegal_reason(Move::new_drop(1, 1).0), 2);
}

#[test]
fn status_bits_of_a_mated_side() {
    let mut e = Engine::new(1);
    e.set_sfen("4k4/4G4/4G4/9/9/9/9/9/4K4 w - 1").unwrap();
    assert_eq!(e.status(), 1 | 2);
    assert!(e.legal_moves().is_empty());
}

#[test]
fn bad_sfen_is_refused_and_keeps_the_game() {
    let mut e = Engine::new(1);
    assert!(e.set_sfen("not a position").is_err());
    assert_eq!(e.legal_moves().len(), 30);
}

#[test]
fn engine_search_finds_the_mate() {
    let mut e = Engine::new(1);
    e.set_sfen("4k4/9/4G4/9/9/9/9/9/4K4 b G 1").unwrap();
    let r = e.search(3, 0, &FixedClock).expect("active engine");
    assert_eq!(e.move_to_usi_str(r.best_move.0), "G*5b");
    assert_eq!(r.mate_in, 1);
    let mut run = e.search_start(2, 0, &FixedClock).expect("active engine");
    let info = e.search_step(&mut run, &FixedClock).expect("first iteration");
    assert_eq!(info.depth, 1);
    let r2 = e.search_finish(&run);
    assert_eq!(r2.depth, 1);
}

#[test]
fn kif_text_of_drop_and_promotion() {
    let pos = Position::startpos();
    assert_eq!(kif_text(&pos, Move::new_drop(5, 4 * 9 + 1), 0), "▲5二金打");
    let promo = Move::new_board(6 * 9 + 3, 6 * 9 + 2, 1, true, 1);
    assert_eq!(kif_text(&pos, promo, 1), "△3三と成");
}

#[test]
fn default_engine_is_a_fresh_game() {
    let mut e = Engine::default();
    assert_eq!(e.legal_moves().len(), 30);
}

#[test]
fn pawn_drop_on_an_occupied_square_is_not_a_mate_drop() {
    let mut e = Engine::new(16);
    assert!(e.set_sfen("9/9/9/9/4k4/9/9/9/4K4 b P 1").is_ok());
    let mv = Move::new_drop(1, 40).0;
    assert_eq!(e.illegal_reason(mv), 4);
}

#[test]
fn lists_moves_when_only_the_side_to_move_has_a_king() {
    let mut e = Engine::new(1);
    e.set_sfen("9/9/9/9/9/9/9/9/4K4 b - 1").unwrap();
    let moves = e.legal_moves();
    assert_eq!(moves.len(), 5);
    assert_eq!(e.status(), 0);
    assert_eq!(e.move_options(4 * 9 + 8, 4 * 9 + 7), 1);
    let mut kingless = Engine::new(1);
    kingless.set_sfen("4k4/9/9/9/9/9/9/9/9 b P 1").unwrap();
    assert!(kingless.legal_moves().is_empty());
}
