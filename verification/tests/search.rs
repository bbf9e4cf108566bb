use shogi_wasm::eval::HandCrafted;
use shogi_wasm::movegen::generate_legal;
use shogi_wasm::native_support::StdClock;
use shogi_wasm::position::Position;
use shogi_wasm::search::{has_non_pawn_material, mate_in_plies, search, Clock, Limits, SearchRun};
use shogi_wasm::sfen::{move_to_usi, parse_sfen, to_sfen};
use shogi_wasm::tt::TranspositionTable;
use shogi_wasm::types::{BLACK, WHITE};

struct FixedClock;

impl Clock for FixedClock {
    fn now_ms(&self) -> u64 {
        0
    }
}

fn legal(pos: &mut Position) -> Vec<u32> {
    let mut v = Vec::new();
    generate_legal(pos, &mut v);
    v.into_iter().map(|m| m.0).collect()
}

#[test]
fn limits_constructors() {
    let d = Limits::depth(5);
    assert_eq!((d.max_depth, d.movetime_ms, d.node_limit), (5, 0, 0));
    let t = Limits::movetime(100);
    assert_eq!((t.max_depth, t.movetime_ms, t.node_limit), (0, 100, 200_000_000));
}

#[test]
fn mate_distance_from_score() {
    assert_eq!(mate_in_plies(29_999), 1);
    assert_eq!(mate_in_plies(29_000), 1_000);
    assert_eq!(mate_in_plies(-29_998), -2);
    assert_eq!(mate_in_plies(28_999), 0);
    assert_eq!(mate_in_plies(100), 0);
    assert_eq!(mate_in_plies(-28_999), 0);
}

#[test]
fn non_pawn_material_on_board_and_in_hand() {
    let start = Position::startpos();
    assert!(has_non_pawn_material(&start, BLACK));
    assert!(has_non_pawn_material(&start, WHITE));
    let bare = parse_sfen("4k4/9/9/9/9/9/9/9/4K4 b 2P 1").unwrap();
    assert!(!has_non_pawn_material(&bare, BLACK));
    let rook = parse_sfen("4k4/9/9/9/9/9/9/9/4K4 b R 1").unwrap();
    assert!(has_non_pawn_material(&rook, BLACK));
    assert!(!has_non_pawn_material(&rook, WHITE));
    let pawns = parse_sfen("4k4/9/9/9/9/9/PPP6/9/4K4 b - 1").unwrap();
    assert!(!has_non_pawn_material(&pawns, BLACK));
}

#[test]
fn startpos_search_returns_a_legal_move_and_restores_the_position() {
    let mut pos = Position::startpos();
    let before = to_sfen(&pos);
    let key = pos.key();
    let mut eval = HandCrafted::new();
    let mut tt = TranspositionTable::new(1);
    let r = search(&mut pos, &mut eval, &mut tt, Limits::depth(3), &FixedClock);
    assert_eq!(r.depth, 3);
    assert!(legal(&mut pos).contains(&r.best_move.0));
    assert!(!r.pv.is_empty());
    assert_eq!(r.pv[0], r.best_move);
    assert!(!r.aborted);
    assert!(r.nodes > 0);
    assert_eq!(to_sfen(&pos), before);
    assert_eq!(pos.key(), key);
}

#[test]
fn finds_gold_drop_mate_in_one() {
    let mut pos = parse_sfen("4k4/9/4G4/9/9/9/9/9/4K4 b G 1").unwrap();
    let mut eval = HandCrafted::new();
    let mut tt = TranspositionTable::new(1);
    let r = search(&mut pos, &mut eval, &mut tt, Limits::depth(4), &StdClock::start());
    assert_eq!(move_to_usi(r.best_move), "G*5b");
    assert_eq!(r.score_cp, 29_999);
    assert_eq!(r.mate_in, 1);
    assert!(r.depth >= 1 && r.depth <= 4);
}

#[test]
fn mated_side_has_no_best_move() {
    let mut pos = parse_sfen("4k4/4G4/4G4/9/9/9/9/9/4K4 w - 1").unwrap();
    let mut eval = HandCrafted::new();
    let mut tt = TranspositionTable::new(1);
    let r = search(&mut pos, &mut eval, &mut tt, Limits::depth(2), &FixedClock);
    assert_eq!(r.best_move.0, 0);
    assert!(r.pv.is_empty());
    assert_eq!(r.score_cp, -30_000);
}

#[test]
fn stepping_reports_each_iteration() {
    let mut pos = Position::startpos();
    let mut eval = HandCrafted::new();
    let mut tt = TranspositionTable::new(1);
    let clock = FixedClock;
    let mut run = SearchRun::start(&mut pos, &mut eval, &tt, Limits::depth(2), &clock);
    let first = run.step(&mut pos, &mut eval, &mut tt, &clock).expect("first iteration");
    assert_eq!(first.depth, 1);
    assert!(!first.pv.is_empty());
    let second = run.step(&mut pos, &mut eval, &mut tt, &clock).expect("second iteration");
    assert_eq!(second.depth, 2);
    assert!(run.step(&mut pos, &mut eval, &mut tt, &clock).is_none());
    assert!(!run.running());
    let r = run.result();
    assert_eq!(r.depth, 2);
    assert_eq!(r.pv, second.pv);
}

#[test]
fn node_limit_stops_the_search() {
    let mut pos = Position::startpos();
    let mut eval = HandCrafted::new();
    let mut tt = TranspositionTable::new(1);
    let limits = Limits { max_depth: 20, movetime_ms: 0, node_limit: 2048 };
    let r = search(&mut pos, &mut eval, &mut tt, limits, &FixedClock);
    assert!(r.aborted);
    assert!(r.depth >= 1 && r.depth < 20);
    assert!(legal(&mut pos).contains(&r.best_move.0));
}

#[test]
fn depth_limited_search_runs_to_its_depth_unless_it_finds_a_mate() {
    let mut pos = parse_sfen("lnsg1gsnl/1r2k2b1/pppppp1pp/6p2/9/2P6/PP1PPPPPP/1B3S1R1/LNSGKG1NL b - 5").unwrap();
    let mut eval = HandCrafted::new();
    let mut tt = TranspositionTable::new(1);
    let r = search(&mut pos, &mut eval, &mut tt, Limits::depth(2), &FixedClock);
    assert!(!r.aborted);
    assert!(r.depth <= 2);
    assert!(r.depth == 2 || r.mate_in != 0);
    let mut pos = parse_sfen("4k4/9/4G4/9/9/9/9/9/4K4 b G 1").unwrap();
    let r = search(&mut pos, &mut eval, &mut tt, Limits::depth(6), &FixedClock);
    assert!(!r.aborted);
    assert!(r.depth < 6 && r.mate_in != 0);
}
