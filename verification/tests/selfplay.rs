use shogi_wasm::eval::AnyEval;
use shogi_wasm::position::Repetition;
use shogi_wasm::selfplay::{
    game_over, game_records, play_game, play_one_game, play_range, split_games, GameOptions, Rng,
};
use shogi_wasm::tt::TranspositionTable;
use shogi_wasm::types::{BLACK, WHITE};

#[test]
fn xorshift_steps_match_known_values() {
    let mut rng = Rng(1);
    assert_eq!(rng.next_u64(), 1082269761);
    assert_eq!(rng.0, 1082269761);
    assert_eq!(rng.next_u64(), 1152992998833853505);
    let mut rng = Rng(20260921 ^ 0x9E3779B97F4A7C15);
    assert_eq!(rng.next_u64(), 15877059489323229572);
}

#[test]
fn below_reduces_the_next_number() {
    let mut rng = Rng(1082269761);
    assert_eq!(rng.below(7), 6);
    assert!(rng.below(7) < 7);
    let mut z = Rng(1);
    assert_eq!(z.below(0), 0);
    assert_eq!(z.0, 1082269761);
}

#[test]
fn game_over_follows_the_rules() {
    assert_eq!(game_over(true, Repetition::NoRepetition, BLACK), Some(-1));
    assert_eq!(game_over(true, Repetition::Draw, WHITE), Some(1));
    assert_eq!(game_over(false, Repetition::Draw, BLACK), Some(0));
    assert_eq!(game_over(false, Repetition::WinByPerpetual, BLACK), Some(1));
    assert_eq!(game_over(false, Repetition::WinByPerpetual, WHITE), Some(-1));
    assert_eq!(game_over(false, Repetition::LoseByPerpetual, BLACK), Some(-1));
    assert_eq!(game_over(false, Repetition::LoseByPerpetual, WHITE), Some(1));
    assert_eq!(game_over(false, Repetition::NoRepetition, WHITE), None);
}

#[test]
fn split_games_makes_pair_aligned_blocks() {
    assert_eq!(split_games(0, 4), vec![]);
    assert_eq!(split_games(1, 8), vec![(0, 1)]);
    assert_eq!(split_games(7, 10), vec![(0, 2), (2, 4), (4, 7)]);
    let r = split_games(400, 10);
    assert_eq!(r.len(), 9);
    assert_eq!(r[0], (0, 40));
    assert_eq!(r[8], (320, 400));
    assert_eq!(split_games(10, 0), vec![(0, 10)]);
}

#[test]
fn self_play_samples_lie_on_the_game() {
    let opts = GameOptions { max_plies: 12, random_opening_plies: 2, nodes_per_move: 300 };
    let mut rng = Rng(7);
    let mut tt = TranspositionTable::new(1);
    let (samples, result) = play_game(&opts, &mut rng, &mut tt);
    assert!((-1..=1).contains(&result));
    let mut last: Option<u32> = None;
    for (pos, score, ply) in &samples {
        assert!(*ply >= 2 && *ply < 12);
        assert!(score.abs() <= 3000);
        assert_eq!(pos.ply(), *ply);
        assert!(!pos.in_check());
        if let Some(l) = last {
            assert!(l < *ply);
        }
        last = Some(*ply);
    }
    let recs = game_records(&samples, 1);
    assert_eq!(recs.len(), samples.len());
    for (rec, (pos, score, _)) in recs.iter().zip(samples.iter()) {
        assert_eq!(rec.score, *score);
        assert_eq!(rec.side, pos.side_to_move());
        assert_eq!(rec.result, if pos.side_to_move() == BLACK { 1 } else { -1 });
    }
}

#[test]
fn a_game_without_plies_is_a_draw() {
    let opts = GameOptions { max_plies: 0, random_opening_plies: 0, nodes_per_move: 100 };
    let mut rng = Rng(3);
    let mut tt = TranspositionTable::new(1);
    let (samples, result) = play_game(&opts, &mut rng, &mut tt);
    assert!(samples.is_empty());
    assert_eq!(result, 0);
}

#[test]
fn matches_report_one_result_per_game() {
    let mut a = AnyEval::hand_crafted();
    let mut b = AnyEval::hand_crafted();
    let mut rng = Rng(11);
    let r = play_one_game(&mut a, &mut b, 200, 10, &mut rng, 4);
    assert!((-1..=1).contains(&r));
    let results = play_range(&mut a, &mut b, 200, 10, 5, 3, 6);
    assert_eq!(results.len(), 3);
    assert!(results.iter().all(|r| (-1..=1).contains(r)));
    assert_eq!(play_range(&mut a, &mut b, 200, 10, 5, 4, 4).len(), 0);
}
