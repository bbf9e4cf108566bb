use shogi_wasm::mov::{move_none, Move};
use shogi_wasm::tt::{mate_in, mated_in, score_from_tt, score_to_tt, Bound, TranspositionTable, MATE};
use shogi_wasm::types::FU;

#[test]
fn probe_finds_what_was_stored() {
    let mut tt = TranspositionTable::new(1);
    let mv = Move::new_drop(FU, 40);
    assert!(tt.probe(0x1234).is_none());
    tt.store(0x1234, mv, 55, 10, 3, Bound::Exact);
    let e = tt.probe(0x1234).expect("stored entry");
    assert_eq!(e.mv, mv);
    assert_eq!(e.score, 55);
    assert_eq!(e.eval, 10);
    assert_eq!(e.depth, 3);
    assert_eq!(e.bound, Bound::Exact);
    tt.clear();
    assert!(tt.probe(0x1234).is_none());
    tt.store(7, move_none(), 0, 0, 0, Bound::NoBound);
    assert!(tt.probe(7).is_none());
}

#[test]
fn mate_scores_round_trip_through_the_table() {
    assert_eq!(mate_in(3), MATE - 3);
    assert_eq!(mated_in(4), -MATE + 4);
    for ply in [0u32, 1, 7, 40] {
        for s in [mate_in(ply + 2), mated_in(ply + 5), 123, -77, 0] {
            assert_eq!(score_from_tt(score_to_tt(s, ply), ply), s);
        }
    }
    assert_eq!(score_to_tt(mate_in(5), 2), mate_in(3));
}

#[test]
fn table_sizes_that_fit_and_that_do_not() {
    assert!(TranspositionTable::fits(0));
    assert!(TranspositionTable::fits(1));
    assert!(TranspositionTable::fits(2048));
    assert!(!TranspositionTable::fits(usize::MAX));
    let tt = TranspositionTable::new(0);
    assert!(tt.probe(0).is_none());
    assert!(tt.probe(12345).is_none());
}
