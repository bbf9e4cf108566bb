use shogi_wasm::bitboard::Bitboard;
use shogi_wasm::hand::Hand;
use shogi_wasm::mov::Move;
use shogi_wasm::movegen::piece_attacks;
use shogi_wasm::position::{Position, Repetition};
use shogi_wasm::types::{
    is_none, make_piece, make_square, Piece, Square, BLACK, FU, GIN, HI, KAKU, KEI, KIN, KYO, NGIN,
    NKEI, NKYO, NO_PIECE, OU, RYU, SQ_NONE, TO, UMA, WHITE,
};

#[test]
fn startpos_consistency() {
    let pos = Position::startpos();
    assert!(pos.check_consistency().is_ok());
    assert_eq!(pos.side_to_move(), BLACK);
    assert!(!pos.in_check());
    assert_eq!(pos.king_square(BLACK), make_square(8, 4));
    assert_eq!(pos.king_square(WHITE), make_square(0, 4));
}

#[test]
fn do_undo_roundtrip_quiet_move() {
    let mut pos = Position::startpos();
    let before = pos.clone();
    let mv = Move::new_board(make_square(6, 4), make_square(5, 4), FU, false, 0);
    pos.do_move(mv);
    assert!(pos.check_consistency().is_ok());
    assert_eq!(pos.side_to_move(), WHITE);
    pos.undo_move();
    assert!(pos.check_consistency().is_ok());
    assert!(pos == before);
    assert_eq!(pos.key(), before.key());
}

#[test]
fn do_undo_roundtrip_capture_and_promotion() {
    let mut board = [NO_PIECE; 81];
    board[make_square(8, 4) as usize] = make_piece(BLACK, OU);
    board[make_square(0, 4) as usize] = make_piece(WHITE, OU);
    board[make_square(1, 4) as usize] = make_piece(BLACK, KAKU);
    board[make_square(0, 0) as usize] = make_piece(WHITE, FU);
    let mut pos = Position::from_parts(board, [Hand::empty(), Hand::empty()], BLACK, 1);
    let before = pos.clone();
    let mv = Move::new_board(make_square(1, 4), make_square(0, 0), KAKU, true, FU);
    pos.do_move(mv);
    assert!(pos.check_consistency().is_ok());
    assert_eq!(pos.hand(BLACK, FU), 1);
    pos.undo_move();
    assert!(pos.check_consistency().is_ok());
    assert!(pos == before);
    assert_eq!(pos.key(), before.key());
}

#[test]
fn nifu_tracking_across_promotion() {
    let mut board = [NO_PIECE; 81];
    board[make_square(8, 4) as usize] = make_piece(BLACK, OU);
    board[make_square(0, 4) as usize] = make_piece(WHITE, OU);
    board[make_square(1, 0) as usize] = make_piece(BLACK, FU);
    let mut pos = Position::from_parts(board, [Hand::empty(), Hand::empty()], BLACK, 1);
    assert!(pos.has_pawn_on_col(BLACK, 0));
    let mv = Move::new_board(make_square(1, 0), make_square(0, 0), FU, true, 0);
    pos.do_move(mv);
    assert!(!pos.has_pawn_on_col(BLACK, 0), "promoted pawn must free the column for nifu");
    pos.undo_move();
    assert!(pos.has_pawn_on_col(BLACK, 0));
}

/// Simple xorshift generator for the deterministic property test below.
struct Rng(u64);
impl Rng {
    fn next(&mut self) -> u64 {
        self.0 ^= self.0 << 13;
        self.0 ^= self.0 >> 7;
        self.0 ^= self.0 << 17;
        self.0
    }
    fn next_sq(&mut self) -> Square {
        (self.next() % 81) as Square
    }
}

fn find_free_square(board: &[Piece; 81], a: Square, b: Square, c: Square) -> Square {
    for sq in 0u8..81 {
        if sq != a && sq != b && sq != c && is_none(board[sq as usize]) {
            return sq;
        }
    }
    panic!("no free square");
}

#[test]
fn attackers_to_matches_brute_force_definition() {
    let mut rng = Rng(0xC0FFEE_1234_5678);
    let all_types = [FU, KYO, KEI, GIN, KIN, KAKU, HI, OU, TO, NKYO, NKEI, NGIN, UMA, RYU];
    for _trial in 0..4000 {
        let target = rng.next_sq();
        let attacker_sq = rng.next_sq();
        if attacker_sq == target {
            continue;
        }
        let color = if rng.next() & 1 == 0 { BLACK } else { WHITE };
        let pt = all_types[(rng.next() as usize) % all_types.len()];

        let mut occ = Bitboard::empty();
        occ.set(attacker_sq);
        for _ in 0..6 {
            let sq = rng.next_sq();
            if sq != target {
                occ.set(sq);
            }
        }

        let brute_force_hits = piece_attacks(color, pt, attacker_sq, occ).contains(target);

        let mut board = [NO_PIECE; 81];
        for sq in occ.iter().collect() {
            board[sq as usize] = make_piece(BLACK, FU);
        }
        board[attacker_sq as usize] = make_piece(color, pt);
        let bk = find_free_square(&board, target, attacker_sq, SQ_NONE);
        board[bk as usize] = make_piece(BLACK, OU);
        let wk = find_free_square(&board, target, attacker_sq, bk);
        board[wk as usize] = make_piece(WHITE, OU);
        let pos = Position::from_parts(board, [Hand::empty(), Hand::empty()], BLACK, 1);

        let full_occ = pos.occupied();
        let via_attackers_to = pos.attackers_to(target, full_occ, color).contains(attacker_sq);

        let brute_force_final = piece_attacks(color, pt, attacker_sq, full_occ).contains(target)
            && board[attacker_sq as usize] == make_piece(color, pt);
        let _ = brute_force_hits;

        assert_eq!(
            via_attackers_to, brute_force_final,
            "attacker {color}:{pt} at {attacker_sq} vs target {target}: attackers_to={via_attackers_to} brute_force={brute_force_final}"
        );
    }
}

#[test]
fn null_move_and_repetition() {
    let mut pos = Position::startpos();
    let key0 = pos.key();
    pos.do_null_move();
    assert_eq!(pos.side_to_move(), WHITE);
    assert_eq!(pos.ply(), 1);
    assert!(!pos.in_check());
    assert_ne!(pos.key(), key0);
    pos.undo_null_move();
    assert_eq!(pos.side_to_move(), BLACK);
    assert_eq!(pos.key(), key0);

    // Shuffle both rooks back and forth: the start position recurs every four plies.
    let b1 = Move::new_board(make_square(7, 7), make_square(7, 6), HI, false, 0);
    let w1 = Move::new_board(make_square(1, 1), make_square(1, 2), HI, false, 0);
    let b2 = Move::new_board(make_square(7, 6), make_square(7, 7), HI, false, 0);
    let w2 = Move::new_board(make_square(1, 2), make_square(1, 1), HI, false, 0);
    let mut results = Vec::new();
    for _ in 0..3 {
        for mv in [b1, w1, b2, w2] {
            pos.do_move(mv);
            results.push(pos.detect_repetition());
        }
    }
    assert!(results[..11].iter().all(|r| *r == Repetition::NoRepetition));
    assert_eq!(results[11], Repetition::Draw);
    assert_eq!(pos.game_ply_depth(), 12);
    assert_eq!(pos.last_move(), w2);
}

#[test]
fn accessors_agree_with_the_board() {
    let pos = Position::startpos();
    assert_eq!(pos.pieces(BLACK, FU).count_ones(), 9);
    assert_eq!(pos.pieces_of_type(OU).count_ones(), 2);
    assert_eq!(pos.pieces_of_color(WHITE).count_ones(), 20);
    assert_eq!(pos.occupied().count_ones(), 40);
    assert_eq!(pos.piece_at(make_square(8, 4)), make_piece(BLACK, OU));
    assert_eq!(pos.board()[make_square(7, 7) as usize], make_piece(BLACK, HI));
    assert_eq!(pos.hands(), [Hand::empty(), Hand::empty()]);
    assert_eq!(pos.checkers(), Bitboard::empty());
    assert!(pos.attackers_to_both(make_square(5, 4), pos.occupied()).contains(make_square(6, 4)));
}
