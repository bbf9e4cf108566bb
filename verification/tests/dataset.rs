use shogi_wasm::dataset::Record;
use shogi_wasm::position::Position;

#[test]
fn roundtrip_via_position() {
    let pos = Position::startpos();
    let rec = Record::from_position(&pos, 37, 1);
    let bytes = rec.to_bytes();
    let back = Record::from_bytes(&bytes);
    let pos2 = back.to_position();
    assert_eq!(shogi_wasm::sfen::to_sfen(&pos), shogi_wasm::sfen::to_sfen(&pos2).replacen(" 1", " 1", 1));
    assert_eq!(back.score, 37);
    assert_eq!(back.result, 1);
}

#[test]
fn record_bytes_layout() {
    let pos = shogi_wasm::sfen::parse_sfen("4k4/9/9/9/9/9/9/9/4K4 w 2Pg 5").unwrap();
    let rec = Record::from_position(&pos, -2, -1);
    assert_eq!(rec.hands[0], 2);
    assert_eq!(rec.hands[7 + 4], 1);
    let bytes = rec.to_bytes();
    assert_eq!(bytes[95], 1);
    assert_eq!(bytes[96], 0xFE);
    assert_eq!(bytes[97], 0xFF);
    assert_eq!(bytes[98], 0xFF);
    assert_eq!(bytes[99], 0);
    let back = Record::from_bytes(&bytes);
    assert_eq!(back.board, rec.board);
    assert_eq!(back.score, -2);
    assert_eq!(back.result, -1);
    let pos2 = back.to_position();
    assert_eq!(shogi_wasm::sfen::to_sfen(&pos2), "4k4/9/9/9/9/9/9/9/4K4 w 2Pg 1");
}

#[test]
fn record_gives_back_equal_hand_words() {
    let pos = shogi_wasm::sfen::parse_sfen("4k4/9/9/9/9/9/9/9/4K4 b 2R2B4G4S4N4L18P 1").unwrap();
    let rec = Record::from_position(&pos, 0, 0);
    let back = Record::from_bytes(&rec.to_bytes()).to_position();
    assert_eq!(back.hands()[0].0, pos.hands()[0].0);
    assert_eq!(back.hands()[1].0, pos.hands()[1].0);
    assert_eq!(shogi_wasm::sfen::to_sfen(&back), shogi_wasm::sfen::to_sfen(&pos));
}
