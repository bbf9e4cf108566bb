use shogi_wasm::bitboard::Bitboard;

#[test]
fn single_and_contains_all_squares() {
    for sq in 0u8..81 {
        let b = Bitboard::single(sq);
        assert_eq!(b.count_ones(), 1);
        for other in 0u8..81 {
            assert_eq!(b.contains(other), other == sq, "sq={sq} other={other}");
        }
    }
}

#[test]
fn word_split_boundary() {
    // sq 62 is the last square in word 0 (col 6, row 8); sq 63 is the first of word 1 (col 7, row 0).
    assert_eq!(Bitboard::single(62).p, [1u64 << 62, 0]);
    assert_eq!(Bitboard::single(63).p, [0, 1]);
    assert_eq!(Bitboard::single(80).p, [0, 1u64 << 17]);
}

#[test]
fn iter_matches_contains() {
    let mut b = Bitboard::empty();
    for sq in [0, 5, 40, 63, 80] {
        b.set(sq);
    }
    let collected: Vec<u8> = b.iter().collect();
    assert_eq!(collected, vec![0, 5, 40, 63, 80]);
}

#[test]
fn not_masks_to_81_bits() {
    let full = !Bitboard::empty();
    assert_eq!(full.count_ones(), 81);
    for sq in 0u8..81 {
        assert!(full.contains(sq));
    }
}

#[test]
fn pop_lsb_drains_all() {
    let mut b = Bitboard::empty();
    for sq in [3u8, 70, 10, 80, 0] {
        b.set(sq);
    }
    let mut got = vec![];
    while let Some(sq) = b.pop_lsb() {
        got.push(sq);
    }
    got.sort();
    assert_eq!(got, vec![0, 3, 10, 70, 80]);
    assert!(b.is_empty());
}

#[test]
fn set_operations_follow_set_algebra() {
    let mut a = Bitboard::empty();
    let mut b = Bitboard::empty();
    for sq in [1u8, 2, 70] {
        a.set(sq);
    }
    for sq in [2u8, 3, 80] {
        b.set(sq);
    }
    let and: Vec<u8> = (a & b).iter().collect();
    let or: Vec<u8> = (a | b).iter().collect();
    let xor: Vec<u8> = (a ^ b).iter().collect();
    let andnot: Vec<u8> = a.andnot(b).iter().collect();
    assert_eq!(and, vec![2]);
    assert_eq!(or, vec![1, 2, 3, 70, 80]);
    assert_eq!(xor, vec![1, 3, 70, 80]);
    assert_eq!(andnot, vec![1, 70]);
    assert_eq!(a.lsb(), Some(1));
    assert_eq!(a.msb(), Some(70));
    assert_eq!(Bitboard::empty().lsb(), None);
    let mut c = a;
    c.clear(2);
    c.toggle(5);
    let cs: Vec<u8> = c.iter().collect();
    assert_eq!(cs, vec![1, 5, 70]);
}
