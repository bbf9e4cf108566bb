use shogi_wasm::hand::Hand;
use shogi_wasm::types::{FU, HI, KAKU, KIN, KYO};

#[test]
fn add_remove_roundtrip_all_types() {
    let mut h = Hand::empty();
    for &pt in &Hand::types() {
        for _ in 0..Hand::max_count(pt) {
            h.add(pt);
        }
        assert_eq!(h.count(pt), Hand::max_count(pt));
    }
    for &pt in &Hand::types() {
        for _ in 0..Hand::max_count(pt) {
            h.remove(pt);
        }
        assert_eq!(h.count(pt), 0);
    }
    assert_eq!(h, Hand::empty());
}

#[test]
fn fields_do_not_bleed_into_neighbours() {
    let mut h = Hand::empty();
    for _ in 0..18 {
        h.add(FU);
    }
    assert_eq!(h.count(FU), 18);
    assert_eq!(h.count(KYO), 0);
    h.add(KYO);
    assert_eq!(h.count(FU), 18);
    assert_eq!(h.count(KYO), 1);
}

#[test]
fn fields_are_independent_at_max_count() {
    for &probe in &Hand::types() {
        let mut h = Hand::empty();
        for _ in 0..Hand::max_count(probe) {
            h.add(probe);
        }
        for &other in &Hand::types() {
            if other == probe {
                continue;
            }
            assert_eq!(h.count(other), 0, "{other} leaked from a maxed-out {probe} field");
        }
    }
}

#[test]
fn packed_layout_and_emptiness() {
    let mut h = Hand::empty();
    assert!(h.is_empty());
    h.add(KAKU);
    assert_eq!(h.0, 1 << 22);
    assert!(h.has(KAKU));
    assert!(!h.has(HI));
    assert!(!h.is_empty());
    h.add(KIN);
    assert_eq!(h.0, (1 << 22) | (1 << 18));
    h.remove(KAKU);
    h.remove(KIN);
    assert!(h.is_empty());
    assert_eq!(Hand::max_count(FU), 18);
    assert_eq!(Hand::max_count(HI), 2);
}
