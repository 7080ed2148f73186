use dynamic_bitset::{BitsetError, DynamicBitset};

#[test]
fn test_set_and_get() {
    let mut dynamic_bitset: DynamicBitset<2> = DynamicBitset::new();
    dynamic_bitset.set(5, true).expect("Out of bounds in testing set");
    assert_eq!(dynamic_bitset.get(5), Ok(true));
    dynamic_bitset.set(37, true).expect("Out of bounds in testing set");
    assert_eq!(dynamic_bitset.get(37), Ok(true));
}

#[test]
fn test_resize() {
    let mut dynamic_bitset: DynamicBitset<1> = DynamicBitset::new();
    dynamic_bitset.set(5, true).expect("Out of bounds in testing set");

    assert_eq!(dynamic_bitset.resize(3), Ok(()));
    assert_eq!(dynamic_bitset.data_len(), 3);
    assert_eq!(dynamic_bitset.get(5), Ok(true));
    assert_eq!(dynamic_bitset.get(85), Ok(false));
    dynamic_bitset
        .set(85, true)
        .expect("Out of bounds in testing resize with setting");
    assert_eq!(dynamic_bitset.get(85), Ok(true));
}

#[test]
fn new_bitset_reads_all_false() {
    let b: DynamicBitset<3> = DynamicBitset::new();
    assert_eq!(b.len(), 96);
    assert_eq!(b.data_len(), 3);
    assert!(!b.is_empty());
    for i in 0..96 {
        assert_eq!(b.get(i), Ok(false));
    }
}

#[test]
fn empty_bitset_has_no_bits() {
    let b: DynamicBitset<0> = DynamicBitset::new();
    assert_eq!(b.len(), 0);
    assert!(b.is_empty());
    assert_eq!(b.get(0), Err(BitsetError::OutOfBounds));
}

#[test]
fn set_touches_one_bit_only() {
    let mut b: DynamicBitset<2> = DynamicBitset::new();
    b.push(0xFFFF_FFFF);
    assert_eq!(b.set(70, false), Ok(()));
    for i in 64..96 {
        assert_eq!(b.get(i), Ok(i != 70));
    }
    assert_eq!(b.set(31, true), Ok(()));
    assert_eq!(b.set(0, true), Ok(()));
    assert_eq!(b.get(31), Ok(true));
    assert_eq!(b.get(0), Ok(true));
    for i in 1..31 {
        assert_eq!(b.get(i), Ok(false));
    }
    assert_eq!(b.set(31, false), Ok(()));
    assert_eq!(b.get(31), Ok(false));
    assert_eq!(b.get(0), Ok(true));
}

#[test]
fn grow_keeps_bits() {
    let mut b: DynamicBitset<1> = DynamicBitset::new();
    assert_eq!(b.set(17, true), Ok(()));
    assert_eq!(b.resize(1), Ok(()));
    assert_eq!(b.resize(4), Ok(()));
    assert_eq!(b.len(), 128);
    assert_eq!(b.get(17), Ok(true));
    assert_eq!(b.get(16), Ok(false));
    assert_eq!(b.get(127), Ok(false));
}

#[test]
fn shrink_is_rejected() {
    let mut b: DynamicBitset<3> = DynamicBitset::new();
    assert_eq!(b.set(70, true), Ok(()));
    assert_eq!(b.resize(2), Err(BitsetError::InvalidResize));
    assert_eq!(b.data_len(), 3);
    assert_eq!(b.get(70), Ok(true));
}

#[test]
fn pop_loses_last_word() {
    let mut b: DynamicBitset<2> = DynamicBitset::new();
    assert_eq!(b.set(40, true), Ok(()));
    assert_eq!(b.pop(), Ok(()));
    assert_eq!(b.data_len(), 1);
    assert_eq!(b.get(40), Err(BitsetError::OutOfBounds));
    b.push(0);
    assert_eq!(b.get(40), Ok(false));
}

#[test]
fn pop_on_empty_fails() {
    let mut b: DynamicBitset<0> = DynamicBitset::new();
    assert_eq!(b.pop(), Err(BitsetError::InvalidOperation));
    assert_eq!(b.data_len(), 0);
}

#[test]
fn out_of_bounds_leaves_state() {
    let mut b: DynamicBitset<1> = DynamicBitset::new();
    assert_eq!(b.set(3, true), Ok(()));
    assert_eq!(b.get(32), Err(BitsetError::OutOfBounds));
    assert_eq!(b.set(32, true), Err(BitsetError::OutOfBounds));
    assert_eq!(b.set(usize::MAX, true), Err(BitsetError::OutOfBounds));
    assert_eq!(b.data_len(), 1);
    for i in 0..32 {
        assert_eq!(b.get(i), Ok(i == 3));
    }
}

#[test]
fn push_appends_word_verbatim() {
    let mut b: DynamicBitset<1> = DynamicBitset::new();
    b.push(0b1010_0001);
    assert_eq!(b.len(), 64);
    assert_eq!(b.get(32), Ok(true));
    assert_eq!(b.get(33), Ok(false));
    assert_eq!(b.get(37), Ok(true));
    assert_eq!(b.get(39), Ok(true));
    assert_eq!(b.get(40), Ok(false));
}

#[test]
fn reset_array_clears_range() {
    let mut b: DynamicBitset<0> = DynamicBitset::new();
    b.push(u32::MAX);
    b.push(u32::MAX);
    b.push(u32::MAX);
    b.reset_array(1, 2);
    assert_eq!(b.get(31), Ok(true));
    assert_eq!(b.get(32), Ok(false));
    assert_eq!(b.get(63), Ok(false));
    assert_eq!(b.get(64), Ok(true));
    b.reset_array(2, 2);
    assert_eq!(b.get(64), Ok(true));
}

#[test]
fn end_to_end_scenario() {
    let mut b: DynamicBitset<2> = DynamicBitset::new();
    assert_eq!(b.len(), 64);
    assert_eq!(b.set(5, true), Ok(()));
    assert_eq!(b.get(5), Ok(true));
    assert_eq!(b.set(37, true), Ok(()));
    assert_eq!(b.get(37), Ok(true));
    assert_eq!(b.get(38), Ok(false));
    assert_eq!(b.get(5), Ok(true));
    assert_eq!(b.resize(3), Ok(()));
    assert_eq!(b.data_len(), 3);
    assert_eq!(b.get(85), Ok(false));
    assert_eq!(b.set(85, true), Ok(()));
    assert_eq!(b.get(85), Ok(true));
}
