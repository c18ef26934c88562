use fecs::bitset::Bitset;

#[test]
fn test_set_reset_flip_and_test() {
    let mut bs = Bitset::new(64);
    // Initially, all bits should be false.
    for i in 0..bs.len() {
        assert!(!bs.test(i), "Bit {} should initially be false", i);
    }

    // Test set
    bs.set(10);
    assert!(bs.test(10), "Bit 10 should be true after setting");

    // Test reset
    bs.reset(10);
    assert!(!bs.test(10), "Bit 10 should be false after resetting");

    // Test flip: flipping an unset bit should set it.
    bs.flip(20);
    assert!(bs.test(20), "Bit 20 should be true after flipping from false");
    // Flipping again should clear it.
    bs.flip(20);
    assert!(!bs.test(20), "Bit 20 should be false after flipping again");
}

#[test]
fn test_bitand_operator() {
    let mut bs1 = Bitset::new(64);
    let mut bs2 = Bitset::new(64);
    bs1.set(5);
    bs1.set(10);
    bs2.set(10);
    bs2.set(15);

    let bs3 = bs1.bitand(bs2);
    // Only bit 10 should be set (common to both).
    for i in 0..bs3.len() {
        if i == 10 {
            assert!(bs3.test(i), "Bit {} should be set in AND result", i);
        } else {
            assert!(!bs3.test(i), "Bit {} should be unset in AND result", i);
        }
    }
}

#[test]
fn test_bitor_operator() {
    let mut bs1 = Bitset::new(64);
    let mut bs2 = Bitset::new(64);
    bs1.set(5);
    bs2.set(10);

    let bs3 = bs1.bitor(bs2);
    // Bits 5 and 10 should be set.
    for i in 0..bs3.len() {
        if i == 5 || i == 10 {
            assert!(bs3.test(i), "Bit {} should be set in OR result", i);
        } else {
            assert!(!bs3.test(i), "Bit {} should be unset in OR result", i);
        }
    }
}

#[test]
fn test_bitxor_operator() {
    let mut bs1 = Bitset::new(64);
    let mut bs2 = Bitset::new(64);
    bs1.set(5);
    bs1.set(10);
    bs2.set(10);
    bs2.set(15);

    let bs3 = bs1.bitxor(bs2);
    // Bit 10 is common, so only bits 5 and 15 should be set.
    for i in 0..bs3.len() {
        if i == 5 || i == 15 {
            assert!(bs3.test(i), "Bit {} should be set in XOR result", i);
        } else {
            assert!(!bs3.test(i), "Bit {} should be unset in XOR result", i);
        }
    }
}

#[test]
fn test_not_operator() {
    let mut bs = Bitset::new(64);
    // Set a couple of bits.
    bs.set(1);
    bs.set(63);
    let bs_not = bs.not();
    // In the NOT version, bits 1 and 63 should be false; all others true.
    for i in 0..bs_not.len() {
        if i == 1 || i == 63 {
            assert!(!bs_not.test(i), "Bit {} should be false in NOT result", i);
        } else {
            assert!(bs_not.test(i), "Bit {} should be true in NOT result", i);
        }
    }
}

#[test]
fn test_bitand_assign_operator() {
    let mut bs1 = Bitset::new(64);
    let mut bs2 = Bitset::new(64);
    bs1.set(5);
    bs1.set(10);
    bs2.set(10);
    bs2.set(15);

    bs1.bitand_assign(bs2);
    // After &=, only bit 10 should remain set.
    for i in 0..bs1.len() {
        if i == 10 {
            assert!(bs1.test(i), "Bit {} should be set after &= operation", i);
        } else {
            assert!(!bs1.test(i), "Bit {} should be unset after &= operation", i);
        }
    }
}

#[test]
fn test_bitor_assign_operator() {
    let mut bs1 = Bitset::new(64);
    let mut bs2 = Bitset::new(64);
    bs1.set(5);
    bs2.set(10);

    bs1.bitor_assign(bs2);
    // After |=, bits 5 and 10 should be set.
    for i in 0..bs1.len() {
        if i == 5 || i == 10 {
            assert!(bs1.test(i), "Bit {} should be set after |= operation", i);
        } else {
            assert!(!bs1.test(i), "Bit {} should be unset after |= operation", i);
        }
    }
}

#[test]
fn test_bitxor_assign_operator() {
    let mut bs1 = Bitset::new(64);
    let mut bs2 = Bitset::new(64);
    bs1.set(5);
    bs1.set(10);
    bs2.set(10);
    bs2.set(15);

    bs1.bitxor_assign(bs2);
    // After ^=, bits 5 and 15 should be set; bit 10 should be cleared.
    for i in 0..bs1.len() {
        if i == 5 || i == 15 {
            assert!(bs1.test(i), "Bit {} should be set after ^= operation", i);
        } else {
            assert!(!bs1.test(i), "Bit {} should be unset after ^= operation", i);
        }
    }
}
