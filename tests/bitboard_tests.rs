use hmg::bitboard::Bitboard;

#[test]
fn test_bsf() {
    for i in 0..64 {
        let bb = Bitboard(1 << i);
        assert!(bb.bitscanforward() == i);
    }
}

#[test]
fn test_poplsb() {
    for i in 0..64 {
        for j in i + 1..64 {
            let mut bb = Bitboard(1 << i | 1 << j);
            assert!(bb.pop_lsb() == i);
            assert!(bb.pop_lsb() == j);
        }
    }
}

#[test]
fn bitboard_bsf_test() {
    for i in 0..64 {
        let bb = Bitboard(1 << i);
        assert!(bb.bitscanforward() == i);
    }
}

#[test]
fn bitboard_pop_lsb_test() {
    for i in 0..64 {
        for j in i + 1..64 {
            let mut bb = Bitboard(1 << i | 1 << j);
            assert!(bb.pop_lsb() == i);
            assert!(bb.pop_lsb() == j);
        }
    }
}

#[test]
fn bsf_of_mixed_words() {
    assert_eq!(Bitboard(0x8000_0000_0000_0000).bitscanforward(), 63);
    assert_eq!(Bitboard(0xFFFF_FFFF_FFFF_FFFF).bitscanforward(), 0);
    assert_eq!(Bitboard(0b1011_0000).bitscanforward(), 4);
    assert_eq!(Bitboard(0x0000_0100_0000_0000).bitscanforward(), 40);
}

#[test]
fn pop_lsb_clears_only_the_lowest_bit() {
    let mut bb = Bitboard(0b1011_0000);
    assert_eq!(bb.pop_lsb(), 4);
    assert_eq!(bb.0, 0b1010_0000);
    assert_eq!(bb.pop_lsb(), 5);
    assert_eq!(bb.pop_lsb(), 7);
    assert!(bb.is_empty());
}

#[test]
fn empty_and_unused_words() {
    assert!(Bitboard::empty().is_empty());
    assert!(!Bitboard::empty().is_unused());
    assert!(Bitboard::unused().is_unused());
    assert!(!Bitboard(1).is_empty());
    assert_eq!(Bitboard::unused().0, u64::MAX);
}
