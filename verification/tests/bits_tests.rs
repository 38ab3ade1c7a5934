use dupwalker::bits::count_bits;

#[test]
fn count_bits_of_zero_is_zero() {
    assert_eq!(count_bits(0), 0);
}

#[test]
fn count_bits_of_all_ones_is_sixty_four() {
    assert_eq!(count_bits(u64::MAX), 64);
}

#[test]
fn count_bits_counts_scattered_bits() {
    assert_eq!(count_bits(0b1011), 3);
    assert_eq!(count_bits(1 << 63), 1);
    assert_eq!(count_bits(0x8000_0000_0000_0001), 2);
    assert_eq!(count_bits(0x00FF_00FF_00FF_00FF), 32);
}

#[test]
fn count_bits_of_complement_is_sixty_four_minus_count() {
    for n in [0u64, 1, 0xDEAD_BEEF, 0x0123_4567_89AB_CDEF, u64::MAX] {
        assert_eq!(count_bits(!n) as u32, 64 - count_bits(n) as u32);
    }
}

#[test]
fn count_bits_of_complemented_xor_counts_agreeing_bits() {
    let a = 0x00000000FFFFFFFFu64;
    let b = 0x00000000FFFF0000u64;
    // a and b differ in 16 positions, so they agree in 48.
    assert_eq!(count_bits(a ^ b), 16);
    assert_eq!(count_bits(!(a ^ b)), 48);
}
