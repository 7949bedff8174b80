use datazoo::most_significant_bit;

#[test]
fn msb() {
    assert_eq!(most_significant_bit(101), 7);
    assert_eq!(most_significant_bit(10), 4);
    assert_eq!(most_significant_bit(0b0000), 0);
    assert_eq!(most_significant_bit(0b0001), 1);
    assert_eq!(most_significant_bit(0b0010), 2);
    assert_eq!(most_significant_bit(0b0011), 2);
    assert_eq!(most_significant_bit(0b0100), 3);
    assert_eq!(most_significant_bit(0b0101), 3);
    assert_eq!(most_significant_bit(0b0110), 3);
    assert_eq!(most_significant_bit(0b0111), 3);
    assert_eq!(most_significant_bit(0b1000), 4);
    assert_eq!(most_significant_bit(0b1001), 4);
    assert_eq!(most_significant_bit(0b1010), 4);
    assert_eq!(most_significant_bit(0b1011), 4);
    assert_eq!(most_significant_bit(0b1100), 4);
    assert_eq!(most_significant_bit(0b1101), 4);
    assert_eq!(most_significant_bit(0b1110), 4);
    assert_eq!(most_significant_bit(0b1111), 4);
    assert_eq!(most_significant_bit(0b0100_0000_0000), 11);
    assert_eq!(most_significant_bit(0b1000_0000_0000_0000), 16);
    assert_eq!(most_significant_bit(0b0010_0000_0000_0000), 14);
    assert_eq!(most_significant_bit(0xf000_0000), 32);
    assert_eq!(most_significant_bit(0xffff_ffff), 32);
    assert_eq!(most_significant_bit(0xffff_0000), 32);
}

#[test]
fn div_ceil_rounds_up() {
    assert_eq!(datazoo::div_ceil(0, 32), 0);
    assert_eq!(datazoo::div_ceil(1, 32), 1);
    assert_eq!(datazoo::div_ceil(32, 32), 1);
    assert_eq!(datazoo::div_ceil(33, 32), 2);
    assert_eq!(datazoo::div_ceil(1568, 32), 49);
}

#[test]
fn safe_n_mask_saturates() {
    assert_eq!(datazoo::bits::safe_n_mask(0), 0);
    assert_eq!(datazoo::bits::safe_n_mask(7), 0x7f);
    assert_eq!(datazoo::bits::safe_n_mask(31), 0x7fff_ffff);
    assert_eq!(datazoo::bits::safe_n_mask(32), u32::MAX);
    assert_eq!(datazoo::bits::safe_n_mask(40), u32::MAX);
}
