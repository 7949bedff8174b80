use datazoo::bitset::Bitset;

#[test]
fn bit_set_get_round_trip() {
    let mut bitset = Bitset(vec![0, 0, 0]);
    assert_eq!(bitset.bit(12), false);
    assert_eq!(bitset.bit(54), false);

    assert!(bitset.enable_bit(12).is_some());
    assert_eq!(bitset.bit(12), true);

    assert!(bitset.enable_bit(54).is_some());
    assert_eq!(bitset.bit(54), true);

    assert!(bitset.disable_bit(54).is_some());
    assert_eq!(bitset.bit(54), false);
    assert_eq!(bitset.bit(12), true);

    // out of range: no-op, and reads come back false
    assert_eq!(bitset.enable_bit(96), None);
    assert_eq!(bitset.bit(96), false);
    assert_eq!(bitset.bit_len(), 96);
}

#[test]
fn disable_range_clears_only_the_range() {
    let mut bitset = Bitset(vec![0xffff_ffff, 0xffff_ffff, 0xffff_ffff]);

    bitset.disable_range(0..16);
    bitset.disable_range(35..54);

    assert!(!bitset.bit(0));
    assert!(!bitset.bit(15));
    assert!(bitset.bit(16));
    assert!(!bitset.bit(35));
    assert!(!bitset.bit(53));
    assert!(bitset.bit(54));
}

#[test]
fn u32_at_reads_across_word_boundaries() {
    let bitset = Bitset(vec![0xf0f0_00ff, 0xfff0_000f, 0xfff0_0f0f]);

    assert_eq!(bitset.u32_at(0), Ok(0xf0f0_00ff));
    assert_eq!(bitset.u32_at(4), Ok(0xff0f_000f));
    assert_eq!(bitset.u32_at(16), Ok(0x000f_f0f0));
    assert_eq!(bitset.u32_at(64), Ok(0xfff0_0f0f));

    assert_eq!(bitset.u32_at(96), Err(0));
    assert_eq!(bitset.u32_at(80), Err(0xfff0));
}

#[test]
fn n_at_reads_partial_widths() {
    let bitset = Bitset(vec![0xf0f0_00ff, 0xfff0_000f, 0xfff0_0f0f]);

    assert_eq!(bitset.n_at(8, 0), Some(0xff));
    assert_eq!(bitset.n_at(4, 8), Some(0x0));
    assert_eq!(bitset.n_at(16, 24), Some(0x0ff0));
    assert_eq!(bitset.n_at(32, 64), Some(0xfff0_0f0f));
    assert_eq!(bitset.n_at(0, 95), Some(0));
    // the full width must be available
    assert_eq!(bitset.n_at(32, 65), None);
    assert_eq!(bitset.n_at(1, 96), None);
    assert_eq!(bitset.n_at(0, 96), None);
}

#[test]
fn ones_yield_ascending_set_bits() {
    let bitset = Bitset(vec![0b1011, 0b1]);
    let mut ones = bitset.ones();
    assert_eq!(ones.remaining(), 4);
    assert_eq!(ones.next(), Some(0));
    assert_eq!(ones.next(), Some(1));
    assert_eq!(ones.remaining(), 2);
    assert_eq!(ones.next(), Some(3));
    assert_eq!(ones.next(), Some(32));
    assert_eq!(ones.next(), None);
    assert_eq!(ones.remaining(), 0);

    // a fresh call restarts from scratch
    let mut again = bitset.ones();
    assert_eq!(again.next(), Some(0));
}

#[test]
fn ones_in_range_is_the_subset_in_range() {
    let bitset = Bitset(vec![0xf0f0_00ff, 0xfff0_000f, 0xfff0_0f0f]);
    let mut all: Vec<usize> = Vec::new();
    let mut ones = bitset.ones();
    while let Some(i) = ones.next() {
        all.push(i);
    }
    let mut ranged: Vec<usize> = Vec::new();
    let mut ones = bitset.ones_in_range(5..91);
    while let Some(i) = ones.next() {
        ranged.push(i);
    }
    let expected: Vec<usize> = all.iter().copied().filter(|&i| 5 <= i && i < 91).collect();
    assert_eq!(ranged, expected);
}

#[test]
fn all_one_judges_the_whole_range() {
    let bitset = Bitset(vec![0xf0f0_00ff, 0xffff_ffff, 0xfff0_0f0f]);

    assert!(bitset.ones_in_range(32..64).all_one());
    assert!(bitset.ones_in_range(0..8).all_one());
    // ranges that do not start at a word boundary are judged exactly too
    assert!(bitset.ones_in_range(4..8).all_one());
    assert!(bitset.ones_in_range(30..70).all_one() == false);
    assert!(bitset.ones_in_range(8..12).all_one() == false);
    assert!(bitset.ones_in_range(44..44).all_one());
}

#[test]
fn enable_bit_extending_grows_the_buffer() {
    let mut as_vec = Bitset(vec![]);
    assert!(as_vec.enable_bit(64).is_none());
    assert_eq!(as_vec.0.len(), 0);

    as_vec.enable_bit_extending(73);

    assert!(as_vec.bit(73));
    assert!(as_vec.enable_bit(64).is_some());
    assert!(as_vec.bit(64));
    // growth is geometric with a floor of eight words
    assert_eq!(as_vec.0.len(), 8);
    assert!(!as_vec.bit(0));
    assert!(!as_vec.bit(255));

    as_vec.enable_bit_extending(256);
    assert_eq!(as_vec.0.len(), 16);
    assert!(as_vec.bit(256));
    assert!(as_vec.bit(73));
    assert!(as_vec.bit(64));
}
