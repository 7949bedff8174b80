use datazoo::packed_int_array::PackedIntArray;

#[test]
fn capacity() {
    let max_value = 127_u32;
    let max_key = 32 * 7;
    let map = PackedIntArray::with_capacity(max_key, max_value);
    assert_eq!(max_key, map.capacity());
}

#[test]
fn compact_size() {
    let value_len = 127_u32;
    let key_len = 32 * 7;
    let mut map = PackedIntArray::with_capacity(key_len, value_len);

    let max_key = key_len - 1;
    let max_value = value_len - 1;
    assert_eq!(map.set(&max_key, &0), Some(()));
    assert_eq!(map.get(&max_key), Some(0));

    assert_eq!(map.set(&0, &max_value), Some(()));
    assert_eq!(map.get(&0), Some(max_value));
}

#[test]
fn mini_size() {
    let mut map = PackedIntArray::with_capacity(0, 0);
    assert_eq!(map.word_len(), 0);

    assert_eq!(map.set(&32, &0), None);
    assert_eq!(map.set(&0, &0), None);

    assert_eq!(map.get(&32), None);
    assert_eq!(map.get(&0), None);

    let mut map = PackedIntArray::with_capacity(0, u32::MAX);
    assert_eq!(map.word_len(), 0);

    assert_eq!(map.set(&32, &0), None);
    assert_eq!(map.set(&0, &0), None);

    assert_eq!(map.get(&32), None);
    assert_eq!(map.get(&0), None);

    let mut map = PackedIntArray::with_capacity(u32::MAX as usize, 0);
    assert_eq!(map.word_len(), 0);

    assert_eq!(map.set(&32, &0), None);
    assert_eq!(map.set(&0, &0), None);

    assert_eq!(map.get(&32), None);
    assert_eq!(map.get(&0), None);
}

#[test]
fn size() {
    let len = 128;
    let mut map = PackedIntArray::with_capacity(len, u32::MAX);
    assert_eq!(map.word_len(), len);

    assert_eq!(map.set(&32, &0xffff_ff00), Some(()));
    assert_eq!(map.get(&32), Some(0xffff_ff00));
    assert_eq!(map.set(&(len - 1), &0xffff_0000), Some(()));
    assert_eq!(map.get(&(len - 1)), Some(0xffff_0000));
}

#[test]
fn expand_size() {
    let max_value = 127_u32;
    let max_key = 32 * 7;
    let mut map = PackedIntArray::with_capacity(max_key, max_value);
    assert_eq!(max_key, map.capacity());

    assert_eq!(map.set(&12, &100), Some(()));
    assert_eq!(map.set(&20, &101), Some(()));
    assert_eq!(map.set(&32, &102), Some(()));
    assert_eq!(map.set(&300, &103), None);
    assert_eq!(map.set(&32, &200), None);

    // single-bit expansion
    assert_eq!(map.set_expanding_values(&35, &200), Some(()));
    assert_eq!(map.set_expanding_values(&300, &200), None);
    assert_eq!(map.set(&13, &199), Some(()));

    assert_eq!(map.get(&12), Some(100));
    assert_eq!(map.get(&13), Some(199));
    assert_eq!(map.get(&20), Some(101));
    assert_eq!(map.get(&32), Some(102));
    assert_eq!(map.get(&35), Some(200));

    // multibit expansion
    assert_eq!(map.set_expanding_values(&36, &1845), Some(()));

    assert_eq!(map.get(&12), Some(100));
    assert_eq!(map.get(&13), Some(199));
    assert_eq!(map.get(&20), Some(101));
    assert_eq!(map.get(&32), Some(102));
    assert_eq!(map.get(&35), Some(200));
    assert_eq!(map.get(&36), Some(1845));
}

#[test]
fn capacity_example() {
    // 127 needs 7 bits, and 224 slots of 7 bits fill 49 words exactly
    let map = PackedIntArray::with_capacity(224, 127);
    assert_eq!(map.capacity(), 224);
    assert_eq!(map.word_len(), 49);

    let mut map = map;
    assert_eq!(map.get(&50), None);
    assert_eq!(map.set(&223, &0), Some(()));
    assert_eq!(map.get(&223), Some(0));
    assert_eq!(map.get(&50), None);
}

#[test]
fn zero_is_distinct_from_absent() {
    let mut map = PackedIntArray::with_capacity(200, 100);

    map.set(&10, &2);
    map.set(&11, &5);
    map.set(&19, &9);
    map.set(&15, &1);

    map.set(&31, &22);
    map.set(&30, &20);
    map.set(&32, &21);

    assert_eq!(map.get(&10), Some(2));
    assert_eq!(map.get(&32), Some(21));

    assert_eq!(map.get(&13), None);
    map.set(&13, &0);
    assert_eq!(map.get(&13), Some(0));

    assert_eq!(map.set(&350, &3), None);
    assert_eq!(map.get(&350), None);

    assert_eq!(map.set(&31, &200), None);
    assert_eq!(map.get(&31), Some(22));

    // keys between the requested 200 and the rounded capacity still work
    assert_eq!(map.set(&200, &3), Some(()));
    assert_eq!(map.get(&200), Some(3));

    assert_eq!(map.set(&200, &111), Some(()));
    assert_eq!(map.get(&200), Some(111));
}

#[test]
fn remove_restores_absence() {
    let mut map = PackedIntArray::with_capacity(16, 50);
    assert_eq!(map.set(&3, &0), Some(()));
    assert_eq!(map.set(&4, &41), Some(()));
    map.remove(&3);
    assert_eq!(map.get(&3), None);
    assert_eq!(map.get(&4), Some(41));
    // removing an absent or out-of-range key changes nothing observable
    map.remove(&7);
    map.remove(&100_000);
    assert_eq!(map.get(&4), Some(41));
    assert_eq!(map.get(&7), None);
}

#[test]
fn widening_from_single_bit() {
    // with values below 1 each slot takes a single bit, and only the value
    // 0 is storable (1 is the sentinel)
    let mut map = PackedIntArray::with_capacity(96, 1);
    assert_eq!(map.capacity(), 96);
    assert_eq!(map.set(&0, &0), Some(()));
    assert_eq!(map.set(&17, &0), Some(()));
    assert_eq!(map.set(&95, &0), Some(()));
    assert_eq!(map.set(&1, &1), None);

    // 1845 needs 11 bits: every slot is rewidened in place
    assert_eq!(map.set_expanding_values(&2, &1845), Some(()));

    assert_eq!(map.get(&0), Some(0));
    assert_eq!(map.get(&17), Some(0));
    assert_eq!(map.get(&95), Some(0));
    assert_eq!(map.get(&2), Some(1845));
    // a slot that was absent before the widening keeps its old all-ones
    // bits in the low bits of the widened slot, so it now reads as the old
    // sentinel value rather than as absent
    assert_eq!(map.get(&3), Some(1));
}

#[test]
fn widening_on_sentinel_collision() {
    let mut map = PackedIntArray::with_capacity(10, 6);
    assert_eq!(map.set(&1, &6), Some(()));
    // 7 is the all-ones sentinel at width 3: a plain set refuses it
    assert_eq!(map.set(&2, &7), None);
    assert_eq!(map.set_expanding_values(&2, &7), None);
    assert_eq!(map.get(&1), Some(6));
    assert_eq!(map.get(&2), None);
}

#[test]
fn from_pairs_last_write_wins() {
    let map = PackedIntArray::from_pairs(vec![
        (10, 2),
        (11, 5),
        (19, 9),
        (15, 1),
        (31, 22),
        (30, 20),
        (32, 21),
        (13, 0),
        (200, 3),
        (200, 111),
    ]);
    assert_eq!(map.get(&10), Some(2));
    assert_eq!(map.get(&13), Some(0));
    assert_eq!(map.get(&200), Some(111));
    assert_eq!(map.get(&14), None);

    let mut manual = PackedIntArray::with_capacity(201, 112);
    manual.set(&10, &2);
    manual.set(&11, &5);
    manual.set(&19, &9);
    manual.set(&15, &1);
    manual.set(&31, &22);
    manual.set(&30, &20);
    manual.set(&32, &21);
    manual.set(&13, &0);
    manual.set(&200, &111);
    assert!(map.value_eq(&manual));
    assert!(map.bits_eq(&manual));
}

#[test]
fn raw_equality_pads_with_ones() {
    let a = PackedIntArray::with_capacity(10, 6);
    let b = PackedIntArray::with_capacity(40, 6);
    // same (absent) contents, different storage length
    assert!(a.bits_eq(&b));
    assert!(a.value_eq(&b));

    let mut c = PackedIntArray::with_capacity(10, 6);
    c.set(&0, &3);
    assert!(!a.bits_eq(&c));
    assert!(!a.value_eq(&c));
    c.remove(&0);
    assert!(a.bits_eq(&c));
    assert!(a.value_eq(&c));
}

#[test]
fn iteration_orders_keys() {
    let mut map = PackedIntArray::with_capacity(50, 30);
    map.set(&12, &7);
    map.set(&3, &0);
    map.set(&44, &29);
    assert_eq!(map.iter(), vec![(3, 0), (12, 7), (44, 29)]);
    assert_eq!(map.rev_iter(), vec![(44, 29), (12, 7), (3, 0)]);
}

#[test]
fn default_map_is_empty() {
    let map = PackedIntArray::default();
    assert_eq!(map.capacity(), 0);
    assert_eq!(map.word_len(), 0);
    assert_eq!(map.get(&0), None);
}
