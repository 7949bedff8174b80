use datazoo::jagged_array::{Builder, Error, JaggedArray};

#[test]
fn test_get_row() {
    let array = Builder::<i64>::new()
        .add_row(vec![1, 2, 3])
        .add_row(vec![4, 5, 6])
        .add_row(vec![])
        .add_row(vec![7, 8, 9])
        .add_row(vec![])
        .build();

    assert_eq!(array.get_row(0), Some(&[1, 2, 3][..]));
    assert_eq!(array.get_row(1), Some(&[4, 5, 6][..]));
    assert_eq!(array.get_row(2), Some(&[][..]));
    assert_eq!(array.get_row(3), Some(&[7, 8, 9][..]));
    assert_eq!(array.get_row(4), Some(&[][..]));
    assert_eq!(array.get_row(5), None);
}

#[test]
fn test_iter_rows() {
    let array = Builder::<i64>::new()
        .add_row(vec![])
        .add_row(vec![1, 2, 3])
        .add_row(vec![4, 5, 6])
        .add_row(vec![])
        .add_row(vec![7, 8, 9])
        .add_row(vec![])
        .build();

    let mut iter = array.rows_iter();
    assert_eq!(iter.next(), Some(&[][..]));
    assert_eq!(iter.next(), Some(&[1, 2, 3][..]));
    assert_eq!(iter.next(), Some(&[4, 5, 6][..]));
    assert_eq!(iter.next(), Some(&[][..]));
    assert_eq!(iter.next(), Some(&[7, 8, 9][..]));
    assert_eq!(iter.next(), Some(&[][..]));
    assert_eq!(iter.next(), None);
}

#[test]
fn test_get_rows() {
    let array = Builder::<i64>::new()
        .add_row(vec![])
        .add_row(vec![1, 2, 3])
        .add_row(vec![4, 5, 6])
        .add_row(vec![])
        .add_row(vec![7, 8, 9])
        .add_row(vec![])
        .build();
    println!("{array:?}");
    assert_eq!(array.get_rows(0..1), Some(&[][..]));
    assert_eq!(array.get_rows(0..2), Some(&[1, 2, 3][..]));
    assert_eq!(array.get_rows(2..2), Some(&[][..]));
    assert_eq!(array.get_rows(2..3), Some(&[4, 5, 6][..]));
    assert_eq!(array.get_rows(2..4), Some(&[4, 5, 6][..]));
    assert_eq!(array.get_rows(2..5), Some(&[4, 5, 6, 7, 8, 9][..]));
    assert_eq!(array.get_rows(0..6), Some(&[1, 2, 3, 4, 5, 6, 7, 8, 9][..]));
}

#[test]
fn new_valid_round_trip() {
    let ends = vec![0u32, 0, 3, 4, 7, 9, 10, 10];
    let data = vec![0, 1, 2, 3, 4, 5, 6, 7, 8, 9, 11, 32];
    let jagged = JaggedArray::new(ends, data).unwrap();
    assert_eq!(jagged.height(), 9);
    assert_eq!(jagged.len(), 12);
    assert_eq!(jagged.get(4), Some(&4));
    assert_eq!(jagged.get(12), None);
    assert_eq!(jagged.row(2), &[0, 1, 2][..]);
    let iliffe = jagged.into_vecs();
    assert_eq!(
        iliffe,
        vec![
            vec![],
            vec![],
            vec![0, 1, 2],
            vec![3],
            vec![4, 5, 6],
            vec![7, 8],
            vec![9],
            vec![],
            vec![11, 32],
        ],
    );
}

#[test]
fn new_rejects_decreasing_ends() {
    let r = JaggedArray::new(vec![3u32, 1], vec![10, 20, 30]);
    assert_eq!(r.unwrap_err(), Error::BadEnd { i: 1 });

    let r = JaggedArray::new(vec![3u32, 1], vec![10, 20, 30, 40, 50]);
    assert_eq!(r.unwrap_err(), Error::BadEnd { i: 1 });
}

#[test]
fn new_rejects_oversized_end() {
    let r = JaggedArray::<u8>::new(vec![2u32, 7], vec![1, 2, 3]);
    assert_eq!(r.unwrap_err(), Error::TooLongEnd { i: 1, len: 3, end: 7 });

    // an oversized end is reported even when it also decreases
    let r = JaggedArray::<u8>::new(vec![9u32, 4], vec![1, 2, 3]);
    assert_eq!(r.unwrap_err(), Error::TooLongEnd { i: 0, len: 3, end: 9 });
}

#[test]
fn builder_add_elem_extends_open_row() {
    let array = Builder::<i64>::new()
        .add_row(vec![1, 2])
        .add_elem(3)
        .add_row(vec![4])
        .build();
    assert_eq!(array.get_row(0), Some(&[1, 2][..]));
    assert_eq!(array.get_row(1), Some(&[3, 4][..]));
    assert_eq!(array.height(), 2);
}

#[test]
fn empty_builder_has_one_empty_row() {
    let array = Builder::<i64>::new_with_capacity(4, 16).build();
    assert_eq!(array.height(), 1);
    assert!(array.is_empty());
    assert_eq!(array.get_row(0), Some(&[][..]));
    assert_eq!(array.get_row(1), None);
}

#[test]
fn rows_spans_consecutive_rows() {
    let array = Builder::<i64>::new()
        .add_row(vec![1, 2, 3])
        .add_row(vec![4, 5, 6])
        .add_row(vec![])
        .add_row(vec![7, 8, 9])
        .build();
    assert_eq!(array.rows(1..3), &[4, 5, 6][..]);
    // an adjacent inverted range still maps to an empty element range
    assert_eq!(array.get_rows(3..2), Some(&[][..]));
    assert_eq!(array.get_rows(3..1), None);
    assert_eq!(array.get_rows(0..9), None);
}
