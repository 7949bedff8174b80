use std::sync::atomic::{AtomicI64, Ordering};

use datazoo::jagged_vec::{Error, JaggedVec};

struct RefCount<'a>(&'a AtomicI64);
impl<'a> RefCount<'a> {
    fn new(atomic: &'a AtomicI64) -> Self {
        atomic.fetch_add(1, Ordering::Relaxed);
        Self(atomic)
    }
}
impl Drop for RefCount<'_> {
    fn drop(&mut self) {
        self.0.fetch_sub(1, Ordering::Relaxed);
    }
}

#[test]
fn count_drops() {
    let count = AtomicI64::new(0);
    let mk_ref = || RefCount::new(&count);
    let mut jagged = JaggedVec::empty();
    jagged.push_row(vec![mk_ref(), mk_ref()]);
    jagged.push_row(vec![mk_ref(), mk_ref(), mk_ref(), mk_ref()]);
    jagged.push_row(vec![mk_ref()]);
    assert_eq!(count.load(Ordering::Relaxed), 7);
    let popped = jagged.pop_row().unwrap();
    assert_eq!(count.load(Ordering::Relaxed), 7);
    drop(popped);
    assert_eq!(count.load(Ordering::Relaxed), 6);
    jagged.pop_row();
    assert_eq!(count.load(Ordering::Relaxed), 2);
    drop(jagged);
    assert_eq!(count.load(Ordering::Relaxed), 0);
}

#[test]
fn push_and_pop_rows() {
    let mut jagged = JaggedVec::empty();
    jagged.push_row(vec![0, 1, 2]);
    jagged.push_row(vec![3]);
    jagged.push_row(vec![4, 5, 6, 7]);
    assert_eq!(jagged.height(), 3);

    let popped = jagged.pop_row().unwrap();
    assert_eq!(popped.as_slice(), &[4, 5, 6, 7][..]);
    drop(popped);

    assert_eq!(jagged.height(), 2);
    assert_eq!(jagged.get_row(2), None);
    assert_eq!(jagged.get_row(1), Some(&[3][..]));
    assert_eq!(jagged.clone().into_vecs(), vec![vec![0, 1, 2], vec![3]]);

    jagged.pop_row();
    jagged.pop_row();
    assert_eq!(jagged.height(), 0);
    assert!(jagged.pop_row().is_none());
}

#[test]
fn push_slice_clones_rows() {
    let mut jagged = JaggedVec::empty();
    let source = vec![0, 1, 2, 3];
    jagged.push_slice(&source);
    jagged.push_slice(&source[0..source.len() - 1]);
    assert_eq!(jagged.into_vecs(), vec![vec![0, 1, 2, 3], vec![0, 1, 2]]);
}

#[test]
fn push_opens_a_first_row() {
    let mut jagged = JaggedVec::empty();
    jagged.push_row(vec![0, 1, 2]);
    jagged.push_row(vec![3]);
    jagged.push(4);
    assert_eq!(jagged.into_vecs(), vec![vec![0, 1, 2], vec![3, 4]]);

    let mut fresh = JaggedVec::empty();
    fresh.push(9);
    assert_eq!(fresh.height(), 1);
    assert_eq!(fresh.into_vecs(), vec![vec![9]]);
}

#[test]
fn extend_last_row_appends() {
    let mut jagged = JaggedVec::empty();
    jagged.push_row(vec![0, 1, 2]);
    jagged.push_row(vec![3]);
    jagged.extend_last_row(vec![4, 5, 6]);
    assert_eq!(jagged.into_vecs(), vec![vec![0, 1, 2], vec![3, 4, 5, 6]]);
}

#[test]
fn clear_drops_all_rows() {
    let mut jagged = JaggedVec::empty();
    jagged.push_row(vec![1, 2]);
    jagged.push_row(vec![3]);
    jagged.clear();
    assert_eq!(jagged.height(), 0);
    assert!(jagged.is_empty());
    assert_eq!(jagged.into_vecs(), Vec::<Vec<i32>>::new());
}

#[test]
fn new_validates_like_the_read_only_store() {
    let ends = vec![0u32, 0, 3, 4, 7, 9, 10, 10];
    let data = vec![0, 1, 2, 3, 4, 5, 6, 7, 8, 9, 11, 23];
    let jagged = JaggedVec::new(ends, data).unwrap();
    assert_eq!(jagged.len(), 12);
    assert_eq!(jagged.height(), 9);
    assert_eq!(jagged.get(4), Some(&4));
    assert_eq!(
        jagged.into_vecs(),
        vec![
            vec![],
            vec![],
            vec![0, 1, 2],
            vec![3],
            vec![4, 5, 6],
            vec![7, 8],
            vec![9],
            vec![],
            vec![11, 23],
        ],
    );

    assert_eq!(
        JaggedVec::new(vec![3u32, 1], vec![10, 20, 30]).unwrap_err(),
        Error::BadEnd { i: 1 },
    );
    assert_eq!(
        JaggedVec::<u8>::new(vec![5u32], vec![1, 2, 3]).unwrap_err(),
        Error::TooLongEnd { i: 0, len: 3, end: 5 },
    );
}

#[test]
fn get_row_answers_an_empty_row_on_an_empty_store() {
    let jagged: JaggedVec<u8> = JaggedVec::empty();
    assert_eq!(jagged.height(), 0);
    assert_eq!(jagged.get_row(0), Some(&[][..]));
    assert_eq!(jagged.get_row(1), None);
}

#[test]
fn default_store_has_no_rows() {
    let jagged: JaggedVec<u8> = JaggedVec::default();
    assert_eq!(jagged.height(), 0);
    assert!(jagged.is_empty());
}
