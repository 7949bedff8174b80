//! A read-only jagged array: rows of differing lengths stored as one flat
//! buffer plus a compact array of row-end offsets.

use vstd::prelude::*;

verus! {

use core::ops::Range;

/// Why [`JaggedArray::new`] rejected its arguments.
#[derive(Debug, Clone, Copy, PartialEq, Eq, Structural)]
pub enum Error {
    /// The `end` at position `i` was lower than the one before it: `ends`
    /// must be monotonically non-decreasing.
    BadEnd { i: usize },
    /// The `end` at position `i` was `end`, which exceeds the length `len`
    /// of the flat data buffer.
    TooLongEnd { i: usize, len: usize, end: usize },
}

/// What a [`JaggedArray`] stands for: the row-end offsets and the flat
/// element buffer.
pub struct JaggedArrayModel<T> {
    pub ends: Seq<u32>,
    pub data: Seq<T>,
}

impl<T> JaggedArrayModel<T> {
    /// The structural invariant: offsets do not decrease and never pass the
    /// end of the data, and the bookkeeping fits the machine.
    pub open spec fn wf(self) -> bool {
        &&& forall|k: int| 0 <= k < self.ends.len() ==> #[trigger] self.ends[k] <= self.data.len()
        &&& forall|k: int| 0 < k < self.ends.len() ==> #[trigger] self.ends[k - 1] <= self.ends[k]
        &&& self.ends.len() < usize::MAX
    }

    /// How many rows the array has: one more than there are recorded ends,
    /// the last row being implicit.
    pub open spec fn height(self) -> int {
        self.ends.len() as int + 1
    }

    /// Where row `i` ends in the flat buffer (exclusive).
    pub open spec fn end_of(self, i: int) -> int {
        if i < self.ends.len() {
            self.ends[i] as int
        } else {
            self.data.len() as int
        }
    }

    /// Where row `i` starts in the flat buffer.
    pub open spec fn start_of(self, i: int) -> int {
        if i == 0 {
            0
        } else {
            self.end_of(i - 1)
        }
    }

    /// The elements of row `i`.
    pub open spec fn row(self, i: int) -> Seq<T> {
        self.data.subrange(self.start_of(i), self.end_of(i))
    }

    /// Whether the half-open row range `s..e` can be looked up: both bounds
    /// name a row boundary and the resulting element range is not inverted.
    pub open spec fn range_ok(self, s: int, e: int) -> bool {
        &&& s <= self.height()
        &&& e <= self.height()
        &&& self.start_of(s) <= self.bound_of(e)
    }

    /// The element offset a row-range end `e` maps to: `0` maps to `0`, any
    /// other bound to the end of the row before it.
    pub open spec fn bound_of(self, e: int) -> int {
        if e == 0 {
            0
        } else {
            self.end_of(e - 1)
        }
    }
}

/// A matrix of rows of variable length, read-only once built.
///
/// Instead of one buffer per row, all elements sit in a single flat buffer
/// `data`, and `ends` records where each row but the last one ends; the
/// last row is whatever follows the last recorded end.  A `JaggedArray`
/// always has at least one row, which may be empty.
#[derive(Debug, Clone)]
pub struct JaggedArray<T> {
    ends: Vec<u32>,
    data: Vec<T>,
}

impl<T> View for JaggedArray<T> {
    type V = JaggedArrayModel<T>;

    closed spec fn view(&self) -> JaggedArrayModel<T> {
        JaggedArrayModel { ends: self.ends@, data: self.data@ }
    }
}

/// The first reason, scanning `ends` from position `i` upward, why the
/// offsets are not a valid row layout for a buffer of length `len`; `None`
/// when there is none.  Oversized ends are reported before non-monotonic
/// ones at the same position.
pub open spec fn first_flaw(ends: Seq<u32>, len: int, i: int) -> Option<Error>
    decreases ends.len() - i,
{
    if i < 0 || i >= ends.len() {
        None
    } else if ends[i] > len {
        Some(Error::TooLongEnd { i: i as usize, len: len as usize, end: ends[i] as usize })
    } else if i > 0 && ends[i] < ends[i - 1] {
        Some(Error::BadEnd { i: i as usize })
    } else {
        first_flaw(ends, len, i + 1)
    }
}

/// Law: construction succeeds exactly on valid layouts — `ends`
/// non-decreasing with no entry past `len`.
pub proof fn lemma_valid_accepted(ends: Seq<u32>, len: int)
    ensures
        first_flaw(ends, len, 0) is None <==> ((forall|k: int|
            0 <= k < ends.len() ==> #[trigger] ends[k] <= len) && (forall|k: int|
            0 < k < ends.len() ==> #[trigger] ends[k - 1] <= ends[k])),
{
    lemma_valid_accepted_from(ends, len, 0);
}

/// The scan of [`lemma_valid_accepted`], from position `i` on.
proof fn lemma_valid_accepted_from(ends: Seq<u32>, len: int, i: int)
    requires
        0 <= i <= ends.len(),
        forall|k: int| 0 <= k < i ==> #[trigger] ends[k] <= len,
        forall|k: int| 0 < k < i ==> #[trigger] ends[k - 1] <= ends[k],
    ensures
        first_flaw(ends, len, i) is None <==> ((forall|k: int|
            i <= k < ends.len() ==> #[trigger] ends[k] <= len) && (forall|k: int|
            i <= k < ends.len() && k > 0 ==> #[trigger] ends[k - 1] <= ends[k])),
    decreases ends.len() - i,
{
    if i < ends.len() {
        if ends[i] <= len && (i == 0 || ends[i] >= ends[i - 1]) {
            lemma_valid_accepted_from(ends, len, i + 1);
        }
    }
}

impl<T> JaggedArray<T> {
    /// How many elements the array holds over all rows.
    pub fn len(&self) -> (r: usize)
        ensures
            r == self@.data.len(),
    {
        self.data.len()
    }

    /// True when the array holds no element; it still has at least one
    /// (empty) row.
    pub fn is_empty(&self) -> (r: bool)
        ensures
            r == (self@.data.len() == 0),
    {
        self.data.is_empty()
    }

    /// How many rows the array has.
    pub fn height(&self) -> (r: usize)
        requires
            self@.wf(),
        ensures
            r == self@.height(),
    {
        self.ends.len() + 1
    }

    /// Builds a jagged array of `ends.len() + 1` rows: `ends[i]` is the
    /// exclusive end offset of row `i` in `data`, and the last row runs
    /// from the last end to the end of `data`.
    ///
    /// Fails, and moves nothing, when an end exceeds `data.len()`
    /// ([`Error::TooLongEnd`]) or decreases ([`Error::BadEnd`]); the error
    /// reports the first offending position, with oversized ends checked
    /// first.
    pub fn new(ends: Vec<u32>, data: Vec<T>) -> (r: Result<Self, Error>)
        requires
            ends@.len() < usize::MAX,
        ensures
            first_flaw(ends@, data@.len() as int, 0) is None ==> r is Ok && r->Ok_0@
                == (JaggedArrayModel { ends: ends@, data: data@ }) && r->Ok_0@.wf(),
            first_flaw(ends@, data@.len() as int, 0) matches Some(e) ==> r == Err::<Self, Error>(
                e,
            ),
    {
        let len = data.len();
        let mut i: usize = 0;
        let mut prev: u32 = 0;
        while i < ends.len()
            invariant
                0 <= i <= ends@.len(),
                len == data@.len(),
                prev == (if i == 0 {
                    0u32
                } else {
                    ends@[i - 1]
                }),
                first_flaw(ends@, len as int, 0) == first_flaw(ends@, len as int, i as int),
                forall|k: int| 0 <= k < i ==> #[trigger] ends@[k] <= len,
                forall|k: int| 0 < k < i ==> #[trigger] ends@[k - 1] <= ends@[k],
            decreases ends@.len() - i,
        {
            let end = ends[i];
            if end as usize > len {
                return Err(Error::TooLongEnd { i, len, end: end as usize });
            }
            if end < prev {
                return Err(Error::BadEnd { i });
            }
            prev = end;
            i = i + 1;
        }
        Ok(JaggedArray { ends, data })
    }

    /// The element at `direct_index` counting across row boundaries, as if
    /// the whole array were one row; `None` out of bounds.
    pub fn get(&self, direct_index: usize) -> (r: Option<&T>)
        ensures
            direct_index < self@.data.len() ==> r == Some(&self@.data[direct_index as int]),
            direct_index >= self@.data.len() ==> r is None,
    {
        if direct_index < self.data.len() {
            Some(&self.data[direct_index])
        } else {
            None
        }
    }

    /// The elements of the rows `range`, one contiguous slice with no
    /// copying; `None` when a bound passes the number of rows or the range
    /// is inverted.
    pub fn get_rows(&self, range: Range<usize>) -> (r: Option<&[T]>)
        requires
            self@.wf(),
        ensures
            self@.range_ok(range.start as int, range.end as int) ==> (r matches Some(s) && s@
                == self@.data.subrange(
                self@.start_of(range.start as int),
                self@.bound_of(range.end as int),
            )),
            !self@.range_ok(range.start as int, range.end as int) ==> r is None,
    {
        let s = range.start;
        let e = range.end;
        let n_ends = self.ends.len();
        let start: usize = if s == 0 {
            0
        } else if s - 1 < n_ends {
            self.ends[s - 1] as usize
        } else if s - 1 == n_ends {
            self.data.len()
        } else {
            return None;
        };
        let end: usize = if e == 0 {
            0
        } else if e - 1 < n_ends {
            self.ends[e - 1] as usize
        } else if e - 1 == n_ends {
            self.data.len()
        } else {
            return None;
        };
        if start > end {
            return None;
        }
        Some(vstd::slice::slice_subrange(self.data.as_slice(), start, end))
    }

    /// The row at `index` as a slice; `None` when `index` is not below the
    /// number of rows.
    pub fn get_row(&self, index: usize) -> (r: Option<&[T]>)
        requires
            self@.wf(),
        ensures
            index < self@.height() ==> (r matches Some(s) && s@ == self@.row(index as int)),
            index >= self@.height() ==> r is None,
    {
        if index > self.ends.len() {
            return None;
        }
        self.get_rows(index..index + 1)
    }

    /// The row at `index` as a slice; `index` must be below the number of
    /// rows, where [`JaggedArray::get_row`] would instead return `None`.
    pub fn row(&self, index: usize) -> (r: &[T])
        requires
            self@.wf(),
            index < self@.height(),
        ensures
            r@ == self@.row(index as int),
    {
        let r = self.get_row(index);
        r.unwrap()
    }

    /// Like [`JaggedArray::get_rows`], but demands a valid range, where
    /// `get_rows` would instead return `None`.
    pub fn rows(&self, range: Range<usize>) -> (r: &[T])
        requires
            self@.wf(),
            self@.range_ok(range.start as int, range.end as int),
        ensures
            r@ == self@.data.subrange(
                self@.start_of(range.start as int),
                self@.bound_of(range.end as int),
            ),
    {
        let r = self.get_rows(range);
        r.unwrap()
    }

    /// An iterator-style cursor over the rows, restartable by calling this
    /// again.
    pub fn rows_iter(&self) -> (r: JaggedArrayRows<'_, T>)
        ensures
            r.array_model() == self@,
            r.pos() == 0,
    {
        JaggedArrayRows { array: self, row: 0 }
    }

    /// Explodes the compact array into one buffer per row — an Iliffe
    /// vector.  Slower to traverse, but rows can then grow independently.
    pub fn into_vecs(self) -> (r: Vec<Vec<T>>)
        requires
            self@.wf(),
        ensures
            r@.len() == self@.height(),
            forall|i: int| 0 <= i < self@.height() ==> #[trigger] r@[i]@ == self@.row(i),
    {
        let ghost model = self@;
        let JaggedArray { ends, mut data } = self;
        let mut iliffe: Vec<Vec<T>> = Vec::new();
        let mut i: usize = ends.len() + 1;
        while i > 0
            invariant
                0 <= i <= model.height(),
                ends@ == model.ends,
                model.wf(),
                data@ == model.data.subrange(0, model.start_of(i as int)),
                iliffe@.len() == model.height() - i,
                forall|k: int|
                    0 <= k < iliffe@.len() ==> #[trigger] iliffe@[k]@ == model.row(i + k),
            decreases i,
        {
            i = i - 1;
            let start: usize = if i == 0 {
                0
            } else {
                ends[i - 1] as usize
            };
            let row = data.split_off(start);
            proof {
                assert(row@ =~= model.row(i as int));
                assert(data@ =~= model.data.subrange(0, model.start_of(i as int)));
            }
            iliffe.insert(0, row);
        }
        iliffe
    }
}

/// An iterator-style cursor over the rows of a [`JaggedArray`].
pub struct JaggedArrayRows<'j, T> {
    array: &'j JaggedArray<T>,
    row: usize,
}

impl<'j, T> JaggedArrayRows<'j, T> {
    /// The array this cursor walks.
    pub closed spec fn array_model(&self) -> JaggedArrayModel<T> {
        self.array@
    }

    /// The next row to yield.
    pub closed spec fn pos(&self) -> int {
        self.row as int
    }

    /// The next row, or `None` once all rows were yielded.
    pub fn next(&mut self) -> (r: Option<&'j [T]>)
        requires
            old(self).array_model().wf(),
            0 <= old(self).pos(),
        ensures
            final(self).array_model() == old(self).array_model(),
            old(self).pos() < old(self).array_model().height() ==> (r matches Some(s) && s@
                == old(self).array_model().row(old(self).pos()) && final(self).pos() == old(
                self,
            ).pos() + 1),
            old(self).pos() >= old(self).array_model().height() ==> r is None && final(self).pos()
                == old(self).pos(),
    {
        if self.row < self.array.height() {
            let r = self.array.get_row(self.row);
            self.row = self.row + 1;
            r
        } else {
            None
        }
    }
}

impl<'j, T> Clone for JaggedArrayRows<'j, T> {
    /// An exact copy of the cursor, including its position.
    fn clone(&self) -> (r: Self)
        ensures
            r.array_model() == self.array_model(),
            r.pos() == self.pos(),
    {
        JaggedArrayRows { array: self.array, row: self.row }
    }
}

/// The elements of the rows up to, excluding, row `i`, in order.
pub open spec fn concat_rows<T>(model: JaggedArrayModel<T>, i: int) -> Seq<T>
    decreases i,
{
    if i <= 0 {
        Seq::empty()
    } else {
        concat_rows(model, i - 1) + model.row(i - 1)
    }
}

/// Law: the rows of a well-formed jagged array, concatenated in order,
/// rebuild the flat data buffer exactly.
pub proof fn lemma_rows_concat_data<T>(model: JaggedArrayModel<T>)
    requires
        model.wf(),
    ensures
        concat_rows(model, model.height()) == model.data,
{
    lemma_concat_prefix(model, model.height());
    assert(concat_rows(model, model.height()) =~= model.data);
}

/// The concatenation of the first `i` rows is the data up to the start of
/// row `i`.
proof fn lemma_concat_prefix<T>(model: JaggedArrayModel<T>, i: int)
    requires
        model.wf(),
        0 <= i <= model.height(),
    ensures
        concat_rows(model, i) == model.data.subrange(0, model.start_of(i)),
    decreases i,
{
    if i == 0 {
        assert(concat_rows(model, 0) =~= model.data.subrange(0, 0));
    } else {
        lemma_concat_prefix(model, i - 1);
        assert(concat_rows(model, i) =~= model.data.subrange(0, model.start_of(i)));
    }
}

/// Build a [`JaggedArray`] row by row, with nothing to validate at the
/// end: the invariants hold by construction.
pub struct Builder<T> {
    last_end: Option<u32>,
    ends: Vec<u32>,
    data: Vec<T>,
}

/// What a [`Builder`] stands for: the committed row ends, the elements so
/// far, and the pending boundary of the row being built.
pub struct BuilderModel<T> {
    pub last_end: Option<u32>,
    pub ends: Seq<u32>,
    pub data: Seq<T>,
}

impl<T> View for Builder<T> {
    type V = BuilderModel<T>;

    closed spec fn view(&self) -> BuilderModel<T> {
        BuilderModel { last_end: self.last_end, ends: self.ends@, data: self.data@ }
    }
}

impl<T> BuilderModel<T> {
    /// Every state a builder can reach: ends sorted and bounded by the
    /// pending boundary, which never passes the data.
    pub open spec fn wf(self) -> bool {
        &&& forall|k: int| 0 <= k < self.ends.len() ==> #[trigger] self.ends[k] <= self.data.len()
        &&& forall|k: int| 0 < k < self.ends.len() ==> #[trigger] self.ends[k - 1] <= self.ends[k]
        &&& self.ends.len() < usize::MAX
        &&& self.data.len() <= u32::MAX
        &&& match self.last_end {
            Some(e) => e <= self.data.len() && (forall|k: int|
                0 <= k < self.ends.len() ==> #[trigger] self.ends[k] <= e),
            None => self.ends.len() == 0,
        }
    }
}

impl<T> Builder<T> {
    /// A builder with no row yet.
    pub fn new() -> (r: Self)
        ensures
            r@ == (BuilderModel { last_end: None::<u32>, ends: Seq::<u32>::empty(), data: Seq::<
                T,
            >::empty() }),
            r@.wf(),
    {
        Builder { last_end: None, ends: Vec::new(), data: Vec::new() }
    }

    /// A builder with no row yet and room reserved for `row_count` rows of
    /// `data_len` elements in all.
    pub fn new_with_capacity(row_count: usize, data_len: usize) -> (r: Self)
        ensures
            r@ == (BuilderModel { last_end: None::<u32>, ends: Seq::<u32>::empty(), data: Seq::<
                T,
            >::empty() }),
            r@.wf(),
    {
        Builder {
            last_end: None,
            ends: Vec::with_capacity(row_count),
            data: Vec::with_capacity(data_len),
        }
    }

    /// Appends one element to the row currently being built, without
    /// closing it.
    pub fn add_elem(self, elem: T) -> (r: Self)
        requires
            self@.data.len() < u32::MAX,
        ensures
            r@.data == self@.data.push(elem),
            r@.ends == self@.ends,
            r@.last_end == self@.last_end,
            self@.wf() ==> r@.wf(),
    {
        let mut this = self;
        this.data.push(elem);
        this
    }

    /// Appends all of `row`'s elements and closes the current row behind
    /// them, so that they form one distinct row of the result.
    pub fn add_row(self, row: Vec<T>) -> (r: Self)
        requires
            self@.data.len() + row@.len() <= u32::MAX,
        ensures
            r@.data == self@.data + row@,
            r@.ends == (match self@.last_end {
                Some(e) => self@.ends.push(e),
                None => self@.ends,
            }),
            r@.last_end == Some((self@.data.len() + row@.len()) as u32),
            self@.wf() && self@.ends.len() + 1 < usize::MAX ==> r@.wf(),
    {
        let mut this = self;
        let mut row = row;
        this.data.append(&mut row);
        let new_end = this.data.len() as u32;
        if let Some(e) = this.last_end {
            this.ends.push(e);
        }
        this.last_end = Some(new_end);
        this
    }

    /// Completes the array: what was added becomes its rows, the row being
    /// built (even an empty one) becoming the last.
    pub fn build(self) -> (r: JaggedArray<T>)
        requires
            self@.wf(),
        ensures
            r@ == (JaggedArrayModel { ends: self@.ends, data: self@.data }),
            r@.wf(),
    {
        JaggedArray { ends: self.ends, data: self.data }
    }
}

} // verus!
