//! A growable jagged array: rows of differing lengths in one flat buffer,
//! with rows pushed and popped at the end.

use vstd::prelude::*;

verus! {

use vstd::pervasive::cloned;

/// Why [`JaggedVec::new`] rejected its arguments.
#[derive(Debug, Clone, Copy, PartialEq, Eq, Structural)]
pub enum Error {
    /// The `end` at position `i` was lower than the one before it: `ends`
    /// must be monotonically non-decreasing.
    BadEnd { i: usize },
    /// The `end` at position `i` was `end`, which exceeds the length `len`
    /// of the flat data buffer.
    TooLongEnd { i: usize, len: u32, end: u32 },
}

/// What a [`JaggedVec`] stands for: the row-end offsets, the flat element
/// buffer, and whether the store is in its zero-row state.
///
/// `ends` empty can mean either a single open row (the last row is always
/// implicit) or no row at all after a clear or a final pop; `fully_popped`
/// tells the two apart.
pub struct JaggedVecModel<T> {
    pub ends: Seq<u32>,
    pub data: Seq<T>,
    pub fully_popped: bool,
}

impl<T> JaggedVecModel<T> {
    /// The structural invariant: offsets do not decrease and never pass the
    /// end of the data, offsets fit their 32-bit representation, and the
    /// zero-row state holds nothing.
    pub open spec fn wf(self) -> bool {
        &&& forall|k: int| 0 <= k < self.ends.len() ==> #[trigger] self.ends[k] <= self.data.len()
        &&& forall|k: int| 0 < k < self.ends.len() ==> #[trigger] self.ends[k - 1] <= self.ends[k]
        &&& self.ends.len() < usize::MAX
        &&& self.data.len() <= u32::MAX
        &&& (self.fully_popped ==> self.ends.len() == 0 && self.data.len() == 0)
    }

    /// How many rows the store has; unlike the read-only jagged array, it
    /// can be zero.
    pub open spec fn height(self) -> int {
        if self.fully_popped {
            0
        } else {
            self.ends.len() as int + 1
        }
    }

    /// Where row `i` ends in the flat buffer (exclusive).
    pub open spec fn end_of(self, i: int) -> int {
        if i < self.ends.len() {
            self.ends[i] as int
        } else {
            self.data.len() as int
        }
    }

    /// Where row `i` starts in the flat buffer.
    pub open spec fn start_of(self, i: int) -> int {
        if i == 0 {
            0
        } else {
            self.end_of(i - 1)
        }
    }

    /// The elements of row `i`.
    pub open spec fn row(self, i: int) -> Seq<T> {
        self.data.subrange(self.start_of(i), self.end_of(i))
    }

    /// All rows, in order.
    pub open spec fn rows(self) -> Seq<Seq<T>> {
        Seq::new(self.height() as nat, |i: int| self.row(i))
    }
}

/// An extensible jagged array: the same flat layout as the read-only
/// variant, plus appending and popping of rows.
#[derive(Debug, Clone)]
pub struct JaggedVec<T> {
    ends: Vec<u32>,
    data: Vec<T>,
    fully_popped: bool,
}

impl<T> View for JaggedVec<T> {
    type V = JaggedVecModel<T>;

    closed spec fn view(&self) -> JaggedVecModel<T> {
        JaggedVecModel { ends: self.ends@, data: self.data@, fully_popped: self.fully_popped }
    }
}

/// A row popped off a [`JaggedVec`]: the caller owns the elements, and the
/// borrow recorded in the type keeps every use of the source store ruled
/// out until this value is dropped — the store is locked exactly while a
/// popped row is alive.
pub struct PoppedRow<'a, T> {
    row: Vec<T>,
    parent: core::marker::PhantomData<&'a ()>,
}

impl<'a, T> View for PoppedRow<'a, T> {
    type V = Seq<T>;

    closed spec fn view(&self) -> Seq<T> {
        self.row@
    }
}

impl<'a, T> PoppedRow<'a, T> {
    /// The popped elements, as a slice.
    pub fn as_slice(&self) -> (r: &[T])
        ensures
            r@ == self@,
    {
        self.row.as_slice()
    }

    /// Releases the borrow of the source store and keeps the elements as a
    /// plain buffer.
    pub fn into_vec(self) -> (r: Vec<T>)
        ensures
            r@ == self@,
    {
        self.row
    }

    /// How many elements the popped row holds.
    pub fn len(&self) -> (r: usize)
        ensures
            r == self@.len(),
    {
        self.row.len()
    }
}

/// The first reason, scanning `ends` from position `i` upward, why the
/// offsets are not a valid row layout for a buffer of length `len`; `None`
/// when there is none.
pub open spec fn first_flaw(ends: Seq<u32>, len: int, i: int) -> Option<Error>
    decreases ends.len() - i,
{
    if i < 0 || i >= ends.len() {
        None
    } else if ends[i] > len {
        Some(Error::TooLongEnd { i: i as usize, len: len as u32, end: ends[i] })
    } else if i > 0 && ends[i] < ends[i - 1] {
        Some(Error::BadEnd { i: i as usize })
    } else {
        first_flaw(ends, len, i + 1)
    }
}

impl<T> JaggedVec<T> {
    /// The store with no rows, the same value `Default` gives.
    pub fn empty() -> (r: Self)
        ensures
            r@ == (JaggedVecModel {
                ends: Seq::<u32>::empty(),
                data: Seq::<T>::empty(),
                fully_popped: true,
            }),
            r@.wf(),
            r@.height() == 0,
    {
        JaggedVec { ends: Vec::new(), data: Vec::new(), fully_popped: true }
    }

    /// Builds a store of `ends.len() + 1` rows over `data`, under the same
    /// layout and validation as the read-only jagged array.
    pub fn new(ends: Vec<u32>, data: Vec<T>) -> (r: Result<Self, Error>)
        requires
            ends@.len() < usize::MAX,
            data@.len() <= u32::MAX,
        ensures
            first_flaw(ends@, data@.len() as int, 0) is None ==> r is Ok && r->Ok_0@
                == (JaggedVecModel { ends: ends@, data: data@, fully_popped: false })
                && r->Ok_0@.wf(),
            first_flaw(ends@, data@.len() as int, 0) matches Some(e) ==> r == Err::<Self, Error>(
                e,
            ),
    {
        let len = data.len() as u32;
        let mut i: usize = 0;
        let mut prev: u32 = 0;
        while i < ends.len()
            invariant
                0 <= i <= ends@.len(),
                len == data@.len(),
                prev == (if i == 0 {
                    0u32
                } else {
                    ends@[i - 1]
                }),
                first_flaw(ends@, len as int, 0) == first_flaw(ends@, len as int, i as int),
                forall|k: int| 0 <= k < i ==> #[trigger] ends@[k] <= len,
                forall|k: int| 0 < k < i ==> #[trigger] ends@[k - 1] <= ends@[k],
            decreases ends@.len() - i,
        {
            let end = ends[i];
            if end > len {
                return Err(Error::TooLongEnd { i, len, end });
            }
            if end < prev {
                return Err(Error::BadEnd { i });
            }
            prev = end;
            i = i + 1;
        }
        Ok(JaggedVec { ends, data, fully_popped: false })
    }

    /// How many elements the store holds over all rows.
    pub fn len(&self) -> (r: usize)
        ensures
            r == self@.data.len(),
    {
        self.data.len()
    }

    /// True when the store holds no element; it may still have empty rows.
    pub fn is_empty(&self) -> (r: bool)
        ensures
            r == (self@.data.len() == 0),
    {
        self.data.is_empty()
    }

    /// How many rows the store has: zero exactly when nothing was ever
    /// committed or everything was popped or cleared.
    pub fn height(&self) -> (r: usize)
        requires
            self@.wf(),
        ensures
            r == self@.height(),
    {
        if self.fully_popped {
            0
        } else {
            self.ends.len() + 1
        }
    }

    /// Appends `row` as a new last row.
    pub fn push_row(&mut self, row: Vec<T>)
        requires
            old(self)@.wf(),
            old(self)@.data.len() + row@.len() <= u32::MAX,
            old(self)@.ends.len() + 1 < usize::MAX,
        ensures
            final(self)@.wf(),
            final(self)@.fully_popped == false,
            final(self)@.data == old(self)@.data + row@,
            final(self)@.ends == (if old(self)@.fully_popped {
                old(self)@.ends
            } else {
                old(self)@.ends.push(old(self)@.data.len() as u32)
            }),
            final(self)@.rows() == old(self)@.rows().push(row@),
    {
        let ghost old_model = self@;
        let ghost row_elems = row@;
        if !self.fully_popped {
            let end = self.data.len() as u32;
            self.ends.push(end);
        }
        let mut row = row;
        self.data.append(&mut row);
        self.fully_popped = false;
        proof {
            assert((old_model.data + row_elems).subrange(0, old_model.data.len() as int)
                =~= old_model.data);
            assert((old_model.data + row_elems).subrange(
                old_model.data.len() as int,
                (old_model.data + row_elems).len() as int,
            ) =~= row_elems);
            lemma_append_row(old_model, self@, old_model.data + row_elems);
        }
    }

    /// Appends each element of `slice` as a new last row, cloning them out
    /// of the slice.
    pub fn push_slice(&mut self, slice: &[T]) where T: Clone
        requires
            old(self)@.wf(),
            old(self)@.data.len() + slice@.len() <= u32::MAX,
            old(self)@.ends.len() + 1 < usize::MAX,
        ensures
            final(self)@.wf(),
            final(self)@.fully_popped == false,
            final(self)@.ends == (if old(self)@.fully_popped {
                old(self)@.ends
            } else {
                old(self)@.ends.push(old(self)@.data.len() as u32)
            }),
            final(self)@.data.len() == old(self)@.data.len() + slice@.len(),
            forall|i: int|
                0 <= i < old(self)@.data.len() ==> #[trigger] final(self)@.data[i] == old(
                    self,
                )@.data[i],
            forall|i: int|
                old(self)@.data.len() <= i < final(self)@.data.len() ==> cloned::<T>(
                    slice@[i - old(self)@.data.len()],
                    #[trigger] final(self)@.data[i],
                ),
            final(self)@.height() == old(self)@.rows().len() + 1,
    {
        if !self.fully_popped {
            let end = self.data.len() as u32;
            self.ends.push(end);
        }
        self.data.extend_from_slice(slice);
        self.fully_popped = false;
    }

    /// Appends one element to the last row, opening a first row when the
    /// store has none.
    pub fn push(&mut self, elem: T)
        requires
            old(self)@.wf(),
            old(self)@.data.len() < u32::MAX,
        ensures
            final(self)@.wf(),
            final(self)@ == (JaggedVecModel {
                ends: old(self)@.ends,
                data: old(self)@.data.push(elem),
                fully_popped: false,
            }),
    {
        self.fully_popped = false;
        self.data.push(elem);
    }

    /// Appends every element of `elems` to the last row, opening a first
    /// row when the store has none.
    pub fn extend_last_row(&mut self, elems: Vec<T>)
        requires
            old(self)@.wf(),
            old(self)@.data.len() + elems@.len() <= u32::MAX,
        ensures
            final(self)@.wf(),
            final(self)@ == (JaggedVecModel {
                ends: old(self)@.ends,
                data: old(self)@.data + elems@,
                fully_popped: false,
            }),
    {
        self.fully_popped = false;
        let mut elems = elems;
        self.data.append(&mut elems);
    }

    /// Removes every row: the store returns to its zero-row state.
    pub fn clear(&mut self)
        ensures
            final(self)@ == (JaggedVecModel {
                ends: Seq::<u32>::empty(),
                data: Seq::<T>::empty(),
                fully_popped: true,
            }),
            final(self)@.wf(),
            final(self)@.height() == 0,
    {
        self.fully_popped = true;
        self.data.clear();
        self.ends.clear();
    }

    /// Removes the last row and hands its elements to the caller; `None`
    /// when the store has no rows.  The returned [`PoppedRow`] borrows the
    /// store: no other operation on it is possible until the row is
    /// dropped or consumed.
    pub fn pop_row(&mut self) -> (r: Option<PoppedRow<'_, T>>)
        requires
            old(self)@.wf(),
        ensures
            final(self)@.wf(),
            old(self)@.height() == 0 ==> r is None && final(self)@ == old(self)@,
            old(self)@.height() > 0 ==> (r matches Some(p) && p@ == old(self)@.row(
                old(self)@.height() - 1,
            ) && final(self)@.rows() == old(self)@.rows().drop_last() && final(self)@.height()
                == old(self)@.height() - 1),
    {
        if self.fully_popped {
            return None;
        }
        let ghost old_model = self@;
        self.fully_popped = self.ends.len() == 0;
        let last_end: usize = match self.ends.pop() {
            Some(e) => e as usize,
            None => 0,
        };
        proof {
            lemma_sorted_pairwise(old_model.ends);
        }
        let popped = self.data.split_off(last_end);
        proof {
            assert(popped@ =~= old_model.row(old_model.height() - 1));
            assert forall|i: int| 0 <= i < self@.height() implies self@.row(i) == old_model.row(
                i,
            ) by {
                assert(self@.row(i) =~= old_model.row(i));
            }
            assert(self@.rows() =~~= old_model.rows().drop_last());
        }
        Some(PoppedRow { row: popped, parent: core::marker::PhantomData })
    }

    /// The element at `direct_index` counting across row boundaries, as if
    /// the whole store were one row; `None` out of bounds.
    pub fn get(&self, direct_index: usize) -> (r: Option<&T>)
        ensures
            direct_index < self@.data.len() ==> r == Some(&self@.data[direct_index as int]),
            direct_index >= self@.data.len() ==> r is None,
    {
        if direct_index < self.data.len() {
            Some(&self.data[direct_index])
        } else {
            None
        }
    }

    /// The row at `index` as a slice; `None` past the last recorded row
    /// boundary.  A store in its zero-row state still answers `Some` of an
    /// empty slice at index `0`.
    pub fn get_row(&self, index: usize) -> (r: Option<&[T]>)
        requires
            self@.wf(),
        ensures
            index <= self@.ends.len() ==> (r matches Some(s) && s@ == self@.row(index as int)),
            index > self@.ends.len() ==> r is None,
    {
        if index > self.ends.len() {
            return None;
        }
        let start: usize = if index == 0 {
            0
        } else {
            self.ends[index - 1] as usize
        };
        let end: usize = if index < self.ends.len() {
            self.ends[index] as usize
        } else {
            self.data.len()
        };
        Some(vstd::slice::slice_subrange(self.data.as_slice(), start, end))
    }

    /// The row at `index` as a slice; `index` must be within the rows,
    /// where [`JaggedVec::get_row`] would instead return `None`.
    pub fn row(&self, index: usize) -> (r: &[T])
        requires
            self@.wf(),
            index <= self@.ends.len(),
        ensures
            r@ == self@.row(index as int),
    {
        let r = self.get_row(index);
        r.unwrap()
    }

    /// Explodes the store into one buffer per row — an Iliffe vector.
    pub fn into_vecs(self) -> (r: Vec<Vec<T>>)
        requires
            self@.wf(),
        ensures
            r@.len() == self@.height(),
            forall|i: int| 0 <= i < self@.height() ==> #[trigger] r@[i]@ == self@.row(i),
    {
        let ghost model = self@;
        let JaggedVec { ends, mut data, fully_popped } = self;
        let mut iliffe: Vec<Vec<T>> = Vec::new();
        if fully_popped {
            return iliffe;
        }
        let mut i: usize = ends.len() + 1;
        while i > 0
            invariant
                0 <= i <= model.ends.len() + 1,
                ends@ == model.ends,
                model.wf(),
                data@ == model.data.subrange(0, model.start_of(i as int)),
                iliffe@.len() == model.ends.len() + 1 - i,
                forall|k: int|
                    0 <= k < iliffe@.len() ==> #[trigger] iliffe@[k]@ == model.row(i + k),
            decreases i,
        {
            i = i - 1;
            let start: usize = if i == 0 {
                0
            } else {
                ends[i - 1] as usize
            };
            let row = data.split_off(start);
            proof {
                assert(row@ =~= model.row(i as int));
                assert(data@ =~= model.data.subrange(0, model.start_of(i as int)));
            }
            iliffe.insert(0, row);
        }
        iliffe
    }
}

impl<T> Default for JaggedVec<T> {
    /// The same zero-row store as [`JaggedVec::empty`].
    fn default() -> (r: Self)
        ensures
            r@ == (JaggedVecModel {
                ends: Seq::<u32>::empty(),
                data: Seq::<T>::empty(),
                fully_popped: true,
            }),
            r@.wf(),
    {
        JaggedVec::empty()
    }
}

/// In a sequence sorted between neighbours, any earlier entry is at most
/// any later one.
proof fn lemma_sorted_pairwise(ends: Seq<u32>)
    requires
        forall|k: int| 0 < k < ends.len() ==> #[trigger] ends[k - 1] <= ends[k],
    ensures
        forall|i: int, j: int| 0 <= i <= j < ends.len() ==> #[trigger] ends[i] <= #[trigger] ends[j],
{
    assert forall|i: int, j: int| 0 <= i <= j < ends.len() implies #[trigger] ends[i]
        <= #[trigger] ends[j] by {
        lemma_sorted_le(ends, i, j);
    }
}

/// The pairwise step of [`lemma_sorted_pairwise`], by induction on the gap.
proof fn lemma_sorted_le(ends: Seq<u32>, i: int, j: int)
    requires
        forall|k: int| 0 < k < ends.len() ==> #[trigger] ends[k - 1] <= ends[k],
        0 <= i <= j < ends.len(),
    ensures
        ends[i] <= ends[j],
    decreases j - i,
{
    if i < j {
        lemma_sorted_le(ends, i, j - 1);
    }
}

/// Appending a committed row extends the sequence of rows by exactly that
/// row.
proof fn lemma_append_row<T>(old_m: JaggedVecModel<T>, new_m: JaggedVecModel<T>, data: Seq<T>)
    requires
        old_m.wf(),
        new_m.data == data,
        old_m.data.len() <= data.len(),
        data.len() <= u32::MAX,
        old_m.ends.len() + 1 < usize::MAX,
        data.subrange(0, old_m.data.len() as int) == old_m.data,
        new_m.fully_popped == false,
        new_m.ends == (if old_m.fully_popped {
            old_m.ends
        } else {
            old_m.ends.push(old_m.data.len() as u32)
        }),
    ensures
        new_m.wf(),
        new_m.rows() == old_m.rows().push(data.subrange(old_m.data.len() as int, data.len() as int)),
{
    let row = data.subrange(old_m.data.len() as int, data.len() as int);
    assert forall|i: int| 0 <= i < old_m.height() implies new_m.row(i) == old_m.row(i) by {
        assert(new_m.row(i) =~= old_m.row(i));
    }
    assert(new_m.row(new_m.height() - 1) =~= row);
    assert(new_m.rows() =~~= old_m.rows().push(row));
}

} // verus!
