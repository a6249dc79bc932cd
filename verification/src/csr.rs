//! Compressed sparse row matrix.
//!
//! A matrix is a flat sequence of entries in row-major order together with a
//! sequence of row offsets. It is built by an append-only protocol: open a
//! row, append its entries, open the next row, and open one more row after the
//! last entry to seal the matrix.

use vstd::prelude::*;
use vstd::slice::slice_subrange;
use crate::coo::{
    by_column, column_limit, column_offsets, flipped, group_starts, lemma_column_offsets,
    lemma_sorted_is_by_column, row_major, stable_sort, RowColumnValue,
};
use crate::transposition::lemma_transposed_wf;

verus! {

/// A value with the column it stands in.
#[derive(Debug, Clone, Copy, PartialEq)]
pub struct ColumnValue<V> {
    pub column: usize,
    pub value: V,
}

/// Why an operation on a matrix was refused.
#[derive(Debug, Clone, Copy, PartialEq, Eq, Structural)]
pub enum MatrixError {
    /// A row index, or a position within a row, is out of bounds.
    InvalidIndex,
    /// An entry was appended before any row was opened.
    IllFormedMatrix,
}

/// The mathematical content of a matrix: its entries in row-major order and
/// the offset at which each opened row begins.
pub struct Layout<V> {
    pub entries: Seq<ColumnValue<V>>,
    pub offsets: Seq<usize>,
}

impl<V> Layout<V> {
    /// Offsets begin at zero, never decrease and never point past the
    /// entries, no entry exists before the first row was opened, and both
    /// sequences fit in memory.
    pub open spec fn wf(self) -> bool {
        &&& self.entries.len() <= usize::MAX
        &&& self.offsets.len() <= usize::MAX + 1
        &&& self.offsets.len() > 0 ==> self.offsets[0] == 0
        &&& forall|i: int, j: int|
            0 <= i <= j < self.offsets.len() ==> self.offsets[i] <= self.offsets[j]
        &&& forall|i: int| 0 <= i < self.offsets.len() ==> #[trigger] self.offsets[i] <= self.entries.len()
        &&& self.offsets.len() == 0 ==> self.entries.len() == 0
    }

    /// Number of rows that have been closed by a later offset.
    pub open spec fn row_count(self) -> nat {
        if self.offsets.len() == 0 {
            0
        } else {
            (self.offsets.len() - 1) as nat
        }
    }

    /// The entries of a closed row.
    pub open spec fn row(self, index: int) -> Seq<ColumnValue<V>>
        recommends
            0 <= index < self.row_count(),
    {
        self.entries.subrange(self.offsets[index] as int, self.offsets[index + 1] as int)
    }

    /// The matrix is sealed when a row was opened after the last entry.
    pub open spec fn sealed(self) -> bool {
        self.offsets.len() > 0 && self.offsets.last() == self.entries.len()
    }

    /// The layout after a new row has been opened.
    pub open spec fn started(self) -> Self {
        Layout { entries: self.entries, offsets: self.offsets.push(self.entries.len() as usize) }
    }

    /// The layout after an entry has been appended to the open row.
    pub open spec fn appended(self, entry: ColumnValue<V>) -> Self {
        Layout { entries: self.entries.push(entry), offsets: self.offsets }
    }

    /// The layout after the value at `position` of row `index` was replaced.
    pub open spec fn replaced(self, index: int, position: int, value: V) -> Self
        recommends
            0 <= index < self.row_count(),
            0 <= position < self.row(index).len(),
    {
        let at = self.offsets[index] + position;
        Layout {
            entries: self.entries.update(
                at,
                ColumnValue { column: self.entries[at].column, value },
            ),
            offsets: self.offsets,
        }
    }
}

/// The entries of one row, each with the index of the row.
pub open spec fn tagged<V>(row: Seq<ColumnValue<V>>, index: usize) -> Seq<RowColumnValue<V>> {
    Seq::new(row.len(), |i: int| RowColumnValue { row: index, column_value: row[i] })
}

impl<V> Layout<V> {
    /// The triples of the first `count` rows, row after row.
    pub open spec fn triples_upto(self, count: nat) -> Seq<RowColumnValue<V>>
        decreases count,
    {
        if count == 0 {
            Seq::empty()
        } else {
            self.triples_upto((count - 1) as nat) + tagged(
                self.row(count - 1),
                (count - 1) as usize,
            )
        }
    }

    /// The (row, column, value) triples of the closed rows, in row-major
    /// order.
    pub open spec fn triples(self) -> Seq<RowColumnValue<V>> {
        self.triples_upto(self.row_count())
    }

    /// The transposed matrix. Each column that holds an entry becomes a row,
    /// in ascending order of the columns; an empty column leaves no row. The
    /// new row lists the entries of its column from the first row down, each
    /// with its former row as the column. The result is sealed.
    pub open spec fn transposed(self) -> Self {
        Layout {
            entries: flipped(by_column(self.triples(), column_limit())),
            offsets: column_offsets(self.triples(), column_limit()),
        }
    }

    /// The triples of the first rows are in row-major order.
    pub proof fn lemma_triples_row_major(self, count: nat)
        requires
            self.wf(),
            count <= self.row_count(),
        ensures
            row_major(self.triples_upto(count)),
            forall|i: int|
                0 <= i < self.triples_upto(count).len() ==> (#[trigger] self.triples_upto(
                    count,
                )[i]).row < count,
        decreases count,
    {
        if count > 0 {
            self.lemma_triples_row_major((count - 1) as nat);
            let before = self.triples_upto((count - 1) as nat);
            let row = tagged(self.row(count - 1), (count - 1) as usize);
            let whole = self.triples_upto(count);
            assert forall|i: int| 0 <= i < whole.len() implies (#[trigger] whole[i]).row < count by {
                if i < before.len() {
                    assert(whole[i] == before[i]);
                } else {
                    assert(whole[i] == row[i - before.len()]);
                }
            }
            assert forall|i: int, j: int| 0 <= i < j < whole.len() implies (#[trigger] whole[i]).row
                <= (#[trigger] whole[j]).row by {
                if j < before.len() {
                    assert(before[i].row <= before[j].row);
                } else if i < before.len() {
                    assert(whole[i] == before[i]);
                    assert(whole[j] == row[j - before.len()]);
                } else {
                    assert(whole[i] == row[i - before.len()]);
                    assert(whole[j] == row[j - before.len()]);
                }
            }
        }
    }
}

/// Compressed sparse row matrix.
#[derive(Debug)]
pub struct Csr<V> {
    values: Vec<ColumnValue<V>>,
    pointers: Vec<usize>,
}

impl<V> View for Csr<V> {
    type V = Layout<V>;

    closed spec fn view(&self) -> Layout<V> {
        Layout { entries: self.values@, offsets: self.pointers@ }
    }
}

impl<V> Csr<V> {
    /// Every matrix is well formed.
    #[verifier::type_invariant]
    pub open spec fn well_formed(self) -> bool {
        self@.wf()
    }

    /// Moves the two vectors out and leaves a matrix without rows behind.
    fn take(&mut self) -> (parts: (Vec<ColumnValue<V>>, Vec<usize>))
        ensures
            parts.0@ == old(self)@.entries,
            parts.1@ == old(self)@.offsets,
            old(self)@.wf(),
            final(self)@.entries.len() == 0,
            final(self)@.offsets.len() == 0,
    {
        proof {
            use_type_invariant(&*self);
        }
        let mut taken = Csr::new();
        core::mem::swap(self, &mut taken);
        let Csr { values, pointers } = taken;
        (values, pointers)
    }

    /// Creates a matrix without rows.
    pub fn new() -> (matrix: Self)
        ensures
            matrix@.entries.len() == 0,
            matrix@.offsets.len() == 0,
    {
        Csr { values: Vec::new(), pointers: Vec::new() }
    }

    /// Starts a new row.
    ///
    /// A row must also be started after the very last value: that seals the
    /// matrix.
    pub fn start(&mut self)
        ensures
            final(self)@ == old(self)@.started(),
    {
        let (values, mut pointers) = self.take();
        pointers.push(values.len());
        assert(pointers@.len() == pointers.len());
        *self = Csr { values, pointers };
    }

    /// Adds a new value to the current row, unless no row was started yet.
    pub fn next(&mut self, column: usize, value: V) -> (outcome: Result<(), MatrixError>)
        ensures
            old(self)@.offsets.len() > 0 ==> outcome == Ok::<(), MatrixError>(()) && final(self)@
                == old(self)@.appended(ColumnValue { column, value }),
            old(self)@.offsets.len() == 0 ==> outcome == Err::<(), MatrixError>(
                MatrixError::IllFormedMatrix,
            ) && final(self)@ == old(self)@,
    {
        if self.pointers.len() == 0 {
            return Err(MatrixError::IllFormedMatrix);
        }
        let (mut values, pointers) = self.take();
        values.push(ColumnValue { column, value });
        assert(values@.len() == values.len());
        *self = Csr { values, pointers };
        Ok(())
    }

    /// Gets value count.
    pub fn len(&self) -> (count: usize)
        ensures
            count == self@.entries.len(),
    {
        self.values.len()
    }

    /// Gets row count: the number of rows that a later row start has closed.
    /// The row start that seals the matrix opens no row of data, and is not
    /// counted.
    pub fn row_count(&self) -> (count: usize)
        ensures
            count == self@.row_count(),
    {
        if self.pointers.len() == 0 {
            0
        } else {
            self.pointers.len() - 1
        }
    }

    /// Tells whether a row was started after the last value.
    pub fn is_sealed(&self) -> (sealed: bool)
        ensures
            sealed == self@.sealed(),
    {
        let count = self.pointers.len();
        count > 0 && self.pointers[count - 1] == self.values.len()
    }

    /// Gets a slice to the row.
    pub fn get_row(&self, index: usize) -> (outcome: Result<&[ColumnValue<V>], MatrixError>)
        ensures
            index < self@.row_count() ==> outcome is Ok && outcome.unwrap()@ == self@.row(
                index as int,
            ),
            index >= self@.row_count() ==> outcome == Err::<&[ColumnValue<V>], MatrixError>(
                MatrixError::InvalidIndex,
            ),
    {
        proof {
            use_type_invariant(self);
        }
        if index >= self.row_count() {
            return Err(MatrixError::InvalidIndex);
        }
        let from = self.pointers[index];
        let to = self.pointers[index + 1];
        Ok(slice_subrange(self.values.as_slice(), from, to))
    }

    /// Overwrites the value at `position` of row `index` in place. The column
    /// of the entry and the layout of the rows stay as they are.
    pub fn set_value(&mut self, index: usize, position: usize, value: V) -> (outcome: Result<
        (),
        MatrixError,
    >)
        ensures
            index < old(self)@.row_count() && position < old(self)@.row(index as int).len()
                ==> outcome == Ok::<(), MatrixError>(()) && final(self)@ == old(self)@.replaced(
                index as int,
                position as int,
                value,
            ),
            !(index < old(self)@.row_count() && position < old(self)@.row(index as int).len())
                ==> outcome == Err::<(), MatrixError>(MatrixError::InvalidIndex) && final(self)@
                == old(self)@,
    {
        proof {
            use_type_invariant(&*self);
        }
        if index >= self.row_count() {
            return Err(MatrixError::InvalidIndex);
        }
        let from = self.pointers[index];
        let to = self.pointers[index + 1];
        if position >= to - from {
            return Err(MatrixError::InvalidIndex);
        }
        let (mut values, pointers) = self.take();
        let at = from + position;
        let column = values[at].column;
        values[at] = ColumnValue { column, value };
        *self = Csr { values, pointers };
        Ok(())
    }

    /// Gets the row offsets, one for each started row.
    pub fn pointers(&self) -> (offsets: &[usize])
        ensures
            offsets@ == self@.offsets,
    {
        self.pointers.as_slice()
    }

    /// Gets all values in row-major order.
    pub fn values(&self) -> (entries: &[ColumnValue<V>])
        ensures
            entries@ == self@.entries,
    {
        self.values.as_slice()
    }

    /// Lists the (row, column, value) triples of the closed rows in
    /// row-major order.
    pub fn triples(&self) -> (list: Vec<RowColumnValue<V>>) where V: Copy
        ensures
            list@ == self@.triples(),
    {
        proof {
            use_type_invariant(self);
        }
        let mut list: Vec<RowColumnValue<V>> = Vec::new();
        let row_count = self.row_count();
        let mut row_index: usize = 0;
        while row_index < row_count
            invariant
                self@.wf(),
                self@.entries == self.values@,
                self@.offsets == self.pointers@,
                row_count == self@.row_count(),
                row_index <= row_count,
                list@ == self@.triples_upto(row_index as nat),
            decreases row_count - row_index,
        {
            let from = self.pointers[row_index];
            let to = self.pointers[row_index + 1];
            let ghost before = list@;
            let ghost row = self@.row(row_index as int);
            let mut at = from;
            proof {
                assert(tagged(row.take(0), row_index) == Seq::<RowColumnValue<V>>::empty());
                assert(before + Seq::<RowColumnValue<V>>::empty() == before);
            }
            while at < to
                invariant
                    self@.wf(),
                    self@.entries == self.values@,
                    from <= at <= to <= self.values@.len(),
                    row == self.values@.subrange(from as int, to as int),
                    list@ == before + tagged(row.take(at - from), row_index),
                decreases to - at,
            {
                let column_value = self.values[at];
                list.push(RowColumnValue { row: row_index, column_value });
                proof {
                    let taken = tagged(row.take(at - from), row_index);
                    assert(tagged(row.take(at + 1 - from), row_index) == taken.push(
                        RowColumnValue { row: row_index, column_value },
                    ));
                    assert((before + taken).push(RowColumnValue { row: row_index, column_value })
                        == before + taken.push(RowColumnValue { row: row_index, column_value }));
                }
                at = at + 1;
            }
            proof {
                assert(row.take(to - from) == row);
            }
            row_index = row_index + 1;
        }
        list
    }

    /// Transposes matrix.
    ///
    /// The row in progress, if the matrix is not sealed, is dropped.
    pub fn transpose(&mut self) where V: Copy
        ensures
            final(self)@ == old(self)@.transposed(),
            final(self)@.sealed(),
            final(self)@.entries.len() == old(self)@.triples().len(),
    {
        proof {
            use_type_invariant(&*self);
        }
        // Make temporary COO matrix.
        let row_column_values = self.triples();
        // Sort the COO matrix by column then by row.
        let sorted = stable_sort(&row_column_values);
        proof {
            self@.lemma_triples_row_major(self@.row_count());
            lemma_sorted_is_by_column(sorted@, row_column_values@);
            lemma_column_offsets(row_column_values@, column_limit());
            lemma_transposed_wf(self@);
        }
        // Reconstruct this matrix as a transposed one. Group by column index.
        let mut values: Vec<ColumnValue<V>> = Vec::new();
        let mut pointers: Vec<usize> = Vec::new();
        let mut current_column: Option<usize> = None;
        let mut i: usize = 0;
        proof {
            assert(flipped(sorted@.take(0)) == Seq::<ColumnValue<V>>::empty());
        }
        while i < sorted.len()
            invariant
                i <= sorted@.len(),
                values@ == flipped(sorted@.take(i as int)),
                pointers@ == group_starts(sorted@.take(i as int)),
                current_column == if i == 0 {
                    None::<usize>
                } else {
                    Some(sorted@[i - 1].column_value.column)
                },
            decreases sorted@.len() - i,
        {
            let row_column_value = sorted[i];
            let column = row_column_value.column_value.column;
            let starts = match current_column {
                Some(current) => current != column,
                None => true,
            };
            proof {
                assert(sorted@.take(i + 1).drop_last() == sorted@.take(i as int));
                assert(sorted@.take(i + 1).last() == row_column_value);
                if i > 0 {
                    assert(sorted@.take(i + 1)[i - 1] == sorted@[i - 1]);
                }
            }
            if starts {
                current_column = Some(column);
                pointers.push(values.len());
            }
            values.push(
                ColumnValue { column: row_column_value.row, value: row_column_value.column_value.value },
            );
            proof {
                assert(values@ == flipped(sorted@.take(i + 1)));
            }
            i = i + 1;
        }
        pointers.push(values.len());
        proof {
            assert(sorted@.take(i as int) == sorted@);
            assert(pointers@.len() == pointers.len());
            assert(values@.len() == values.len());
        }
        *self = Csr { values, pointers };
    }
}

} // verus!
