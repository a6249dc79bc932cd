//! What holds of the transpose of a matrix.
//!
//! The transpose numbers its rows by rank: a column that holds an entry
//! becomes the row whose index is the number of such columns below it. So
//! the transpose of a matrix with sorted rows has sorted rows; and an empty
//! column, or an empty row between two others, is lost, so that transposing
//! twice gives back every (row, column, value) triple only where the entries
//! fill the first columns and the first rows without a gap.

use vstd::prelude::*;
use crate::coo::{
    by_column, cell_ordered, column_limit, column_offsets, column_rank, flipped, in_column,
    lemma_by_column_grows, lemma_by_column_permutes, lemma_column_offsets,
    lemma_group_starts_bounds, lemma_in_column_bounds, lemma_in_column_rows_ascend,
    lemma_in_column_uses, lemma_swapped_permutes, swapped, uses_column, uses_row, RowColumnValue,
};
use crate::corr::ascending;
use crate::csr::{tagged, Layout};

verus! {

impl<V> Layout<V> {
    /// The first rows hold as many triples as the offset after them says.
    pub proof fn lemma_triples_len(self, count: nat)
        requires
            self.wf(),
            count <= self.row_count(),
        ensures
            self.triples_upto(count).len() == if self.offsets.len() == 0 {
                0
            } else {
                self.offsets[count as int] as int
            },
        decreases count,
    {
        if count > 0 {
            self.lemma_triples_len((count - 1) as nat);
        }
    }
}

/// The transpose of a matrix is a sealed matrix that holds as many entries as
/// the closed rows of the matrix.
pub proof fn lemma_transposed_wf<V>(matrix: Layout<V>)
    requires
        matrix.wf(),
    ensures
        matrix.transposed().wf(),
        matrix.transposed().sealed(),
        matrix.transposed().entries.len() == matrix.triples().len(),
{
    let list = matrix.triples();
    let grouped = by_column(list, column_limit());
    matrix.lemma_triples_len(matrix.row_count());
    lemma_by_column_permutes(list);
    lemma_column_offsets(list, column_limit());
    lemma_group_starts_bounds(grouped);
}

/// Whether `rank` is the rank of a column below `bound` that holds a triple.
pub open spec fn ranks_a_column<V>(list: Seq<RowColumnValue<V>>, bound: nat, rank: int) -> bool {
    exists|column: nat|
        column < bound && in_column(list, column as int).len() > 0 && #[trigger] column_rank(
            list,
            column,
        ) == rank
}

/// Each column that holds a triple has its own offset, at the position of
/// its rank: the number of triples in the columns below it. The next offset
/// is that number with the triples of the column added, and every offset but
/// the last is that of some column.
pub proof fn lemma_offsets_of_columns<V>(list: Seq<RowColumnValue<V>>, bound: nat)
    requires
        list.len() <= usize::MAX,
        bound <= column_limit(),
    ensures
        column_offsets(list, bound).len() >= 1,
        column_offsets(list, bound).last() == by_column(list, bound).len(),
        forall|column: nat|
            column < bound && in_column(list, column as int).len() > 0 ==> {
                let rank = #[trigger] column_rank(list, column);
                &&& rank + 1 < column_offsets(list, bound).len()
                &&& column_offsets(list, bound)[rank as int] == by_column(list, column).len()
                &&& column_offsets(list, bound)[rank as int + 1] == by_column(list, column + 1).len()
            },
        forall|rank: int|
            0 <= rank < column_offsets(list, bound).len() - 1 ==> #[trigger] ranks_a_column(
                list,
                bound,
                rank,
            ),
    decreases bound,
{
    lemma_by_column_permutes(list);
    lemma_by_column_grows(list, bound, column_limit());
    if bound > 0 {
        let below = (bound - 1) as nat;
        lemma_offsets_of_columns(list, below);
        let before = column_offsets(list, below);
        let now = column_offsets(list, bound);
        if in_column(list, below as int).len() > 0 {
            assert(now == before.push(by_column(list, bound).len() as usize));
            assert(column_rank(list, below) == before.len() - 1);
            assert forall|column: nat|
                column < bound && in_column(list, column as int).len() > 0 implies {
                let rank = #[trigger] column_rank(list, column);
                &&& rank + 1 < now.len()
                &&& now[rank as int] == by_column(list, column).len()
                &&& now[rank as int + 1] == by_column(list, column + 1).len()
            } by {
                let rank = column_rank(list, column);
                if column < below {
                    assert(now[rank as int] == before[rank as int]);
                    assert(now[rank as int + 1] == before[rank as int + 1]);
                }
            }
            assert forall|rank: int| 0 <= rank < now.len() - 1 implies #[trigger] ranks_a_column(
                list,
                bound,
                rank,
            ) by {
                if rank < before.len() - 1 {
                    assert(ranks_a_column(list, below, rank));
                    let column = choose|column: nat|
                        column < below && in_column(list, column as int).len() > 0
                            && #[trigger] column_rank(list, column) == rank;
                    assert(column < bound && column_rank(list, column) == rank);
                } else {
                    assert(column_rank(list, below) == rank);
                }
            }
        } else {
            assert(by_column(list, bound) == by_column(list, below));
            assert forall|rank: int| 0 <= rank < now.len() - 1 implies #[trigger] ranks_a_column(
                list,
                bound,
                rank,
            ) by {
                assert(ranks_a_column(list, below, rank));
                let column = choose|column: nat|
                    column < below && in_column(list, column as int).len() > 0
                        && #[trigger] column_rank(list, column) == rank;
                assert(column < bound && column_rank(list, column) == rank);
            }
        }
    }
}

/// A column that holds an entry becomes the row of its rank in the
/// transpose, with the entries of the column from the first row down, each
/// with its former row as the column.
pub proof fn lemma_transposed_row<V>(matrix: Layout<V>, column: nat)
    requires
        matrix.wf(),
        in_column(matrix.triples(), column as int).len() > 0,
    ensures
        column_rank(matrix.triples(), column) < matrix.transposed().row_count(),
        matrix.transposed().row(column_rank(matrix.triples(), column) as int) == flipped(
            in_column(matrix.triples(), column as int),
        ),
{
    let list = matrix.triples();
    let turned = matrix.transposed();
    let grouped = by_column(list, column_limit());
    let held = in_column(list, column as int);
    let rank = column_rank(list, column);
    matrix.lemma_triples_len(matrix.row_count());
    lemma_in_column_bounds(list, column as int, usize::MAX as int);
    assert(held[0].column_value.column == column);
    lemma_offsets_of_columns(list, column_limit());
    lemma_by_column_permutes(list);
    lemma_by_column_grows(list, column + 1, column_limit());
    lemma_by_column_grows(list, column, column + 1);
    let below = by_column(list, column);
    assert(by_column(list, column + 1) == below + held);
    assert(turned.offsets[rank as int] == below.len());
    assert(turned.offsets[rank as int + 1] == below.len() + held.len());
    let row = turned.row(rank as int);
    assert forall|i: int| 0 <= i < row.len() implies row[i] == flipped(held)[i] by {
        assert(row[i] == flipped(grouped)[below.len() + i]);
        assert(grouped[below.len() + i] == grouped.take(by_column(list, column + 1).len() as int)[
            below.len() + i]);
        assert(by_column(list, column + 1)[below.len() + i] == held[i]);
    }
    assert(row == flipped(held));
}

/// The triples of a matrix whose rows are sorted by column hold no cell
/// twice.
pub proof fn lemma_triples_cell_ordered<V>(matrix: Layout<V>, count: nat)
    requires
        matrix.wf(),
        count <= matrix.row_count(),
        forall|row: int| 0 <= row < matrix.row_count() ==> ascending(#[trigger] matrix.row(row)),
    ensures
        cell_ordered(matrix.triples_upto(count)),
    decreases count,
{
    if count > 0 {
        lemma_triples_cell_ordered(matrix, (count - 1) as nat);
        matrix.lemma_triples_row_major((count - 1) as nat);
        let before = matrix.triples_upto((count - 1) as nat);
        let entries = matrix.row(count - 1);
        let row = tagged(entries, (count - 1) as usize);
        let whole = matrix.triples_upto(count);
        assert(ascending(entries));
        assert forall|i: int, j: int| 0 <= i < j < whole.len() implies (#[trigger] whole[i]).row < (
        #[trigger] whole[j]).row || (whole[i].row == whole[j].row && whole[i].column_value.column
            < whole[j].column_value.column) by {
            if j < before.len() {
                assert(before[i].row < before[j].row || (before[i].row == before[j].row
                    && before[i].column_value.column < before[j].column_value.column));
            } else if i < before.len() {
                assert(whole[i] == before[i]);
                assert(whole[j] == row[j - before.len()]);
            } else {
                assert(whole[i] == row[i - before.len()]);
                assert(whole[j] == row[j - before.len()]);
                assert(entries[i - before.len()].column < entries[j - before.len()].column);
            }
        }
    }
}

/// The transpose of a matrix whose rows are sorted by column has rows that
/// are sorted by column.
pub proof fn lemma_transposed_ascending<V>(matrix: Layout<V>)
    requires
        matrix.wf(),
        forall|row: int| 0 <= row < matrix.row_count() ==> ascending(#[trigger] matrix.row(row)),
    ensures
        forall|row: int|
            0 <= row < matrix.transposed().row_count() ==> ascending(
                #[trigger] matrix.transposed().row(row),
            ),
{
    let list = matrix.triples();
    let turned = matrix.transposed();
    matrix.lemma_triples_len(matrix.row_count());
    lemma_triples_cell_ordered(matrix, matrix.row_count());
    lemma_offsets_of_columns(list, column_limit());
    assert forall|row: int| 0 <= row < turned.row_count() implies ascending(
        #[trigger] turned.row(row),
    ) by {
        assert(ranks_a_column(list, column_limit(), row));
        let column = choose|column: nat|
            column < column_limit() && in_column(list, column as int).len() > 0
                && #[trigger] column_rank(list, column) == row;
        lemma_transposed_row(matrix, column);
        lemma_in_column_rows_ascend(list, column as int);
        let held = in_column(list, column as int);
        assert forall|i: int, j: int| 0 <= i < j < flipped(held).len() implies (
        #[trigger] flipped(held)[i]).column < (#[trigger] flipped(held)[j]).column by {
            assert(held[i].row < held[j].row);
        }
    }
}

/// The columns that the list uses are exactly those below `width`.
pub open spec fn fills_columns<V>(list: Seq<RowColumnValue<V>>, width: nat) -> bool {
    forall|column: int| #[trigger] uses_column(list, column) <==> 0 <= column < width
}

/// The rows that the list uses are exactly those below `height`.
pub open spec fn fills_rows<V>(list: Seq<RowColumnValue<V>>, height: nat) -> bool {
    forall|row: int| #[trigger] uses_row(list, row) <==> 0 <= row < height
}

impl<V> Layout<V> {
    /// The entries leave no gap: they use the first columns, all of them up
    /// to the last one used, and likewise the first rows.
    pub open spec fn compact(self) -> bool {
        &&& exists|width: nat| fills_columns(self.triples(), width)
        &&& exists|height: nat| fills_rows(self.triples(), height)
    }
}

/// Where the used columns are the first `width` ones, each column has its
/// own index as rank, and no triple stands beyond them.
proof fn lemma_rank_of_filled<V>(list: Seq<RowColumnValue<V>>, width: nat, bound: nat)
    requires
        fills_columns(list, width),
    ensures
        width <= column_limit(),
        column_offsets(list, bound).len() >= 1,
        column_rank(list, bound) == if bound <= width {
            bound
        } else {
            width
        },
        bound >= width ==> by_column(list, bound) == by_column(list, width),
    decreases bound,
{
    if width > 0 {
        assert(uses_column(list, width - 1));
    }
    if bound > 0 {
        lemma_rank_of_filled(list, width, (bound - 1) as nat);
        lemma_in_column_uses(list, bound - 1);
        assert(uses_column(list, bound - 1) <==> 0 <= bound - 1 < width);
        if bound > width {
            assert(by_column(list, bound) == by_column(list, (bound - 1) as nat)
                + Seq::<RowColumnValue<V>>::empty());
        }
    }
}

/// The first `count` rows of the transpose hold the triples of the first
/// `count` columns.
proof fn lemma_turned_rows<V>(matrix: Layout<V>, width: nat, count: nat)
    requires
        matrix.wf(),
        fills_columns(matrix.triples(), width),
        count <= width,
    ensures
        matrix.transposed().triples_upto(count) == swapped(by_column(matrix.triples(), count)),
    decreases count,
{
    let list = matrix.triples();
    let turned = matrix.transposed();
    if count == 0 {
        assert(turned.triples_upto(0) == swapped(by_column(list, 0)));
    } else {
        let k = (count - 1) as nat;
        let below = by_column(list, k);
        let column = in_column(list, k as int);
        lemma_turned_rows(matrix, width, k);
        lemma_rank_of_filled(list, width, k);
        lemma_in_column_uses(list, k as int);
        assert(uses_column(list, k as int));
        lemma_transposed_row(matrix, k);
        lemma_in_column_bounds(list, k as int, usize::MAX as int);
        assert(tagged(flipped(column), k as usize) == swapped(column)) by {
            assert forall|i: int| 0 <= i < column.len() implies tagged(
                flipped(column),
                k as usize,
            )[i] == swapped(column)[i] by {
                assert(column[i].column_value.column == k);
            }
        }
        assert(swapped(below + column) == swapped(below) + swapped(column));
    }
}

/// Where the used columns are the first `width` ones, the transpose has
/// `width` rows, and its triples are those of the matrix regrouped by column,
/// rows and columns exchanged.
pub proof fn lemma_transposed_triples<V>(matrix: Layout<V>, width: nat)
    requires
        matrix.wf(),
        fills_columns(matrix.triples(), width),
    ensures
        matrix.transposed().row_count() == width,
        matrix.transposed().triples() == swapped(by_column(matrix.triples(), column_limit())),
{
    lemma_rank_of_filled(matrix.triples(), width, column_limit());
    lemma_turned_rows(matrix, width, width);
}

/// Exchanging rows and columns turns the used rows into the used columns.
proof fn lemma_uses_row_swapped<V>(list: Seq<RowColumnValue<V>>, index: int)
    ensures
        uses_column(swapped(list), index) <==> uses_row(list, index),
{
    if uses_row(list, index) {
        let i = choose|i: int| 0 <= i < list.len() && (#[trigger] list[i]).row == index;
        assert(swapped(list)[i].column_value.column == index);
    }
    if uses_column(swapped(list), index) {
        let i = choose|i: int|
            0 <= i < swapped(list).len() && (#[trigger] swapped(list)[i]).column_value.column
                == index;
        assert(list[i].row == index);
    }
}

/// A row that one list uses is used by any list that holds the same triples.
proof fn lemma_uses_row_carried<V>(
    a: Seq<RowColumnValue<V>>,
    b: Seq<RowColumnValue<V>>,
    row: int,
)
    requires
        a.to_multiset() == b.to_multiset(),
    ensures
        uses_row(a, row) ==> uses_row(b, row),
{
    if uses_row(a, row) {
        let i = choose|i: int| 0 <= i < a.len() && (#[trigger] a[i]).row == row;
        assert(a.contains(a[i]));
        vstd::seq_lib::to_multiset_contains(a, a[i]);
        vstd::seq_lib::to_multiset_contains(b, a[i]);
        let j = choose|j: int| 0 <= j < b.len() && b[j] == a[i];
        assert(b[j].row == row);
    }
}

/// Two lists that hold the same triples use the same rows.
proof fn lemma_uses_row_permuted<V>(
    a: Seq<RowColumnValue<V>>,
    b: Seq<RowColumnValue<V>>,
    row: int,
)
    requires
        a.to_multiset() == b.to_multiset(),
    ensures
        uses_row(a, row) <==> uses_row(b, row),
{
    lemma_uses_row_carried(a, b, row);
    lemma_uses_row_carried(b, a, row);
}

/// Transposing a matrix twice gives back its (row, column, value) triples,
/// each as often as the matrix holds it, provided that its entries leave no
/// column and no row empty below a used one.
pub proof fn lemma_transpose_involution<V>(matrix: Layout<V>)
    requires
        matrix.wf(),
        matrix.compact(),
    ensures
        matrix.transposed().transposed().triples().to_multiset() == matrix.triples().to_multiset(),
{
    let list = matrix.triples();
    let width = choose|width: nat| fills_columns(list, width);
    let height = choose|height: nat| fills_rows(list, height);
    let grouped = by_column(list, column_limit());
    let once = matrix.transposed();
    lemma_transposed_wf(matrix);
    lemma_transposed_triples(matrix, width);
    lemma_by_column_permutes(list);
    // The columns of the transpose are the rows of the matrix.
    assert(fills_columns(once.triples(), height)) by {
        assert forall|column: int| #[trigger]
            uses_column(once.triples(), column) <==> 0 <= column < height by {
            lemma_uses_row_swapped(grouped, column);
            lemma_uses_row_permuted(grouped, list, column);
            assert(uses_row(list, column) <==> 0 <= column < height);
        }
    }
    lemma_transposed_triples(once, height);
    let regrouped = by_column(once.triples(), column_limit());
    lemma_by_column_permutes(once.triples());
    lemma_swapped_permutes(regrouped, once.triples());
    assert(swapped(swapped(grouped)) == grouped);
}

} // verus!
