//! Coordinate lists: sequences of (row, column, value) triples.
//!
//! A matrix is transposed by way of its coordinate list. This module holds
//! the functions that say what regrouping such a list by column means, and a
//! stable merge sort by (column, row).

use vstd::prelude::*;
use vstd::multiset::group_multiset_axioms;
use vstd::seq_lib::{
    lemma_multiset_commutative, to_multiset_build, to_multiset_contains, to_multiset_len,
    to_multiset_remove,
};
use crate::csr::ColumnValue;

verus! {

/// Value with the corresponding row and column.
#[derive(Debug, Clone, Copy, PartialEq)]
pub struct RowColumnValue<V> {
    pub row: usize,
    pub column_value: ColumnValue<V>,
}

/// Whether a triple stands in the given row and column.
pub open spec fn at_cell<V>(triple: RowColumnValue<V>, column: int, row: int) -> bool {
    triple.column_value.column == column && triple.row == row
}

/// The triples of one cell, in the order in which the list holds them.
pub open spec fn in_cell<V>(list: Seq<RowColumnValue<V>>, column: int, row: int) -> Seq<
    RowColumnValue<V>,
>
    decreases list.len(),
{
    if list.len() == 0 {
        Seq::empty()
    } else if at_cell(list.last(), column, row) {
        in_cell(list.drop_last(), column, row).push(list.last())
    } else {
        in_cell(list.drop_last(), column, row)
    }
}

/// The triples of one column, in the order in which the list holds them.
pub open spec fn in_column<V>(list: Seq<RowColumnValue<V>>, column: int) -> Seq<RowColumnValue<V>>
    decreases list.len(),
{
    if list.len() == 0 {
        Seq::empty()
    } else if list.last().column_value.column == column {
        in_column(list.drop_last(), column).push(list.last())
    } else {
        in_column(list.drop_last(), column)
    }
}

/// The triples of the columns below `bound`, column after column, each column
/// in the order in which the list holds it.
pub open spec fn by_column<V>(list: Seq<RowColumnValue<V>>, bound: nat) -> Seq<RowColumnValue<V>>
    decreases bound,
{
    if bound == 0 {
        Seq::empty()
    } else {
        by_column(list, (bound - 1) as nat) + in_column(list, bound - 1)
    }
}

/// Where each non-empty column below `bound` begins within `by_column`,
/// followed by the length of the whole.
pub open spec fn column_offsets<V>(list: Seq<RowColumnValue<V>>, bound: nat) -> Seq<usize>
    decreases bound,
{
    if bound == 0 {
        seq![0usize]
    } else if in_column(list, bound - 1).len() > 0 {
        column_offsets(list, (bound - 1) as nat).push(by_column(list, bound).len() as usize)
    } else {
        column_offsets(list, (bound - 1) as nat)
    }
}

/// The number of columns below `column` that hold a triple: the row that the
/// column takes when the list is regrouped.
pub open spec fn column_rank<V>(list: Seq<RowColumnValue<V>>, column: nat) -> nat {
    (column_offsets(list, column).len() - 1) as nat
}

/// Rows never decrease along the list, and within a row columns increase
/// strictly.
pub open spec fn cell_ordered<V>(list: Seq<RowColumnValue<V>>) -> bool {
    forall|i: int, j: int|
        0 <= i < j < list.len() ==> (#[trigger] list[i]).row < (#[trigger] list[j]).row || (list[i].row
            == list[j].row && list[i].column_value.column < list[j].column_value.column)
}

/// Strict order by column, then by row.
pub open spec fn precedes<V>(a: RowColumnValue<V>, b: RowColumnValue<V>) -> bool {
    a.column_value.column < b.column_value.column || (a.column_value.column
        == b.column_value.column && a.row < b.row)
}

/// No triple is preceded by a later one.
pub open spec fn ordered<V>(list: Seq<RowColumnValue<V>>) -> bool {
    forall|i: int, j: int| 0 <= i < j < list.len() ==> !precedes(#[trigger] list[j], #[trigger] list[i])
}

/// Rows never decrease along the list.
pub open spec fn row_major<V>(list: Seq<RowColumnValue<V>>) -> bool {
    forall|i: int, j: int| 0 <= i < j < list.len() ==> (#[trigger] list[i]).row <= (#[trigger] list[j]).row
}

/// A cell that no triple of the list stands in is empty.
pub proof fn lemma_in_cell_absent<V>(list: Seq<RowColumnValue<V>>, column: int, row: int)
    requires
        forall|i: int| 0 <= i < list.len() ==> !at_cell(#[trigger] list[i], column, row),
    ensures
        in_cell(list, column, row) == Seq::<RowColumnValue<V>>::empty(),
    decreases list.len(),
{
    if list.len() > 0 {
        lemma_in_cell_absent(list.drop_last(), column, row);
    }
}

/// What appending one triple does to a cell.
pub proof fn lemma_in_cell_push<V>(
    list: Seq<RowColumnValue<V>>,
    triple: RowColumnValue<V>,
    column: int,
    row: int,
)
    ensures
        in_cell(list.push(triple), column, row) == if at_cell(triple, column, row) {
            in_cell(list, column, row).push(triple)
        } else {
            in_cell(list, column, row)
        },
{
    assert(list.push(triple).drop_last() == list);
    assert(list.push(triple).last() == triple);
}

/// The triples of a cell of a concatenation are those of its two parts.
pub proof fn lemma_in_cell_concat<V>(
    a: Seq<RowColumnValue<V>>,
    b: Seq<RowColumnValue<V>>,
    column: int,
    row: int,
)
    ensures
        in_cell(a + b, column, row) == in_cell(a, column, row) + in_cell(b, column, row),
    decreases b.len(),
{
    if b.len() == 0 {
        assert(a + b == a);
        assert(in_cell(a, column, row) + in_cell(b, column, row) == in_cell(a, column, row));
    } else {
        assert((a + b).drop_last() == a + b.drop_last());
        assert((a + b).last() == b.last());
        lemma_in_cell_concat(a, b.drop_last(), column, row);
        let left = in_cell(a, column, row);
        let rest = in_cell(b.drop_last(), column, row);
        if at_cell(b.last(), column, row) {
            assert((left + rest).push(b.last()) == left + rest.push(b.last()));
        }
    }
}

/// A cell that is not empty has a triple of the list standing in it.
pub proof fn lemma_in_cell_witness<V>(list: Seq<RowColumnValue<V>>, column: int, row: int) -> (i: int)
    requires
        in_cell(list, column, row).len() > 0,
    ensures
        0 <= i < list.len(),
        at_cell(list[i], column, row),
{
    if forall|k: int| 0 <= k < list.len() ==> !at_cell(#[trigger] list[k], column, row) {
        lemma_in_cell_absent(list, column, row);
    }
    choose|k: int| 0 <= k < list.len() && at_cell(#[trigger] list[k], column, row)
}

/// Two ordered lists that hold the same triples in every cell, in the same
/// order, are one list.
pub proof fn lemma_ordered_unique<V>(a: Seq<RowColumnValue<V>>, b: Seq<RowColumnValue<V>>)
    requires
        ordered(a),
        ordered(b),
        forall|column: int, row: int| #[trigger]
            in_cell(a, column, row) == in_cell(b, column, row),
    ensures
        a == b,
    decreases a.len(),
{
    if a.len() == 0 {
        if b.len() > 0 {
            let y = b.last();
            assert(in_cell(b, y.column_value.column as int, y.row as int).len() > 0);
            assert(in_cell(a, y.column_value.column as int, y.row as int).len() == 0);
        }
        assert(a == b);
    } else {
        let x = a.last();
        let (c, r) = (x.column_value.column as int, x.row as int);
        assert(in_cell(a, c, r) == in_cell(a.drop_last(), c, r).push(x));
        assert(in_cell(b, c, r).len() > 0);
        let y = b.last();
        let (d, q) = (y.column_value.column as int, y.row as int);
        assert(in_cell(b, d, q) == in_cell(b.drop_last(), d, q).push(y));
        assert(in_cell(a, d, q).len() > 0);
        let i = lemma_in_cell_witness(a, d, q);
        let j = lemma_in_cell_witness(b, c, r);
        assert(!precedes(a[a.len() - 1], a[i]) || i == a.len() - 1);
        assert(!precedes(b[b.len() - 1], b[j]) || j == b.len() - 1);
        assert(c == d && r == q);
        assert(in_cell(a, c, r).last() == x);
        assert(in_cell(b, c, r).last() == y);
        assert(x == y);
        assert forall|column: int, row: int| #[trigger]
            in_cell(a.drop_last(), column, row) == in_cell(b.drop_last(), column, row) by {
            assert(in_cell(a, column, row) == in_cell(b, column, row));
            if at_cell(x, column, row) {
                assert(in_cell(a, column, row).drop_last() == in_cell(a.drop_last(), column, row));
                assert(in_cell(b, column, row).drop_last() == in_cell(b.drop_last(), column, row));
            }
        }
        assert(ordered(a.drop_last())) by {
            assert forall|i: int, j: int| 0 <= i < j < a.drop_last().len() implies !precedes(
                #[trigger] a.drop_last()[j],
                #[trigger] a.drop_last()[i],
            ) by {
                assert(!precedes(a[j], a[i]));
            }
        }
        assert(ordered(b.drop_last())) by {
            assert forall|i: int, j: int| 0 <= i < j < b.drop_last().len() implies !precedes(
                #[trigger] b.drop_last()[j],
                #[trigger] b.drop_last()[i],
            ) by {
                assert(!precedes(b[j], b[i]));
            }
        }
        lemma_ordered_unique(a.drop_last(), b.drop_last());
        assert(a == a.drop_last().push(x));
        assert(b == b.drop_last().push(y));
    }
}

/// What appending one triple does to a column.
pub proof fn lemma_in_column_push<V>(
    list: Seq<RowColumnValue<V>>,
    triple: RowColumnValue<V>,
    column: int,
)
    ensures
        in_column(list.push(triple), column) == if triple.column_value.column == column {
            in_column(list, column).push(triple)
        } else {
            in_column(list, column)
        },
{
    assert(list.push(triple).drop_last() == list);
    assert(list.push(triple).last() == triple);
}

/// A column is no longer than the list, holds only triples of that column,
/// and no row above a bound on the rows of the list.
pub proof fn lemma_in_column_bounds<V>(list: Seq<RowColumnValue<V>>, column: int, top: int)
    requires
        forall|i: int| 0 <= i < list.len() ==> (#[trigger] list[i]).row <= top,
    ensures
        in_column(list, column).len() <= list.len(),
        forall|i: int|
            0 <= i < in_column(list, column).len() ==> (#[trigger] in_column(
                list,
                column,
            )[i]).column_value.column == column,
        forall|i: int|
            0 <= i < in_column(list, column).len() ==> (#[trigger] in_column(list, column)[i]).row
                <= top,
    decreases list.len(),
{
    if list.len() > 0 {
        assert forall|i: int| 0 <= i < list.drop_last().len() implies (
        #[trigger] list.drop_last()[i]).row <= top by {
            assert(list.drop_last()[i] == list[i]);
        }
        lemma_in_column_bounds(list.drop_last(), column, top);
    }
}

/// A column of a row-major list is row-major.
pub proof fn lemma_in_column_row_major<V>(list: Seq<RowColumnValue<V>>, column: int)
    requires
        row_major(list),
    ensures
        row_major(in_column(list, column)),
    decreases list.len(),
{
    if list.len() > 0 {
        let rest = list.drop_last();
        assert(row_major(rest)) by {
            assert forall|i: int, j: int| 0 <= i < j < rest.len() implies (#[trigger] rest[i]).row <= (
            #[trigger] rest[j]).row by {
                assert(list[i].row <= list[j].row);
            }
        }
        lemma_in_column_row_major(rest, column);
        assert forall|i: int| 0 <= i < rest.len() implies (#[trigger] rest[i]).row
            <= list.last().row by {
            assert(list[i].row <= list[list.len() - 1].row);
        }
        lemma_in_column_bounds(rest, column, list.last().row as int);
    }
}

/// A column holds no row at or above a bound that is above the rows of the
/// list in that column.
pub proof fn lemma_in_column_rows_below<V>(list: Seq<RowColumnValue<V>>, column: int, top: int)
    requires
        forall|i: int|
            0 <= i < list.len() && (#[trigger] list[i]).column_value.column == column ==> list[i].row
                < top,
    ensures
        forall|i: int|
            0 <= i < in_column(list, column).len() ==> (#[trigger] in_column(list, column)[i]).row
                < top,
    decreases list.len(),
{
    if list.len() > 0 {
        assert forall|i: int|
            0 <= i < list.drop_last().len() && (#[trigger] list.drop_last()[i]).column_value.column
                == column implies list.drop_last()[i].row < top by {
            assert(list.drop_last()[i] == list[i]);
        }
        lemma_in_column_rows_below(list.drop_last(), column, top);
        let rest = in_column(list.drop_last(), column);
        assert forall|i: int| 0 <= i < in_column(list, column).len() implies (#[trigger] in_column(
            list,
            column,
        )[i]).row < top by {
            if i < rest.len() {
                assert(in_column(list, column)[i] == rest[i]);
            } else {
                assert(in_column(list, column)[i] == list[list.len() - 1]);
            }
        }
    }
}

/// Where no cell holds two triples, the rows of a column increase strictly.
pub proof fn lemma_in_column_rows_ascend<V>(list: Seq<RowColumnValue<V>>, column: int)
    requires
        cell_ordered(list),
    ensures
        forall|i: int, j: int|
            0 <= i < j < in_column(list, column).len() ==> (#[trigger] in_column(list, column)[i]).row
                < (#[trigger] in_column(list, column)[j]).row,
    decreases list.len(),
{
    if list.len() > 0 {
        let rest = list.drop_last();
        assert(cell_ordered(rest)) by {
            assert forall|i: int, j: int| 0 <= i < j < rest.len() implies (#[trigger] rest[i]).row < (
            #[trigger] rest[j]).row || (rest[i].row == rest[j].row && rest[i].column_value.column
                < rest[j].column_value.column) by {
                assert(list[i].row < list[j].row || (list[i].row == list[j].row
                    && list[i].column_value.column < list[j].column_value.column));
            }
        }
        lemma_in_column_rows_ascend(rest, column);
        if list.last().column_value.column == column {
            assert forall|i: int|
                0 <= i < rest.len() && (#[trigger] rest[i]).column_value.column
                    == column implies rest[i].row < list.last().row by {
                assert(list[i].row < list[list.len() - 1].row || (list[i].row == list[list.len()
                    - 1].row && list[i].column_value.column < list[list.len()
                    - 1].column_value.column));
            }
            lemma_in_column_rows_below(rest, column, list.last().row as int);
        }
        let held = in_column(rest, column);
        assert forall|i: int, j: int| 0 <= i < j < in_column(list, column).len() implies (
        #[trigger] in_column(list, column)[i]).row < (#[trigger] in_column(list, column)[j]).row by {
            assert(in_column(list, column)[i] == held[i]);
            if j < held.len() {
                assert(in_column(list, column)[j] == held[j]);
            } else {
                assert(in_column(list, column)[j] == list.last());
            }
        }
    }
}

/// A cell of a column is that cell of the list, or empty in another column.
pub proof fn lemma_in_column_cells<V>(
    list: Seq<RowColumnValue<V>>,
    of: int,
    column: int,
    row: int,
)
    ensures
        in_cell(in_column(list, of), column, row) == if column == of {
            in_cell(list, column, row)
        } else {
            Seq::empty()
        },
    decreases list.len(),
{
    if list.len() > 0 {
        lemma_in_column_cells(list.drop_last(), of, column, row);
        if list.last().column_value.column == of {
            lemma_in_cell_push(in_column(list.drop_last(), of), list.last(), column, row);
        }
    }
}

/// The columns of the triples are indices, so all lie below this bound.
pub open spec fn column_limit() -> nat {
    (usize::MAX + 1) as nat
}

/// A cell of the regrouped list is that cell of the list, for the columns
/// below the bound.
pub proof fn lemma_by_column_cells<V>(
    list: Seq<RowColumnValue<V>>,
    bound: nat,
    column: int,
    row: int,
)
    ensures
        in_cell(by_column(list, bound), column, row) == if 0 <= column < bound {
            in_cell(list, column, row)
        } else {
            Seq::empty()
        },
    decreases bound,
{
    if bound > 0 {
        let below = by_column(list, (bound - 1) as nat);
        let last = in_column(list, bound - 1);
        lemma_by_column_cells(list, (bound - 1) as nat, column, row);
        lemma_in_column_cells(list, bound - 1, column, row);
        lemma_in_cell_concat(below, last, column, row);
        assert(in_cell(below, column, row) + Seq::<RowColumnValue<V>>::empty() == in_cell(
            below,
            column,
            row,
        ));
        assert(Seq::<RowColumnValue<V>>::empty() + in_cell(last, column, row) == in_cell(
            last,
            column,
            row,
        ));
    }
}

/// The regrouped list holds only columns below the bound, and grows with it.
pub proof fn lemma_by_column_bounds<V>(list: Seq<RowColumnValue<V>>, bound: nat)
    ensures
        forall|i: int|
            0 <= i < by_column(list, bound).len() ==> (#[trigger] by_column(
                list,
                bound,
            )[i]).column_value.column < bound,
    decreases bound,
{
    if bound > 0 {
        let below = by_column(list, (bound - 1) as nat);
        let last = in_column(list, bound - 1);
        lemma_by_column_bounds(list, (bound - 1) as nat);
        lemma_in_column_bounds(list, bound - 1, usize::MAX as int);
        assert forall|i: int| 0 <= i < by_column(list, bound).len() implies (#[trigger] by_column(
            list,
            bound,
        )[i]).column_value.column < bound by {
            if i < below.len() {
                assert(by_column(list, bound)[i] == below[i]);
            } else {
                assert(by_column(list, bound)[i] == last[i - below.len()]);
            }
        }
    }
}

/// Regrouping a row-major list by column orders it by column, then by row.
pub proof fn lemma_by_column_ordered<V>(list: Seq<RowColumnValue<V>>, bound: nat)
    requires
        row_major(list),
    ensures
        ordered(by_column(list, bound)),
    decreases bound,
{
    if bound > 0 {
        let below = by_column(list, (bound - 1) as nat);
        let last = in_column(list, bound - 1);
        lemma_by_column_ordered(list, (bound - 1) as nat);
        lemma_by_column_bounds(list, (bound - 1) as nat);
        lemma_in_column_bounds(list, bound - 1, usize::MAX as int);
        lemma_in_column_row_major(list, bound - 1);
        let whole = below + last;
        assert forall|i: int, j: int| 0 <= i < j < whole.len() implies !precedes(
            #[trigger] whole[j],
            #[trigger] whole[i],
        ) by {
            if j < below.len() {
                assert(!precedes(below[j], below[i]));
            } else if i < below.len() {
                assert(whole[i] == below[i]);
                assert(whole[j] == last[j - below.len()]);
            } else {
                assert(whole[i] == last[i - below.len()]);
                assert(whole[j] == last[j - below.len()]);
                assert(last[i - below.len()].row <= last[j - below.len()].row);
            }
        }
    }
}

/// A row-major list, sorted by column and then by row with the triples of
/// each cell kept in order, is the list regrouped by column.
pub proof fn lemma_sorted_is_by_column<V>(
    sorted: Seq<RowColumnValue<V>>,
    list: Seq<RowColumnValue<V>>,
)
    requires
        row_major(list),
        ordered(sorted),
        forall|column: int, row: int| #[trigger]
            in_cell(sorted, column, row) == in_cell(list, column, row),
    ensures
        sorted == by_column(list, column_limit()),
{
    let grouped = by_column(list, column_limit());
    lemma_by_column_ordered(list, column_limit());
    assert forall|column: int, row: int| #[trigger]
        in_cell(sorted, column, row) == in_cell(grouped, column, row) by {
        lemma_by_column_cells(list, column_limit(), column, row);
        if !(0 <= column < column_limit()) {
            lemma_in_cell_absent(list, column, row);
        }
    }
    lemma_ordered_unique(sorted, grouped);
}

/// The positions at which a new column begins along the list.
pub open spec fn group_starts<V>(list: Seq<RowColumnValue<V>>) -> Seq<usize>
    decreases list.len(),
{
    if list.len() == 0 {
        Seq::empty()
    } else if list.len() == 1 || list[list.len() - 2].column_value.column
        != list.last().column_value.column {
        group_starts(list.drop_last()).push((list.len() - 1) as usize)
    } else {
        group_starts(list.drop_last())
    }
}

/// Each triple turned into an entry of the transposed matrix: the row
/// becomes the column.
pub open spec fn flipped<V>(list: Seq<RowColumnValue<V>>) -> Seq<ColumnValue<V>> {
    Seq::new(
        list.len(),
        |i: int| ColumnValue { column: list[i].row, value: list[i].column_value.value },
    )
}

/// The group starts begin at zero, increase strictly and lie within the
/// list.
pub proof fn lemma_group_starts_bounds<V>(list: Seq<RowColumnValue<V>>)
    requires
        list.len() <= usize::MAX,
    ensures
        group_starts(list).len() <= list.len(),
        list.len() > 0 ==> group_starts(list).len() > 0 && group_starts(list)[0] == 0,
        forall|i: int| 0 <= i < group_starts(list).len() ==> #[trigger] group_starts(list)[i] < list.len(),
        forall|i: int, j: int|
            0 <= i < j < group_starts(list).len() ==> group_starts(list)[i] < group_starts(list)[j],
    decreases list.len(),
{
    if list.len() > 0 {
        lemma_group_starts_bounds(list.drop_last());
    }
}

/// A run of one column, appended to a list that does not end in that column,
/// begins one new group.
pub proof fn lemma_group_starts_run<V>(
    list: Seq<RowColumnValue<V>>,
    run: Seq<RowColumnValue<V>>,
    column: int,
)
    requires
        run.len() > 0,
        forall|i: int| 0 <= i < run.len() ==> (#[trigger] run[i]).column_value.column == column,
        list.len() > 0 ==> list.last().column_value.column != column,
    ensures
        group_starts(list + run) == group_starts(list).push(list.len() as usize),
    decreases run.len(),
{
    let whole = list + run;
    assert(whole.last() == run.last());
    if run.len() == 1 {
        assert(whole.drop_last() == list);
        if list.len() > 0 {
            assert(whole[whole.len() - 2] == list.last());
        }
    } else {
        assert(whole.drop_last() == list + run.drop_last());
        assert(whole[whole.len() - 2] == run[run.len() - 2]);
        lemma_group_starts_run(list, run.drop_last(), column);
    }
}

/// The offsets of the columns are the group starts of the regrouped list,
/// followed by its length.
pub proof fn lemma_column_offsets<V>(list: Seq<RowColumnValue<V>>, bound: nat)
    ensures
        column_offsets(list, bound) == group_starts(by_column(list, bound)).push(
            by_column(list, bound).len() as usize,
        ),
    decreases bound,
{
    if bound > 0 {
        let below = by_column(list, (bound - 1) as nat);
        let last = in_column(list, bound - 1);
        lemma_column_offsets(list, (bound - 1) as nat);
        if last.len() > 0 {
            lemma_by_column_bounds(list, (bound - 1) as nat);
            lemma_in_column_bounds(list, bound - 1, usize::MAX as int);
            lemma_group_starts_run(below, last, bound - 1);
        } else {
            assert(below + last == below);
        }
    }
}

/// Whether some triple of the list stands in the column.
pub open spec fn uses_column<V>(list: Seq<RowColumnValue<V>>, column: int) -> bool {
    exists|i: int| 0 <= i < list.len() && (#[trigger] list[i]).column_value.column == column
}

/// Whether some triple of the list stands in the row.
pub open spec fn uses_row<V>(list: Seq<RowColumnValue<V>>, row: int) -> bool {
    exists|i: int| 0 <= i < list.len() && (#[trigger] list[i]).row == row
}

/// A column holds a triple exactly when the list uses it.
pub proof fn lemma_in_column_uses<V>(list: Seq<RowColumnValue<V>>, column: int)
    ensures
        in_column(list, column).len() > 0 <==> uses_column(list, column),
    decreases list.len(),
{
    if list.len() > 0 {
        let rest = list.drop_last();
        lemma_in_column_uses(rest, column);
        if uses_column(rest, column) {
            let i = choose|i: int|
                0 <= i < rest.len() && (#[trigger] rest[i]).column_value.column == column;
            assert(list[i] == rest[i]);
        }
        if uses_column(list, column) && list.last().column_value.column != column {
            let i = choose|i: int|
                0 <= i < list.len() && (#[trigger] list[i]).column_value.column == column;
            assert(rest[i] == list[i]);
        }
        if list.last().column_value.column == column {
            assert(list[list.len() - 1].column_value.column == column);
        }
    }
}

/// Regrouping the empty list gives the empty list.
pub proof fn lemma_by_column_empty<V>(bound: nat)
    ensures
        by_column(Seq::<RowColumnValue<V>>::empty(), bound) == Seq::<RowColumnValue<V>>::empty(),
    decreases bound,
{
    if bound > 0 {
        lemma_by_column_empty::<V>((bound - 1) as nat);
    }
}

/// Appending a triple to the list adds it to the regrouped list, if its
/// column lies below the bound.
pub proof fn lemma_by_column_push<V>(
    list: Seq<RowColumnValue<V>>,
    triple: RowColumnValue<V>,
    bound: nat,
)
    ensures
        by_column(list.push(triple), bound).to_multiset() == if triple.column_value.column
            < bound {
            by_column(list, bound).to_multiset().insert(triple)
        } else {
            by_column(list, bound).to_multiset()
        },
    decreases bound,
{
    broadcast use group_multiset_axioms;

    if bound > 0 {
        let longer = list.push(triple);
        lemma_by_column_push(list, triple, (bound - 1) as nat);
        lemma_in_column_push(list, triple, bound - 1);
        lemma_multiset_commutative(
            by_column(longer, (bound - 1) as nat),
            in_column(longer, bound - 1),
        );
        lemma_multiset_commutative(by_column(list, (bound - 1) as nat), in_column(list, bound - 1));
        if triple.column_value.column == bound - 1 {
            to_multiset_build(in_column(list, bound - 1), triple);
        }
        assert(by_column(longer, bound).to_multiset() =~= if triple.column_value.column < bound {
            by_column(list, bound).to_multiset().insert(triple)
        } else {
            by_column(list, bound).to_multiset()
        });
    }
}

/// Regrouping by column keeps every triple, as often as the list holds it.
pub proof fn lemma_by_column_permutes<V>(list: Seq<RowColumnValue<V>>)
    ensures
        by_column(list, column_limit()).to_multiset() == list.to_multiset(),
        by_column(list, column_limit()).len() == list.len(),
    decreases list.len(),
{
    if list.len() == 0 {
        lemma_by_column_empty::<V>(column_limit());
        assert(list == Seq::<RowColumnValue<V>>::empty());
    } else {
        lemma_by_column_permutes(list.drop_last());
        lemma_by_column_push(list.drop_last(), list.last(), column_limit());
        to_multiset_build(list.drop_last(), list.last());
        assert(list.drop_last().push(list.last()) == list);
    }
    to_multiset_len(by_column(list, column_limit()));
    to_multiset_len(list);
}

/// The regrouped list below a bound begins the one below a higher bound.
pub proof fn lemma_by_column_grows<V>(list: Seq<RowColumnValue<V>>, low: nat, high: nat)
    requires
        low <= high,
    ensures
        by_column(list, low).len() <= by_column(list, high).len(),
        by_column(list, high).take(by_column(list, low).len() as int) == by_column(list, low),
    decreases high,
{
    if low < high {
        lemma_by_column_grows(list, low, (high - 1) as nat);
        let below = by_column(list, (high - 1) as nat);
        assert((below + in_column(list, high - 1)).take(by_column(list, low).len() as int)
            == below.take(by_column(list, low).len() as int));
    } else {
        assert(by_column(list, high).take(by_column(list, low).len() as int) == by_column(
            list,
            low,
        ));
    }
}

/// Each triple with its row and column exchanged.
pub open spec fn swapped<V>(list: Seq<RowColumnValue<V>>) -> Seq<RowColumnValue<V>> {
    Seq::new(
        list.len(),
        |i: int|
            RowColumnValue {
                row: list[i].column_value.column,
                column_value: ColumnValue { column: list[i].row, value: list[i].column_value.value },
            },
    )
}

/// Two lists that hold the same triples equally often still do so after
/// rows and columns are exchanged.
pub proof fn lemma_swapped_permutes<V>(a: Seq<RowColumnValue<V>>, b: Seq<RowColumnValue<V>>)
    requires
        a.to_multiset() == b.to_multiset(),
    ensures
        swapped(a).to_multiset() == swapped(b).to_multiset(),
    decreases a.len(),
{
    broadcast use group_multiset_axioms;

    to_multiset_len(a);
    to_multiset_len(b);
    if a.len() == 0 {
        assert(swapped(a) == swapped(b));
    } else {
        let x = a.last();
        assert(a[a.len() - 1] == x);
        assert(a.contains(x));
        to_multiset_contains(a, x);
        to_multiset_contains(b, x);
        let i = choose|i: int| 0 <= i < b.len() && b[i] == x;
        let rest = b.remove(i);
        to_multiset_remove(b, i);
        to_multiset_remove(a, a.len() - 1);
        assert(a.remove(a.len() - 1) == a.drop_last());
        lemma_swapped_permutes(a.drop_last(), rest);
        let y = swapped(a).last();
        assert(swapped(a) == swapped(a.drop_last()).push(y));
        to_multiset_build(swapped(a.drop_last()), y);
        assert(swapped(b).remove(i) == swapped(rest));
        to_multiset_remove(swapped(b), i);
        assert(swapped(b)[i] == y);
        assert(swapped(b).contains(y));
        to_multiset_contains(swapped(b), y);
        assert(swapped(b).to_multiset() =~= swapped(rest).to_multiset().insert(y));
    }
}

/// Merges two ordered lists; of two triples of one cell the left one comes
/// first.
fn merge<V: Copy>(left: &Vec<RowColumnValue<V>>, right: &Vec<RowColumnValue<V>>) -> (out: Vec<
    RowColumnValue<V>,
>)
    requires
        ordered(left@),
        ordered(right@),
        left@.len() + right@.len() <= usize::MAX,
    ensures
        ordered(out@),
        out@.len() == left@.len() + right@.len(),
        forall|column: int, row: int| #[trigger]
            in_cell(out@, column, row) == in_cell(left@, column, row) + in_cell(
                right@,
                column,
                row,
            ),
{
    let mut out: Vec<RowColumnValue<V>> = Vec::new();
    let mut i: usize = 0;
    let mut j: usize = 0;
    proof {
        assert(left@.take(0) == Seq::<RowColumnValue<V>>::empty());
        assert(right@.take(0) == Seq::<RowColumnValue<V>>::empty());
        assert forall|column: int, row: int| #[trigger]
            in_cell(out@, column, row) == in_cell(left@.take(0), column, row) + in_cell(
                right@.take(0),
                column,
                row,
            ) by {
            assert(in_cell(out@, column, row) == Seq::<RowColumnValue<V>>::empty());
        }
    }
    while i < left.len() || j < right.len()
        invariant
            i <= left@.len(),
            j <= right@.len(),
            left@.len() + right@.len() <= usize::MAX,
            ordered(left@),
            ordered(right@),
            ordered(out@),
            out@.len() == i + j,
            forall|o: int|
                0 <= o < out@.len() && i < left@.len() ==> !precedes(left@[i as int], #[trigger] out@[o]),
            forall|o: int|
                0 <= o < out@.len() && j < right@.len() ==> !precedes(right@[j as int], #[trigger] out@[o]),
            forall|k: int| 0 <= k < j && i < left@.len() ==> precedes(#[trigger] right@[k], left@[i as int]),
            forall|column: int, row: int| #[trigger]
                in_cell(out@, column, row) == in_cell(left@.take(i as int), column, row) + in_cell(
                    right@.take(j as int),
                    column,
                    row,
                ),
        decreases left@.len() - i + right@.len() - j,
    {
        let from_left = if j == right.len() {
            true
        } else if i == left.len() {
            false
        } else {
            let l = left[i];
            let r = right[j];
            !(r.column_value.column < l.column_value.column || (r.column_value.column
                == l.column_value.column && r.row < l.row))
        };
        let ghost before = out@;
        if from_left {
            let x = left[i];
            out.push(x);
            proof {
                assert(left@.take(i + 1) == left@.take(i as int).push(x));
                assert forall|column: int, row: int| #[trigger]
                    in_cell(out@, column, row) == in_cell(left@.take(i + 1), column, row) + in_cell(
                        right@.take(j as int),
                        column,
                        row,
                    ) by {
                    lemma_in_cell_push(before, x, column, row);
                    lemma_in_cell_push(left@.take(i as int), x, column, row);
                    let a = in_cell(left@.take(i as int), column, row);
                    let b = in_cell(right@.take(j as int), column, row);
                    assert(in_cell(before, column, row) == a + b);
                    if at_cell(x, column, row) {
                        lemma_in_cell_absent(right@.take(j as int), column, row);
                        assert(a + b == a);
                        assert(a.push(x) + b == a.push(x));
                    }
                }
            }
            i = i + 1;
        } else {
            let y = right[j];
            out.push(y);
            proof {
                assert(right@.take(j + 1) == right@.take(j as int).push(y));
                assert forall|column: int, row: int| #[trigger]
                    in_cell(out@, column, row) == in_cell(left@.take(i as int), column, row) + in_cell(
                        right@.take(j + 1),
                        column,
                        row,
                    ) by {
                    lemma_in_cell_push(before, y, column, row);
                    lemma_in_cell_push(right@.take(j as int), y, column, row);
                    let a = in_cell(left@.take(i as int), column, row);
                    let b = in_cell(right@.take(j as int), column, row);
                    assert(in_cell(before, column, row) == a + b);
                    if at_cell(y, column, row) {
                        assert((a + b).push(y) == a + b.push(y));
                    }
                }
            }
            j = j + 1;
        }
    }
    proof {
        assert(left@.take(i as int) == left@);
        assert(right@.take(j as int) == right@);
    }
    out
}

/// Sorts the triples at `from..to` by column, then by row, keeping triples
/// of one cell in their order.
fn sort_range<V: Copy>(items: &Vec<RowColumnValue<V>>, from: usize, to: usize) -> (out: Vec<
    RowColumnValue<V>,
>)
    requires
        from <= to <= items@.len(),
    ensures
        ordered(out@),
        out@.len() == to - from,
        forall|column: int, row: int| #[trigger]
            in_cell(out@, column, row) == in_cell(
                items@.subrange(from as int, to as int),
                column,
                row,
            ),
    decreases to - from,
{
    if to - from <= 1 {
        let mut out: Vec<RowColumnValue<V>> = Vec::new();
        if from < to {
            out.push(items[from]);
        }
        assert(out@ == items@.subrange(from as int, to as int));
        out
    } else {
        let middle = from + (to - from) / 2;
        let left = sort_range(items, from, middle);
        let right = sort_range(items, middle, to);
        let out = merge(&left, &right);
        proof {
            let a = items@.subrange(from as int, middle as int);
            let b = items@.subrange(middle as int, to as int);
            assert(items@.subrange(from as int, to as int) == a + b);
            assert forall|column: int, row: int| #[trigger]
                in_cell(out@, column, row) == in_cell(
                    items@.subrange(from as int, to as int),
                    column,
                    row,
                ) by {
                lemma_in_cell_concat(a, b, column, row);
                assert(in_cell(left@, column, row) == in_cell(a, column, row));
                assert(in_cell(right@, column, row) == in_cell(b, column, row));
            }
        }
        out
    }
}

/// Sorts triples by column, then by row. The sort is stable: the triples of
/// one cell keep their order.
pub fn stable_sort<V: Copy>(items: &Vec<RowColumnValue<V>>) -> (out: Vec<RowColumnValue<V>>)
    ensures
        ordered(out@),
        out@.len() == items@.len(),
        forall|column: int, row: int| #[trigger]
            in_cell(out@, column, row) == in_cell(items@, column, row),
{
    assert(items@.subrange(0, items@.len() as int) == items@);
    sort_range(items, 0, items.len())
}

} // verus!
