//! The columns that two sparse rows share.
//!
//! A correlation between two rows is taken over the columns that both rows
//! hold. This module finds them, for rows that are sorted by column, by a
//! merge walk over both rows; what is then computed from the pairs of values
//! is left to the caller.

use vstd::prelude::*;
use crate::csr::ColumnValue;

verus! {

/// The columns of the row increase strictly.
pub open spec fn ascending<V>(row: Seq<ColumnValue<V>>) -> bool {
    forall|i: int, j: int| 0 <= i < j < row.len() ==> (#[trigger] row[i]).column < (#[trigger] row[j]).column
}

/// The value that the row holds at a column, if any; that of the last such
/// entry, should a row hold the column more than once.
pub open spec fn value_at<V>(row: Seq<ColumnValue<V>>, column: int) -> Option<V>
    decreases row.len(),
{
    if row.len() == 0 {
        None
    } else if row.last().column == column {
        Some(row.last().value)
    } else {
        value_at(row.drop_last(), column)
    }
}

/// For each entry of `a` whose column `b` holds too, in the order of `a`: the
/// value of `a` and the value of `b` at that column.
pub open spec fn shared<V>(a: Seq<ColumnValue<V>>, b: Seq<ColumnValue<V>>) -> Seq<(V, V)>
    decreases a.len(),
{
    if a.len() == 0 {
        Seq::empty()
    } else {
        match value_at(b, a.last().column as int) {
            Some(value) => shared(a.drop_last(), b).push((a.last().value, value)),
            None => shared(a.drop_last(), b),
        }
    }
}

/// Each pair with its two values exchanged.
pub open spec fn mirrored<V>(pairs: Seq<(V, V)>) -> Seq<(V, V)> {
    Seq::new(pairs.len(), |i: int| (pairs[i].1, pairs[i].0))
}

/// A row holds no value at a column that none of its entries has.
pub proof fn lemma_value_at_absent<V>(row: Seq<ColumnValue<V>>, column: int)
    requires
        forall|i: int| 0 <= i < row.len() ==> (#[trigger] row[i]).column != column,
    ensures
        value_at(row, column) is None,
    decreases row.len(),
{
    if row.len() > 0 {
        assert(row[row.len() - 1].column != column);
        assert forall|i: int| 0 <= i < row.drop_last().len() implies (
        #[trigger] row.drop_last()[i]).column != column by {
            assert(row.drop_last()[i] == row[i]);
        }
        lemma_value_at_absent(row.drop_last(), column);
    }
}

/// A row that begins an ascending row is ascending.
pub proof fn lemma_ascending_prefix<V>(row: Seq<ColumnValue<V>>, length: int)
    requires
        ascending(row),
        0 <= length <= row.len(),
    ensures
        ascending(row.take(length)),
{
    assert forall|i: int, j: int| 0 <= i < j < row.take(length).len() implies (
    #[trigger] row.take(length)[i]).column < (#[trigger] row.take(length)[j]).column by {
        assert(row[i].column < row[j].column);
    }
}

/// Entries of `b` whose columns `a` does not hold add nothing to what the
/// rows share.
pub proof fn lemma_shared_without_last<V>(a: Seq<ColumnValue<V>>, b: Seq<ColumnValue<V>>)
    requires
        b.len() > 0,
        forall|i: int| 0 <= i < a.len() ==> (#[trigger] a[i]).column != b.last().column,
    ensures
        shared(a, b) == shared(a, b.drop_last()),
    decreases a.len(),
{
    if a.len() > 0 {
        assert(a[a.len() - 1].column != b.last().column);
        assert forall|i: int| 0 <= i < a.drop_last().len() implies (#[trigger] a.drop_last()[i]).column
            != b.last().column by {
            assert(a.drop_last()[i] == a[i]);
        }
        lemma_shared_without_last(a.drop_last(), b);
    }
}

/// Rows without a common column share nothing.
pub proof fn lemma_shared_disjoint<V>(a: Seq<ColumnValue<V>>, b: Seq<ColumnValue<V>>)
    requires
        forall|i: int, j: int|
            0 <= i < a.len() && 0 <= j < b.len() ==> (#[trigger] a[i]).column != (#[trigger] b[j]).column,
    ensures
        shared(a, b) == Seq::<(V, V)>::empty(),
    decreases a.len(),
{
    if a.len() > 0 {
        assert forall|j: int| 0 <= j < b.len() implies (#[trigger] b[j]).column
            != a.last().column by {
            assert(a[a.len() - 1].column != b[j].column);
        }
        lemma_value_at_absent(b, a.last().column as int);
        assert forall|i: int, j: int| 0 <= i < a.drop_last().len() && 0 <= j < b.len() implies (
        #[trigger] a.drop_last()[i]).column != (#[trigger] b[j]).column by {
            assert(a[i].column != b[j].column);
        }
        lemma_shared_disjoint(a.drop_last(), b);
    }
}

/// What two ascending rows share does not depend on which row comes first:
/// the other way round, the same columns give the same pairs, each with its
/// two values exchanged.
pub proof fn lemma_shared_symmetric<V>(a: Seq<ColumnValue<V>>, b: Seq<ColumnValue<V>>)
    requires
        ascending(a),
        ascending(b),
    ensures
        shared(b, a) == mirrored(shared(a, b)),
    decreases a.len() + b.len(),
{
    if a.len() == 0 {
        lemma_shared_disjoint(b, a);
        assert(mirrored(shared(a, b)) == Seq::<(V, V)>::empty());
    } else if b.len() == 0 {
        lemma_shared_disjoint(a, b);
        assert(mirrored(shared(a, b)) == Seq::<(V, V)>::empty());
    } else {
        let x = a.last();
        let y = b.last();
        lemma_ascending_prefix(a, a.len() - 1);
        lemma_ascending_prefix(b, b.len() - 1);
        assert(a.take(a.len() - 1) == a.drop_last());
        assert(b.take(b.len() - 1) == b.drop_last());
        if x.column > y.column {
            assert forall|j: int| 0 <= j < b.len() implies (#[trigger] b[j]).column != x.column by {
                assert(j < b.len() - 1 ==> b[j].column < b[b.len() - 1].column);
            }
            lemma_value_at_absent(b, x.column as int);
            lemma_shared_without_last(b, a);
            lemma_shared_symmetric(a.drop_last(), b);
        } else if x.column < y.column {
            assert forall|i: int| 0 <= i < a.len() implies (#[trigger] a[i]).column != y.column by {
                assert(i < a.len() - 1 ==> a[i].column < a[a.len() - 1].column);
            }
            lemma_value_at_absent(a, y.column as int);
            lemma_shared_without_last(a, b);
            lemma_shared_symmetric(a, b.drop_last());
        } else {
            assert forall|i: int| 0 <= i < a.drop_last().len() implies (
            #[trigger] a.drop_last()[i]).column != y.column by {
                assert(a[i].column < a[a.len() - 1].column);
            }
            assert forall|j: int| 0 <= j < b.drop_last().len() implies (
            #[trigger] b.drop_last()[j]).column != x.column by {
                assert(b[j].column < b[b.len() - 1].column);
            }
            lemma_shared_without_last(a.drop_last(), b);
            lemma_shared_without_last(b.drop_last(), a);
            lemma_shared_symmetric(a.drop_last(), b.drop_last());
            let inner = shared(a.drop_last(), b.drop_last());
            assert(shared(a, b) == inner.push((x.value, y.value)));
            assert(shared(b, a) == shared(b.drop_last(), a.drop_last()).push((y.value, x.value)));
            assert(mirrored(inner.push((x.value, y.value))) == mirrored(inner).push(
                (y.value, x.value),
            ));
        }
    }
}

/// An ascending row shares every column with itself: each of its values is
/// paired with itself.
pub proof fn lemma_shared_with_itself<V>(row: Seq<ColumnValue<V>>)
    requires
        ascending(row),
    ensures
        shared(row, row) == Seq::new(row.len(), |i: int| (row[i].value, row[i].value)),
    decreases row.len(),
{
    let pairs = Seq::new(row.len(), |i: int| (row[i].value, row[i].value));
    if row.len() == 0 {
        assert(shared(row, row) == pairs);
    } else {
        let rest = row.drop_last();
        lemma_ascending_prefix(row, row.len() - 1);
        assert(row.take(row.len() - 1) == rest);
        assert forall|i: int| 0 <= i < rest.len() implies (#[trigger] rest[i]).column
            != row.last().column by {
            assert(row[i].column < row[row.len() - 1].column);
        }
        lemma_shared_without_last(rest, row);
        lemma_shared_with_itself(rest);
        assert(shared(row, row) == shared(rest, rest).push((row.last().value, row.last().value)));
        assert(shared(row, row) == pairs);
    }
}

/// Tells whether the columns of the row increase strictly.
pub fn is_ascending<V>(row: &[ColumnValue<V>]) -> (sorted: bool)
    ensures
        sorted == ascending(row@),
{
    let mut index: usize = 1;
    while index < row.len()
        invariant
            1 <= index,
            forall|i: int, j: int|
                0 <= i < j < index && j < row@.len() ==> (#[trigger] row@[i]).column < (
                #[trigger] row@[j]).column,
        decreases row@.len() - index,
    {
        if row[index - 1].column >= row[index].column {
            return false;
        }
        proof {
            assert forall|i: int, j: int| 0 <= i < j < index + 1 && j < row@.len() implies (
            #[trigger] row@[i]).column < (#[trigger] row@[j]).column by {
                if j == index && i < index - 1 {
                    assert(row@[i].column < row@[index - 1].column);
                }
            }
        }
        index = index + 1;
    }
    true
}

/// Pairs the values of two rows at the columns that both hold, in ascending
/// order of the columns, by a merge walk over both rows.
///
/// Both rows must be sorted by column, strictly ascending; otherwise columns
/// that the rows share may be missed.
pub fn shared_values<V: Copy>(a: &[ColumnValue<V>], b: &[ColumnValue<V>]) -> (pairs: Vec<(V, V)>)
    ensures
        ascending(a@) && ascending(b@) ==> pairs@ == shared(a@, b@),
        pairs@.len() <= a@.len(),
        pairs@.len() <= b@.len(),
{
    let mut pairs: Vec<(V, V)> = Vec::new();
    let mut i: usize = 0;
    let mut j: usize = 0;
    proof {
        assert(a@.take(0) == Seq::<ColumnValue<V>>::empty());
    }
    while i < a.len() && j < b.len()
        invariant
            i <= a@.len(),
            j <= b@.len(),
            pairs@.len() <= i,
            pairs@.len() <= j,
            ascending(a@) && ascending(b@) ==> pairs@ == shared(a@.take(i as int), b@),
            ascending(a@) && ascending(b@) && i < a@.len() ==> forall|k: int|
                0 <= k < j ==> (#[trigger] b@[k]).column < a@[i as int].column,
        decreases a@.len() - i + b@.len() - j,
    {
        let value_a = a[i];
        let value_b = b[j];
        if value_a.column < value_b.column {
            proof {
                if ascending(a@) && ascending(b@) {
                    lemma_step_past(a@, b@, i as int, j as int);
                }
            }
            i = i + 1;
        } else if value_a.column > value_b.column {
            j = j + 1;
        } else {
            pairs.push((value_a.value, value_b.value));
            proof {
                if ascending(a@) && ascending(b@) {
                    lemma_step_match(a@, b@, i as int, j as int);
                }
            }
            i = i + 1;
            j = j + 1;
        }
    }
    proof {
        if ascending(a@) && ascending(b@) {
            lemma_rest_unmatched(a@, b@, i as int);
        }
    }
    pairs
}

/// The value of an ascending row at the column of one of its entries.
proof fn lemma_value_at_entry<V>(row: Seq<ColumnValue<V>>, index: int)
    requires
        ascending(row),
        0 <= index < row.len(),
    ensures
        value_at(row, row[index].column as int) == Some(row[index].value),
    decreases row.len(),
{
    if index < row.len() - 1 {
        assert(row[index].column < row[row.len() - 1].column);
        lemma_ascending_prefix(row, row.len() - 1);
        assert(row.take(row.len() - 1) == row.drop_last());
        lemma_value_at_entry(row.drop_last(), index);
    }
}

/// An entry of `a` that lies between the columns of `b` before and from
/// position `j` on has no partner.
proof fn lemma_step_past<V>(a: Seq<ColumnValue<V>>, b: Seq<ColumnValue<V>>, i: int, j: int)
    requires
        ascending(a),
        ascending(b),
        0 <= i < a.len(),
        0 <= j < b.len(),
        a[i].column < b[j].column,
        forall|k: int| 0 <= k < j ==> (#[trigger] b[k]).column < a[i].column,
    ensures
        shared(a.take(i + 1), b) == shared(a.take(i), b),
        i + 1 < a.len() ==> forall|k: int| 0 <= k < j ==> (#[trigger] b[k]).column < a[i + 1].column,
{
    assert(a.take(i + 1).drop_last() == a.take(i));
    assert(a.take(i + 1).last() == a[i]);
    assert forall|k: int| 0 <= k < b.len() implies (#[trigger] b[k]).column != a[i].column by {
        if k > j {
            assert(b[j].column < b[k].column);
        }
    }
    lemma_value_at_absent(b, a[i].column as int);
    if i + 1 < a.len() {
        assert(a[i].column < a[i + 1].column);
    }
}

/// Entries of `a` and `b` at one column are partners.
proof fn lemma_step_match<V>(a: Seq<ColumnValue<V>>, b: Seq<ColumnValue<V>>, i: int, j: int)
    requires
        ascending(a),
        ascending(b),
        0 <= i < a.len(),
        0 <= j < b.len(),
        a[i].column == b[j].column,
    ensures
        shared(a.take(i + 1), b) == shared(a.take(i), b).push((a[i].value, b[j].value)),
        i + 1 < a.len() ==> forall|k: int|
            0 <= k < j + 1 ==> (#[trigger] b[k]).column < a[i + 1].column,
{
    assert(a.take(i + 1).drop_last() == a.take(i));
    assert(a.take(i + 1).last() == a[i]);
    lemma_value_at_entry(b, j);
    if i + 1 < a.len() {
        assert(a[i].column < a[i + 1].column);
        assert forall|k: int| 0 <= k < j + 1 implies (#[trigger] b[k]).column < a[i + 1].column by {
            if k < j {
                assert(b[k].column < b[j].column);
            }
        }
    }
}

/// Once `b` is used up below the column of an entry of `a`, the entries of
/// `a` from there on have no partner.
proof fn lemma_rest_unmatched<V>(a: Seq<ColumnValue<V>>, b: Seq<ColumnValue<V>>, i: int)
    requires
        ascending(a),
        0 <= i <= a.len(),
        i < a.len() ==> forall|k: int| 0 <= k < b.len() ==> (#[trigger] b[k]).column < a[i].column,
    ensures
        shared(a, b) == shared(a.take(i), b),
    decreases a.len() - i,
{
    if i == a.len() {
        assert(a.take(i) == a);
    } else {
        assert(a.take(i + 1).drop_last() == a.take(i));
        assert(a.take(i + 1).last() == a[i]);
        assert forall|k: int| 0 <= k < b.len() implies (#[trigger] b[k]).column != a[i].column by {}
        lemma_value_at_absent(b, a[i].column as int);
        if i + 1 < a.len() {
            assert(a[i].column < a[i + 1].column);
        }
        lemma_rest_unmatched(a, b, i + 1);
    }
}

} // verus!
