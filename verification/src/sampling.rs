//! Splitting ratings into a train and a test matrix at random.

use rand::{Rng, ThreadRng};
use vstd::prelude::*;
use crate::csr::{ColumnValue, Csr, Layout, MatrixError};

verus! {

/// The thread-local generator of the rand crate, `rand::ThreadRng`. It is
/// only handed on to the draw; nothing is known of what it holds.
#[verifier::external_type_specification]
#[verifier::external_body]
pub struct ExThreadRng(rand::ThreadRng);

/// Draws a bool from the generator by `Rng::gen_weighted_bool` of the rand
/// crate, which gives `true` with a chance of one in `n`. Nothing is claimed
/// of the outcome but what its source shows for every draw: with `n` at most
/// one it is `true`. The generator stops the program if the operating system
/// refuses it entropy.
#[verifier::external_body]
fn weighted_bool(rng: &mut ThreadRng, n: u32) -> (drawn: bool)
    ensures
        n <= 1 ==> drawn,
{
    rng.gen_weighted_bool(n)
}

/// The entries of a row whose flag is `which`, in the order of the row.
pub open spec fn picked<V>(row: Seq<ColumnValue<V>>, to_test: Seq<bool>, which: bool) -> Seq<
    ColumnValue<V>,
>
    recommends
        row.len() == to_test.len(),
    decreases row.len(),
{
    if row.len() == 0 || to_test.len() == 0 {
        Seq::empty()
    } else if to_test.last() == which {
        picked(row.drop_last(), to_test.drop_last(), which).push(row.last())
    } else {
        picked(row.drop_last(), to_test.drop_last(), which)
    }
}

impl<V> Layout<V> {
    /// The layout after a new row has been opened and the entries have been
    /// appended to it.
    pub open spec fn with_row(self, row: Seq<ColumnValue<V>>) -> Self {
        Layout {
            entries: self.entries + row,
            offsets: self.offsets.push(self.entries.len() as usize),
        }
    }
}

/// Opens a new row in both matrices and appends each entry of `row` to one of
/// them: to the test matrix if its flag is set, to the train matrix if not.
/// There must be one flag for each entry.
pub fn distribute<V: Copy>(
    train: &mut Csr<V>,
    test: &mut Csr<V>,
    row: &[ColumnValue<V>],
    to_test: &[bool],
) -> (outcome: Result<(), MatrixError>)
    ensures
        to_test@.len() == row@.len() ==> outcome is Ok && final(train)@ == old(train)@.with_row(
            picked(row@, to_test@, false),
        ) && final(test)@ == old(test)@.with_row(picked(row@, to_test@, true)),
        to_test@.len() != row@.len() ==> (outcome matches Err(MatrixError::InvalidIndex))
            && final(train)@ == old(train)@ && final(test)@ == old(test)@,
{
    if to_test.len() != row.len() {
        return Err(MatrixError::InvalidIndex);
    }
    train.start();
    test.start();
    let mut index: usize = 0;
    proof {
        assert(row@.take(0) == Seq::<ColumnValue<V>>::empty());
        assert(old(train)@.entries + Seq::<ColumnValue<V>>::empty() == old(train)@.entries);
        assert(old(test)@.entries + Seq::<ColumnValue<V>>::empty() == old(test)@.entries);
    }
    while index < row.len()
        invariant
            to_test@.len() == row@.len(),
            index <= row@.len(),
            train@ == old(train)@.with_row(
                picked(row@.take(index as int), to_test@.take(index as int), false),
            ),
            test@ == old(test)@.with_row(
                picked(row@.take(index as int), to_test@.take(index as int), true),
            ),
        decreases row@.len() - index,
    {
        let entry = row[index];
        proof {
            assert(row@.take(index + 1).drop_last() == row@.take(index as int));
            assert(to_test@.take(index + 1).drop_last() == to_test@.take(index as int));
            let before_train = picked(row@.take(index as int), to_test@.take(index as int), false);
            let before_test = picked(row@.take(index as int), to_test@.take(index as int), true);
            assert((old(train)@.entries + before_train).push(entry) == old(train)@.entries
                + before_train.push(entry));
            assert((old(test)@.entries + before_test).push(entry) == old(test)@.entries
                + before_test.push(entry));
        }
        if to_test[index] {
            let _ = test.next(entry.column, entry.value);
        } else {
            let _ = train.next(entry.column, entry.value);
        }
        index = index + 1;
    }
    proof {
        assert(row@.take(index as int) == row@);
        assert(to_test@.take(index as int) == to_test@);
    }
    Ok(())
}

/// Opens a new row in both matrices and appends each entry of `row` to one of
/// them, drawn at random: to the test matrix with a chance of one in
/// `test_share`, else to the train matrix.
pub fn split_row<V: Copy>(
    train: &mut Csr<V>,
    test: &mut Csr<V>,
    row: &[ColumnValue<V>],
    rng: &mut ThreadRng,
    test_share: u32,
)
    ensures
        exists|to_test: Seq<bool>|
            {
                &&& to_test.len() == row@.len()
                &&& test_share <= 1 ==> forall|i: int| 0 <= i < to_test.len() ==> to_test[i]
                &&& final(train)@ == old(train)@.with_row(
                    #[trigger] picked(row@, to_test, false),
                )
                &&& final(test)@ == old(test)@.with_row(picked(row@, to_test, true))
            },
{
    let mut to_test: Vec<bool> = Vec::new();
    while to_test.len() < row.len()
        invariant
            to_test@.len() <= row@.len(),
            test_share <= 1 ==> forall|i: int| 0 <= i < to_test@.len() ==> to_test@[i],
        decreases row@.len() - to_test@.len(),
    {
        let drawn = weighted_bool(rng, test_share);
        to_test.push(drawn);
    }
    let _ = distribute(train, test, row, to_test.as_slice());
    proof {
        assert(final(train)@ == old(train)@.with_row(picked(row@, to_test@, false)));
    }
}

} // verus!
