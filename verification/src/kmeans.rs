//! K-Means clustering: the state of a model and its bookkeeping.
//!
//! A model holds one centroid for each cluster, a dense row with one value
//! for each column, and for each row of the matrix the cluster it is assigned
//! to, if any. The distances and the sums of a step are arithmetic on the
//! values and are computed by the caller; what a step does with the rows
//! is here: which rows take part, how assignments change, how many values
//! each centroid column averages, and which rows vote on a prediction.

use vstd::prelude::*;
use crate::csr::{ColumnValue, Csr, Layout, MatrixError};

verus! {

/// A row with fewer entries correlates with any other row and takes no part
/// in the clustering.
pub const MIN_ROW_LENGTH: usize = 3;

/// A distance that counts as infinite: no centroid at such a distance is
/// nearer than any other.
pub const NO_DISTANCE: u64 = u64::MAX;

/// The mathematical content of a model.
pub struct ModelView<V> {
    pub column_count: usize,
    pub cluster_count: usize,
    pub centroids: Layout<V>,
    pub row_clusters: Seq<Option<usize>>,
}

/// Index of the value of a cluster at a column among values that are laid
/// out cluster after cluster.
pub open spec fn flat_index(cluster: int, column_count: int, column: int) -> int {
    cluster * column_count + column
}

/// Whether a row has entries enough to take part in the clustering.
pub open spec fn takes_part<V>(row: Seq<ColumnValue<V>>) -> bool {
    row.len() >= MIN_ROW_LENGTH
}

/// The number of positions at which two sequences of assignments differ.
pub open spec fn differences(before: Seq<Option<usize>>, after: Seq<Option<usize>>) -> nat
    recommends
        before.len() == after.len(),
    decreases before.len(),
{
    if before.len() == 0 || after.len() == 0 {
        0
    } else {
        differences(before.drop_last(), after.drop_last()) + if before.last() == after.last() {
            0nat
        } else {
            1nat
        }
    }
}

/// The number of entries of a row that stand in a column.
pub open spec fn count_in<V>(row: Seq<ColumnValue<V>>, column: int) -> nat
    decreases row.len(),
{
    if row.len() == 0 {
        0
    } else {
        count_in(row.drop_last(), column) + if row.last().column == column {
            1nat
        } else {
            0nat
        }
    }
}

/// The value of the first entry of a row that stands in a column, if any.
pub open spec fn first_at<V>(row: Seq<ColumnValue<V>>, column: int) -> Option<V>
    decreases row.len(),
{
    if row.len() == 0 {
        None
    } else if row[0].column == column {
        Some(row[0].value)
    } else {
        first_at(row.skip(1), column)
    }
}

/// Whether `index` is the nearest of the centroids whose distances are given:
/// the first of those at the least distance. Where every distance counts as
/// infinite, or there is no centroid at all, it is zero.
pub open spec fn is_nearest(distances: Seq<u64>, index: int) -> bool {
    if exists|i: int| 0 <= i < distances.len() && distances[i] < NO_DISTANCE {
        &&& 0 <= index < distances.len()
        &&& forall|i: int| 0 <= i < index ==> distances[i] > distances[index]
        &&& forall|i: int| index <= i < distances.len() ==> distances[i] >= distances[index]
    } else {
        index == 0
    }
}

impl<V> ModelView<V> {
    /// Number of rows that the model assigns.
    pub open spec fn row_count(self) -> nat {
        self.row_clusters.len()
    }

    /// The centroids are a sealed matrix of one dense row for each cluster,
    /// and every assignment names a cluster.
    pub open spec fn wf(self) -> bool {
        &&& self.centroids.wf()
        &&& self.centroids.sealed()
        &&& self.centroids.row_count() == self.cluster_count
        &&& forall|cluster: int|
            0 <= cluster <= self.cluster_count ==> #[trigger] self.centroids.offsets[cluster]
                == cluster * self.column_count
        &&& forall|cluster: int, column: int|
            0 <= cluster < self.cluster_count && 0 <= column < self.column_count
                ==> self.centroids.entries[#[trigger] flat_index(
                cluster,
                self.column_count as int,
                column,
            )].column == column
        &&& forall|row: int|
            0 <= row < self.row_clusters.len() ==> match #[trigger] self.row_clusters[row] {
                Some(cluster) => cluster < self.cluster_count,
                None => true,
            }
    }

    /// Whether the rows of the matrix can be assigned as `nearest` says: the
    /// matrix has the rows of the model, `nearest` names a cluster for each
    /// row that takes part, and holds some number for each of the others.
    pub open spec fn can_assign(self, matrix: Layout<V>, nearest: Seq<usize>) -> bool {
        &&& matrix.row_count() >= self.row_count()
        &&& nearest.len() == self.row_count()
        &&& forall|row: int|
            0 <= row < self.row_count() && takes_part(matrix.row(row)) ==> #[trigger] nearest[row]
                < self.cluster_count
    }

    /// The assignments after a step: a row that takes part goes to its
    /// nearest cluster, any other row is unassigned.
    pub open spec fn assigned(self, matrix: Layout<V>, nearest: Seq<usize>) -> Seq<Option<usize>> {
        Seq::new(
            self.row_count(),
            |row: int|
                if takes_part(matrix.row(row)) {
                    Some(nearest[row])
                } else {
                    None
                },
        )
    }

    /// Whether the values of the assigned rows can be counted: the matrix
    /// has the rows of the model, and every entry of an assigned row stands
    /// in a column of the centroids.
    pub open spec fn can_count(self, matrix: Layout<V>) -> bool {
        &&& matrix.row_count() >= self.row_count()
        &&& forall|row: int, position: int|
            0 <= row < self.row_count() && self.row_clusters[row] is Some && 0 <= position
                < matrix.row(row).len() ==> (#[trigger] matrix.row(row)[position]).column
                < self.column_count
    }

    /// The number of entries in a column among the first `rows` rows that
    /// are assigned to a cluster: the number of values that the centroid of
    /// the cluster averages in that column.
    pub open spec fn value_count(self, matrix: Layout<V>, rows: nat, cluster: int, column: int) -> nat
        decreases rows,
    {
        if rows == 0 {
            0
        } else {
            self.value_count(matrix, (rows - 1) as nat, cluster, column)
                + if self.row_clusters[rows - 1] == Some(cluster as usize) {
                count_in(matrix.row(rows - 1), column)
            } else {
                0
            }
        }
    }

    /// The centroids with their values replaced, cluster after cluster.
    pub open spec fn with_centroids(self, values: Seq<V>) -> Self {
        ModelView {
            centroids: Layout {
                entries: Seq::new(
                    self.centroids.entries.len(),
                    |i: int| ColumnValue { column: self.centroids.entries[i].column, value: values[i] },
                ),
                offsets: self.centroids.offsets,
            },
            ..self
        }
    }

    /// Among the first `rows` rows, those other than `row` that are assigned
    /// to the cluster of `row` and hold a value in `column`, each with that
    /// value. None at all if `row` is unassigned.
    pub open spec fn neighbors(self, matrix: Layout<V>, row: int, column: int, rows: nat) -> Seq<
        (usize, V),
    >
        decreases rows,
    {
        if rows == 0 {
            Seq::empty()
        } else {
            let before = self.neighbors(matrix, row, column, (rows - 1) as nat);
            let other = rows - 1;
            if other != row && self.row_clusters[row] is Some && self.row_clusters[other]
                == self.row_clusters[row] {
                match first_at(matrix.row(other), column) {
                    Some(value) => before.push((other as usize, value)),
                    None => before,
                }
            } else {
                before
            }
        }
    }

    /// An unassigned row has no neighbors.
    pub proof fn lemma_no_neighbors(self, matrix: Layout<V>, row: int, column: int, rows: nat)
        requires
            self.row_clusters[row] is None,
        ensures
            self.neighbors(matrix, row, column, rows) == Seq::<(usize, V)>::empty(),
        decreases rows,
    {
        if rows > 0 {
            self.lemma_no_neighbors(matrix, row, column, (rows - 1) as nat);
        }
    }
}

/// The values of a cluster follow those of the clusters before it and lie
/// within the values of all clusters.
pub proof fn lemma_stretch(cluster: int, cluster_count: int, column_count: int)
    requires
        0 <= cluster < cluster_count,
        0 <= column_count,
    ensures
        0 <= cluster * column_count,
        (cluster + 1) * column_count <= cluster_count * column_count,
        (cluster + 1) * column_count == cluster * column_count + column_count,
{
    assert(0 <= cluster * column_count) by (nonlinear_arith)
        requires
            0 <= cluster,
            0 <= column_count,
    ;
    assert((cluster + 1) * column_count == cluster * column_count + column_count)
        by (nonlinear_arith);
    assert((cluster + 1) * column_count <= cluster_count * column_count) by (nonlinear_arith)
        requires
            cluster + 1 <= cluster_count,
            0 <= column_count,
    ;
}

/// The column of a value within its cluster is the remainder of its flat
/// index.
pub proof fn lemma_remainder(cluster: int, column_count: int, column: int)
    requires
        0 <= cluster,
        0 <= column < column_count,
    ensures
        flat_index(cluster, column_count, column) % column_count == column,
{
    assert((cluster * column_count + column) % column_count == column) by (nonlinear_arith)
        requires
            0 <= cluster,
            0 <= column < column_count,
    ;
}

/// Two values of the clusters with one flat index are one value.
pub proof fn lemma_flat_index_unique(
    cluster: int,
    column: int,
    other_cluster: int,
    other_column: int,
    column_count: int,
)
    requires
        0 <= cluster,
        0 <= other_cluster,
        0 <= column < column_count,
        0 <= other_column < column_count,
        flat_index(cluster, column_count, column) == flat_index(
            other_cluster,
            column_count,
            other_column,
        ),
    ensures
        cluster == other_cluster,
        column == other_column,
{
    if cluster < other_cluster {
        assert((cluster + 1) * column_count <= other_cluster * column_count) by (nonlinear_arith)
            requires
                cluster + 1 <= other_cluster,
                0 <= column_count,
        ;
        assert((cluster + 1) * column_count == cluster * column_count + column_count)
            by (nonlinear_arith);
    } else if other_cluster < cluster {
        assert((other_cluster + 1) * column_count <= cluster * column_count) by (nonlinear_arith)
            requires
                other_cluster + 1 <= cluster,
                0 <= column_count,
        ;
        assert((other_cluster + 1) * column_count == other_cluster * column_count + column_count)
            by (nonlinear_arith);
    }
}

/// Gets the nearest centroid by the distances to all centroids. A distance is
/// given by a number that is the greater the farther the centroid is. Of
/// centroids at one distance the first one wins.
pub fn nearest_centroid(distances: &[u64]) -> (cluster_index: usize)
    ensures
        is_nearest(distances@, cluster_index as int),
{
    let mut min_distance = NO_DISTANCE;
    let mut cluster_index: usize = 0;
    let mut i: usize = 0;
    while i < distances.len()
        invariant
            i <= distances@.len(),
            forall|k: int| 0 <= k < i ==> #[trigger] distances@[k] >= min_distance,
            min_distance < NO_DISTANCE ==> cluster_index < i && distances@[cluster_index as int]
                == min_distance && forall|k: int|
                0 <= k < cluster_index ==> #[trigger] distances@[k] > min_distance,
            min_distance == NO_DISTANCE ==> cluster_index == 0,
        decreases distances@.len() - i,
    {
        let distance = distances[i];
        if distance < min_distance {
            min_distance = distance;
            cluster_index = i;
        }
        i = i + 1;
    }
    cluster_index
}

/// Finds the value of the first entry of a row that stands in a column.
pub fn find_value<V: Copy>(row: &[ColumnValue<V>], column: usize) -> (value: Option<V>)
    ensures
        value == first_at(row@, column as int),
{
    let mut position: usize = 0;
    proof {
        assert(row@.skip(0) == row@);
    }
    while position < row.len()
        invariant
            position <= row@.len(),
            first_at(row@, column as int) == first_at(row@.skip(position as int), column as int),
        decreases row@.len() - position,
    {
        if row[position].column == column {
            return Some(row[position].value);
        }
        proof {
            assert(row@.skip(position as int).skip(1) == row@.skip(position + 1));
        }
        position = position + 1;
    }
    None
}

/// K-Means model.
#[derive(Debug)]
pub struct Model<V> {
    row_count: usize,
    column_count: usize,
    cluster_count: usize,
    centroids: Csr<V>,
    row_clusters: Vec<Option<usize>>,
}

impl<V> View for Model<V> {
    type V = ModelView<V>;

    closed spec fn view(&self) -> ModelView<V> {
        ModelView {
            column_count: self.column_count,
            cluster_count: self.cluster_count,
            centroids: self.centroids@,
            row_clusters: self.row_clusters@,
        }
    }
}

impl<V> Model<V> {
    /// Every model is well formed, and holds the number of its rows.
    #[verifier::type_invariant]
    closed spec fn well_formed(self) -> bool {
        self@.wf() && self.row_count == self@.row_count()
    }

    /// Creates a new model with the given values as centroids, cluster after
    /// cluster, and no row assigned. There must be one value for each column
    /// of each cluster.
    pub fn new(row_count: usize, column_count: usize, cluster_count: usize, seeds: &[V]) -> (model:
        Result<Self, MatrixError>) where V: Copy
        ensures
            seeds@.len() != cluster_count * column_count ==> (model matches Err(
                MatrixError::IllFormedMatrix,
            )),
            seeds@.len() == cluster_count * column_count ==> model is Ok && ({
                let view = model.unwrap()@;
                &&& view.wf()
                &&& view.column_count == column_count
                &&& view.cluster_count == cluster_count
                &&& view.centroids.entries == Seq::new(
                    seeds@.len(),
                    |i: int| ColumnValue { column: (i % column_count as int) as usize, value: seeds@[i] },
                )
                &&& view.row_clusters == Seq::new(row_count as nat, |row: int| None::<usize>)
            }),
    {
        // The number of seeds must be the product of the two counts.
        let seed_count = seeds.len();
        let fits = match cluster_count.checked_mul(column_count) {
            Some(product) => product == seed_count,
            None => false,
        };
        if !fits {
            return Err(MatrixError::IllFormedMatrix);
        }
        let mut centroids: Csr<V> = Csr::new();
        let mut at: usize = 0;
        let mut cluster_index: usize = 0;
        while cluster_index < cluster_count
            invariant
                cluster_index <= cluster_count,
                seeds@.len() == cluster_count * column_count,
                seeds@.len() <= usize::MAX,
                at == cluster_index * column_count,
                at <= seeds@.len(),
                centroids@.wf(),
                centroids@.offsets.len() == cluster_index,
                centroids@.entries.len() == at,
                forall|cluster: int|
                    0 <= cluster < cluster_index ==> #[trigger] centroids@.offsets[cluster]
                        == cluster * column_count,
                forall|i: int|
                    0 <= i < at ==> #[trigger] centroids@.entries[i] == (ColumnValue {
                        column: (i % column_count as int) as usize,
                        value: seeds@[i],
                    }),
            decreases cluster_count - cluster_index,
        {
            proof {
                lemma_stretch(cluster_index as int, cluster_count as int, column_count as int);
            }
            centroids.start();
            let mut column_index: usize = 0;
            while column_index < column_count
                invariant
                    cluster_index < cluster_count,
                    column_index <= column_count,
                    seeds@.len() == cluster_count * column_count,
                    seeds@.len() <= usize::MAX,
                    at == cluster_index * column_count + column_index,
                    at <= seeds@.len(),
                    (cluster_index + 1) * column_count <= cluster_count * column_count,
                    (cluster_index + 1) * column_count == cluster_index * column_count
                        + column_count,
                    centroids@.wf(),
                    centroids@.offsets.len() == cluster_index + 1,
                    centroids@.entries.len() == at,
                    forall|cluster: int|
                        0 <= cluster <= cluster_index ==> #[trigger] centroids@.offsets[cluster]
                            == cluster * column_count,
                    forall|i: int|
                        0 <= i < at ==> #[trigger] centroids@.entries[i] == (ColumnValue {
                            column: (i % column_count as int) as usize,
                            value: seeds@[i],
                        }),
                decreases column_count - column_index,
            {
                let value = seeds[at];
                proof {
                    lemma_remainder(cluster_index as int, column_count as int, column_index as int);
                }
                let _ = centroids.next(column_index, value);
                at = at + 1;
                column_index = column_index + 1;
            }
            cluster_index = cluster_index + 1;
        }
        centroids.start();
        let mut row_clusters: Vec<Option<usize>> = Vec::new();
        let mut row_index: usize = 0;
        while row_index < row_count
            invariant
                row_index <= row_count,
                row_clusters@ == Seq::new(row_index as nat, |row: int| None::<usize>),
            decreases row_count - row_index,
        {
            row_clusters.push(None);
            row_index = row_index + 1;
        }
        proof {
            assert(centroids@.entries == Seq::new(
                seeds@.len(),
                |i: int| ColumnValue { column: (i % column_count as int) as usize, value: seeds@[i] },
            ));
            assert forall|cluster: int, column: int|
                0 <= cluster < cluster_count && 0 <= column < column_count
                    implies centroids@.entries[#[trigger] flat_index(
                    cluster,
                    column_count as int,
                    column,
                )].column == column by {
                lemma_stretch(cluster, cluster_count as int, column_count as int);
                lemma_remainder(cluster, column_count as int, column);
            }
        }
        Ok(Model { row_count, column_count, cluster_count, centroids, row_clusters })
    }

    /// Gets the number of rows that the model assigns.
    pub fn row_count(&self) -> (count: usize)
        ensures
            count == self@.row_count(),
    {
        proof {
            use_type_invariant(self);
        }
        self.row_count
    }

    /// Gets the number of columns of each centroid.
    pub fn column_count(&self) -> (count: usize)
        ensures
            count == self@.column_count,
    {
        self.column_count
    }

    /// Gets the number of clusters.
    pub fn cluster_count(&self) -> (count: usize)
        ensures
            count == self@.cluster_count,
    {
        self.cluster_count
    }

    /// Gets the centroid of a cluster: a dense row, its entry at position
    /// `c` stands in column `c`.
    pub fn centroid(&self, cluster_index: usize) -> (outcome: Result<&[ColumnValue<V>], MatrixError>)
        ensures
            self@.wf(),
            cluster_index < self@.cluster_count ==> outcome is Ok && outcome.unwrap()@
                == self@.centroids.row(cluster_index as int) && outcome.unwrap()@.len()
                == self@.column_count && forall|column: int|
                0 <= column < self@.column_count ==> (#[trigger] outcome.unwrap()@[column]).column
                    == column,
            cluster_index >= self@.cluster_count ==> (outcome matches Err(
                MatrixError::InvalidIndex,
            )),
    {
        proof {
            use_type_invariant(self);
            if cluster_index < self.cluster_count {
                lemma_stretch(
                    cluster_index as int,
                    self.cluster_count as int,
                    self.column_count as int,
                );
                assert(self@.centroids.offsets[cluster_index as int] == cluster_index
                    * self.column_count);
                assert(self@.centroids.offsets[cluster_index + 1] == (cluster_index + 1)
                    * self.column_count);
                assert forall|column: int| 0 <= column < self.column_count implies (
                #[trigger] self@.centroids.row(cluster_index as int)[column]).column == column by {
                    assert(self@.centroids.row(cluster_index as int)[column]
                        == self@.centroids.entries[flat_index(
                        cluster_index as int,
                        self.column_count as int,
                        column,
                    )]);
                }
            }
        }
        self.centroids.get_row(cluster_index)
    }

    /// Gets the cluster that a row is assigned to. `None` for a row that is
    /// unassigned, and for an index that is no row of the model.
    pub fn cluster_of(&self, row_index: usize) -> (cluster: Option<usize>)
        ensures
            self@.wf(),
            row_index < self@.row_count() ==> cluster == self@.row_clusters[row_index as int],
            row_index >= self@.row_count() ==> cluster is None,
    {
        proof {
            use_type_invariant(self);
        }
        if row_index < self.row_clusters.len() {
            self.row_clusters[row_index]
        } else {
            None
        }
    }

    /// Tells whether a row has entries enough to take part in the
    /// clustering.
    pub fn is_clusterable(row: &[ColumnValue<V>]) -> (clusterable: bool)
        ensures
            clusterable == takes_part(row@),
    {
        row.len() >= MIN_ROW_LENGTH
    }

    /// Assigns each row that takes part to the cluster that `nearest` names
    /// for it, and unassigns the others. Gives the number of rows whose
    /// assignment changed: zero says that the clustering has converged.
    pub fn assign(&mut self, matrix: &Csr<V>, nearest: &[usize]) -> (changes: Result<
        usize,
        MatrixError,
    >)
        ensures
            old(self)@.can_assign(matrix@, nearest@) ==> changes is Ok && changes.unwrap()
                == differences(
                old(self)@.row_clusters,
                old(self)@.assigned(matrix@, nearest@),
            ) && final(self)@ == (ModelView {
                row_clusters: old(self)@.assigned(matrix@, nearest@),
                ..old(self)@
            }),
            !old(self)@.can_assign(matrix@, nearest@) ==> (changes matches Err(
                MatrixError::InvalidIndex,
            )) && final(self)@ == old(self)@,
    {
        proof {
            use_type_invariant(&*self);
        }
        if matrix.row_count() < self.row_count || nearest.len() != self.row_count {
            return Err(MatrixError::InvalidIndex);
        }
        let ghost target = self@.assigned(matrix@, nearest@);
        let mut row_clusters: Vec<Option<usize>> = Vec::new();
        let mut changed: usize = 0;
        let mut row_index: usize = 0;
        proof {
            assert(self.row_clusters@.take(0) == Seq::<Option<usize>>::empty());
        }
        while row_index < self.row_count
            invariant
                self@ == old(self)@,
                self@.wf(),
                self.row_count == self@.row_count(),
                self@.row_clusters == self.row_clusters@,
                self@.cluster_count == self.cluster_count,
                matrix@.row_count() >= self.row_count,
                nearest@.len() == self.row_count,
                target == self@.assigned(matrix@, nearest@),
                row_index <= self.row_count,
                row_clusters@ == target.take(row_index as int),
                changed == differences(self.row_clusters@.take(row_index as int), row_clusters@),
                changed <= row_index,
                forall|row: int|
                    0 <= row < row_index && takes_part(matrix@.row(row)) ==> #[trigger] nearest@[row]
                        < self.cluster_count,
            decreases self.row_count - row_index,
        {
            let row = match matrix.get_row(row_index) {
                Ok(row) => row,
                Err(error) => {
                    return Err(error);
                },
            };
            let cluster = if row.len() >= MIN_ROW_LENGTH {
                if nearest[row_index] >= self.cluster_count {
                    return Err(MatrixError::InvalidIndex);
                }
                Some(nearest[row_index])
            } else {
                None
            };
            let unchanged = match (self.row_clusters[row_index], cluster) {
                (Some(before), Some(after)) => before == after,
                (None, None) => true,
                _ => false,
            };
            if !unchanged {
                changed = changed + 1;
            }
            row_clusters.push(cluster);
            proof {
                assert(target.take(row_index + 1) == target.take(row_index as int).push(cluster));
                assert(self.row_clusters@.take(row_index + 1).drop_last()
                    == self.row_clusters@.take(row_index as int));
                assert(row_clusters@.drop_last() == target.take(row_index as int));
            }
            row_index = row_index + 1;
        }
        proof {
            assert(target.take(row_index as int) == target);
            assert(self.row_clusters@.take(row_index as int) == self.row_clusters@);
        }
        self.row_clusters = row_clusters;
        Ok(changed)
    }

    /// Counts, for each cluster and column, the entries of the rows assigned
    /// to the cluster that stand in the column. The counts are laid out
    /// cluster after cluster, as the values of the centroids are.
    pub fn value_counts(&self, matrix: &Csr<V>) -> (counts: Result<Vec<usize>, MatrixError>)
        ensures
            self@.wf(),
            self@.can_count(matrix@) ==> counts is Ok && counts.unwrap()@.len()
                == self@.cluster_count * self@.column_count && forall|cluster: int, column: int|
                0 <= cluster < self@.cluster_count && 0 <= column < self@.column_count
                    ==> counts.unwrap()@[#[trigger] flat_index(
                    cluster,
                    self@.column_count as int,
                    column,
                )] == self@.value_count(matrix@, self@.row_count(), cluster, column),
            !self@.can_count(matrix@) ==> (counts matches Err(MatrixError::InvalidIndex)),
    {
        proof {
            use_type_invariant(self);
            use_type_invariant(matrix);
        }
        if matrix.row_count() < self.row_count {
            return Err(MatrixError::InvalidIndex);
        }
        let total = self.centroids.len();
        assert(total == self.cluster_count * self.column_count) by {
            assert(self@.centroids.offsets[self.cluster_count as int] == self.cluster_count
                * self.column_count);
        }
        let mut value_count: Vec<usize> = Vec::new();
        while value_count.len() < total
            invariant
                value_count@.len() <= total,
                forall|i: int| 0 <= i < value_count@.len() ==> value_count@[i] == 0,
            decreases total - value_count@.len(),
        {
            value_count.push(0);
        }
        proof {
            assert forall|cluster: int, column: int|
                0 <= cluster < self.cluster_count && 0 <= column
                    < self.column_count implies value_count@[#[trigger] flat_index(
                cluster,
                self.column_count as int,
                column,
            )] == self@.value_count(matrix@, 0, cluster, column) by {
                lemma_stretch(cluster, self.cluster_count as int, self.column_count as int);
            }
        }
        let mut row_index: usize = 0;
        while row_index < self.row_count
            invariant
                self@.wf(),
                matrix@.wf(),
                self.row_count == self@.row_count(),
                self@.row_clusters == self.row_clusters@,
                self@.cluster_count == self.cluster_count,
                self@.column_count == self.column_count,
                matrix@.row_count() >= self.row_count,
                total == self.cluster_count * self.column_count,
                value_count@.len() == total,
                row_index <= self.row_count,
                forall|cluster: int, column: int|
                    0 <= cluster < self.cluster_count && 0 <= column < self.column_count
                        ==> value_count@[#[trigger] flat_index(
                        cluster,
                        self.column_count as int,
                        column,
                    )] == self@.value_count(matrix@, row_index as nat, cluster, column),
                forall|i: int|
                    0 <= i < total ==> #[trigger] value_count@[i] <= matrix@.offsets[row_index as int],
                forall|row: int, position: int|
                    0 <= row < row_index && self.row_clusters@[row] is Some && 0 <= position
                        < matrix@.row(row).len() ==> (#[trigger] matrix@.row(row)[position]).column
                        < self.column_count,
            decreases self.row_count - row_index,
        {
            if let Some(cluster_index) = self.row_clusters[row_index] {
                let row = match matrix.get_row(row_index) {
                    Ok(row) => row,
                    Err(error) => {
                        return Err(error);
                    },
                };
                let mut position: usize = 0;
                proof {
                    assert(row@.take(0) == Seq::<ColumnValue<V>>::empty());
                    lemma_stretch(
                        cluster_index as int,
                        self.cluster_count as int,
                        self.column_count as int,
                    );
                }
                while position < row.len()
                    invariant
                        self@.wf(),
                        matrix@.wf(),
                        self@.cluster_count == self.cluster_count,
                        self@.column_count == self.column_count,
                        row_index < self.row_count <= matrix@.row_count(),
                        self.row_count == self@.row_count(),
                        self@.row_clusters[row_index as int] == Some(cluster_index),
                        row@ == matrix@.row(row_index as int),
                        cluster_index < self.cluster_count,
                        total == self.cluster_count * self.column_count,
                        (cluster_index + 1) * self.column_count <= total,
                        (cluster_index + 1) * self.column_count == cluster_index
                            * self.column_count + self.column_count,
                        0 <= cluster_index * self.column_count,
                        value_count@.len() == total,
                        position <= row@.len(),
                        forall|cluster: int, column: int|
                            0 <= cluster < self.cluster_count && 0 <= column < self.column_count
                                ==> value_count@[#[trigger] flat_index(
                                cluster,
                                self.column_count as int,
                                column,
                            )] == self@.value_count(matrix@, row_index as nat, cluster, column)
                                + if cluster == cluster_index {
                                count_in(row@.take(position as int), column)
                            } else {
                                0
                            },
                        forall|i: int|
                            0 <= i < total ==> #[trigger] value_count@[i]
                                <= matrix@.offsets[row_index as int] + position,
                        forall|k: int|
                            0 <= k < position ==> (#[trigger] row@[k]).column < self.column_count,
                    decreases row@.len() - position,
                {
                    let column = row[position].column;
                    if column >= self.column_count {
                        proof {
                            assert(matrix@.row(row_index as int)[position as int].column
                                >= self.column_count);
                        }
                        return Err(MatrixError::InvalidIndex);
                    }
                    // Increase column value count.
                    let index = cluster_index * self.column_count + column;
                    let ghost before = value_count@;
                    value_count[index] = value_count[index] + 1;
                    proof {
                        assert(row@.take(position + 1).drop_last() == row@.take(position as int));
                        assert(row@.take(position + 1).last() == row@[position as int]);
                        assert forall|cluster: int, other: int|
                            0 <= cluster < self.cluster_count && 0 <= other
                                < self.column_count implies value_count@[#[trigger] flat_index(
                            cluster,
                            self.column_count as int,
                            other,
                        )] == self@.value_count(matrix@, row_index as nat, cluster, other)
                            + if cluster == cluster_index {
                            count_in(row@.take(position + 1), other)
                        } else {
                            0
                        } by {
                            let here = flat_index(cluster, self.column_count as int, other);
                            lemma_stretch(cluster, self.cluster_count as int, self.column_count as int);
                            if here == index {
                                lemma_flat_index_unique(
                                    cluster,
                                    other,
                                    cluster_index as int,
                                    column as int,
                                    self.column_count as int,
                                );
                            } else {
                                assert(value_count@[here] == before[here]);
                            }
                        }
                    }
                    position = position + 1;
                }
                proof {
                    assert(row@.take(position as int) == row@);
                }
            }
            row_index = row_index + 1;
        }
        Ok(value_count)
    }

    /// A model without rows, columns and clusters.
    fn empty() -> (model: Self)
        ensures
            model@.cluster_count == 0,
    {
        let mut centroids: Csr<V> = Csr::new();
        centroids.start();
        let row_clusters: Vec<Option<usize>> = Vec::new();
        proof {
            use_type_invariant(&centroids);
            assert(centroids@.offsets[0] == 0 * 0);
        }
        Model { row_count: 0, column_count: 0, cluster_count: 0, centroids, row_clusters }
    }

    /// Replaces the values of the centroids in place, cluster after cluster.
    /// There must be one value for each column of each cluster.
    pub fn set_centroids(&mut self, values: &[V]) -> (outcome: Result<(), MatrixError>) where
        V: Copy,
        ensures
            values@.len() == old(self)@.cluster_count * old(self)@.column_count ==> outcome is Ok
                && final(self)@ == old(self)@.with_centroids(values@),
            values@.len() != old(self)@.cluster_count * old(self)@.column_count ==> (
            outcome matches Err(MatrixError::IllFormedMatrix)) && final(self)@ == old(self)@,
    {
        proof {
            use_type_invariant(&*self);
            assert(self@.centroids.offsets[self.cluster_count as int] == self.cluster_count
                * self.column_count);
        }
        if values.len() != self.centroids.len() {
            return Err(MatrixError::IllFormedMatrix);
        }
        let mut taken = Model::empty();
        core::mem::swap(self, &mut taken);
        let Model { row_count, column_count, cluster_count, mut centroids, row_clusters } = taken;
        let ghost before = centroids@;
        let mut at: usize = 0;
        let mut cluster_index: usize = 0;
        while cluster_index < cluster_count
            invariant
                before == old(self)@.centroids,
                old(self)@.wf(),
                old(self)@.cluster_count == cluster_count,
                old(self)@.column_count == column_count,
                values@.len() == cluster_count * column_count,
                values@.len() == before.entries.len(),
                values@.len() <= usize::MAX,
                cluster_index <= cluster_count,
                at == cluster_index * column_count,
                at <= values@.len(),
                centroids@.offsets == before.offsets,
                centroids@.entries.len() == before.entries.len(),
                forall|i: int|
                    0 <= i < at ==> #[trigger] centroids@.entries[i] == (ColumnValue {
                        column: before.entries[i].column,
                        value: values@[i],
                    }),
                forall|i: int|
                    at <= i < before.entries.len() ==> #[trigger] centroids@.entries[i]
                        == before.entries[i],
            decreases cluster_count - cluster_index,
        {
            proof {
                lemma_stretch(cluster_index as int, cluster_count as int, column_count as int);
                assert(before.offsets[cluster_index as int] == cluster_index * column_count);
                assert(before.offsets[cluster_index + 1] == (cluster_index + 1) * column_count);
            }
            let mut column_index: usize = 0;
            while column_index < column_count
                invariant
                    before == old(self)@.centroids,
                    old(self)@.wf(),
                    old(self)@.cluster_count == cluster_count,
                    old(self)@.column_count == column_count,
                    values@.len() == cluster_count * column_count,
                    values@.len() == before.entries.len(),
                    values@.len() <= usize::MAX,
                    cluster_index < cluster_count,
                    column_index <= column_count,
                    at == cluster_index * column_count + column_index,
                    at <= values@.len(),
                    (cluster_index + 1) * column_count <= cluster_count * column_count,
                    (cluster_index + 1) * column_count == cluster_index * column_count
                        + column_count,
                    before.offsets[cluster_index as int] == cluster_index * column_count,
                    before.offsets[cluster_index + 1] == (cluster_index + 1) * column_count,
                    centroids@.offsets == before.offsets,
                    centroids@.entries.len() == before.entries.len(),
                    forall|i: int|
                        0 <= i < at ==> #[trigger] centroids@.entries[i] == (ColumnValue {
                            column: before.entries[i].column,
                            value: values@[i],
                        }),
                    forall|i: int|
                        at <= i < before.entries.len() ==> #[trigger] centroids@.entries[i]
                            == before.entries[i],
                decreases column_count - column_index,
            {
                let _ = centroids.set_value(cluster_index, column_index, values[at]);
                at = at + 1;
                column_index = column_index + 1;
            }
            cluster_index = cluster_index + 1;
        }
        proof {
            assert(centroids@.entries =~= old(self)@.with_centroids(values@).centroids.entries);
            assert(centroids@ == old(self)@.with_centroids(values@).centroids);
            assert forall|cluster: int, column: int|
                0 <= cluster < cluster_count && 0 <= column
                    < column_count implies centroids@.entries[#[trigger] flat_index(
                cluster,
                column_count as int,
                column,
            )].column == column by {
                lemma_stretch(cluster, cluster_count as int, column_count as int);
            }
        }
        *self = Model { row_count, column_count, cluster_count, centroids, row_clusters };
        Ok(())
    }

    /// Lists the rows that vote on a prediction for a row in a column: the
    /// other rows of its cluster that hold a value in the column, each with
    /// that value. An unassigned row has no such rows.
    pub fn neighbors(&self, matrix: &Csr<V>, row_index: usize, column_index: usize) -> (outcome:
        Result<Vec<(usize, V)>, MatrixError>) where V: Copy
        ensures
            self@.wf(),
            row_index < self@.row_count() && self@.row_count() <= matrix@.row_count()
                ==> outcome is Ok && outcome.unwrap()@ == self@.neighbors(
                matrix@,
                row_index as int,
                column_index as int,
                self@.row_count(),
            ),
            !(row_index < self@.row_count() && self@.row_count() <= matrix@.row_count()) ==> (
            outcome matches Err(MatrixError::InvalidIndex)),
    {
        proof {
            use_type_invariant(self);
        }
        if row_index >= self.row_count || matrix.row_count() < self.row_count {
            return Err(MatrixError::InvalidIndex);
        }
        let mut found: Vec<(usize, V)> = Vec::new();
        if let Some(cluster_index) = self.row_clusters[row_index] {
            // The row is clustered.
            let mut other_index: usize = 0;
            while other_index < self.row_count
                invariant
                    self.row_count == self@.row_count(),
                    self@.row_clusters == self.row_clusters@,
                    row_index < self.row_count <= matrix@.row_count(),
                    self.row_clusters@[row_index as int] == Some(cluster_index),
                    other_index <= self.row_count,
                    found@ == self@.neighbors(
                        matrix@,
                        row_index as int,
                        column_index as int,
                        other_index as nat,
                    ),
                decreases self.row_count - other_index,
            {
                let same_cluster = match self.row_clusters[other_index] {
                    Some(other_cluster) => other_cluster == cluster_index,
                    None => false,
                };
                if other_index != row_index && same_cluster {
                    // Found row in the same cluster.
                    let other_row = match matrix.get_row(other_index) {
                        Ok(row) => row,
                        Err(error) => {
                            return Err(error);
                        },
                    };
                    if let Some(value) = find_value(other_row, column_index) {
                        // Found value at the column.
                        found.push((other_index, value));
                    }
                }
                other_index = other_index + 1;
            }
        } else {
            proof {
                self@.lemma_no_neighbors(
                    matrix@,
                    row_index as int,
                    column_index as int,
                    self@.row_count(),
                );
            }
        }
        Ok(found)
    }
}

} // verus!
