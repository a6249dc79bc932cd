use rusty_tank::corr::shared_values;
use rusty_tank::csr::{ColumnValue, Csr, MatrixError};
use rusty_tank::kmeans::{find_value, nearest_centroid, Model, MIN_ROW_LENGTH, NO_DISTANCE};

fn matrix_of(rows: &[&[(usize, f64)]]) -> Csr<f64> {
    let mut matrix = Csr::new();
    for row in rows {
        matrix.start();
        for &(column, value) in row.iter() {
            matrix.next(column, value).unwrap();
        }
    }
    matrix.start();
    matrix
}

fn ratings() -> Csr<f64> {
    matrix_of(&[
        &[(0, 1.0), (1, 2.0), (2, 3.0)],
        &[(0, 2.0), (1, 4.0), (2, 6.5)],
        &[(0, 9.0), (1, 5.0), (2, 1.0), (3, 2.0)],
        &[(1, 8.0), (2, 4.0), (3, 3.0)],
        &[(0, 1.0), (3, 2.0)],
        &[(0, 1.5), (1, 2.5), (2, 3.0), (3, 7.0)],
    ])
}

fn pearson(a: &[ColumnValue<f64>], b: &[ColumnValue<f64>]) -> f64 {
    let mut n = 0;
    let (mut sum_a, mut sum_squared_a, mut sum_b, mut sum_squared_b, mut product_sum) = (0.0, 0.0, 0.0, 0.0, 0.0);
    for (value_a, value_b) in shared_values(a, b) {
        n += 1;
        sum_a += value_a;
        sum_squared_a += value_a * value_a;
        sum_b += value_b;
        sum_squared_b += value_b * value_b;
        product_sum += value_a * value_b;
    }
    if n < 2 {
        return 0.0;
    }
    let numerator = product_sum - (sum_a * sum_b / n as f64);
    let denominator = ((sum_squared_a - sum_a * sum_a / n as f64) * (sum_squared_b - sum_b * sum_b / n as f64)).sqrt();
    if denominator > 0.000001 { numerator / denominator } else { 0.0 }
}

/// The number by which a distance is ordered.
fn distance_key(distance: f64) -> u64 {
    if distance.is_nan() || distance == f64::INFINITY {
        return NO_DISTANCE;
    }
    let bits = if distance == 0.0 { 0.0f64.to_bits() } else { distance.to_bits() };
    if bits >> 63 == 0 { bits | (1 << 63) } else { !bits }
}

/// One clustering step; gives the number of assignments that changed.
fn make_step(model: &mut Model<f64>, matrix: &Csr<f64>) -> usize {
    let mut nearest = vec![0; model.row_count()];
    for row_index in 0..model.row_count() {
        let row = matrix.get_row(row_index).unwrap();
        if !Model::is_clusterable(row) {
            continue;
        }
        let keys: Vec<u64> = (0..model.cluster_count())
            .map(|cluster_index| distance_key(1.0 - pearson(row, model.centroid(cluster_index).unwrap())))
            .collect();
        nearest[row_index] = nearest_centroid(&keys);
    }
    let changes = model.assign(matrix, &nearest).unwrap();
    let value_count = model.value_counts(matrix).unwrap();
    let mut sums = vec![0.0; model.cluster_count() * model.column_count()];
    for row_index in 0..model.row_count() {
        if let Some(cluster_index) = model.cluster_of(row_index) {
            for value in matrix.get_row(row_index).unwrap() {
                sums[cluster_index * model.column_count() + value.column] += value.value;
            }
        }
    }
    for (sum, &count) in sums.iter_mut().zip(value_count.iter()) {
        *sum /= count as f64;
    }
    model.set_centroids(&sums).unwrap();
    changes
}

fn seeds() -> Vec<f64> {
    vec![10.0, 20.0, 30.0, 40.0, 90.0, 50.0, 10.0, 20.0]
}

fn assignments(model: &Model<f64>) -> Vec<Option<usize>> {
    (0..model.row_count()).map(|row_index| model.cluster_of(row_index)).collect()
}

#[test]
fn new_model_has_dense_centroids_and_no_assignment() {
    let model = Model::new(3, 4, 2, &seeds()).unwrap();
    assert_eq!(model.row_count(), 3);
    assert_eq!(model.column_count(), 4);
    assert_eq!(model.cluster_count(), 2);
    assert_eq!(
        model.centroid(0).unwrap(),
        &[
            ColumnValue { column: 0, value: 10.0 },
            ColumnValue { column: 1, value: 20.0 },
            ColumnValue { column: 2, value: 30.0 },
            ColumnValue { column: 3, value: 40.0 }
        ][..]
    );
    assert_eq!(
        model.centroid(1).unwrap(),
        &[
            ColumnValue { column: 0, value: 90.0 },
            ColumnValue { column: 1, value: 50.0 },
            ColumnValue { column: 2, value: 10.0 },
            ColumnValue { column: 3, value: 20.0 }
        ][..]
    );
    assert_eq!(model.centroid(2), Err(MatrixError::InvalidIndex));
    assert_eq!(assignments(&model), vec![None, None, None]);
    assert_eq!(model.cluster_of(3), None);
}

#[test]
fn new_model_wants_a_seed_for_each_centroid_value() {
    assert!(matches!(Model::new(3, 4, 2, &vec![1.0; 7]), Err(MatrixError::IllFormedMatrix)));
    assert!(matches!(Model::new(3, 4, 2, &vec![1.0; 9]), Err(MatrixError::IllFormedMatrix)));
    assert!(matches!(Model::new(3, usize::MAX, 2, &vec![1.0; 2]), Err(MatrixError::IllFormedMatrix)));
    assert!(Model::<f64>::new(3, 4, 0, &Vec::new()).is_ok());
    assert!(Model::<f64>::new(0, 0, 5, &Vec::new()).is_ok());
}

#[test]
fn short_rows_take_no_part() {
    assert_eq!(MIN_ROW_LENGTH, 3);
    let matrix = ratings();
    assert!(Model::<f64>::is_clusterable(matrix.get_row(0).unwrap()));
    assert!(!Model::<f64>::is_clusterable(matrix.get_row(4).unwrap()));
}

#[test]
fn assign_counts_the_changes() {
    let matrix = ratings();
    let mut model = Model::new(6, 4, 2, &seeds()).unwrap();
    // The number for the short row is not looked at.
    assert_eq!(model.assign(&matrix, &[0, 1, 1, 0, 7, 1]), Ok(5));
    assert_eq!(assignments(&model), vec![Some(0), Some(1), Some(1), Some(0), None, Some(1)]);
    assert_eq!(model.assign(&matrix, &[0, 0, 1, 1, 0, 1]), Ok(2));
    assert_eq!(assignments(&model), vec![Some(0), Some(0), Some(1), Some(1), None, Some(1)]);
    assert_eq!(model.assign(&matrix, &[0, 0, 1, 1, 1, 1]), Ok(0));
}

#[test]
fn assign_refuses_what_it_cannot_place() {
    let matrix = ratings();
    let mut model = Model::new(6, 4, 2, &seeds()).unwrap();
    assert_eq!(model.assign(&matrix, &[0, 1, 1, 0, 0, 1]), Ok(5));
    let before = assignments(&model);
    // No such cluster.
    assert_eq!(model.assign(&matrix, &[0, 1, 1, 0, 0, 2]), Err(MatrixError::InvalidIndex));
    // Too few and too many numbers.
    assert_eq!(model.assign(&matrix, &[0, 1, 1, 0, 0]), Err(MatrixError::InvalidIndex));
    assert_eq!(model.assign(&matrix, &[0, 1, 1, 0, 0, 1, 1]), Err(MatrixError::InvalidIndex));
    // Too few rows.
    let short = matrix_of(&[&[(0, 1.0), (1, 2.0), (2, 3.0)]]);
    assert_eq!(model.assign(&short, &[0, 1, 1, 0, 0, 1]), Err(MatrixError::InvalidIndex));
    assert_eq!(assignments(&model), before);
}

#[test]
fn value_counts_follow_the_assignment() {
    let matrix = ratings();
    let mut model = Model::new(6, 4, 2, &seeds()).unwrap();
    assert_eq!(model.value_counts(&matrix), Ok(vec![0; 8]));
    model.assign(&matrix, &[0, 1, 1, 0, 0, 1]).unwrap();
    // Cluster 0 holds rows 0 and 3, cluster 1 rows 1, 2 and 5.
    assert_eq!(model.value_counts(&matrix), Ok(vec![1, 2, 2, 1, 3, 3, 3, 2]));
}

#[test]
fn value_counts_refuse_a_column_beyond_the_centroids() {
    let matrix = matrix_of(&[&[(0, 1.0), (1, 2.0), (4, 3.0)], &[(9, 1.0)]]);
    let mut model = Model::new(2, 4, 2, &seeds()).unwrap();
    // Unassigned rows are not looked at.
    assert_eq!(model.value_counts(&matrix), Ok(vec![0; 8]));
    model.assign(&matrix, &[1, 0]).unwrap();
    assert_eq!(model.value_counts(&matrix), Err(MatrixError::InvalidIndex));
    let short = matrix_of(&[&[(0, 1.0)]]);
    assert_eq!(model.value_counts(&short), Err(MatrixError::InvalidIndex));
}

#[test]
fn centroids_are_replaced_in_place() {
    let mut model = Model::new(3, 4, 2, &seeds()).unwrap();
    assert_eq!(model.set_centroids(&vec![1.0, 2.0, 3.0, 4.0, 5.0, 6.0, 7.0, 8.0]), Ok(()));
    assert_eq!(
        model.centroid(1).unwrap(),
        &[
            ColumnValue { column: 0, value: 5.0 },
            ColumnValue { column: 1, value: 6.0 },
            ColumnValue { column: 2, value: 7.0 },
            ColumnValue { column: 3, value: 8.0 }
        ][..]
    );
    assert_eq!(model.set_centroids(&vec![1.0; 7]), Err(MatrixError::IllFormedMatrix));
    assert_eq!(model.centroid(0).unwrap()[3], ColumnValue { column: 3, value: 4.0 });
    assert_eq!(model.row_count(), 3);
}

#[test]
fn neighbors_are_the_rows_of_the_cluster_with_a_value() {
    let matrix = ratings();
    let mut model = Model::new(6, 4, 2, &seeds()).unwrap();
    assert_eq!(model.neighbors(&matrix, 1, 3), Ok(Vec::new()));
    model.assign(&matrix, &[0, 1, 1, 0, 0, 1]).unwrap();
    assert_eq!(model.neighbors(&matrix, 1, 3), Ok(vec![(2, 2.0), (5, 7.0)]));
    assert_eq!(model.neighbors(&matrix, 2, 3), Ok(vec![(5, 7.0)]));
    assert_eq!(model.neighbors(&matrix, 0, 0), Ok(Vec::new()));
    assert_eq!(model.neighbors(&matrix, 0, 1), Ok(vec![(3, 8.0)]));
    // The short row is unassigned.
    assert_eq!(model.neighbors(&matrix, 4, 0), Ok(Vec::new()));
    assert_eq!(model.neighbors(&matrix, 6, 0), Err(MatrixError::InvalidIndex));
}

#[test]
fn find_value_takes_the_first_entry_of_the_column() {
    let matrix = matrix_of(&[&[(0, 1.0), (2, 2.0), (2, 3.0), (5, 4.0)]]);
    let row = matrix.get_row(0).unwrap();
    assert_eq!(find_value(row, 2), Some(2.0));
    assert_eq!(find_value(row, 5), Some(4.0));
    assert_eq!(find_value(row, 1), None);
}

#[test]
fn clustering_comes_to_rest_and_repeats() {
    let matrix = ratings();
    let mut model = Model::new(6, 4, 2, &seeds()).unwrap();
    let mut steps = 0;
    while make_step(&mut model, &matrix) != 0 {
        steps += 1;
        assert!(steps < 100);
    }
    assert_eq!(model.cluster_of(4), None);
    assert!(assignments(&model).iter().filter(|cluster| cluster.is_some()).count() == 5);

    let mut again = Model::new(6, 4, 2, &seeds()).unwrap();
    let mut steps_again = 0;
    while make_step(&mut again, &matrix) != 0 {
        steps_again += 1;
        assert!(steps_again < 100);
    }
    assert_eq!(steps_again, steps);
    assert_eq!(assignments(&again), assignments(&model));
}

#[test]
fn nearest_centroid_is_the_first_of_the_least_distance() {
    assert_eq!(nearest_centroid(&[5, 3, 9, 3, 4]), 1);
    assert_eq!(nearest_centroid(&[7]), 0);
    assert_eq!(nearest_centroid(&[NO_DISTANCE, 8, 8]), 1);
    assert_eq!(nearest_centroid(&[NO_DISTANCE, NO_DISTANCE, NO_DISTANCE - 1]), 2);
    assert_eq!(nearest_centroid(&[2, 1, 0, 0]), 2);
}

#[test]
fn nearest_centroid_without_a_distance_is_the_first() {
    assert_eq!(nearest_centroid(&[]), 0);
    assert_eq!(nearest_centroid(&[NO_DISTANCE, NO_DISTANCE]), 0);
}

#[test]
fn distances_keep_their_order_as_numbers() {
    let distances = [f64::NEG_INFINITY, -2.5, -1e-300, 0.0, 1e-300, 0.25, 1.0, 2.0, 1e300];
    for pair in distances.windows(2) {
        assert!(distance_key(pair[0]) < distance_key(pair[1]));
    }
    assert_eq!(distance_key(-0.0), distance_key(0.0));
    assert!(distance_key(1e300) < NO_DISTANCE);
    assert_eq!(distance_key(f64::INFINITY), NO_DISTANCE);
    assert_eq!(distance_key(f64::NAN), NO_DISTANCE);
    assert_eq!(distance_key(-f64::NAN), NO_DISTANCE);
}

#[test]
fn model_without_rows_has_nothing_to_do() {
    let matrix: Csr<f64> = matrix_of(&[]);
    let mut model = Model::new(0, 4, 2, &seeds()).unwrap();
    assert_eq!(model.assign(&matrix, &[]), Ok(0));
    assert_eq!(model.value_counts(&matrix), Ok(vec![0; 8]));
    assert_eq!(model.neighbors(&matrix, 0, 0), Err(MatrixError::InvalidIndex));
    let mut bare = Model::<f64>::new(0, 0, 0, &Vec::new()).unwrap();
    assert_eq!(bare.assign(&matrix, &[]), Ok(0));
    assert_eq!(bare.value_counts(&matrix), Ok(Vec::new()));
    assert_eq!(bare.set_centroids(&Vec::new()), Ok(()));
    assert_eq!(bare.centroid(0), Err(MatrixError::InvalidIndex));
}
