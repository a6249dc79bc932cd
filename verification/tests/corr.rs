use rusty_tank::corr::{is_ascending, shared_values};
use rusty_tank::csr::{ColumnValue, Csr};

/// Pearson correlation over the columns that both rows hold.
fn pearson(a: &[ColumnValue<f64>], b: &[ColumnValue<f64>]) -> f64 {
    let mut n = 0;
    let mut sum_a = 0.0;
    let mut sum_squared_a = 0.0;
    let mut sum_b = 0.0;
    let mut sum_squared_b = 0.0;
    let mut product_sum = 0.0;

    for (value_a, value_b) in shared_values(a, b) {
        n += 1;
        sum_a += value_a;
        sum_squared_a += value_a * value_a;
        sum_b += value_b;
        sum_squared_b += value_b * value_b;
        product_sum += value_a * value_b;
    }

    if n < 2 {
        return 0.0;
    }

    let numerator = product_sum - (sum_a * sum_b / n as f64);
    let denominator = ((sum_squared_a - sum_a * sum_a / n as f64) * (sum_squared_b - sum_b * sum_b / n as f64)).sqrt();

    if denominator > 0.000001 { numerator / denominator } else { 0.0 }
}

/// The variant that gives up only on an empty overlap or a vanishing
/// denominator.
fn pearson_lenient(a: &[ColumnValue<f64>], b: &[ColumnValue<f64>]) -> f64 {
    let mut n = 0;
    let mut sum_a = 0.0;
    let mut sum_b = 0.0;
    let mut sum_squared_a = 0.0;
    let mut sum_squared_b = 0.0;
    let mut product_sum = 0.0;
    for (a_value, b_value) in shared_values(a, b) {
        n += 1;
        sum_a += a_value;
        sum_b += b_value;
        sum_squared_a += a_value * a_value;
        sum_squared_b += b_value * b_value;
        product_sum += a_value * b_value;
    }
    if n == 0 {
        return 0.0;
    }
    let numerator = product_sum - (sum_a * sum_b / n as f64);
    let denominator = ((sum_squared_a - sum_a * sum_a / n as f64) * (sum_squared_b - sum_b * sum_b / n as f64)).sqrt();
    if denominator.abs() < 1e-9 {
        return 0.0;
    }
    numerator / denominator
}

fn critics() -> Csr<f64> {
    let mut matrix = Csr::new();

    const LADY_IN_THE_WATER: usize = 0;
    const SNAKES_ON_A_PLANE: usize = 1;
    const JUST_MY_LUCK: usize = 2;
    const SUPERMAN_RETURNS: usize = 3;
    const YOU_ME_AND_DUPREE: usize = 4;
    const THE_NIGHT_LISTENER: usize = 5;

    // Lisa Rose.
    matrix.start();
    matrix.next(LADY_IN_THE_WATER, 2.5).unwrap();
    matrix.next(SNAKES_ON_A_PLANE, 3.5).unwrap();
    matrix.next(JUST_MY_LUCK, 3.0).unwrap();
    matrix.next(SUPERMAN_RETURNS, 3.5).unwrap();
    matrix.next(YOU_ME_AND_DUPREE, 2.5).unwrap();
    matrix.next(THE_NIGHT_LISTENER, 3.0).unwrap();

    // Gene Seymour.
    matrix.start();
    matrix.next(LADY_IN_THE_WATER, 3.0).unwrap();
    matrix.next(SNAKES_ON_A_PLANE, 3.5).unwrap();
    matrix.next(JUST_MY_LUCK, 1.5).unwrap();
    matrix.next(SUPERMAN_RETURNS, 5.0).unwrap();
    matrix.next(YOU_ME_AND_DUPREE, 3.5).unwrap();
    matrix.next(THE_NIGHT_LISTENER, 3.0).unwrap();

    // Michael Phillips.
    matrix.start();
    matrix.next(LADY_IN_THE_WATER, 2.5).unwrap();
    matrix.next(SNAKES_ON_A_PLANE, 3.0).unwrap();
    matrix.next(SUPERMAN_RETURNS, 3.5).unwrap();
    matrix.next(THE_NIGHT_LISTENER, 4.0).unwrap();

    // Claudia Puig.
    matrix.start();
    matrix.next(SNAKES_ON_A_PLANE, 3.5).unwrap();
    matrix.next(JUST_MY_LUCK, 3.0).unwrap();
    matrix.next(SUPERMAN_RETURNS, 4.0).unwrap();
    matrix.next(YOU_ME_AND_DUPREE, 2.5).unwrap();
    matrix.next(THE_NIGHT_LISTENER, 4.5).unwrap();

    // Mick LaSalle.
    matrix.start();
    matrix.next(LADY_IN_THE_WATER, 3.0).unwrap();
    matrix.next(SNAKES_ON_A_PLANE, 4.0).unwrap();
    matrix.next(JUST_MY_LUCK, 2.0).unwrap();
    matrix.next(SUPERMAN_RETURNS, 3.0).unwrap();
    matrix.next(YOU_ME_AND_DUPREE, 2.0).unwrap();
    matrix.next(THE_NIGHT_LISTENER, 3.0).unwrap();

    // Jack Matthews.
    matrix.start();
    matrix.next(LADY_IN_THE_WATER, 3.0).unwrap();
    matrix.next(SNAKES_ON_A_PLANE, 4.0).unwrap();
    matrix.next(SUPERMAN_RETURNS, 5.0).unwrap();
    matrix.next(YOU_ME_AND_DUPREE, 3.5).unwrap();
    matrix.next(THE_NIGHT_LISTENER, 3.0).unwrap();

    // Toby.
    matrix.start();
    matrix.next(SNAKES_ON_A_PLANE, 4.5).unwrap();
    matrix.next(SUPERMAN_RETURNS, 4.0).unwrap();
    matrix.next(YOU_ME_AND_DUPREE, 1.0).unwrap();

    // Unknown Artist.
    matrix.start();
    matrix.next(YOU_ME_AND_DUPREE, 4.5).unwrap();

    matrix.start();
    matrix
}

fn row(entries: &[(usize, f64)]) -> Vec<ColumnValue<f64>> {
    entries.iter().map(|&(column, value)| ColumnValue { column, value }).collect()
}

#[test]
fn corr_test_pearson() {
    let matrix = critics();

    assert_eq!(pearson(matrix.get_row(0).unwrap(), matrix.get_row(1).unwrap()), 0.39605901719066976);
    assert_eq!(pearson(matrix.get_row(6).unwrap(), matrix.get_row(0).unwrap()), 0.99124070716192991);
    assert_eq!(pearson(matrix.get_row(6).unwrap(), matrix.get_row(3).unwrap()), 0.89340514744156474);
    assert_eq!(pearson(matrix.get_row(6).unwrap(), matrix.get_row(4).unwrap()), 0.92447345164190486);
    assert_eq!(pearson(matrix.get_row(6).unwrap(), matrix.get_row(7).unwrap()), 0.0);
}

#[test]
fn itemcf_test_pearson() {
    let matrix = critics();

    assert_eq!(pearson_lenient(matrix.get_row(0).unwrap(), matrix.get_row(1).unwrap()), 0.39605901719066976);
    assert_eq!(pearson_lenient(matrix.get_row(6).unwrap(), matrix.get_row(0).unwrap()), 0.99124070716192991);
    assert_eq!(pearson_lenient(matrix.get_row(6).unwrap(), matrix.get_row(3).unwrap()), 0.89340514744156474);
    assert_eq!(pearson_lenient(matrix.get_row(6).unwrap(), matrix.get_row(4).unwrap()), 0.92447345164190486);
    assert_eq!(pearson_lenient(matrix.get_row(6).unwrap(), matrix.get_row(7).unwrap()), 0.0);
}

#[test]
fn shared_values_pairs_the_common_columns() {
    let a = row(&[(0, 1.0), (2, 2.0), (3, 3.0), (7, 4.0)]);
    let b = row(&[(1, 10.0), (2, 20.0), (7, 40.0), (9, 50.0)]);
    assert_eq!(shared_values(&a, &b), vec![(2.0, 20.0), (4.0, 40.0)]);
}

#[test]
fn shared_values_the_other_way_round_are_mirrored() {
    let matrix = critics();
    for first in 0..8 {
        for second in 0..8 {
            let a = matrix.get_row(first).unwrap();
            let b = matrix.get_row(second).unwrap();
            let forth = shared_values(a, b);
            let back = shared_values(b, a);
            let mirrored: Vec<(f64, f64)> = forth.iter().map(|&(x, y)| (y, x)).collect();
            assert_eq!(back, mirrored);
            assert_eq!(pearson(a, b), pearson(b, a));
        }
    }
}

#[test]
fn row_shares_every_column_with_itself() {
    let a = row(&[(0, 1.0), (2, 2.0), (5, 4.0)]);
    assert_eq!(shared_values(&a, &a), vec![(1.0, 1.0), (2.0, 2.0), (4.0, 4.0)]);
    assert_eq!(pearson(&a, &a), 1.0);
}

#[test]
fn rows_without_common_column_share_nothing() {
    let a = row(&[(0, 1.0), (2, 2.0), (4, 3.0)]);
    let b = row(&[(1, 1.0), (3, 2.0), (5, 3.0)]);
    assert!(shared_values(&a, &b).is_empty());
    assert_eq!(pearson(&a, &b), 0.0);
    let empty: Vec<ColumnValue<f64>> = Vec::new();
    assert!(shared_values(&a, &empty).is_empty());
    assert!(shared_values(&empty, &a).is_empty());
    assert_eq!(pearson(&empty, &a), 0.0);
}

#[test]
fn one_common_column_gives_no_correlation() {
    let a = row(&[(0, 1.0), (2, 2.0)]);
    let b = row(&[(2, 5.0), (3, 2.0)]);
    assert_eq!(shared_values(&a, &b), vec![(2.0, 5.0)]);
    assert_eq!(pearson(&a, &b), 0.0);
}

#[test]
fn constant_row_gives_no_correlation() {
    let a = row(&[(0, 3.0), (1, 3.0), (2, 3.0)]);
    let b = row(&[(0, 1.0), (1, 2.0), (2, 3.0)]);
    assert_eq!(pearson(&a, &b), 0.0);
}

#[test]
fn ascending_rows_are_told_apart() {
    assert!(is_ascending(&row(&[])));
    assert!(is_ascending(&row(&[(4, 1.0)])));
    assert!(is_ascending(&row(&[(0, 1.0), (2, 2.0), (5, 3.0)])));
    assert!(!is_ascending(&row(&[(0, 1.0), (2, 2.0), (2, 3.0)])));
    assert!(!is_ascending(&row(&[(3, 1.0), (2, 2.0)])));
}
