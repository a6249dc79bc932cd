use rand::Rng;
use rusty_tank::csr::Csr;

/// A latent-factor model with biases, trained by stochastic gradient descent
/// over the entries of a matrix in the order in which the matrix lists them.
struct Model {
    base: f64,
    row_bases: Vec<f64>,
    column_bases: Vec<f64>,
    feature_count: usize,
    row_features: Vec<Vec<f64>>,
    column_features: Vec<Vec<f64>>,
}

impl Model {
    fn new(row_count: usize, column_count: usize, feature_count: usize) -> Self {
        let mut rng = rand::thread_rng();
        Model {
            base: rng.gen_range(-1.0, 1.0),
            row_bases: (0..row_count).map(|_| rng.gen_range(-1.0, 1.0)).collect(),
            column_bases: (0..column_count).map(|_| rng.gen_range(-1.0, 1.0)).collect(),
            feature_count,
            row_features: (0..row_count)
                .map(|_| (0..feature_count).map(|_| rng.gen_range(-1.0, 1.0)).collect())
                .collect(),
            column_features: (0..column_count)
                .map(|_| (0..feature_count).map(|_| rng.gen_range(-1.0, 1.0)).collect())
                .collect(),
        }
    }

    fn make_step(&mut self, rate: f64, lambda: f64, csr: &Csr<f64>) -> f64 {
        let mut squared_error_sum = 0.0;
        let mut count = 0;
        for triple in csr.triples() {
            squared_error_sum +=
                self.train(rate, lambda, triple.row, triple.column_value.column, triple.column_value.value);
            count += 1;
        }
        (squared_error_sum / count as f64).sqrt()
    }

    fn train(&mut self, rate: f64, lambda: f64, row_index: usize, column_index: usize, value: f64) -> f64 {
        let error = value - self.predict(row_index, column_index);
        self.base += rate * error;
        self.row_bases[row_index] += rate * (error - lambda * self.row_bases[row_index]);
        self.column_bases[column_index] += rate * (error - lambda * self.column_bases[column_index]);
        for i in 0..self.feature_count {
            self.row_features[row_index][i] +=
                rate * (error * self.column_features[column_index][i] - lambda * self.row_features[row_index][i]);
            self.column_features[column_index][i] +=
                rate * (error * self.row_features[row_index][i] - lambda * self.column_features[column_index][i]);
        }
        error * error
    }

    fn predict(&self, row_index: usize, column_index: usize) -> f64 {
        let dot = (0..self.feature_count)
            .fold(0.0, |acc, i| acc + self.row_features[row_index][i] * self.column_features[column_index][i]);
        self.base + self.row_bases[row_index] + self.column_bases[column_index] + dot
    }
}

#[test]
fn test_make_step() {
    // Build a matrix.
    let mut csr = Csr::new();
    csr.start();
    csr.next(0, 1.0).unwrap();
    csr.next(1, 2.0).unwrap();
    csr.start();
    csr.next(0, 3.0).unwrap();
    csr.next(2, 4.0).unwrap();
    csr.start();
    csr.next(1, 5.0).unwrap();
    csr.next(2, 6.0).unwrap();
    csr.start();
    // Build a model.
    let mut model = Model::new(3, 3, 1);
    // Train the model.
    const RATE: f64 = 0.001;
    const LAMBDA: f64 = 1.0;

    let mut previous_rmse = model.make_step(RATE, LAMBDA, &csr);
    for _ in 0..100 {
        let rmse = model.make_step(RATE, LAMBDA, &csr);
        assert!(rmse < previous_rmse);
        previous_rmse = rmse;
    }
}

#[test]
fn epoch_visits_every_entry_in_row_major_order() {
    let mut csr = Csr::new();
    csr.start();
    csr.next(0, 1.0).unwrap();
    csr.next(1, 2.0).unwrap();
    csr.start();
    csr.start();
    csr.next(1, 5.0).unwrap();
    csr.next(2, 6.0).unwrap();
    csr.start();
    let visited: Vec<(usize, usize, f64)> = csr
        .triples()
        .iter()
        .map(|triple| (triple.row, triple.column_value.column, triple.column_value.value))
        .collect();
    assert_eq!(visited, vec![(0, 0, 1.0), (0, 1, 2.0), (2, 1, 5.0), (2, 2, 6.0)]);
    assert_eq!(csr.row_count(), 3);
}
