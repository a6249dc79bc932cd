//! Numeric core for rating prediction over a sparse account-by-item matrix.
//!
//! The crate holds the combinatorial half of each component, the half that
//! does not depend on how ratings are added and multiplied:
//!
//! - `csr`: the sparse matrix, its append-only build protocol and its
//!   transpose; `coo` holds the coordinate lists that the transpose goes
//!   through, and `transposition` what holds of the result;
//! - `corr`: the merge walk that finds the columns two rows share, over which
//!   a correlation is taken;
//! - `kmeans`: the state of a clustering model, which rows take part in a
//!   step, how assignments change, and the counts behind the centroids;
//! - `protobuf` and `stats`: the decoder of the statistics feed;
//! - `sampling`: the random split of ratings into a train and a test matrix.
//!
//! The matrix is generic in the type of its cells, so the arithmetic on the
//! ratings stays with the caller.

pub mod coo;
pub mod corr;
pub mod csr;
pub mod kmeans;
pub mod protobuf;
pub mod sampling;
pub mod stats;
pub mod transposition;
