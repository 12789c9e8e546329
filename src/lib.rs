//! The verified core of a feed-forward neural network trainer.
//!
//! - `matrix`: a dense column-major matrix with shape-checked element-wise
//!   operations, products, row sums, batching and column reordering; the
//!   element arithmetic is handed in as closures.
//! - `algebra`: associativity of the matrix product over any semiring.
//! - `layers`: the single-use forward cache of a layer, the affine layer's
//!   forward pass and gradients, and the rectifier layer.
//! - `metrics`: predicted and true classes of a batch, and their agreement.
//! - `training`: the epoch schedule and the joint shuffling of samples and
//!   labels.
//! - `callbacks`: the early-stopping counter and the debug callback.
//! - `data`: one-hot targets and the checks on loaded data.

pub mod algebra;
pub mod callbacks;
pub mod data;
pub mod layers;
pub mod matrix;
pub mod metrics;
pub mod training;
