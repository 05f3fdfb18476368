//! Neighbourhood-based recommendation over rating stores: rating vectors,
//! a per-user mean cache with frequency-based eviction, tiles of the
//! item-by-item matrix, nearest-neighbour selection and predictions.
//!
//! Numeric values are carried as ordinals: integers that order and negate
//! exactly as the finite reals they stand for. The arithmetic of a metric
//! or of a prediction is handed in as a kernel, a function from the paired
//! terms to an ordinal; the library decides what is paired, when a metric
//! has a value, and what becomes of it.
pub mod chunked_matrix;
pub mod chunks;
pub mod config;
pub mod deviation;
pub mod distances;
pub mod engine;
pub mod entity;
pub mod error;
pub mod grouping;
pub mod knn;
pub mod mean_cache;
pub mod pairing;
pub mod prediction;
pub mod ratings;
pub mod score;
pub mod similarity;
pub mod store;
pub mod tile;
