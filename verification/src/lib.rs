//! Item-based collaborative filtering over per-account game statistics.
//!
//! The data flows one way: bytes are decoded into account records, the
//! records are folded into a sparse ratings table, the table is trained
//! into an item-item similarity model, and the predictor consults the
//! model.
//!
//! Ratings and scores are fixed-point numbers. A rating is kept as its
//! exact fraction of wins over battles and enters the arithmetic in
//! millionths; a score is a correlation in millionths, from minus one
//! million to one million.

pub mod buckets;
pub mod cf;
pub mod engine;
pub mod error;
pub mod model;
pub mod pearson;
pub mod persist;
pub mod predictor;
pub mod protobuf;
pub mod similarity;
pub mod stats;
pub mod stream;
pub mod trainer;
