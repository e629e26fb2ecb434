//! Machine-learned segmentation of script-dense text into semantically
//! coherent chunks.
//!
//! The library scores every position between two adjacent characters of an
//! input sentence with a fixed linear model over overlapping character
//! n-gram features and splits the sentence wherever the score is positive.

pub mod models;
pub mod parser;

pub use models::Model;
pub use parser::Parser;
