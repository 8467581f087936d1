//! A collection of classic data structures and algorithms, with machine-checked
//! specifications: sorted and hashed containers, a skip list, sorting and
//! searching routines, and string-distance measures.

pub mod collections;
pub mod searching;
pub mod sorting;

mod hamming_distance;
mod keys;
mod levenshtein_distance;

pub use hamming_distance::{hamming_distance, hamming_distance_str};
pub use levenshtein_distance::{levenshtein_distance, levenshtein_distance_naive};
pub use keys::{HashKey, KeyOrdering, TotalOrder};
