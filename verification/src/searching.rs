//! Searching algorithms.

pub mod binary_search;
pub mod exponential_search;
pub mod interpolation_search;
pub mod linear_search;

pub use binary_search::binary_search;
pub use exponential_search::exponential_search;
pub use interpolation_search::interpolation_search;
pub use linear_search::linear_search;
