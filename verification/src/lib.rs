//! Running median of a stream of IEEE 754 values, kept in two binary heaps.
pub mod binary;
pub mod float_utils;
pub mod heap;
pub mod ieee;
pub mod median;
pub mod round;
pub mod sorted;

pub use median::Median;
