//! Fligner-Killeen test for equality of variances: the verified core.
//!
//! Floating-point values cross into this library as their IEEE-754 bit
//! patterns (`u64`, as given by `f64::to_bits`). On those patterns the library
//! decides every question of order and equality exactly as `f64::total_cmp`
//! and `f64 == ` decide them: sorting, order statistics, tie-averaged ranking.
//! It also holds the grammar of the two input layouts and the checks that
//! the test makes on its groups.

pub mod center;
pub mod error;
pub mod groups;
pub mod layout;
pub mod order;
pub mod rank;
pub mod sort;
pub mod text;

pub use center::{Center, CenterArg};
pub use error::FlignerError;
pub use layout::{parse_column, parse_long};
pub use rank::rankdata_average;
