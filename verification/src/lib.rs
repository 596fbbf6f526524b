//! Simplified integer ratios by way of factor lists.

pub mod decimal;
pub mod divisors;
pub mod math;
