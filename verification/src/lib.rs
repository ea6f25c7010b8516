//! Exact-arithmetic linear-program solver: Big-M simplex with Bland's rule.
//!
//! A `Problem` (maximize or minimize a linear objective under `<=`, `>=`, `=`
//! constraints with non-negative variables) is standardized into a `Tableau`
//! and pivoted to one of four terminal states. All numbers are exact
//! rationals over `i64`; every arithmetic step is checked, and a solve
//! reports `None` when a value leaves the representable range.

pub mod engine;
pub mod laws;
pub mod model;
pub mod solver;
pub mod standardize;
pub mod rat;
