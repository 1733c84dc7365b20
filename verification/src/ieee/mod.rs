//! Binary floating point in integers.
//!
//! Times, pixel positions and gains are IEEE 754 numbers. This module gives them
//! a meaning over the mathematical integers ([`model`]), proves a correctly
//! rounding implementation against that meaning ([`engine`]), and wraps it in the
//! two types the rest of the crate uses, [`Double`] and [`Single`].

pub mod engine;
pub mod facts;
pub mod laws;
pub mod model;
pub mod near;
pub mod numbers;

pub use numbers::{double, single, Double, Single};
