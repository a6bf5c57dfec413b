//! Portfolio allocation over exact rational arithmetic.
//!
//! A price matrix (one row per observation date, one column per asset) is
//! turned into simple period returns, a sample covariance matrix and mean
//! returns, and one of five allocation algorithms produces a weight vector
//! that provably sums to one: unconstrained minimum-variance, long-only
//! minimum-variance, inverse-volatility risk parity, long-only
//! maximum-Sharpe tangency, and iterative equal-risk-contribution.
//!
//! All numbers are exact rationals over arbitrary-precision integers, so the
//! contracts state exact equalities rather than floating-point tolerances;
//! the only trusted surface is the thin set of big-integer wrappers in
//! `bignum`.

pub mod bignum;
pub mod rational;
pub mod vecops;
pub mod series;
pub mod estimator;
pub mod linsys;
pub mod solvers;
pub mod csv;
pub mod report;
