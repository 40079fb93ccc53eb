//! Read-assignment and abundance estimation for transcript quantification:
//! the alignment filter, equivalence-class construction, and an
//! expectation-maximization estimator in exact fixed-point arithmetic.
pub mod em;
pub mod eqclass;
pub mod filter;
pub mod opts;
pub mod quant;
