//! Command-line argument classifier.
//!
//! A flat sequence of string tokens is grouped into named options and their
//! values in one left-to-right pass.  A token starting with `-` names a new
//! option unless the whole token reads as a signed decimal number literal, in
//! which case it is a value of the most recently named option; any other
//! non-empty token is such a value too.  The resulting map is queried through
//! a small lookup facade with optional default substitution.

pub mod laws;
pub mod number;
pub mod opt;
