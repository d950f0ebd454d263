//! Unit-conversion core: an expression language over a single free variable
//! `x`, and a directed conversion graph whose edges carry parsed expressions.
//!
//! A definition document declares relations such as `km -> m: x * 1000`; the
//! graph built from it is queried by a minimal-hop path search that chains the
//! edge expressions to convert a value from one unit to another.

pub mod calculation;
pub mod cli;
pub mod config;
pub mod decimal;
pub mod parse;
