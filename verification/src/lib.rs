//! Intersection: a verified core for the Discord Role Query Language (DRQL).
//!
//! DRQL expresses a target audience as boolean combinations (union,
//! intersection, difference) of named groups and individual identities,
//! embedded in free-form text between `@{` and `}`. This crate provides the
//! scanner, lexer, parser, interpreter and set optimizer, each with a
//! machine-checked contract.

pub mod bits;
pub mod digits;
pub mod drql;
pub mod drql_reducer;
pub mod idset;
pub mod mention;
pub mod query;
pub mod textwrap;
pub mod unionize_set;
