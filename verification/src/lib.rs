//! A file-system analyzer: size aggregation, bounded top-K ranking, duplicate
//! detection and filtered search over the entries of a directory walk.
//!
//! The library works on plain values. A caller walks the tree, hands every
//! entry to the library and performs the file reads the library asks for; all
//! counting, ranking, grouping and filtering happens here.
//!
//! - [`analyzer`] takes in the entries of a walk one by one and reports a
//!   summary; [`census`] says what that summary is, over the sequence of
//!   entries.
//! - [`selector`] keeps the largest entries of a stream; [`ranking`] says in
//!   which order.
//! - [`duplicates`] groups files of one size by content digest; [`digest`]
//!   computes the digests.
//! - [`search`] filters files by name, content, time and size.
//! - [`laws`] and [`group_laws`] prove what holds of every analysis and search.

pub mod analyzer;
pub mod census;
pub mod digest;
pub mod duplicates;
pub mod error;
pub mod group_laws;
mod keyindex;
pub mod laws;
pub mod model;
pub mod options;
pub mod paths;
pub mod pattern;
pub mod ranking;
pub mod search;
pub mod selector;
mod tally;
pub mod utils;

