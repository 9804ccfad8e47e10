//! A small content-addressed version control library: object hashing, the
//! staging index, commit-graph queries, checkout and three-way merge
//! planning, and a line-oriented Myers diff.
pub mod error;
pub mod path;
pub mod file_map;
pub mod working;
pub mod merge;
pub mod checkout;
pub mod index;
pub mod add;
pub mod status;
pub mod graph;
pub mod hash;
pub mod parser;
pub mod diff;
pub mod commit;
pub mod log;
