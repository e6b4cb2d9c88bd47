//! Garbage collection for a Nix binary cache.
//!
//! A binary cache holds, for each store path that it serves, a record
//! `<hash>.narinfo` and an archive. Which of them are still wanted is
//! decided from a set of garbage-collector roots:
//!
//! - [`gcroots`] resolves the roots into the store paths they keep alive;
//! - [`dep_scan`] closes that set over the references and derivers that
//!   the records name, as [`closure`] defines it;
//! - [`sweep`] maps the closure back to files and lists every file of the
//!   cache that no reachable store path keeps.
//!
//! [`binary_cache`] is the table of records that were read, [`narinfo`]
//! the text format of a record, [`store_path`] the shape of paths below
//! the store, [`path_set`] the set type that the others share, [`text`]
//! what they need of strings, and [`report`] the messages on sizes.
//!
//! The library touches no file. Its caller walks directories, resolves
//! links, reads records and deletes, and tells the library what it found.

pub mod binary_cache;
pub mod closure;
pub mod dep_scan;
pub mod error;
pub mod gcroots;
pub mod narinfo;
pub mod path_set;
pub mod report;
pub mod store_path;
pub mod sweep;
pub mod text;
