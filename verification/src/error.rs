//! The ways in which a lookup in the cache can fail.

use vstd::prelude::*;

verus! {

/// Why a metadata record could not be had.
#[derive(Clone, Copy, Debug, PartialEq, Eq, Structural)]
pub enum CacheError {
    /// The path is not of the form `<store>/<hash>-<name>`.
    InvalidStorePath,
    /// No record exists for the hash.
    NotFound,
    /// The record exists but could not be read.
    Io,
}

} // verus!
