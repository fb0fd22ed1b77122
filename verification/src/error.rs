//! Failure kinds reported by the library.
//!
//! Absence of a record is never an error: lookups return `Option` instead.

use vstd::prelude::*;

verus! {

/// What went wrong with an operation.
///
/// `Validation` covers an empty `name` or `shop` and a `created_at` string
/// that is not a calendar date. `Storage` covers failures of the backing
/// store, such as an exhausted identifier space. `Io` is reserved for media
/// read/write failures at the filesystem edge, which the caller maps into
/// this type.
#[derive(Clone, Copy, Debug, PartialEq, Eq, Structural)]
pub enum Error {
    Validation,
    Storage,
    Io,
}

} // verus!
