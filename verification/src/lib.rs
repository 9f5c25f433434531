//! Incremental geocode cache and deterministic manifest generation.
//!
//! The library keeps a declarative place/trip configuration in sync with a
//! persisted cache of externally resolved coordinates.  It computes which
//! configured places still need an external lookup, turns the answers into
//! new cache entries under an all-or-nothing commit discipline, and emits a
//! deterministic, total manifest (identifier domains plus lookup tables)
//! from the merged configuration and cache.  All I/O — reading the
//! configuration, performing HTTP lookups, writing files — lives outside
//! this crate; the functions here work on plain values.

use vstd::prelude::*;

pub mod assets;
pub mod canon;
pub mod coords;
pub mod diff;
pub mod laws;
pub mod manifest;
pub mod model;
pub mod order;
pub mod resolve;
pub mod validate;

verus! {

/// The failure conditions of a synchronization or generation run.  Every
/// error aborts the run; none is retried.
#[derive(Clone, Copy, Debug, PartialEq, Eq, Structural)]
pub enum RunError {
    /// The configuration (or the country-code table) is structurally invalid.
    ConfigParseError,
    /// The persisted cache could not be interpreted.
    CacheParseError,
    /// An external lookup returned zero results for a query.
    LookupNotFound,
    /// A lower-level failure of the external lookup, including a
    /// malformed coordinate in its answer.
    LookupTransportError,
    /// A malformed date string or an unrecognized identifier.
    IdentifierMismatch,
    /// A trip or location refers to a place with no resolved coordinate.
    MissingCoordinate,
}

} // verus!
