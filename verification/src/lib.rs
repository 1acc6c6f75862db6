//! Release discovery and asset resolution for the WasmEdge runtime installer.
//!
//! The crate parses semantic versions out of git tag references and paginated
//! HTML release listings, filters them by stability, orders them newest-first,
//! and maps a (version, OS, architecture) triple to the exact distribution
//! archive name and the directory it unpacks into.

use vstd::prelude::*;

pub mod args;
pub mod asset;
pub mod paged;
pub mod platform;
pub mod releases;
pub mod scan;
pub mod text;
pub mod version;

verus! {

/// Errors surfaced by release discovery.
#[derive(Debug, PartialEq, Eq, Structural, Clone, Copy)]
pub enum Error {
    /// A tag or captured substring did not parse as a semantic version.
    SemVer,
    /// A listing page fetch failed with something other than "not found".
    Request,
    /// Nothing was available where at least one release was expected.
    Unknown,
}

} // verus!
