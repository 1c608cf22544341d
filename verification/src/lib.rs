//! Resolves, for a binary package, the source packages behind its forward or
//! reverse dependencies: the textual record of a package-index query is
//! scanned for the sibling binaries built from the same source, each sibling
//! is expanded through an in-memory snapshot of the package database, and the
//! deduplicated, sorted result is serialized for file and console.

pub mod expand;
pub mod output;
pub mod query;
pub mod siblings;
pub mod text;
