//! A minimal version-control core: a content-addressed object store, a flat
//! staging index, a linear commit/branch graph, and checkout planning that
//! reconciles a stored snapshot with the working tree.
//!
//! All repository state lives in an explicit [`repo::Repository`] handle; the
//! surrounding command layer performs the filesystem reads and writes and
//! hands this library plain values.

pub mod digest;
pub mod errors;
pub mod codec;
pub mod commit;
pub mod index;
pub mod numerals;
pub mod repo;
pub mod store;
