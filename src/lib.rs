//! Tracks the feature flags found in successive builds of a browser binary.
//!
//! - `order`, `text`: the lexicographic orders under version identifiers and
//!   flag names.
//! - `version`: comparing, sorting and picking version identifiers.
//! - `flags`: flag sets, the filter that finds flag names in extracted text,
//!   and the added/removed diff.
//! - `store`: the snapshot store, the resolver of the previous build, and the
//!   processing of a new build.
//! - `install`: the decisions around installing a new build.
//! - `notes`: the README section, release notes and launcher script.

pub mod order;
pub mod text;
pub mod version;
pub mod flags;
pub mod store;
pub mod install;
pub mod notes;
