//! Dependency resolution and installation planning for game mods whose
//! versions are constrained by each other, by the platform version and by
//! the loader installed.

use vstd::prelude::*;

/// Installation planning: artifacts, storage paths, checksums, the instance record.
pub mod install;
/// The registry of mods: metadata of each version and lookups.
pub mod registry;
/// Version requirements written in the requirement syntax.
pub mod req;
/// The resolver: one version for a mod and everything it needs.
pub mod resolve;
/// Versions, ranges of versions and their algebra.
pub mod version;
