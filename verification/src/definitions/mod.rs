//! The records that the registry and the lockfile hold.
pub mod lockfile;
pub mod package_metadata;
pub mod packument;

pub use lockfile::{ResolvedPackage, ResolvedPackages, WaveLockfile};
pub use package_metadata::{Dist, PackageMetadata};
pub use packument::Packument;
