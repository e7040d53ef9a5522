//! One version of a package, as the registry describes it.
use vstd::prelude::*;
use crate::str_map::StrMap;

verus! {

/// The registry's description of one version of a package.
pub struct PackageMetadata {
    pub name: String,
    pub version: String,
    pub dependencies: Option<StrMap<String>>,
    pub dist: Dist,
    /// Executables the package provides: link name to path inside the package.
    pub bin: Option<StrMap<String>>,
}

/// Where the tarball of a package version is, and how to check it.
pub struct Dist {
    pub tarball: String,
    pub shasum: String,
    pub integrity: Option<String>,
}

} // verus!
