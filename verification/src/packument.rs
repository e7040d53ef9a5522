//! The abbreviated registry record of one package version.
use vstd::prelude::*;

verus! {

/// One version of a package, as the registry's abbreviated record gives it.
pub struct Packument {
    pub name: String,
    pub version: String,
    pub dist: Dist,
}

/// Where the tarball of that version is, and how to check it.
pub struct Dist {
    pub tarball: String,
    pub shasum: String,
    pub integrity: String,
}

} // verus!
