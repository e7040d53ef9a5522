//! A package document of the registry: every published version of a package.
use vstd::prelude::*;
use crate::str_map::StrMap;
use crate::definitions::package_metadata::PackageMetadata;

verus! {

/// Every version the registry has of one package, and its distribution tags
/// (such as `latest`), each naming a version.
pub struct Packument {
    pub name: String,
    pub dist_tags: StrMap<String>,
    pub versions: StrMap<PackageMetadata>,
}

} // verus!
