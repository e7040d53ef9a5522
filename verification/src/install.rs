//! Installing the dependencies a manifest declares.
use vstd::prelude::*;
use crate::package::Package;
use crate::utils::{dependency_requests, map_entries, pair_texts};

verus! {

/// The packages to resolve for a manifest, as (name, version) requests: the
/// regular dependencies in name order, then the development dependencies in
/// name order.
pub fn install_requests(package: &Package) -> (r: Vec<(String, String)>)
    ensures
        pair_texts(r@) == map_entries(package.dependencies) + map_entries(package.dev_dependencies),
{
    let mut r = dependency_requests(&package.dependencies);
    let mut dev = dependency_requests(&package.dev_dependencies);
    let ghost a = r@;
    let ghost b = dev@;
    r.append(&mut dev);
    assert(pair_texts(r@) =~= pair_texts(a) + pair_texts(b));
    r
}

} // verus!
