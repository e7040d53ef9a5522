//! Creating the manifest of a new project.
use vstd::prelude::*;
use crate::package::{Package, has_fresh_fields};
use crate::str_map::opt_text;

verus! {

/// How a project is initialised.
pub struct InitFlags {
    pub yes: bool,
}

/// What the warning about answering yes to everything says.
pub open spec fn yes_warning_text() -> Seq<char> {
    "The yes flag has been set. This will automatically answer yes to all questions, which may have security implications."@
}

/// The warning shown when every question is to be answered yes.
pub fn yes_warning(flags: &InitFlags) -> (r: Option<&'static str>)
    ensures
        r is Some <==> flags.yes,
        r matches Some(m) ==> m@ == yes_warning_text(),
{
    if flags.yes {
        Some(
            "The yes flag has been set. This will automatically answer yes to all questions, which may have security implications.",
        )
    } else {
        None
    }
}

/// The manifest of a new project: named as given, or else after the
/// directory it is created in (`cwd`, which the caller only needs to read
/// where no name is given); every other field fresh.
pub fn initial_package(name: Option<String>, cwd: Option<String>) -> (r: Package)
    ensures
        opt_text(r.name) == match name {
            Some(n) => Some(n@),
            None => opt_text(cwd),
        },
        has_fresh_fields(r),
{
    let name = match name {
        Some(n) => Some(n),
        None => cwd,
    };
    let fresh = Package::default();
    Package {
        name,
        version: fresh.version,
        main: fresh.main,
        author: fresh.author,
        license: fresh.license,
        dependencies: fresh.dependencies,
        dev_dependencies: fresh.dev_dependencies,
    }
}

} // verus!
