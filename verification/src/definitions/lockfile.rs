//! The lockfile: the exact package versions an install resolved to.
use vstd::prelude::*;
use crate::str_map::{StrMap, opt_text, opt_text_map, copy_opt_text, copy_opt_text_map};
use crate::semver::{VersionRange, parse_version, parsed_version, range_parses, range_admits, range_text_safe};

verus! {

/// The lockfile: one resolved entry per package name.
pub struct WaveLockfile {
    pub lockfile_version: u32,
    pub packages: ResolvedPackages,
}

/// Resolved packages, by package name.
pub type ResolvedPackages = StrMap<ResolvedPackage>;

/// How one package was resolved.
pub struct ResolvedPackage {
    pub version: String,
    pub resolved: String,
    pub integrity: Option<String>,
    pub dependencies: Option<StrMap<String>>,
}

/// The value of a resolved package.
pub struct ResolvedPackageView {
    pub version: Seq<char>,
    pub resolved: Seq<char>,
    pub integrity: Option<Seq<char>>,
    pub dependencies: Option<Map<Seq<char>, Seq<char>>>,
}

impl View for ResolvedPackage {
    type V = ResolvedPackageView;

    open spec fn view(&self) -> ResolvedPackageView {
        ResolvedPackageView {
            version: self.version@,
            resolved: self.resolved@,
            integrity: opt_text(self.integrity),
            dependencies: opt_text_map(self.dependencies),
        }
    }
}

/// A map of resolved packages, seen by value.
pub open spec fn packages_view(m: Map<Seq<char>, ResolvedPackage>) -> Map<Seq<char>, ResolvedPackageView> {
    m.map_values(|p: ResolvedPackage| p@)
}

impl ResolvedPackage {
    /// A copy of this entry.
    pub fn duplicate(&self) -> (r: ResolvedPackage)
        ensures
            r@ == self@,
    {
        ResolvedPackage {
            version: self.version.clone(),
            resolved: self.resolved.clone(),
            integrity: copy_opt_text(&self.integrity),
            dependencies: copy_opt_text_map(&self.dependencies),
        }
    }
}

/// The locked entry for `name` that `version` may use: the entry exists, its
/// version parses as a range, `version` parses as a version, and the range
/// admits it.
pub open spec fn locked_entry(
    packages: Map<Seq<char>, ResolvedPackage>,
    name: Seq<char>,
    version: Seq<char>,
) -> Option<ResolvedPackageView> {
    if packages.contains_key(name) && range_parses(packages[name].version@) && parsed_version(
        version,
    ) is Some && range_admits(packages[name].version@, parsed_version(version)->0) {
        Some(packages[name]@)
    } else {
        None
    }
}

/// A locked entry is reused exactly when the lockfile holds the package, the
/// range it recorded parses, the requested version parses, and that range
/// admits it; what is reused is then the recorded entry, unchanged. A
/// version the recorded range does not admit is never served from the
/// lockfile.
pub proof fn lemma_locked_entry_only_when_admitted(
    packages: Map<Seq<char>, ResolvedPackage>,
    name: Seq<char>,
    version: Seq<char>,
)
    ensures
        locked_entry(packages, name, version) is Some <==> ({
            &&& packages.contains_key(name)
            &&& range_parses(packages[name].version@)
            &&& parsed_version(version) is Some
            &&& range_admits(packages[name].version@, parsed_version(version)->0)
        }),
        locked_entry(packages, name, version) matches Some(p) ==> p == packages[name]@,
        parsed_version(version) matches Some(v) ==> (packages.contains_key(name) && !range_admits(
            packages[name].version@,
            v,
        ) ==> locked_entry(packages, name, version) is None),
{
}

/// Whether the range locked for `name`, if any, is one the range parser can
/// read without stopping (see `range_text_safe`).
pub open spec fn locked_range_safe(packages: Map<Seq<char>, ResolvedPackage>, name: Seq<char>) -> bool {
    packages.contains_key(name) ==> range_text_safe(packages[name].version@)
}

impl WaveLockfile {
    /// A lockfile of the current format holding `packages`.
    pub fn new(packages: ResolvedPackages) -> (r: Self)
        ensures
            r.lockfile_version == 1,
            r.packages == packages,
    {
        Self { lockfile_version: 1, packages }
    }

    /// The file name of the lockfile, relative to the project.
    pub fn location() -> (r: &'static str)
        ensures
            r@ == "wave.lock"@,
    {
        "wave.lock"
    }

    /// The locked entry of `name`, if the range it records admits `version`.
    pub fn get_package(&self, name: &str, version: &str) -> (r: Option<ResolvedPackage>)
        requires
            locked_range_safe(self.packages@, name@),
        ensures
            match r {
                Some(p) => locked_entry(self.packages@, name@, version@) == Some(p@),
                None => locked_entry(self.packages@, name@, version@) is None,
            },
    {
        match self.packages.get(name) {
            None => None,
            Some(locked_package) => match VersionRange::parse(locked_package.version.as_str()) {
                Err(_) => None,
                Ok(range) => match parse_version(version) {
                    None => None,
                    Some(v) => {
                        if range.satisfies(&v) {
                            Some(locked_package.duplicate())
                        } else {
                            None
                        }
                    },
                },
            },
        }
    }
}

} // verus!
