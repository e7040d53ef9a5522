//! Recording newly installed packages in the manifest.
use vstd::prelude::*;
use crate::package::Package;
use crate::str_map::{StrMap, text_map, opt_text_map};
use crate::utils::{DependencyTree, direct_versions, versions_by_name, lemma_direct_versions_names};

verus! {

broadcast use vstd::seq::group_seq_axioms;

/// How packages are added: as development dependencies or regular ones,
/// and whether to record exact versions.
pub struct AddFlags {
    pub development: bool,
    pub exact: bool,
}

/// A dependency section after recording `updated` in it: the updated
/// versions over the section's own, or just them where there was none.
pub open spec fn merged_section(
    old: Option<StrMap<String>>,
    updated: Map<Seq<char>, Seq<char>>,
) -> Map<Seq<char>, Seq<char>> {
    match old {
        Some(m) => text_map(m@).union_prefer_right(updated),
        None => updated,
    }
}

/// A section with `updated` recorded over what it had.
fn merge_section(old: Option<StrMap<String>>, updated: StrMap<String>) -> (r: Option<StrMap<String>>)
    ensures
        opt_text_map(r) == Some(merged_section(old, text_map(updated@))),
{
    match old {
        Some(mut prev) => {
            let ghost before = prev@;
            let ghost upd = updated@;
            prev.extend(updated);
            assert(text_map(prev@) =~= text_map(before).union_prefer_right(text_map(upd)));
            Some(prev)
        },
        None => Some(updated),
    }
}

/// Records the installed packages in the manifest: the root name and version
/// of each installed tree (a later tree wins over an earlier one of the same
/// name) go into the development dependencies or the regular ones, over the
/// versions the section had. Nothing else changes.
pub fn add_to_package(package: Package, installed_deps: &[DependencyTree], flags: &AddFlags) -> (r:
    Package)
    ensures
        flags.development ==> opt_text_map(r.dev_dependencies) == Some(
            merged_section(package.dev_dependencies, direct_versions(installed_deps@)),
        ) && r.dependencies == package.dependencies,
        !flags.development ==> opt_text_map(r.dependencies) == Some(
            merged_section(package.dependencies, direct_versions(installed_deps@)),
        ) && r.dev_dependencies == package.dev_dependencies,
        r.name == package.name,
        r.version == package.version,
        r.main == package.main,
        r.author == package.author,
        r.license == package.license,
{
    let updated = versions_by_name(installed_deps);
    let Package { name, version, main, author, license, dependencies, dev_dependencies } = package;
    if flags.development {
        let dev_dependencies = merge_section(dev_dependencies, updated);
        Package { name, version, main, author, license, dependencies, dev_dependencies }
    } else {
        let dependencies = merge_section(dependencies, updated);
        Package { name, version, main, author, license, dependencies, dev_dependencies }
    }
}

/// The version recorded for a name is that of the last tree of that name.
pub proof fn lemma_direct_versions_last(ts: Seq<DependencyTree>, i: int)
    requires
        0 <= i < ts.len(),
        forall|j: int| i < j < ts.len() ==> (#[trigger] ts[j]).name@ != ts[i].name@,
    ensures
        direct_versions(ts).contains_key(ts[i].name@),
        direct_versions(ts)[ts[i].name@] == ts[i].version@,
    decreases ts.len(),
{
    if i < ts.len() - 1 {
        let p = ts.drop_last();
        assert forall|j: int| i < j < p.len() implies (#[trigger] p[j]).name@ != p[i].name@ by {
            assert(p[j] == ts[j]);
        }
        lemma_direct_versions_last(p, i);
        assert(ts.last() == ts[ts.len() - 1]);
    }
}

/// After adding packages, the section they went into maps each added name to
/// the version of the last installed tree of that name, whatever the section
/// held before.
pub proof fn lemma_added_versions_recorded(
    old: Option<StrMap<String>>,
    installed: Seq<DependencyTree>,
    i: int,
)
    requires
        0 <= i < installed.len(),
        forall|j: int| i < j < installed.len() ==> (#[trigger] installed[j]).name@ != installed[i].name@,
    ensures
        merged_section(old, direct_versions(installed)).contains_key(installed[i].name@),
        merged_section(old, direct_versions(installed))[installed[i].name@] == installed[i].version@,
{
    lemma_direct_versions_last(installed, i);
}

/// Adding packages keeps what the section held for every name that was not
/// added, and afterwards the section holds exactly the names it held and
/// the added ones.
pub proof fn lemma_merge_keeps_other_entries(old: Option<StrMap<String>>, installed: Seq<DependencyTree>)
    ensures
        forall|k: Seq<char>|
            merged_section(old, direct_versions(installed)).contains_key(k) <==> ((old matches Some(
                m,
            ) && m@.contains_key(k)) || exists|i: int|
                0 <= i < installed.len() && (#[trigger] installed[i]).name@ == k),
        old matches Some(m) ==> forall|k: Seq<char>|
            m@.contains_key(k) && (forall|i: int|
                0 <= i < installed.len() ==> (#[trigger] installed[i]).name@ != k) ==> merged_section(
                old,
                direct_versions(installed),
            )[k] == (#[trigger] m@[k])@,
{
    lemma_direct_versions_names(installed);
}

} // verus!
