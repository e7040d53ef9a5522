//! Dependency trees: resolving them, flattening them into lockfile entries,
//! and the order and layout in which they are installed.
use vstd::prelude::*;
use crate::str_map::{StrMap, text_map, opt_text, opt_text_map, copy_opt_text, copy_opt_text_map};
use crate::definitions::lockfile::{ResolvedPackage, ResolvedPackages, ResolvedPackageView, WaveLockfile, packages_view, locked_entry, locked_range_safe};
use crate::definitions::packument::Packument;
use crate::definitions::package_metadata::PackageMetadata;
use crate::order::Order;
use crate::semver::{VersionRange, SemVersion, range_text_safe, range_text_is_safe, parse_version, parsed_version, range_parses, range_admits, version_order, compare_versions, lemma_version_order_flip, lemma_version_order_trans, lemma_version_order_reflexive, numbers_below, lemma_numbers_decide_order};
use crate::add::lemma_direct_versions_last;
use node_semver::SemverError;

verus! {

broadcast use vstd::seq::group_seq_axioms;

/// A package resolved to one version, with the trees of its own dependencies.
pub struct DependencyTree {
    pub name: String,
    pub version: String,
    pub resolved: String,
    pub integrity: Option<String>,
    pub symlinks: Option<StrMap<String>>,
    pub dependencies: Vec<DependencyTree>,
}

/// A forest shrinks both to its first trees and to the dependencies of its
/// last tree.
pub proof fn lemma_forest_decreases(ts: Seq<DependencyTree>)
    requires
        ts.len() > 0,
    ensures
        decreases_to!(ts => ts.drop_last()),
        decreases_to!(ts => ts.last().dependencies@),
{
    let t = ts.last();
    assert(ts.drop_last() =~= ts.subrange(0, ts.len() - 1));
    assert(decreases_to!(ts => ts[ts.len() - 1]));
    assert(decreases_to!(t => t.dependencies));
    assert(decreases_to!(t.dependencies => t.dependencies@));
}

/// The versions of a list of trees by package name; a later tree wins over
/// an earlier one of the same name.
pub open spec fn direct_versions(ts: Seq<DependencyTree>) -> Map<Seq<char>, Seq<char>>
    decreases ts.len(),
{
    if ts.len() == 0 {
        Map::empty()
    } else {
        direct_versions(ts.drop_last()).insert(ts.last().name@, ts.last().version@)
    }
}

/// The names `direct_versions` records are exactly those of the trees.
pub proof fn lemma_direct_versions_names(ts: Seq<DependencyTree>)
    ensures
        forall|k: Seq<char>|
            direct_versions(ts).contains_key(k) <==> exists|i: int|
                0 <= i < ts.len() && (#[trigger] ts[i]).name@ == k,
    decreases ts.len(),
{
    if ts.len() > 0 {
        let p = ts.drop_last();
        lemma_direct_versions_names(p);
        assert(direct_versions(ts) == direct_versions(p).insert(ts.last().name@, ts.last().version@));
        assert forall|k: Seq<char>|
            direct_versions(ts).contains_key(k) <==> exists|i: int|
                0 <= i < ts.len() && (#[trigger] ts[i]).name@ == k by {
            if direct_versions(ts).contains_key(k) {
                if k == ts.last().name@ {
                    assert(ts[ts.len() - 1].name@ == k);
                } else {
                    assert(direct_versions(p).contains_key(k));
                    let i = choose|i: int| 0 <= i < p.len() && (#[trigger] p[i]).name@ == k;
                    assert(ts[i] == p[i]);
                }
            }
            if exists|i: int| 0 <= i < ts.len() && (#[trigger] ts[i]).name@ == k {
                let i = choose|i: int| 0 <= i < ts.len() && (#[trigger] ts[i]).name@ == k;
                if i < ts.len() - 1 {
                    assert(p[i] == ts[i]);
                }
            }
        }
    }
}

/// The lockfile entry of one tree's root: its version, tarball and integrity,
/// and the versions of its direct dependencies (none when it has none).
pub open spec fn resolved_entry(t: DependencyTree) -> ResolvedPackageView {
    ResolvedPackageView {
        version: t.version@,
        resolved: t.resolved@,
        integrity: opt_text(t.integrity),
        dependencies: if t.dependencies@.len() == 0 {
            None
        } else {
            Some(direct_versions(t.dependencies@))
        },
    }
}

/// The lockfile entry of a tree holds its version, tarball and integrity.
/// It records the tree's direct dependencies by name: every name among them
/// and no other, each with the version of the last dependency of that
/// name. A tree without dependencies records none.
pub proof fn lemma_entry_records_direct_dependencies(t: DependencyTree)
    ensures
        resolved_entry(t).version == t.version@,
        resolved_entry(t).resolved == t.resolved@,
        resolved_entry(t).integrity == opt_text(t.integrity),
        resolved_entry(t).dependencies is None <==> t.dependencies@.len() == 0,
        resolved_entry(t).dependencies matches Some(m) ==> (forall|k: Seq<char>|
            m.contains_key(k) <==> exists|i: int|
                0 <= i < t.dependencies@.len() && (#[trigger] t.dependencies@[i]).name@ == k),
        resolved_entry(t).dependencies matches Some(m) ==> forall|i: int|
            0 <= i < t.dependencies@.len() && (forall|j: int|
                i < j < t.dependencies@.len() ==> (#[trigger] t.dependencies@[j]).name@
                    != t.dependencies@[i].name@) ==> m[(#[trigger] t.dependencies@[i]).name@]
                == t.dependencies@[i].version@,
{
    let ds = t.dependencies@;
    lemma_direct_versions_names(ds);
    assert forall|i: int|
        0 <= i < ds.len() && (forall|j: int| i < j < ds.len() ==> (#[trigger] ds[j]).name@ != ds[i].name@)
        implies direct_versions(ds)[(#[trigger] ds[i]).name@] == ds[i].version@ by {
        lemma_direct_versions_last(ds, i);
    }
}

/// The lockfile entries of a forest. The trees are taken in order; each adds
/// its root's entry and then, over it, the entries of its own dependencies.
pub open spec fn flattened(ts: Seq<DependencyTree>) -> Map<Seq<char>, ResolvedPackageView>
    decreases ts,
{
    if ts.len() == 0 {
        Map::empty()
    } else {
        let t = ts.last();
        proof {
            lemma_forest_decreases(ts);
        }
        flattened(ts.drop_last()).insert(t.name@, resolved_entry(t)).union_prefer_right(
            flattened(t.dependencies@),
        )
    }
}

/// Every package name that occurs anywhere in a forest.
pub open spec fn forest_names(ts: Seq<DependencyTree>) -> Set<Seq<char>>
    decreases ts,
{
    if ts.len() == 0 {
        Set::empty()
    } else {
        let t = ts.last();
        proof {
            lemma_forest_decreases(ts);
        }
        forest_names(ts.drop_last()).insert(t.name@).union(forest_names(t.dependencies@))
    }
}

/// The version of each tree's root, by package name (a later tree wins over
/// an earlier one of the same name).
pub fn versions_by_name(ts: &[DependencyTree]) -> (r: StrMap<String>)
    ensures
        text_map(r@) == direct_versions(ts@),
        r.coherent(),
{
    let mut m: StrMap<String> = StrMap::new();
    let n = ts.len();
    assert(text_map(m@) =~= Map::empty());
    for j in 0..n
        invariant
            n == ts@.len(),
            text_map(m@) == direct_versions(ts@.take(j as int)),
            m.coherent(),
    {
        let d = &ts[j];
        let ghost before = m@;
        m.insert(d.name.clone(), d.version.clone());
        assert(ts@.take(j + 1).drop_last() =~= ts@.take(j as int));
        assert(text_map(m@) =~= text_map(before).insert(d.name@, d.version@));
    }
    assert(ts@.take(n as int) =~= ts@);
    m
}

/// Flattens dependency trees into lockfile entries by package name. Trees
/// are taken in order; a tree's own dependencies are flattened after its
/// root's entry is stored, so later entries replace earlier ones of the same
/// name.
pub fn flatten_deps(dependency_tree: &[DependencyTree]) -> (r: ResolvedPackages)
    ensures
        packages_view(r@) == flattened(dependency_tree@),
        r.coherent(),
    decreases dependency_tree@,
{
    let mut acc: ResolvedPackages = StrMap::new();
    let n = dependency_tree.len();
    assert(packages_view(acc@) =~= Map::empty());
    for i in 0..n
        invariant
            n == dependency_tree@.len(),
            packages_view(acc@) == flattened(dependency_tree@.take(i as int)),
            acc.coherent(),
    {
        let x = &dependency_tree[i];
        let dependencies = if x.dependencies.len() == 0 {
            None
        } else {
            Some(versions_by_name(x.dependencies.as_slice()))
        };
        let entry = ResolvedPackage {
            version: x.version.clone(),
            resolved: x.resolved.clone(),
            integrity: copy_opt_text(&x.integrity),
            dependencies,
        };
        assert(entry@ == resolved_entry(*x));
        let ghost before = acc@;
        acc.insert(x.name.clone(), entry);
        assert(packages_view(acc@) =~= packages_view(before).insert(x.name@, entry@));
        let ghost mid = acc@;
        proof {
            assert(decreases_to!(dependency_tree@ => x.dependencies@)) by {
                assert(decreases_to!(dependency_tree@ => dependency_tree@[i as int]));
                assert(decreases_to!(*x => x.dependencies));
                assert(decreases_to!(x.dependencies => x.dependencies@));
            }
        }
        let nested = flatten_deps(x.dependencies.as_slice());
        let ghost nested_map = nested@;
        acc.extend(nested);
        assert(packages_view(acc@) =~= packages_view(mid).union_prefer_right(
            packages_view(nested_map),
        ));
        assert(dependency_tree@.take(i + 1).drop_last() =~= dependency_tree@.take(i as int));
    }
    assert(dependency_tree@.take(n as int) =~= dependency_tree@);
    acc
}

/// Flattening stores exactly the package names that occur in the forest.
pub proof fn lemma_flattened_names(ts: Seq<DependencyTree>)
    ensures
        flattened(ts).dom() == forest_names(ts),
    decreases ts,
{
    if ts.len() > 0 {
        let t = ts.last();
        lemma_forest_decreases(ts);
        lemma_flattened_names(ts.drop_last());
        lemma_flattened_names(t.dependencies@);
        assert(flattened(ts).dom() =~= forest_names(ts));
    } else {
        assert(flattened(ts).dom() =~= forest_names(ts));
    }
}

/// Why no version of a package could be chosen.
pub enum ResolveError {
    /// The requested version (or the version its tag names) is not a range.
    InvalidRange(SemverError),
    /// No published version lies in the range.
    NoMatchingVersion,
}

/// The range a request stands for: the version a distribution tag of that
/// name points to, or else the request itself.
pub open spec fn requested_range(dist_tags: Map<Seq<char>, String>, requested: Seq<char>) -> Seq<char> {
    if dist_tags.contains_key(requested) {
        dist_tags[requested]@
    } else {
        requested
    }
}

/// Whether a published version parses and lies in the range.
pub open spec fn admitted(range: Seq<char>, key: Seq<char>) -> bool {
    parsed_version(key) is Some && range_admits(range, parsed_version(key)->0)
}

/// Among the first `n` published versions, the position of the highest one
/// the range admits; of equally high ones the last, as `Iterator::max_by`
/// picks.
pub open spec fn best_index(keys: Seq<Seq<char>>, range: Seq<char>, n: int) -> Option<int>
    decreases n,
{
    if n <= 0 {
        None
    } else {
        let prev = best_index(keys, range, n - 1);
        if admitted(range, keys[n - 1]) {
            match prev {
                None => Some(n - 1),
                Some(b) => if version_order(parsed_version(keys[b])->0, parsed_version(keys[n - 1])->0)
                    == Order::Greater {
                    Some(b)
                } else {
                    Some(n - 1)
                },
            }
        } else {
            prev
        }
    }
}

/// The outcome of choosing a version of a package.
pub enum Selection {
    InvalidRange,
    NoMatch,
    Chosen(int),
}

/// Which version of the package document a request chooses: the range is the
/// request or its tag's version; the chosen entry is the highest published
/// version the range admits.
pub open spec fn selection(packument: &Packument, requested: Seq<char>) -> Selection {
    let range = requested_range(packument.dist_tags@, requested);
    if !range_parses(range) {
        Selection::InvalidRange
    } else {
        match best_index(packument.versions.keys(), range, packument.versions.keys().len() as int) {
            None => Selection::NoMatch,
            Some(b) => Selection::Chosen(b),
        }
    }
}

/// Whether `r` is what the selection of `requested` gives.
pub open spec fn selected(
    packument: &Packument,
    requested: Seq<char>,
    r: Result<&PackageMetadata, ResolveError>,
) -> bool {
    match selection(packument, requested) {
        Selection::InvalidRange => r matches Err(ResolveError::InvalidRange(_)),
        Selection::NoMatch => r matches Err(ResolveError::NoMatchingVersion),
        Selection::Chosen(b) => r matches Ok(m) && *m == packument.versions.values()[b],
    }
}

/// Whether every published version of the document parses as a version.
pub open spec fn versions_parse(packument: &Packument) -> bool {
    forall|i: int|
        0 <= i < packument.versions.keys().len() ==> (#[trigger] parsed_version(
            packument.versions.keys()[i],
        )) is Some
}

/// Chooses the version of a package that a request (a range or a
/// distribution tag) resolves to: the highest published version the range
/// admits.
pub fn select_version<'a>(packument: &'a Packument, requested: &str) -> (r: Result<
    &'a PackageMetadata,
    ResolveError,
>)
    requires
        range_text_safe(requested_range(packument.dist_tags@, requested@)),
        range_parses(requested_range(packument.dist_tags@, requested@)) ==> versions_parse(
            packument,
        ),
    ensures
        selected(packument, requested@, r),
{
    let target: &str = match packument.dist_tags.get(requested) {
        Some(t) => t.as_str(),
        None => requested,
    };
    let ghost range_text = target@;
    assert(range_text == requested_range(packument.dist_tags@, requested@));
    let range = match VersionRange::parse(target) {
        Ok(r) => r,
        Err(e) => {
            return Err(ResolveError::InvalidRange(e));
        },
    };
    let versions = &packument.versions;
    let n = versions.len();
    let ghost keys = versions.keys();
    let mut best: Option<(usize, SemVersion)> = None;
    for i in 0..n
        invariant
            n == keys.len(),
            keys == versions.keys(),
            versions.coherent(),
            versions_parse(packument),
            versions == &packument.versions,
            range.source() == range_text,
            match best {
                None => best_index(keys, range_text, i as int) is None,
                Some((b, bv)) => best_index(keys, range_text, i as int) == Some(b as int) && b < i
                    && parsed_version(keys[b as int]) == Some(bv@),
            },
    {
        let v = match parse_version(versions.key(i).as_str()) {
            Some(v) => v,
            None => {
                assert(parsed_version(keys[i as int]) is Some);
                return Err(ResolveError::NoMatchingVersion);
            },
        };
        if range.satisfies(&v) {
            let replace = match &best {
                None => true,
                Some((_, bv)) => compare_versions(bv, &v) != Order::Greater,
            };
            if replace {
                best = Some((i, v));
            }
        }
    }
    match best {
        Some((b, _)) => Ok(versions.value(b)),
        None => Err(ResolveError::NoMatchingVersion),
    }
}

/// Chooses a version as `select_version` does, having first checked what it
/// requires; `None` where the choice cannot be made: where the range text is
/// one the range parser stops on, or where the range parses but some
/// published version does not.
pub fn select_version_checked<'a>(packument: &'a Packument, requested: &str) -> (r: Option<
    Result<&'a PackageMetadata, ResolveError>,
>)
    ensures
        r is None <==> (!range_text_safe(requested_range(packument.dist_tags@, requested@)) || (
        range_parses(requested_range(packument.dist_tags@, requested@)) && !versions_parse(
            packument,
        ))),
        r matches Some(x) ==> selected(packument, requested@, x),
{
    let target: &str = match packument.dist_tags.get(requested) {
        Some(t) => t.as_str(),
        None => requested,
    };
    assert(target@ == requested_range(packument.dist_tags@, requested@));
    if !range_text_is_safe(target) {
        return None;
    }
    let range_ok = match VersionRange::parse(target) {
        Ok(_) => true,
        Err(_) => false,
    };
    if range_ok {
        let n = packument.versions.len();
        for i in 0..n
            invariant
                n == packument.versions.keys().len(),
                range_parses(requested_range(packument.dist_tags@, requested@)),
                forall|j: int|
                    0 <= j < i ==> (#[trigger] parsed_version(packument.versions.keys()[j])) is Some,
        {
            if parse_version(packument.versions.key(i).as_str()).is_none() {
                assert(!versions_parse(packument));
                return None;
            }
        }
    }
    Some(select_version(packument, requested))
}

/// The chosen version is admitted by the range, and no admitted version is
/// higher; none is chosen exactly when no version is admitted.
pub proof fn lemma_best_index_is_highest(keys: Seq<Seq<char>>, range: Seq<char>, n: int)
    requires
        0 <= n <= keys.len(),
    ensures
        best_index(keys, range, n) is None <==> (forall|j: int| 0 <= j < n ==> !admitted(range, #[trigger] keys[j])),
        best_index(keys, range, n) matches Some(b) ==> 0 <= b < n && admitted(range, keys[b])
            && forall|j: int|
            0 <= j < n && admitted(range, #[trigger] keys[j]) ==> version_order(
                parsed_version(keys[j])->0,
                parsed_version(keys[b])->0,
            ) != Order::Greater,
    decreases n,
{
    if n > 0 {
        lemma_best_index_is_highest(keys, range, n - 1);
        let prev = best_index(keys, range, n - 1);
        let last = parsed_version(keys[n - 1])->0;
        if admitted(range, keys[n - 1]) {
            lemma_version_order_reflexive(last);
            match prev {
                None => {},
                Some(b) => {
                    let vb = parsed_version(keys[b])->0;
                    lemma_version_order_flip(vb, last);
                    lemma_version_order_reflexive(vb);
                    if version_order(vb, last) == Order::Greater {
                    } else {
                        assert forall|j: int| 0 <= j < n && admitted(range, #[trigger] keys[j]) implies version_order(
                            parsed_version(keys[j])->0,
                            last,
                        ) != Order::Greater by {
                            if j < n - 1 {
                                lemma_version_order_trans(parsed_version(keys[j])->0, vb, last);
                            }
                        }
                    }
                },
            }
        }
    }
}

/// The version a request chooses is one the range admits, and no admitted
/// published version has higher version numbers (major, then minor, then
/// patch) than it.
pub proof fn lemma_chosen_has_highest_numbers(packument: &Packument, requested: Seq<char>)
    requires
        selection(packument, requested) is Chosen,
    ensures
        ({
            let range = requested_range(packument.dist_tags@, requested);
            let keys = packument.versions.keys();
            let b = selection(packument, requested)->Chosen_0;
            &&& 0 <= b < keys.len()
            &&& admitted(range, keys[b])
            &&& forall|j: int|
                0 <= j < keys.len() && admitted(range, #[trigger] keys[j]) ==> !numbers_below(
                    parsed_version(keys[b])->0,
                    parsed_version(keys[j])->0,
                )
        }),
{
    let range = requested_range(packument.dist_tags@, requested);
    let keys = packument.versions.keys();
    lemma_best_index_is_highest(keys, range, keys.len() as int);
    let b = selection(packument, requested)->Chosen_0;
    assert forall|j: int| 0 <= j < keys.len() && admitted(range, #[trigger] keys[j]) implies !numbers_below(
        parsed_version(keys[b])->0,
        parsed_version(keys[j])->0,
    ) by {
        if numbers_below(parsed_version(keys[b])->0, parsed_version(keys[j])->0) {
            lemma_numbers_decide_order(parsed_version(keys[b])->0, parsed_version(keys[j])->0);
        }
    }
}

/// The lockfile entry of every tree in a forest, by package name.
pub open spec fn forest_entries(ts: Seq<DependencyTree>) -> Set<(Seq<char>, ResolvedPackageView)>
    decreases ts,
{
    if ts.len() == 0 {
        Set::empty()
    } else {
        let t = ts.last();
        proof {
            lemma_forest_decreases(ts);
        }
        forest_entries(ts.drop_last()).insert((t.name@, resolved_entry(t))).union(
            forest_entries(t.dependencies@),
        )
    }
}

/// Every entry that flattening stores is the entry of a tree of that name
/// somewhere in the forest.
pub proof fn lemma_flattened_entries(ts: Seq<DependencyTree>, name: Seq<char>)
    requires
        flattened(ts).contains_key(name),
    ensures
        forest_entries(ts).contains((name, flattened(ts)[name])),
    decreases ts,
{
    if ts.len() > 0 {
        let t = ts.last();
        lemma_forest_decreases(ts);
        let nested = flattened(t.dependencies@);
        if nested.contains_key(name) {
            lemma_flattened_entries(t.dependencies@, name);
        } else if name != t.name@ {
            lemma_flattened_entries(ts.drop_last(), name);
        }
    }
}

/// The locked entry a lockfile (if any) holds for `name` that `version` may
/// use. The outer `None` stands for a lockfile whose range for `name` the
/// range parser cannot read without stopping (see `range_text_safe`).
pub fn find_locked(lockfile: Option<&WaveLockfile>, name: &str, version: &str) -> (r: Option<
    Option<ResolvedPackage>,
>)
    ensures
        match lockfile {
            None => r == Some(None::<ResolvedPackage>),
            Some(l) => match r {
                None => !locked_range_safe(l.packages@, name@),
                Some(Some(p)) => locked_range_safe(l.packages@, name@) && locked_entry(
                    l.packages@,
                    name@,
                    version@,
                ) == Some(p@),
                Some(None) => locked_range_safe(l.packages@, name@) && locked_entry(
                    l.packages@,
                    name@,
                    version@,
                ) is None,
            },
        },
{
    match lockfile {
        Some(l) => {
            match l.packages.get(name) {
                Some(p) => {
                    if !range_text_is_safe(p.version.as_str()) {
                        return None;
                    }
                },
                None => {},
            }
            Some(l.get_package(name, version))
        },
        None => Some(None),
    }
}

/// Pairs of texts, seen as pairs of character sequences.
pub open spec fn pair_texts(r: Seq<(String, String)>) -> Seq<(Seq<char>, Seq<char>)> {
    r.map_values(|p: (String, String)| (p.0@, p.1@))
}

/// The (key, value) entries of an optional map of texts in key order; none
/// for an absent map.
pub open spec fn map_entries(m: Option<StrMap<String>>) -> Seq<(Seq<char>, Seq<char>)> {
    match m {
        None => Seq::empty(),
        Some(m) => Seq::new(m.keys().len(), |i: int| (m.keys()[i], m.values()[i]@)),
    }
}

/// The (name, version) requests of a dependency map, in its key order; none
/// for an absent map.
pub fn dependency_requests(dependencies: &Option<StrMap<String>>) -> (r: Vec<(String, String)>)
    ensures
        pair_texts(r@) == map_entries(*dependencies),
{
    let mut r: Vec<(String, String)> = Vec::new();
    match dependencies {
        None => {
            assert(pair_texts(r@) =~= map_entries(*dependencies));
        },
        Some(m) => {
            let n = m.len();
            for i in 0..n
                invariant
                    n == m.keys().len(),
                    m.keys().len() == m.values().len(),
                    r@.len() == i,
                    forall|j: int|
                        0 <= j < i ==> (#[trigger] r@[j]).0@ == m.keys()[j] && r@[j].1@
                            == m.values()[j]@,
            {
                r.push((m.key(i).clone(), m.value(i).clone()));
            }
            assert(pair_texts(r@) =~= map_entries(*dependencies));
        },
    }
    r
}

/// The tree of a package taken from the lockfile, over the trees of its
/// dependencies.
pub fn tree_from_locked(name: &str, package: ResolvedPackage, dependencies: Vec<DependencyTree>) -> (r:
    DependencyTree)
    ensures
        r.name@ == name@,
        r.version == package.version,
        r.resolved == package.resolved,
        r.integrity == package.integrity,
        r.symlinks is None,
        r.dependencies == dependencies,
{
    DependencyTree {
        name: name.to_owned(),
        version: package.version,
        resolved: package.resolved,
        integrity: package.integrity,
        symlinks: None,
        dependencies,
    }
}

/// The tree of a package version chosen from the registry, over the trees of
/// its dependencies: its tarball, integrity and executables come from the
/// registry's description.
pub fn tree_from_metadata(metadata: &PackageMetadata, dependencies: Vec<DependencyTree>) -> (r:
    DependencyTree)
    ensures
        r.name@ == metadata.name@,
        r.version@ == metadata.version@,
        r.resolved@ == metadata.dist.tarball@,
        opt_text(r.integrity) == opt_text(metadata.dist.integrity),
        opt_text_map(r.symlinks) == opt_text_map(metadata.bin),
        r.dependencies == dependencies,
{
    DependencyTree {
        name: metadata.name.clone(),
        version: metadata.version.clone(),
        resolved: metadata.dist.tarball.clone(),
        integrity: copy_opt_text(&metadata.dist.integrity),
        symlinks: copy_opt_text_map(&metadata.bin),
        dependencies,
    }
}

/// The lockfile to save: the existing one with the resolved entries stored
/// over its own, or a new one holding just them.
pub fn merge_lockfile(existing: Option<WaveLockfile>, resolved_packages: ResolvedPackages) -> (r:
    WaveLockfile)
    ensures
        match existing {
            Some(l) => r.lockfile_version == l.lockfile_version && r.packages@
                == l.packages@.union_prefer_right(resolved_packages@),
            None => r.lockfile_version == 1 && r.packages@ == resolved_packages@,
        },
{
    match existing {
        Some(lockfile) => {
            let mut lockfile = lockfile;
            lockfile.packages.extend(resolved_packages);
            lockfile
        },
        None => WaveLockfile::new(resolved_packages),
    }
}

/// Saving a lockfile keeps every resolved entry as it was resolved, and every
/// earlier entry of another name as it was.
pub proof fn lemma_merge_keeps_entries(
    old_packages: Map<Seq<char>, ResolvedPackage>,
    resolved: Map<Seq<char>, ResolvedPackage>,
    name: Seq<char>,
)
    ensures
        resolved.contains_key(name) ==> old_packages.union_prefer_right(resolved)[name]
            == resolved[name],
        !resolved.contains_key(name) && old_packages.contains_key(name) ==> old_packages.union_prefer_right(
            resolved,
        )[name] == old_packages[name],
        old_packages.union_prefer_right(resolved).contains_key(name) <==> (old_packages.contains_key(
            name,
        ) || resolved.contains_key(name)),
{
}

/// The order in which trees are installed: each tree's dependencies
/// (themselves in this order) before the tree itself, trees left to right.
pub open spec fn install_sequence(ts: Seq<DependencyTree>) -> Seq<DependencyTree>
    decreases ts,
{
    if ts.len() == 0 {
        Seq::empty()
    } else {
        let t = ts.last();
        proof {
            lemma_forest_decreases(ts);
        }
        install_sequence(ts.drop_last()) + install_sequence(t.dependencies@) + seq![t]
    }
}

/// The trees of a forest in the order they are installed into
/// `node_modules`: a package's dependencies before the package.
pub fn install_order(dependency_tree: &[DependencyTree]) -> (r: Vec<&DependencyTree>)
    ensures
        r@.map_values(|t: &DependencyTree| *t) == install_sequence(dependency_tree@),
    decreases dependency_tree@,
{
    let mut r: Vec<&DependencyTree> = Vec::new();
    let n = dependency_tree.len();
    assert(r@.map_values(|t: &DependencyTree| *t) =~= install_sequence(dependency_tree@.take(0)));
    for i in 0..n
        invariant
            n == dependency_tree@.len(),
            r@.map_values(|t: &DependencyTree| *t) == install_sequence(dependency_tree@.take(i as int)),
    {
        let pkg = &dependency_tree[i];
        let ghost before = r@.map_values(|t: &DependencyTree| *t);
        if pkg.dependencies.len() != 0 {
            proof {
                assert(decreases_to!(dependency_tree@ => pkg.dependencies@)) by {
                    assert(decreases_to!(dependency_tree@ => dependency_tree@[i as int]));
                    assert(decreases_to!(*pkg => pkg.dependencies));
                    assert(decreases_to!(pkg.dependencies => pkg.dependencies@));
                }
            }
            let mut inner = install_order(pkg.dependencies.as_slice());
            r.append(&mut inner);
        } else {
            assert(install_sequence(pkg.dependencies@) =~= Seq::<DependencyTree>::empty());
        }
        r.push(pkg);
        assert(dependency_tree@.take(i + 1).drop_last() =~= dependency_tree@.take(i as int));
        assert(r@.map_values(|t: &DependencyTree| *t) =~= before + install_sequence(pkg.dependencies@)
            + seq![*pkg]);
    }
    assert(dependency_tree@.take(n as int) =~= dependency_tree@);
    r
}

/// In the install order, every package comes right after the install order
/// of its own dependencies: they are all installed before it.
pub proof fn lemma_dependencies_installed_first(ts: Seq<DependencyTree>, p: int)
    requires
        0 <= p < install_sequence(ts).len(),
    ensures
        install_sequence(install_sequence(ts)[p].dependencies@).len() <= p,
        install_sequence(ts).subrange(
            p - install_sequence(install_sequence(ts)[p].dependencies@).len(),
            p,
        ) == install_sequence(install_sequence(ts)[p].dependencies@),
    decreases ts,
{
    let t = ts.last();
    lemma_forest_decreases(ts);
    let a = install_sequence(ts.drop_last());
    let b = install_sequence(t.dependencies@);
    let s = install_sequence(ts);
    assert(s == a + b + seq![t]);
    if p < a.len() {
        lemma_dependencies_installed_first(ts.drop_last(), p);
        let d = install_sequence(a[p].dependencies@);
        assert(s[p] == a[p]);
        assert(s.subrange(p - d.len(), p) =~= a.subrange(p - d.len(), p));
    } else if p < a.len() + b.len() {
        let q = p - a.len();
        lemma_dependencies_installed_first(t.dependencies@, q);
        let d = install_sequence(b[q].dependencies@);
        assert(s[p] == b[q]);
        assert(s.subrange(p - d.len(), p) =~= b.subrange(q - d.len(), q));
    } else {
        assert(s[p] == t);
        assert(s.subrange(p - b.len(), p) =~= b);
    }
}

/// The names in an install order.
pub open spec fn sequence_names(s: Seq<DependencyTree>) -> Set<Seq<char>> {
    s.map_values(|t: DependencyTree| t.name@).to_set()
}

/// Installing a forest installs a package of every name in it, and of no
/// other name.
pub proof fn lemma_install_sequence_names(ts: Seq<DependencyTree>)
    ensures
        sequence_names(install_sequence(ts)) == forest_names(ts),
    decreases ts,
{
    if ts.len() > 0 {
        let t = ts.last();
        lemma_forest_decreases(ts);
        lemma_install_sequence_names(ts.drop_last());
        lemma_install_sequence_names(t.dependencies@);
        let a = install_sequence(ts.drop_last());
        let b = install_sequence(t.dependencies@);
        let f = |x: DependencyTree| x.name@;
        assert((a + b + seq![t]).map_values(f) =~= a.map_values(f) + b.map_values(f) + seq![t.name@]);
        assert forall|n: Seq<char>| #[trigger] sequence_names(install_sequence(ts)).contains(n) <==> forest_names(ts).contains(n) by {
            let whole = a.map_values(f) + b.map_values(f) + seq![t.name@];
            if whole.contains(n) {
                let j = choose|j: int| 0 <= j < whole.len() && whole[j] == n;
                if j < a.len() {
                    assert(a.map_values(f)[j] == n);
                    assert(a.map_values(f).contains(n));
                } else if j < a.len() + b.len() {
                    assert(b.map_values(f)[j - a.len()] == n);
                    assert(b.map_values(f).contains(n));
                }
            }
            if a.map_values(f).contains(n) {
                let j = choose|j: int| 0 <= j < a.map_values(f).len() && a.map_values(f)[j] == n;
                assert(whole[j] == n);
            }
            if b.map_values(f).contains(n) {
                let j = choose|j: int| 0 <= j < b.map_values(f).len() && b.map_values(f)[j] == n;
                assert(whole[a.len() + j] == n);
            }
            if n == t.name@ {
                assert(whole[whole.len() - 1] == n);
            }
        }
        assert(sequence_names(install_sequence(ts)) =~= forest_names(ts));
    } else {
        assert(sequence_names(install_sequence(ts)) =~= forest_names(ts));
    }
}

/// The path `std::path::Path::join` makes of `base` and `path` on Unix: an
/// absolute `path` (one that starts with `/`) replaces `base`; otherwise a
/// `/` goes between them, unless `base` is empty or already ends with `/`.
pub open spec fn joined_path(base: Seq<char>, path: Seq<char>) -> Seq<char> {
    if path.len() > 0 && path[0] == '/' {
        path
    } else if base.len() > 0 && base.last() != '/' {
        base + seq!['/'] + path
    } else {
        base + path
    }
}

/// Joining a path that starts with `/` gives that path. Joining any other
/// path keeps `base` in front and `path` at the end, with a single `/`
/// between them exactly where `base` is non-empty and does not already end
/// with one.
pub proof fn lemma_join_keeps_base(base: Seq<char>, path: Seq<char>)
    ensures
        path.len() > 0 && path[0] == '/' ==> joined_path(base, path) == path,
        !(path.len() > 0 && path[0] == '/') ==> ({
            let r = joined_path(base, path);
            let sep: int = if base.len() > 0 && base.last() != '/' {
                1
            } else {
                0
            };
            &&& r.len() == base.len() + sep + path.len()
            &&& r.subrange(0, base.len() as int) == base
            &&& r.subrange(base.len() + sep, r.len() as int) == path
            &&& sep == 1 ==> r[base.len() as int] == '/'
        }),
{
    if !(path.len() > 0 && path[0] == '/') {
        let r = joined_path(base, path);
        if base.len() > 0 && base.last() != '/' {
            assert(r.subrange(0, base.len() as int) =~= base);
            assert(r.subrange(base.len() as int + 1, r.len() as int) =~= path);
        } else {
            assert(r.subrange(0, base.len() as int) =~= base);
            assert(r.subrange(base.len() as int, r.len() as int) =~= path);
        }
    }
}

/// The text of the path from `base` to `path` that `pathdiff::diff_paths`
/// gives, if it gives one.
pub uninterp spec fn relative_path(path: Seq<char>, base: Seq<char>) -> Option<Seq<char>>;

/// Joins two paths by the Unix rule of `std::path::Path::join`.
fn join_path(base: &str, path: &str) -> (r: String)
    ensures
        r@ == joined_path(base@, path@),
{
    let plen = path.unicode_len();
    if plen > 0 && path.get_char(0) == '/' {
        return path.to_owned();
    }
    let blen = base.unicode_len();
    let mut r = String::new();
    r.append(base);
    if blen > 0 && base.get_char(blen - 1) != '/' {
        proof {
            reveal_strlit("/");
        }
        r.append("/");
    }
    r.append(path);
    proof {
        if blen > 0 {
            assert(base@.last() == base@[blen - 1]);
        }
    }
    r
}

/// The relative path from `base` to `path`, by `pathdiff::diff_paths`; the
/// contract names the result (`relative_path`).
#[verifier::external_body]
fn diff_paths(path: &str, base: &str) -> (r: Option<String>)
    ensures
        opt_text(r) == relative_path(path@, base@),
{
    pathdiff::diff_paths(path, base).map(|p| p.to_string_lossy().into_owned())
}

/// A link to an executable of a package.
pub struct BinLink {
    /// Where the link goes, under `node_modules/.bin`.
    pub destination: String,
    /// What the link points to, relative to `node_modules/.bin`; `None` where
    /// no relative path exists (then no link is made).
    pub origin: Option<String>,
}

/// Where a package is unpacked, and the links to its executables.
pub struct PackageLayout {
    pub dest: String,
    pub bin_folder: String,
    pub links: Vec<BinLink>,
}

/// The folder of links to executables.
pub open spec fn bin_folder_path() -> Seq<char> {
    "node_modules/.bin"@
}

/// Where a package of a given name is unpacked, and for each executable it
/// declares (link name to path inside the package, in name order) the link
/// to make: `node_modules/.bin/<link name>`, pointing, relative to the
/// links' folder, at the path inside the package.
pub fn package_layout(name: &str, symlinks: &Option<StrMap<String>>) -> (r: PackageLayout)
    ensures
        r.dest@ == "node_modules/"@ + name@,
        r.bin_folder@ == bin_folder_path(),
        match symlinks {
            None => r.links@.len() == 0,
            Some(m) => r.links@.len() == m.keys().len() && forall|i: int|
                0 <= i < r.links@.len() ==> (#[trigger] r.links@[i]).destination@ == joined_path(
                    bin_folder_path(),
                    m.keys()[i],
                ) && opt_text(r.links@[i].origin) == relative_path(
                    joined_path(r.dest@, m.values()[i]@),
                    bin_folder_path(),
                ),
        },
{
    let mut dest = String::new();
    dest.append("node_modules/");
    dest.append(name);
    let bin_folder = String::from_str("node_modules/.bin");
    let mut links: Vec<BinLink> = Vec::new();
    match symlinks {
        None => {},
        Some(m) => {
            let n = m.len();
            for i in 0..n
                invariant
                    n == m.keys().len(),
                    m.keys().len() == m.values().len(),
                    bin_folder@ == bin_folder_path(),
                    links@.len() == i,
                    forall|j: int|
                        0 <= j < i ==> (#[trigger] links@[j]).destination@ == joined_path(
                            bin_folder_path(),
                            m.keys()[j],
                        ) && opt_text(links@[j].origin) == relative_path(
                            joined_path(dest@, m.values()[j]@),
                            bin_folder_path(),
                        ),
            {
                let target = join_path(dest.as_str(), m.value(i).as_str());
                let origin = diff_paths(target.as_str(), bin_folder.as_str());
                let destination = join_path(bin_folder.as_str(), m.key(i).as_str());
                links.push(BinLink { destination, origin });
            }
        },
    }
    PackageLayout { dest, bin_folder, links }
}

} // verus!
