use wave::add::{add_to_package, AddFlags};
use wave::definitions::lockfile::{ResolvedPackage, WaveLockfile};
use wave::definitions::package_metadata::{Dist, PackageMetadata};
use wave::init::{initial_package, yes_warning, InitFlags};
use wave::install::install_requests;
use wave::package::{Package, Person};
use wave::str_map::StrMap;
use wave::utils::{
    dependency_requests, flatten_deps, install_order, merge_lockfile, package_layout,
    tree_from_locked, tree_from_metadata, versions_by_name, DependencyTree,
};

fn text_map(pairs: &[(&str, &str)]) -> StrMap<String> {
    let mut m = StrMap::new();
    for (k, v) in pairs {
        m.insert(k.to_string(), v.to_string());
    }
    m
}

fn node(name: &str, version: &str, deps: Vec<DependencyTree>) -> DependencyTree {
    DependencyTree {
        name: name.to_string(),
        version: version.to_string(),
        resolved: format!("https://r/{}-{}.tgz", name, version),
        integrity: None,
        symlinks: None,
        dependencies: deps,
    }
}

fn forest() -> Vec<DependencyTree> {
    vec![
        node("a", "1.0.0", vec![node("b", "1.0.0", vec![node("c", "1.0.0", vec![])])]),
        node("b", "2.0.0", vec![]),
    ]
}

#[test]
fn flatten_records_every_package() {
    let flat = flatten_deps(&forest());
    let names: Vec<String> = (0..flat.len()).map(|i| flat.key(i).clone()).collect();
    assert_eq!(names, vec!["a", "b", "c"]);
    let a = flat.get("a").unwrap();
    assert_eq!(a.version, "1.0.0");
    assert_eq!(a.resolved, "https://r/a-1.0.0.tgz");
    assert_eq!(a.dependencies.as_ref().unwrap().get("b").unwrap(), "1.0.0");
    assert!(flat.get("c").unwrap().dependencies.is_none());
}

#[test]
fn later_tree_wins_in_flatten() {
    let flat = flatten_deps(&forest());
    assert_eq!(flat.get("b").unwrap().version, "2.0.0");
    assert!(flat.get("b").unwrap().dependencies.is_none());
}

#[test]
fn nested_dependencies_override_their_parent_level() {
    let trees = vec![node("b", "2.0.0", vec![]), node("a", "1.0.0", vec![node("b", "1.0.0", vec![])])];
    let flat = flatten_deps(&trees);
    assert_eq!(flat.get("b").unwrap().version, "1.0.0");
}

#[test]
fn flatten_of_nothing_is_empty() {
    assert!(flatten_deps(&[]).is_empty());
}

#[test]
fn install_order_puts_dependencies_first() {
    let trees = forest();
    let order: Vec<String> = install_order(&trees)
        .iter()
        .map(|t| format!("{}@{}", t.name, t.version))
        .collect();
    assert_eq!(order, vec!["c@1.0.0", "b@1.0.0", "a@1.0.0", "b@2.0.0"]);
}

#[test]
fn versions_by_name_later_wins() {
    let m = versions_by_name(&[node("x", "1", vec![]), node("x", "2", vec![]), node("w", "3", vec![])]);
    assert_eq!(m.get("x").unwrap(), "2");
    assert_eq!(m.key(0), "w");
}

#[test]
fn requests_follow_key_order() {
    let deps = Some(text_map(&[("zod", "^3"), ("axios", "1.0.0")]));
    assert_eq!(
        dependency_requests(&deps),
        vec![("axios".to_string(), "1.0.0".to_string()), ("zod".to_string(), "^3".to_string())]
    );
    assert!(dependency_requests(&None).is_empty());
}

#[test]
fn trees_from_lockfile_and_registry() {
    let locked = ResolvedPackage {
        version: "1.2.3".to_string(),
        resolved: "url".to_string(),
        integrity: Some("sha".to_string()),
        dependencies: None,
    };
    let t = tree_from_locked("pkg", locked, vec![node("d", "1", vec![])]);
    assert_eq!((t.name.as_str(), t.version.as_str(), t.resolved.as_str()), ("pkg", "1.2.3", "url"));
    assert_eq!(t.integrity.as_deref(), Some("sha"));
    assert!(t.symlinks.is_none());
    assert_eq!(t.dependencies.len(), 1);

    let meta = PackageMetadata {
        name: "tool".to_string(),
        version: "0.1.0".to_string(),
        dependencies: None,
        dist: Dist { tarball: "t.tgz".to_string(), shasum: "s".to_string(), integrity: None },
        bin: Some(text_map(&[("tool", "bin/tool.js")])),
    };
    let t = tree_from_metadata(&meta, vec![]);
    assert_eq!((t.name.as_str(), t.version.as_str(), t.resolved.as_str()), ("tool", "0.1.0", "t.tgz"));
    assert_eq!(t.symlinks.unwrap().get("tool").unwrap(), "bin/tool.js");
}

#[test]
fn lockfile_merge_keeps_old_and_adds_new() {
    let entry = |v: &str| ResolvedPackage {
        version: v.to_string(),
        resolved: String::new(),
        integrity: None,
        dependencies: None,
    };
    let mut old = StrMap::new();
    old.insert("a".to_string(), entry("1"));
    old.insert("b".to_string(), entry("1"));
    let mut existing = WaveLockfile::new(old);
    existing.lockfile_version = 7;
    let mut new = StrMap::new();
    new.insert("b".to_string(), entry("2"));
    let merged = merge_lockfile(Some(existing), new);
    assert_eq!(merged.lockfile_version, 7);
    assert_eq!(merged.packages.get("a").unwrap().version, "1");
    assert_eq!(merged.packages.get("b").unwrap().version, "2");

    let mut only = StrMap::new();
    only.insert("c".to_string(), entry("3"));
    let fresh = merge_lockfile(None, only);
    assert_eq!(fresh.lockfile_version, 1);
    assert_eq!(fresh.packages.len(), 1);
}

#[test]
fn layout_of_package_with_executables() {
    let bins = Some(text_map(&[("tool", "bin/tool.js")]));
    let layout = package_layout("tool", &bins);
    assert_eq!(layout.dest, "node_modules/tool");
    assert_eq!(layout.bin_folder, "node_modules/.bin");
    assert_eq!(layout.links.len(), 1);
    assert_eq!(layout.links[0].destination, "node_modules/.bin/tool");
    assert_eq!(layout.links[0].origin.as_deref(), Some("../tool/bin/tool.js"));
    assert!(package_layout("x", &None).links.is_empty());
    let abs = package_layout("t", &Some(text_map(&[("t", "/opt/t/run")])));
    assert_eq!(abs.links[0].origin.as_deref(), Some("/opt/t/run"));
    let trailing = package_layout("t/", &Some(text_map(&[("t", "x")])));
    assert_eq!(trailing.dest, "node_modules/t/");
    assert_eq!(trailing.links[0].origin.as_deref(), Some("../t/x"));
}

#[test]
fn default_manifest() {
    let p = Package::default();
    assert_eq!(p.name.as_deref(), Some(""));
    assert_eq!(p.version.as_deref(), Some("1.0.0"));
    assert_eq!(p.main.as_deref(), Some("index.js"));
    assert_eq!(p.license.as_deref(), Some("MIT"));
    assert!(p.author.is_none() && p.dependencies.is_none() && p.dev_dependencies.is_none());
}

#[test]
fn person_from_name() {
    let p = Person::from_str("Jane Doe").ok().unwrap();
    assert_eq!(p.name, "Jane Doe");
    assert!(p.email.is_none() && p.url.is_none());
}

#[test]
fn initial_package_names() {
    let p = initial_package(Some("mine".to_string()), None);
    assert_eq!(p.name.as_deref(), Some("mine"));
    assert_eq!(p.version.as_deref(), Some("1.0.0"));
    let q = initial_package(None, Some("dir".to_string()));
    assert_eq!(q.name.as_deref(), Some("dir"));
    let given = initial_package(Some("mine".to_string()), Some("dir".to_string()));
    assert_eq!(given.name.as_deref(), Some("mine"));
    assert!(initial_package(None, None).name.is_none());
    assert!(yes_warning(&InitFlags { yes: true }).is_some());
    assert!(yes_warning(&InitFlags { yes: false }).is_none());
}

#[test]
fn add_records_regular_dependencies() {
    let mut p = Package::default();
    p.dependencies = Some(text_map(&[("old", "1.0.0"), ("x", "0.1.0")]));
    let installed = vec![node("x", "2.0.0", vec![node("y", "1", vec![])]), node("z", "3.0.0", vec![])];
    let r = add_to_package(p, &installed, &AddFlags { development: false, exact: false });
    let deps = r.dependencies.unwrap();
    assert_eq!(deps.get("old").unwrap(), "1.0.0");
    assert_eq!(deps.get("x").unwrap(), "2.0.0");
    assert_eq!(deps.get("z").unwrap(), "3.0.0");
    assert!(deps.get("y").is_none());
    assert!(r.dev_dependencies.is_none());
}

#[test]
fn add_records_development_dependencies() {
    let p = Package::default();
    let installed = vec![node("jest", "29.0.0", vec![])];
    let r = add_to_package(p, &installed, &AddFlags { development: true, exact: true });
    assert_eq!(r.dev_dependencies.unwrap().get("jest").unwrap(), "29.0.0");
    assert!(r.dependencies.is_none());
}

#[test]
fn install_requests_regular_then_dev() {
    let mut p = Package::default();
    p.dependencies = Some(text_map(&[("b", "1"), ("a", "2")]));
    p.dev_dependencies = Some(text_map(&[("c", "3")]));
    let r = install_requests(&p);
    let shown: Vec<String> = r.iter().map(|(n, v)| format!("{}@{}", n, v)).collect();
    assert_eq!(shown, vec!["a@2", "b@1", "c@3"]);
    assert!(install_requests(&Package::default()).is_empty());
}
