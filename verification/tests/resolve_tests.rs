use wave::definitions::lockfile::{ResolvedPackage, WaveLockfile};
use wave::definitions::package_metadata::{Dist, PackageMetadata};
use wave::definitions::packument::Packument;
use wave::semver::range_text_is_safe;
use wave::str_map::StrMap;
use wave::utils::{find_locked, select_version, select_version_checked, ResolveError};

fn text_map(pairs: &[(&str, &str)]) -> StrMap<String> {
    let mut m = StrMap::new();
    for (k, v) in pairs {
        m.insert(k.to_string(), v.to_string());
    }
    m
}

fn metadata(name: &str, version: &str) -> PackageMetadata {
    PackageMetadata {
        name: name.to_string(),
        version: version.to_string(),
        dependencies: None,
        dist: Dist {
            tarball: format!("https://registry.example/{}-{}.tgz", name, version),
            shasum: String::new(),
            integrity: None,
        },
        bin: None,
    }
}

fn packument(versions: &[&str], tags: &[(&str, &str)]) -> Packument {
    let mut vs = StrMap::new();
    for v in versions {
        vs.insert(v.to_string(), metadata("pkg", v));
    }
    Packument { name: "pkg".to_string(), dist_tags: text_map(tags), versions: vs }
}

fn chosen(p: &Packument, req: &str) -> String {
    match select_version(p, req) {
        Ok(m) => m.version.clone(),
        Err(ResolveError::InvalidRange(_)) => "invalid".to_string(),
        Err(ResolveError::NoMatchingVersion) => "none".to_string(),
    }
}

fn highest(versions: &[&str]) -> String {
    chosen(&packument(versions, &[]), "*")
}

#[test]
fn version_precedence() {
    assert_eq!(highest(&["2.0.0", "1.0.0"]), "2.0.0");
    assert_eq!(highest(&["1.9.9", "1.10.0"]), "1.10.0");
    assert_eq!(highest(&["1.0.1", "1.0.0"]), "1.0.1");
}

#[test]
fn prerelease_precedence() {
    let p = packument(&["1.0.0-alpha", "1.0.0-alpha.1", "1.0.0-alpha.beta", "1.0.0-beta.2", "1.0.0-beta.11"], &[]);
    assert_eq!(chosen(&p, ">=1.0.0-alpha <1.0.0"), "1.0.0-beta.11");
    let q = packument(&["1.0.0-alpha", "1.0.0-alpha.1"], &[]);
    assert_eq!(chosen(&q, ">=1.0.0-alpha <1.0.0"), "1.0.0-alpha.1");
    let r = packument(&["1.0.0-alpha.beta", "1.0.0-alpha.1"], &[]);
    assert_eq!(chosen(&r, ">=1.0.0-alpha <1.0.0"), "1.0.0-alpha.beta");
}

#[test]
fn prerelease_is_not_chosen_over_release() {
    let p = packument(&["1.0.0-rc.1", "1.0.0", "0.9.0"], &[]);
    assert_eq!(chosen(&p, ">=0.9.0"), "1.0.0");
}

#[test]
fn build_metadata_tie_picks_later_entry() {
    let p = packument(&["1.0.0+a", "1.0.0+b"], &[]);
    assert_eq!(chosen(&p, "1.0.0"), "1.0.0+b");
}

#[test]
fn selects_highest_matching_version() {
    let p = packument(&["1.0.0", "1.2.0", "1.10.0", "2.0.0"], &[("latest", "2.0.0")]);
    assert_eq!(chosen(&p, "^1.0.0"), "1.10.0");
    assert_eq!(chosen(&p, "latest"), "2.0.0");
    assert_eq!(chosen(&p, "*"), "2.0.0");
    assert_eq!(chosen(&p, "1.2.0"), "1.2.0");
}

#[test]
fn no_matching_version() {
    let p = packument(&["1.0.0"], &[]);
    assert_eq!(chosen(&p, "^3"), "none");
}

#[test]
fn invalid_range() {
    let p = packument(&["1.0.0"], &[("next", "bogus range!")]);
    assert_eq!(chosen(&p, "next"), "invalid");
    assert_eq!(chosen(&p, "~~nope"), "invalid");
}

#[test]
fn checked_selection_refuses_unparsable_versions() {
    let p = packument(&["1.0.0", "garbage"], &[]);
    assert!(select_version_checked(&p, "^1").is_none());
    match select_version_checked(&p, "%%%") {
        Some(Err(ResolveError::InvalidRange(_))) => {}
        _ => panic!("expected an invalid range"),
    }
    let q = packument(&["1.0.0"], &[]);
    match select_version_checked(&q, "^1") {
        Some(Ok(m)) => assert_eq!(m.version, "1.0.0"),
        _ => panic!("expected a version"),
    }
}

fn lockfile() -> WaveLockfile {
    let mut packages = StrMap::new();
    packages.insert(
        "react".to_string(),
        ResolvedPackage {
            version: "17.0.2".to_string(),
            resolved: "https://r/react-17.0.2.tgz".to_string(),
            integrity: Some("sha512-x".to_string()),
            dependencies: Some(text_map(&[("loose-envify", "1.4.0")])),
        },
    );
    WaveLockfile::new(packages)
}

#[test]
fn lockfile_new_is_version_one() {
    assert_eq!(lockfile().lockfile_version, 1);
    assert_eq!(WaveLockfile::location(), "wave.lock");
}

#[test]
fn locked_package_found_when_range_admits() {
    let l = lockfile();
    let p = l.get_package("react", "17.0.2").unwrap();
    assert_eq!(p.version, "17.0.2");
    assert_eq!(p.integrity.as_deref(), Some("sha512-x"));
    assert_eq!(p.dependencies.unwrap().get("loose-envify").unwrap(), "1.4.0");
}

#[test]
fn locked_package_absent_otherwise() {
    let l = lockfile();
    assert!(l.get_package("react", "18.0.0").is_none());
    assert!(l.get_package("vue", "17.0.2").is_none());
    assert!(l.get_package("react", "^17").is_none());
    assert!(matches!(find_locked(None, "react", "17.0.2"), Some(None)));
    assert!(matches!(find_locked(Some(&l), "react", "17.0.2"), Some(Some(_))));
    assert!(matches!(find_locked(Some(&l), "react", "16.0.0"), Some(None)));
}

#[test]
fn locked_range_the_parser_cannot_read() {
    let mut packages = StrMap::new();
    packages.insert(
        "odd".to_string(),
        ResolvedPackage {
            version: "~*".to_string(),
            resolved: String::new(),
            integrity: None,
            dependencies: None,
        },
    );
    packages.insert(
        "wide".to_string(),
        ResolvedPackage {
            version: "~1.x.x".to_string(),
            resolved: String::new(),
            integrity: None,
            dependencies: None,
        },
    );
    let l = WaveLockfile::new(packages);
    assert!(find_locked(Some(&l), "odd", "1.0.0").is_none());
    assert!(matches!(find_locked(Some(&l), "wide", "1.7.0"), Some(Some(_))));
    assert!(matches!(find_locked(Some(&l), "wide", "2.0.0"), Some(None)));
    assert!(matches!(find_locked(Some(&l), "other", "1.0.0"), Some(None)));
}

#[test]
fn unreadable_range_texts() {
    for t in [
        "=*", "= x", "=vX", "=v *", "~*", "~> x", "~ > v x", "~1.x.3", "~1.x.3a", "~>1.*.2",
        "1.0.0 || =*", "1.0.0||~x", "a||=*", "1 - =*", "||||~x", "1.0.0\t=*",
    ] {
        assert!(!range_text_is_safe(t), "{}", t);
    }
    for t in [
        ">=*", "<=x", "^1.x", "~1.2.3", "~1.x", "=1.2", ">= 1.0.0 <2", "*", "x", "1.x", "latest", "",
        "~1.x.x", "a=*", "==*", "1=*", "|||=*", "~v>*", "~1.x.9999999999999999999",
        "~99999999999999999.x.1", "<=*", "> x", "~1.x.", "= 1.0.0",
    ] {
        assert!(range_text_is_safe(t), "{}", t);
        assert!(select_version_checked(&packument(&["1.0.0"], &[]), t).is_some(), "{}", t);
    }
}

#[test]
fn wildcard_tilde_ranges_resolve() {
    let p = packument(&["1.0.0", "1.4.2", "2.0.0"], &[]);
    match select_version_checked(&p, "~1.x.x") {
        Some(Ok(m)) => assert_eq!(m.version, "1.4.2"),
        _ => panic!("~1.x.x resolves"),
    }
    assert!(matches!(select_version_checked(&p, "a=*"), Some(Err(_))));
    assert!(matches!(select_version_checked(&p, "~3.x.x"), Some(Err(_))));
}

#[test]
fn checked_selection_refuses_unreadable_range() {
    let p = packument(&["1.0.0"], &[("odd", "=*")]);
    assert!(select_version_checked(&p, "odd").is_none());
    assert!(select_version_checked(&p, "~1.x.0").is_none());
}
