//! The project manifest, `package.json`.
use vstd::prelude::*;
use crate::str_map::{StrMap, opt_text};
use void::Void;

verus! {

#[verifier::external_type_specification]
#[verifier::external_body]
pub struct ExVoid(Void);

/// The fields of `package.json` that the package manager reads and writes.
pub struct Package {
    pub name: Option<String>,
    pub version: Option<String>,
    pub main: Option<String>,
    pub author: Option<Person>,
    pub license: Option<String>,
    pub dependencies: Option<StrMap<String>>,
    pub dev_dependencies: Option<StrMap<String>>,
}

/// Whether `p` holds the values of a fresh manifest in the fields that a
/// new project gets: version `1.0.0`, entry point `index.js`, the MIT
/// license, and no author or dependencies.
pub open spec fn has_fresh_fields(p: Package) -> bool {
    &&& opt_text(p.version) == Some("1.0.0"@)
    &&& opt_text(p.main) == Some("index.js"@)
    &&& p.author is None
    &&& opt_text(p.license) == Some("MIT"@)
    &&& p.dependencies is None
    &&& p.dev_dependencies is None
}

impl Default for Package {
    /// A fresh manifest with an empty name.
    fn default() -> (r: Self)
        ensures
            opt_text(r.name) == Some(Seq::<char>::empty()),
            has_fresh_fields(r),
    {
        Self {
            name: Some(String::new()),
            version: Some(String::from_str("1.0.0")),
            main: Some(String::from_str("index.js")),
            author: None,
            license: Some(String::from_str("MIT")),
            dependencies: None,
            dev_dependencies: None,
        }
    }
}

/// The author of a package.
pub struct Person {
    pub name: String,
    pub email: Option<String>,
    pub url: Option<String>,
}

impl Person {
    /// An author given by name alone, as `package.json` may write it.
    pub fn from_str(s: &str) -> (r: Result<Person, Void>)
        ensures
            r matches Ok(p) && p.name@ == s@ && p.email is None && p.url is None,
    {
        Ok(Person { name: s.to_owned(), email: None, url: None })
    }
}

} // verus!
