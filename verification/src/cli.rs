//! The command line: its commands and how a package request is read.
use vstd::prelude::*;

verus! {

broadcast use vstd::seq::group_seq_axioms;

/// The command line of the package manager.
pub struct Wave {
    pub cmd: Option<Command>,
}

/// A command, with its flags and package requests as (name, version) pairs.
pub enum Command {
    Init { yes: bool, name: Option<String> },
    Install { development: bool, exact: bool, packages: Vec<(String, String)> },
    List { packages: Vec<(String, String)> },
    Uninstall { packages: Vec<(String, String)> },
}

/// The position of the last occurrence of `c` in `s`.
pub open spec fn last_index_of(s: Seq<char>, c: char) -> Option<int>
    decreases s.len(),
{
    if s.len() == 0 {
        None
    } else if s.last() == c {
        Some(s.len() - 1)
    } else {
        last_index_of(s.drop_last(), c)
    }
}

/// A request `name@version` split at its last `@`; a request without `@`
/// asks for the `latest` version.
pub open spec fn key_val(s: Seq<char>) -> (Seq<char>, Seq<char>) {
    match last_index_of(s, '@') {
        Some(i) => (s.take(i), s.skip(i + 1)),
        None => (s, "latest"@),
    }
}

/// Reads a package request `name@version` (split at the last `@`, so that
/// scoped names such as `@scope/pkg@1.0.0` keep their leading `@`); a
/// request without `@` asks for `latest`.
pub fn parse_key_val(s: &str) -> (r: (String, String))
    ensures
        (r.0@, r.1@) == key_val(s@),
{
    let n = s.unicode_len();
    let mut i = n;
    assert(s@.take(n as int) =~= s@);
    while i > 0
        invariant
            i <= n,
            n == s@.len(),
            last_index_of(s@, '@') == last_index_of(s@.take(i as int), '@'),
        decreases i,
    {
        assert(s@.take(i as int).last() == s@[i - 1]);
        if s.get_char(i - 1) == '@' {
            let key = s.substring_char(0, i - 1).to_owned();
            let val = s.substring_char(i, n).to_owned();
            assert(s@.subrange(0, i - 1) =~= s@.take(i - 1));
            assert(s@.subrange(i as int, n as int) =~= s@.skip(i as int));
            return (key, val);
        }
        assert(s@.take(i as int).drop_last() =~= s@.take(i - 1));
        i = i - 1;
    }
    (s.to_owned(), String::from_str("latest"))
}

/// Appending text without `c` does not move the last `c`.
proof fn lemma_last_index_of_append(a: Seq<char>, b: Seq<char>, c: char)
    requires
        !b.contains(c),
    ensures
        last_index_of(a + b, c) == last_index_of(a, c),
    decreases b.len(),
{
    if b.len() > 0 {
        assert(!b.drop_last().contains(c)) by {
            if b.drop_last().contains(c) {
                let j = choose|j: int| 0 <= j < b.drop_last().len() && b.drop_last()[j] == c;
                assert(b[j] == c);
            }
        }
        assert((a + b).last() == b.last());
        assert(b.last() != c) by {
            assert(b[b.len() - 1] == b.last());
        }
        assert((a + b).drop_last() =~= a + b.drop_last());
        lemma_last_index_of_append(a, b.drop_last(), c);
    } else {
        assert(a + b =~= a);
    }
}

/// Reading `name@version` gives back the name and the version, whenever the
/// version holds no `@`.
pub proof fn lemma_key_val_round_trip(name: Seq<char>, version: Seq<char>)
    requires
        !version.contains('@'),
    ensures
        key_val(name + seq!['@'] + version) == (name, version),
{
    let s = name + seq!['@'] + version;
    lemma_last_index_of_append(name + seq!['@'], version, '@');
    assert((name + seq!['@']).last() == '@');
    assert(s.take(name.len() as int) =~= name);
    assert(s.skip(name.len() as int + 1) =~= version);
}

/// A request without `@` is for the latest version of the whole text.
pub proof fn lemma_key_val_without_version(name: Seq<char>)
    requires
        !name.contains('@'),
    ensures
        key_val(name) == (name, "latest"@),
{
    lemma_last_index_of_append(Seq::empty(), name, '@');
    assert(Seq::<char>::empty() + name =~= name);
}

} // verus!
