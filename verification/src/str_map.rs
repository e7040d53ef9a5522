//! A map from text keys to values whose entries are kept in ascending key
//! order, the way a `BTreeMap<String, V>` keeps them.
use vstd::prelude::*;
use crate::order::{compare_text, lemma_text_lt_irreflexive, lemma_text_lt_total, lemma_text_lt_transitive, text_lt, Order};

verus! {

broadcast use vstd::seq::group_seq_axioms;

/// Keys in strictly ascending text order (so each key occurs once).
pub open spec fn is_sorted(ks: Seq<Seq<char>>) -> bool {
    forall|i: int, j: int| 0 <= i < j < ks.len() ==> text_lt(#[trigger] ks[i], #[trigger] ks[j])
}

/// A map of texts, seen as a map of character sequences.
pub open spec fn text_map(m: Map<Seq<char>, String>) -> Map<Seq<char>, Seq<char>> {
    m.map_values(|s: String| s@)
}

/// An optional map of texts, seen through `text_map`.
pub open spec fn opt_text_map(m: Option<StrMap<String>>) -> Option<Map<Seq<char>, Seq<char>>> {
    match m {
        Some(m) => Some(text_map(m@)),
        None => None,
    }
}

/// An optional text, seen as an optional character sequence.
pub open spec fn opt_text(s: Option<String>) -> Option<Seq<char>> {
    match s {
        Some(s) => Some(s@),
        None => None,
    }
}

/// A copy of an optional text.
pub fn copy_opt_text(s: &Option<String>) -> (r: Option<String>)
    ensures
        r == *s,
{
    match s {
        Some(t) => Some(t.clone()),
        None => None,
    }
}

/// A copy of an optional map of texts.
pub fn copy_opt_text_map(m: &Option<StrMap<String>>) -> (r: Option<StrMap<String>>)
    ensures
        opt_text_map(r) == opt_text_map(*m),
        r is Some <==> m is Some,
        r matches Some(x) ==> x.keys() == m->0.keys() && x.values() == m->0.values() && x.coherent(),
{
    match m {
        Some(t) => Some(t.duplicate()),
        None => None,
    }
}

/// `ks` are sorted, and `m` holds exactly the keys `ks`, each sent to the
/// value at the same position of `vs`.
pub open spec fn coherent_model<V>(ks: Seq<Seq<char>>, vs: Seq<V>, m: Map<Seq<char>, V>) -> bool {
    &&& is_sorted(ks)
    &&& ks.len() == vs.len()
    &&& forall|i: int| 0 <= i < ks.len() ==> m.contains_key(#[trigger] ks[i]) && m[ks[i]] == vs[i]
    &&& forall|k: Seq<char>| #[trigger] m.contains_key(k) ==> ks.contains(k)
    &&& m.dom().finite()
}

spec fn keys_of<V>(es: Seq<(String, V)>) -> Seq<Seq<char>> {
    es.map_values(|e: (String, V)| e.0@)
}

spec fn values_of<V>(es: Seq<(String, V)>) -> Seq<V> {
    es.map_values(|e: (String, V)| e.1)
}

/// A map from text keys to values, iterated in ascending key order. It
/// stands where a `BTreeMap<String, V>` or `HashMap<String, V>` would: vstd
/// specifies `BTreeMap` only for keys whose `Ord` it knows, which `String` is
/// not, and nothing can be proved of a `HashMap` with `String` keys.
pub struct StrMap<V> {
    entries: Vec<(String, V)>,
    map: Ghost<Map<Seq<char>, V>>,
}

impl<V> View for StrMap<V> {
    type V = Map<Seq<char>, V>;

    closed spec fn view(&self) -> Map<Seq<char>, V> {
        self.map@
    }
}

impl<V> StrMap<V> {
    /// The keys, in iteration (ascending) order.
    pub closed spec fn keys(&self) -> Seq<Seq<char>> {
        keys_of(self.entries@)
    }

    /// The values, in the order of their keys.
    pub closed spec fn values(&self) -> Seq<V> {
        values_of(self.entries@)
    }

    /// The keys are sorted, and the map sends each key to the value beside it.
    pub open spec fn coherent(&self) -> bool {
        coherent_model(self.keys(), self.values(), self@)
    }

    #[verifier::type_invariant]
    closed spec fn inv(&self) -> bool {
        self.coherent()
    }

    /// An empty map.
    pub fn new() -> (r: Self)
        ensures
            r@ == Map::<Seq<char>, V>::empty(),
            r.keys() == Seq::<Seq<char>>::empty(),
            r.values() == Seq::<V>::empty(),
            r.coherent(),
    {
        let r = StrMap { entries: Vec::new(), map: Ghost(Map::empty()) };
        assert(r.keys() =~= Seq::<Seq<char>>::empty());
        assert(r.values() =~= Seq::<V>::empty());
        r
    }

    /// The number of entries.
    pub fn len(&self) -> (r: usize)
        ensures
            r == self.keys().len(),
            r == self@.len(),
            self.coherent(),
    {
        proof {
            use_type_invariant(self);
            self.lemma_len();
        }
        self.entries.len()
    }

    pub fn is_empty(&self) -> (r: bool)
        ensures
            r == (self.keys().len() == 0),
            self.coherent(),
    {
        proof {
            use_type_invariant(self);
        }
        self.entries.len() == 0
    }

    /// The key of the `i`-th entry in ascending order.
    pub fn key(&self, i: usize) -> (r: &String)
        requires
            i < self.keys().len(),
        ensures
            r@ == self.keys()[i as int],
            self.coherent(),
    {
        proof {
            use_type_invariant(self);
        }
        &self.entries[i].0
    }

    /// The value of the `i`-th entry in ascending key order.
    pub fn value(&self, i: usize) -> (r: &V)
        requires
            i < self.keys().len(),
        ensures
            *r == self.values()[i as int],
            self.coherent(),
    {
        proof {
            use_type_invariant(self);
        }
        &self.entries[i].1
    }

    proof fn lemma_len(&self)
        requires
            self.coherent(),
        ensures
            self@.len() == self.keys().len(),
    {
        let ks = self.keys();
        assert(self@.dom() =~= ks.to_set());
        assert(ks.no_duplicates()) by {
            assert forall|i: int, j: int| 0 <= i < ks.len() && 0 <= j < ks.len() && i != j implies ks[i]
                != ks[j] by {
                if i < j {
                    lemma_text_lt_irreflexive(ks[i]);
                } else {
                    lemma_text_lt_irreflexive(ks[j]);
                }
            }
        }
        ks.unique_seq_to_set();
    }

    /// Position of the first entry whose key is not less than `k`, and
    /// whether that entry's key is `k`.
    fn locate(&self, k: &str) -> (r: (usize, bool))
        ensures
            r.0 <= self.keys().len(),
            forall|i: int| 0 <= i < r.0 ==> text_lt(#[trigger] self.keys()[i], k@),
            r.1 ==> r.0 < self.keys().len() && self.keys()[r.0 as int] == k@,
            !r.1 ==> forall|i: int| r.0 <= i < self.keys().len() ==> text_lt(k@, #[trigger] self.keys()[i]),
            self.coherent(),
    {
        proof {
            use_type_invariant(self);
        }
        let n = self.entries.len();
        let mut i: usize = 0;
        while i < n
            invariant
                n == self.keys().len(),
                self.coherent(),
                i <= n,
                forall|j: int| 0 <= j < i ==> text_lt(#[trigger] self.keys()[j], k@),
            decreases n - i,
        {
            let c = compare_text(self.entries[i].0.as_str(), k);
            assert(self.entries@[i as int].0@ == self.keys()[i as int]);
            match c {
                Order::Less => {},
                Order::Equal => {
                    return (i, true);
                },
                Order::Greater => {
                    proof {
                        lemma_text_lt_total(k@, self.keys()[i as int]);
                        assert forall|j: int| i <= j < n implies text_lt(k@, #[trigger] self.keys()[j]) by {
                            if j > i {
                                lemma_text_lt_transitive(k@, self.keys()[i as int], self.keys()[j]);
                            }
                        }
                    }
                    return (i, false);
                },
            }
            i = i + 1;
        }
        (i, false)
    }

    /// The value stored under `k`, if any.
    pub fn get(&self, k: &str) -> (r: Option<&V>)
        ensures
            r is Some <==> self@.contains_key(k@),
            r matches Some(v) ==> *v == self@[k@],
            self.coherent(),
    {
        proof {
            use_type_invariant(self);
        }
        let (i, found) = self.locate(k);
        if found {
            assert(self.entries@[i as int].1 == self.values()[i as int]);
            Some(&self.entries[i].1)
        } else {
            proof {
                if self@.contains_key(k@) {
                    let j = choose|j: int| 0 <= j < self.keys().len() && self.keys()[j] == k@;
                    if j < i {
                        lemma_text_lt_irreflexive(k@);
                    } else {
                        lemma_text_lt_irreflexive(k@);
                    }
                }
            }
            None
        }
    }

    /// Whether `k` has an entry.
    pub fn contains_key(&self, k: &str) -> (r: bool)
        ensures
            r == self@.contains_key(k@),
            self.coherent(),
    {
        self.get(k).is_some()
    }

    /// Stores `v` under `k`, giving back the value it replaces.
    pub fn insert(&mut self, k: String, v: V) -> (r: Option<V>)
        ensures
            final(self)@ == old(self)@.insert(k@, v),
            r is Some <==> old(self)@.contains_key(k@),
            r matches Some(x) ==> x == old(self)@[k@],
            final(self).coherent(),
    {
        proof {
            use_type_invariant(&*self);
        }
        let (i, found) = self.locate(k.as_str());
        let mut taken = StrMap::new();
        std::mem::swap(self, &mut taken);
        proof {
            use_type_invariant(&taken);
        }
        let StrMap { entries: mut entries, map: Ghost(m) } = taken;
        let ghost ks = keys_of(entries@);
        let ghost vs = values_of(entries@);
        let ghost km = k@;
        let ghost new_map = m.insert(km, v);
        if found {
            let (_, old_v) = entries.remove(i);
            entries.insert(i, (k, v));
            proof {
                let nks = keys_of(entries@);
                let nvs = values_of(entries@);
                assert(nks =~= ks);
                assert(nvs =~= vs.update(i as int, v));
                assert forall|kk: Seq<char>| #[trigger] new_map.contains_key(kk) implies nks.contains(kk) by {
                    if kk == km {
                        assert(nks[i as int] == km);
                    } else {
                        assert(m.contains_key(kk));
                    }
                }
                assert forall|j: int| 0 <= j < nks.len() implies new_map.contains_key(#[trigger] nks[j])
                    && new_map[nks[j]] == nvs[j] by {
                    if j != i {
                        lemma_text_lt_irreflexive(km);
                        assert(ks[j] != km);
                    }
                }
                assert(coherent_model(nks, nvs, new_map));
            }
            *self = StrMap { entries, map: Ghost(new_map) };
            Some(old_v)
        } else {
            entries.insert(i, (k, v));
            proof {
                let nks = keys_of(entries@);
                let nvs = values_of(entries@);
                assert(nks =~= ks.insert(i as int, km));
                assert(nvs =~= vs.insert(i as int, v));
                assert forall|a: int, b: int| 0 <= a < b < nks.len() implies text_lt(
                    #[trigger] nks[a],
                    #[trigger] nks[b],
                ) by {
                    if a < i && b > i {
                        lemma_text_lt_transitive(ks[a], km, ks[b - 1]);
                    } else if a > i {
                        assert(nks[a] == ks[a - 1]);
                        assert(nks[b] == ks[b - 1]);
                    }
                }
                assert forall|kk: Seq<char>| #[trigger] new_map.contains_key(kk) implies nks.contains(kk) by {
                    if kk == km {
                        assert(nks[i as int] == km);
                    } else {
                        assert(m.contains_key(kk));
                        assert(ks.contains(kk));
                        let j = choose|j: int| 0 <= j < ks.len() && ks[j] == kk;
                        if j < i {
                            assert(nks[j] == kk);
                        } else {
                            assert(nks[j + 1] == kk);
                        }
                    }
                }
                lemma_text_lt_irreflexive(km);
                assert forall|j: int| 0 <= j < nks.len() implies new_map.contains_key(#[trigger] nks[j])
                    && new_map[nks[j]] == nvs[j] by {
                    if j < i {
                        assert(ks[j] != km);
                    } else if j > i {
                        assert(ks[j - 1] != km);
                    }
                }
                if m.contains_key(km) {
                    assert(ks.contains(km));
                    let j = choose|j: int| 0 <= j < ks.len() && ks[j] == km;
                    assert(false);
                }
                assert(coherent_model(nks, nvs, new_map));
            }
            *self = StrMap { entries, map: Ghost(new_map) };
            None
        }
    }

    /// Moves every entry of `other` into this map; on a shared key the entry
    /// of `other` wins.
    pub fn extend(&mut self, other: StrMap<V>)
        ensures
            final(self)@ == old(self)@.union_prefer_right(other@),
            final(self).coherent(),
    {
        proof {
            use_type_invariant(&other);
            use_type_invariant(&*self);
        }
        let ghost ks = other.keys();
        let ghost vs = other.values();
        let ghost om = other@;
        let ghost start = self@;
        let StrMap { entries: mut entries, map: _ } = other;
        assert(entries@.map_values(|e: (String, V)| e.0@) == ks);
        let ghost total = entries@.len();
        while entries.len() > 0
            invariant
                entries@.len() <= total,
                total == ks.len(),
                ks.len() == vs.len(),
                forall|j: int|
                    0 <= j < entries@.len() ==> (#[trigger] entries@[j]).0@ == ks[j] && entries@[j].1
                        == vs[j],
                forall|j: int| 0 <= j < ks.len() ==> #[trigger] om[ks[j]] == vs[j],
                forall|j: int| 0 <= j < ks.len() ==> om.contains_key(#[trigger] ks[j]),
                forall|kk: Seq<char>| #[trigger] om.contains_key(kk) ==> ks.contains(kk),
                is_sorted(ks),
                self.coherent(),
                self@ == start.union_prefer_right(
                    om.restrict(ks.subrange(entries@.len() as int, total as int).to_set()),
                ),
            decreases entries@.len(),
        {
            let ghost n = entries@.len();
            let (k, v) = entries.pop().unwrap();
            assert(k@ == ks[n - 1]);
            self.insert(k, v);
            proof {
                let lo = ks.subrange(n - 1, total as int);
                let hi = ks.subrange(n as int, total as int);
                assert forall|x: Seq<char>| lo.contains(x) == hi.insert(0, ks[n - 1]).contains(x) by {
                    assert(lo =~= hi.insert(0, ks[n - 1]));
                }
                assert(lo.to_set() =~= hi.to_set().insert(ks[n - 1])) by {
                    assert forall|x: Seq<char>| #[trigger] lo.contains(x) implies hi.contains(x) || x == ks[n - 1] by {
                        let j = choose|j: int| 0 <= j < lo.len() && lo[j] == x;
                        if j > 0 {
                            assert(hi[j - 1] == x);
                        }
                    }
                    assert forall|x: Seq<char>| #[trigger] hi.contains(x) implies lo.contains(x) by {
                        let j = choose|j: int| 0 <= j < hi.len() && hi[j] == x;
                        assert(lo[j + 1] == x);
                    }
                    assert(lo[0] == ks[n - 1]);
                }
            }
            assert(self@ =~= start.union_prefer_right(
                om.restrict(ks.subrange(n - 1, total as int).to_set()),
            ));
        }
        assert(ks.subrange(0, total as int) =~= ks);
        assert forall|kk: Seq<char>| om.contains_key(kk) implies #[trigger] ks.to_set().contains(kk) by {
        }
        assert(om.restrict(ks.to_set()) =~= om);
    }

    /// The entries in ascending key order.
    pub fn into_entries(self) -> (r: Vec<(String, V)>)
        ensures
            r@.len() == self.keys().len(),
            forall|i: int| 0 <= i < r@.len() ==> (#[trigger] r@[i]).0@ == self.keys()[i] && r@[i].1
                == self.values()[i],
    {
        self.entries
    }
}

impl StrMap<String> {
    /// A copy of a map of texts.
    pub fn duplicate(&self) -> (r: Self)
        ensures
            r@ == self@,
            r.keys() == self.keys(),
            r.values() == self.values(),
            r.coherent(),
    {
        proof {
            use_type_invariant(self);
        }
        let mut entries: Vec<(String, String)> = Vec::new();
        let n = self.entries.len();
        for i in 0..n
            invariant
                n == self.entries@.len(),
                entries@.len() == i,
                forall|j: int| 0 <= j < i ==> #[trigger] entries@[j] == self.entries@[j],
        {
            let e = &self.entries[i];
            entries.push((e.0.clone(), e.1.clone()));
        }
        assert(entries@ =~= self.entries@);
        StrMap { entries, map: Ghost(self.map@) }
    }
}

} // verus!
