//! A map keyed by names and a set of names, both remembering the order in
//! which names first arrived, so that walking them is deterministic.

use vstd::prelude::*;
use crate::strings::{chars_eq, chars_of, views};

verus! {

/// A map from names to values; iteration follows first insertion.
#[derive(Debug)]
pub struct NameMap<V> {
    entries: Vec<(String, V)>,
}

/// The keys of a list of entries.
pub open spec fn entry_keys<V>(es: Seq<(String, V)>) -> Seq<Seq<char>> {
    es.map_values(|e: (String, V)| e.0@)
}

impl<V> NameMap<V> {
    /// Keys are distinct.
    pub open spec fn wf(self) -> bool {
        forall|i: int, j: int|
            0 <= i < j < self.entries().len() ==> #[trigger] self.entries()[i].0@
                != #[trigger] self.entries()[j].0@
    }

    /// The entries, in order of first insertion.
    pub closed spec fn entries(self) -> Seq<(String, V)> {
        self.entries@
    }

    /// The keys, in order of first insertion.
    pub open spec fn keys(self) -> Seq<Seq<char>> {
        entry_keys(self.entries())
    }

    /// The value stored under `k`, if any.
    pub open spec fn lookup(self, k: Seq<char>) -> Option<V> {
        if exists|i: int| 0 <= i < self.entries().len() && #[trigger] self.entries()[i].0@ == k {
            let i = choose|i: int| 0 <= i < self.entries().len() && #[trigger] self.entries()[i].0@ == k;
            Some(self.entries()[i].1)
        } else {
            None
        }
    }

    /// An empty map.
    pub fn new() -> (r: NameMap<V>)
        ensures
            r.wf(),
            r.entries() == Seq::<(String, V)>::empty(),
    {
        NameMap { entries: Vec::new() }
    }

    /// Number of keys.
    pub fn len(&self) -> (r: usize)
        ensures
            r == self.entries().len(),
    {
        self.entries.len()
    }

    /// Keys are distinct.
    proof fn lemma_keys_distinct(&self)
        requires
            self.wf(),
        ensures
            forall|i: int, j: int|
                0 <= i < self.entries().len() && 0 <= j < self.entries().len() && i != j
                    ==> #[trigger] self.entries()[i].0@ != #[trigger] self.entries()[j].0@,
    {
        assert forall|i: int, j: int|
            0 <= i < self.entries().len() && 0 <= j < self.entries().len() && i != j
                implies #[trigger] self.entries()[i].0@ != #[trigger] self.entries()[j].0@ by {
            if i < j {
            } else {
            }
        }
    }

    /// The lookup of a key stored at position `i` is that entry's value.
    pub proof fn lemma_lookup_at(&self, i: int)
        requires
            self.wf(),
            0 <= i < self.entries().len(),
        ensures
            self.lookup(self.entries()[i].0@) == Some(self.entries()[i].1),
    {
        self.lemma_keys_distinct();
    }

    /// Position of the key `k`, if present.
    pub fn index_of(&self, k: &str) -> (r: Option<usize>)
        ensures
            match r {
                Some(i) => i < self.entries().len() && self.entries()[i as int].0@ == k@,
                None => forall|i: int|
                    0 <= i < self.entries().len() ==> #[trigger] self.entries()[i].0@ != k@,
            },
    {
        let kc = chars_of(k);
        let mut i: usize = 0;
        while i < self.entries.len()
            invariant
                i <= self.entries@.len(),
                kc@ == k@,
                forall|j: int| 0 <= j < i ==> #[trigger] self.entries@[j].0@ != k@,
            decreases self.entries@.len() - i,
        {
            let ec = chars_of(self.entries[i].0.as_str());
            if chars_eq(&ec, &kc) {
                return Some(i);
            }
            i = i + 1;
        }
        None
    }

    /// The value stored under `k`.
    pub fn get(&self, k: &str) -> (r: Option<&V>)
        requires
            self.wf(),
        ensures
            match r {
                Some(v) => self.lookup(k@) == Some(*v),
                None => self.lookup(k@) is None,
            },
    {
        match self.index_of(k) {
            Some(i) => {
                proof {
                    self.lemma_lookup_at(i as int);
                }
                Some(&self.entries[i].1)
            },
            None => None,
        }
    }

    /// Whether `k` is present.
    pub fn contains_key(&self, k: &str) -> (r: bool)
        requires
            self.wf(),
        ensures
            r == (self.lookup(k@) is Some),
    {
        match self.get(k) {
            Some(_) => true,
            None => false,
        }
    }

    /// The key and value at position `i`.
    pub fn entry_at(&self, i: usize) -> (r: (&String, &V))
        requires
            i < self.entries().len(),
        ensures
            *r.0 == self.entries()[i as int].0,
            *r.1 == self.entries()[i as int].1,
    {
        (&self.entries[i].0, &self.entries[i].1)
    }

    /// Stores `v` under `k`: a present key keeps its position and gets the new
    /// value, a new key goes last.
    pub fn insert(&mut self, k: String, v: V)
        requires
            old(self).wf(),
        ensures
            final(self).wf(),
            final(self).lookup(k@) == Some(v),
            forall|k2: Seq<char>| k2 != k@ ==> #[trigger] final(self).lookup(k2) == old(self).lookup(k2),
            final(self).entries() == match old(self).index_of_spec(k@) {
                Some(i) => old(self).entries().update(i, (old(self).entries()[i].0, v)),
                None => old(self).entries().push((k, v)),
            },
    {
        match self.index_of(k.as_str()) {
            Some(i) => {
                proof {
                    self.lemma_index_of_spec(k@, i as int);
                }
                let key = self.entries[i].0.clone();
                self.entries.set(i, (key, v));
                assert(entry_keys(self.entries@) =~= entry_keys(old(self).entries@));
                assert forall|a: int, b: int|
                    0 <= a < b < self.entries@.len() implies #[trigger] self.entries@[a].0@
                        != #[trigger] self.entries@[b].0@ by {
                    assert(self.entries@[a].0@ == old(self).entries@[a].0@);
                    assert(self.entries@[b].0@ == old(self).entries@[b].0@);
                }
                proof {
                    self.lemma_lookup_at(i as int);
                    assert forall|k2: Seq<char>| k2 != k@ implies #[trigger] self.lookup(k2) == old(self).lookup(k2) by {
                        if exists|j: int| 0 <= j < self.entries().len() && #[trigger] self.entries()[j].0@ == k2 {
                            let j = choose|j: int| 0 <= j < self.entries().len() && #[trigger] self.entries()[j].0@ == k2;
                            self.lemma_lookup_at(j);
                            old(self).lemma_lookup_at(j);
                        }
                        if exists|j: int| 0 <= j < old(self).entries().len() && #[trigger] old(self).entries()[j].0@ == k2 {
                            let j = choose|j: int| 0 <= j < old(self).entries().len() && #[trigger] old(self).entries()[j].0@ == k2;
                            assert(self.entries()[j].0@ == k2);
                        }
                    }
                }
            },
            None => {
                proof {
                    self.lemma_index_of_spec_none(k@);
                }
                self.entries.push((k, v));
                proof {
                    self.lemma_lookup_at(self.entries@.len() - 1);
                    assert forall|k2: Seq<char>| k2 != k@ implies #[trigger] self.lookup(k2) == old(self).lookup(k2) by {
                        if exists|i: int| 0 <= i < self.entries().len() && #[trigger] self.entries()[i].0@ == k2 {
                            let i = choose|i: int| 0 <= i < self.entries().len() && #[trigger] self.entries()[i].0@ == k2;
                            self.lemma_lookup_at(i);
                            old(self).lemma_lookup_at(i);
                        }
                        if exists|i: int| 0 <= i < old(self).entries().len() && #[trigger] old(self).entries()[i].0@ == k2 {
                            let i = choose|i: int| 0 <= i < old(self).entries().len() && #[trigger] old(self).entries()[i].0@ == k2;
                            assert(self.entries()[i].0@ == k2);
                        }
                    }
                }
            },
        }
    }

    /// Position of `k` among the keys, if present.
    pub open spec fn index_of_spec(self, k: Seq<char>) -> Option<int> {
        if exists|i: int| 0 <= i < self.entries().len() && #[trigger] self.entries()[i].0@ == k {
            Some(choose|i: int| 0 <= i < self.entries().len() && #[trigger] self.entries()[i].0@ == k)
        } else {
            None
        }
    }

    proof fn lemma_index_of_spec(&self, k: Seq<char>, i: int)
        requires
            self.wf(),
            0 <= i < self.entries().len(),
            self.entries()[i].0@ == k,
        ensures
            self.index_of_spec(k) == Some(i),
    {
        self.lemma_keys_distinct();
    }

    /// A key has a position exactly when it is among the keys.
    pub proof fn lemma_index_of_spec_contains(&self, k: Seq<char>)
        ensures
            (self.index_of_spec(k) is Some) == self.keys().contains(k),
    {
        if self.keys().contains(k) {
            let q = choose|q: int| 0 <= q < self.keys().len() && self.keys()[q] == k;
            assert(self.entries()[q].0@ == k);
        }
        if self.index_of_spec(k) is Some {
            let q = choose|i: int| 0 <= i < self.entries().len() && #[trigger] self.entries()[i].0@ == k;
            assert(self.keys()[q] == k);
        }
    }

    proof fn lemma_index_of_spec_none(&self, k: Seq<char>)
        requires
            forall|i: int| 0 <= i < self.entries().len() ==> #[trigger] self.entries()[i].0@ != k,
        ensures
            self.index_of_spec(k) is None,
    {
    }
}

impl<T> NameMap<Vec<T>> {
    /// Appends `x` to the list stored under `k` (an empty list if `k` is new).
    pub fn push_to(&mut self, k: &str, x: T)
        requires
            old(self).wf(),
        ensures
            final(self).wf(),
            final(self).keys() == match old(self).index_of_spec(k@) {
                Some(i) => old(self).keys(),
                None => old(self).keys().push(k@),
            },
            final(self).entries().len() == match old(self).index_of_spec(k@) {
                Some(i) => old(self).entries().len(),
                None => old(self).entries().len() + 1,
            },
            forall|j: int|
                0 <= j < final(self).entries().len() ==> (#[trigger] final(self).entries()[j]).1@
                    == if final(self).entries()[j].0@ == k@ {
                    if j < old(self).entries().len() {
                        old(self).entries()[j].1@.push(x)
                    } else {
                        seq![x]
                    }
                } else {
                    old(self).entries()[j].1@
                },
    {
        match self.index_of(k) {
            Some(i) => {
                proof {
                    self.lemma_index_of_spec(k@, i as int);
                }
                let ghost before = self.entries@;
                let key = self.entries[i].0.clone();
                let mut e = (key, Vec::new());
                std::mem::swap(&mut e, &mut self.entries[i]);
                let mut list2 = e.1;
                list2.push(x);
                let key2 = e.0;
                self.entries.set(i, (key2, list2));
                assert(entry_keys(self.entries@) =~= entry_keys(before));
                assert forall|a: int, b: int|
                    0 <= a < b < self.entries@.len() implies #[trigger] self.entries@[a].0@
                        != #[trigger] self.entries@[b].0@ by {
                    assert(self.entries@[a].0@ == before[a].0@);
                    assert(self.entries@[b].0@ == before[b].0@);
                }
                assert forall|j: int| 0 <= j < self.entries@.len() && j != i implies #[trigger] self.entries@[j].0@ != k@ by {
                    assert(before[j].0@ != before[i as int].0@);
                }
            },
            None => {
                proof {
                    self.lemma_index_of_spec_none(k@);
                }
                let mut list: Vec<T> = Vec::new();
                list.push(x);
                assert(forall|j: int| 0 <= j < self.entries@.len() ==> #[trigger] self.entries@[j].0@ != k@);
                self.entries.push((String::from_str(k), list));
                assert(entry_keys(self.entries@) =~= entry_keys(old(self).entries@).push(k@));
            },
        }
    }
}

/// A set of names; iteration follows first insertion.
#[derive(Debug)]
pub struct NameSet {
    items: Vec<String>,
}

impl View for NameSet {
    type V = Set<Seq<char>>;

    closed spec fn view(&self) -> Set<Seq<char>> {
        self.names().to_set()
    }
}

impl NameSet {
    /// The names, in order of first insertion.
    pub closed spec fn names(self) -> Seq<Seq<char>> {
        views(self.items@)
    }

    /// No name occurs twice.
    pub open spec fn wf(self) -> bool {
        self.names().no_duplicates()
    }

    /// The set holds exactly the listed names.
    pub proof fn lemma_view(&self)
        ensures
            self@ == self.names().to_set(),
            forall|s: Seq<char>| #[trigger] self@.contains(s) <==> self.names().contains(s),
    {
    }

    /// An empty set.
    pub fn new() -> (r: NameSet)
        ensures
            r.wf(),
            r.names() == Seq::<Seq<char>>::empty(),
            r@ == Set::<Seq<char>>::empty(),
    {
        let r = NameSet { items: Vec::new() };
        assert(r.names() =~= Seq::<Seq<char>>::empty());
        assert(r@ =~= Set::<Seq<char>>::empty());
        r
    }

    /// Number of names.
    pub fn len(&self) -> (r: usize)
        ensures
            r == self.names().len(),
            self.wf() ==> r == self@.len(),
    {
        proof {
            if self.wf() {
                self.names().unique_seq_to_set();
            }
        }
        self.items.len()
    }

    /// The name at position `i`.
    pub fn get(&self, i: usize) -> (r: &String)
        requires
            i < self.names().len(),
        ensures
            r@ == self.names()[i as int],
    {
        &self.items[i]
    }

    fn position(&self, s: &str) -> (r: Option<usize>)
        ensures
            match r {
                Some(i) => i < self.names().len() && self.names()[i as int] == s@,
                None => !self.names().contains(s@),
            },
    {
        let sc = chars_of(s);
        let mut i: usize = 0;
        while i < self.items.len()
            invariant
                i <= self.items@.len(),
                sc@ == s@,
                forall|j: int| 0 <= j < i ==> #[trigger] self.items@[j]@ != s@,
            decreases self.items@.len() - i,
        {
            let ic = chars_of(self.items[i].as_str());
            if chars_eq(&ic, &sc) {
                return Some(i);
            }
            i = i + 1;
        }
        assert forall|j: int| 0 <= j < self.names().len() implies #[trigger] self.names()[j] != s@ by {
            assert(self.names()[j] == self.items@[j]@);
        }
        None
    }

    /// Whether `s` is in the set.
    pub fn contains(&self, s: &str) -> (r: bool)
        ensures
            r == self@.contains(s@),
    {
        match self.position(s) {
            Some(i) => {
                assert(self.names()[i as int] == s@);
                true
            },
            None => false,
        }
    }

    /// Adds `s`; a name already present keeps its position.
    pub fn insert(&mut self, s: String)
        requires
            old(self).wf(),
        ensures
            final(self).wf(),
            final(self)@ == old(self)@.insert(s@),
            final(self).names() == if old(self).names().contains(s@) {
                old(self).names()
            } else {
                old(self).names().push(s@)
            },
    {
        match self.position(s.as_str()) {
            Some(i) => {
                assert(old(self)@.insert(s@) =~= old(self)@);
            },
            None => {
                let ghost x = s@;
                self.items.push(s);
                assert(self.names() =~= old(self).names().push(x));
                assert forall|a: Seq<char>| #[trigger] self.names().contains(a) <==> old(self).names().contains(a) || a == x by {
                    if self.names().contains(a) {
                        let k = choose|k: int| 0 <= k < self.names().len() && self.names()[k] == a;
                        if k < old(self).names().len() {
                            assert(old(self).names()[k] == a);
                        }
                    }
                    if old(self).names().contains(a) {
                        let k = choose|k: int| 0 <= k < old(self).names().len() && old(self).names()[k] == a;
                        assert(self.names()[k] == a);
                    }
                    if a == x {
                        assert(self.names()[self.names().len() - 1] == a);
                    }
                }
                assert(self@ =~= old(self)@.insert(x));
            },
        }
    }

    /// Removes `s` if present.
    pub fn remove(&mut self, s: &str)
        requires
            old(self).wf(),
        ensures
            final(self).wf(),
            final(self)@ == old(self)@.remove(s@),
    {
        match self.position(s) {
            Some(i) => {
                let ghost old_names = self.names();
                let _ = self.items.remove(i);
                assert(self.names() =~= old_names.remove(i as int));
                assert forall|a: Seq<char>| #[trigger] self.names().contains(a) <==> old_names.contains(a) && a != s@ by {
                    if self.names().contains(a) {
                        let k = choose|k: int| 0 <= k < self.names().len() && self.names()[k] == a;
                        if k < i {
                            assert(old_names[k] == a);
                        } else {
                            assert(old_names[k + 1] == a);
                        }
                    }
                    if old_names.contains(a) && a != s@ {
                        let k = choose|k: int| 0 <= k < old_names.len() && old_names[k] == a;
                        if k < i {
                            assert(self.names()[k] == a);
                        } else {
                            assert(k != i);
                            assert(self.names()[k - 1] == a);
                        }
                    }
                }
                assert(self@ =~= old(self)@.remove(s@));
            },
            None => {
                assert(self@ =~= old(self)@.remove(s@));
            },
        }
    }

    /// A copy of the set, with the same order.
    pub fn copy(&self) -> (r: NameSet)
        ensures
            r.names() == self.names(),
            r@ == self@,
    {
        let mut items: Vec<String> = Vec::new();
        let mut i: usize = 0;
        while i < self.items.len()
            invariant
                i <= self.items@.len(),
                items@.len() == i,
                forall|k: int| 0 <= k < i ==> #[trigger] items@[k]@ == self.items@[k]@,
            decreases self.items@.len() - i,
        {
            let x = self.items[i].clone();
            items.push(x);
            i = i + 1;
        }
        assert(views(items@) =~= views(self.items@));
        NameSet { items }
    }

    /// The names of `self` that are not in `other`, in the order of `self`.
    pub fn difference(&self, other: &NameSet) -> (r: NameSet)
        requires
            self.wf(),
        ensures
            r.wf(),
            r@ == self@.difference(other@),
    {
        let mut r = NameSet::new();
        let mut i: usize = 0;
        while i < self.items.len()
            invariant
                i <= self.items@.len(),
                r.wf(),
                r@ == self.names().subrange(0, i as int).to_set().difference(other@),
            decreases self.items@.len() - i,
        {
            let ghost before = r@;
            assert(self.names().subrange(0, i + 1).to_set() =~= self.names().subrange(0, i as int).to_set().insert(self.names()[i as int])) by {
                assert forall|a: Seq<char>| #[trigger] self.names().subrange(0, i + 1).contains(a) <==> self.names().subrange(0, i as int).contains(a) || a == self.names()[i as int] by {
                    let sub = self.names().subrange(0, i + 1);
                    let pre = self.names().subrange(0, i as int);
                    if sub.contains(a) {
                        let k = choose|k: int| 0 <= k < sub.len() && sub[k] == a;
                        if k < i {
                            assert(pre[k] == a);
                        }
                    }
                    if pre.contains(a) {
                        let k = choose|k: int| 0 <= k < pre.len() && pre[k] == a;
                        assert(sub[k] == a);
                    }
                    if a == self.names()[i as int] {
                        assert(sub[i as int] == a);
                    }
                }
            }
            if !other.contains(self.items[i].as_str()) {
                r.insert(self.items[i].clone());
            }
            i = i + 1;
            assert(r@ =~= self.names().subrange(0, i as int).to_set().difference(other@));
        }
        assert(self.names().subrange(0, i as int) =~= self.names());
        r
    }
}

} // verus!
