//! A map from strings to strings, kept as a list of entries in insertion
//! order with no key twice. Headers, URL parameters and search parameters
//! are held in it.
use vstd::prelude::*;

use crate::text::str_eq;

verus! {

/// A map's contents: its entries, oldest first.
pub type Entries = Seq<(Seq<char>, Seq<char>)>;

/// No key occurs twice.
pub open spec fn unique_keys(m: Entries) -> bool {
    forall|i: int, j: int| 0 <= i < j < m.len() ==> #[trigger] m[i].0 != #[trigger] m[j].0
}

/// The position of the entry for `k`, if there is one.
pub open spec fn find_key(m: Entries, k: Seq<char>) -> Option<int>
    decreases m.len(),
{
    if m.len() == 0 {
        None
    } else {
        match find_key(m.drop_last(), k) {
            Some(i) => Some(i),
            None => if m.last().0 == k {
                Some(m.len() - 1)
            } else {
                None
            },
        }
    }
}

/// The value stored for `k`.
pub open spec fn lookup(m: Entries, k: Seq<char>) -> Option<Seq<char>> {
    match find_key(m, k) {
        Some(i) => Some(m[i].1),
        None => None,
    }
}

/// `m` after storing `v` for `k`: an existing entry keeps its place and gets
/// the new value; otherwise the entry goes last.
pub open spec fn insert_entry(m: Entries, k: Seq<char>, v: Seq<char>) -> Entries {
    match find_key(m, k) {
        Some(i) => m.update(i, (k, v)),
        None => m.push((k, v)),
    }
}

/// `m` without the entry for `k`; the other entries keep their order.
pub open spec fn remove_entry(m: Entries, k: Seq<char>) -> Entries {
    match find_key(m, k) {
        Some(i) => m.remove(i),
        None => m,
    }
}

/// What `find_key` finds.
pub proof fn lemma_find_key(m: Entries, k: Seq<char>)
    ensures
        find_key(m, k) matches Some(i) ==> 0 <= i < m.len() && m[i].0 == k && forall|j: int|
            0 <= j < i ==> #[trigger] m[j].0 != k,
        find_key(m, k) is None ==> forall|j: int| 0 <= j < m.len() ==> #[trigger] m[j].0 != k,
    decreases m.len(),
{
    if m.len() > 0 {
        lemma_find_key(m.drop_last(), k);
        assert forall|j: int| 0 <= j < m.len() - 1 implies #[trigger] m[j] == m.drop_last()[j] by {}
    }
}

/// In a map without repeated keys, an entry with key `k` is the one that
/// `find_key` finds.
pub proof fn lemma_find_key_unique(m: Entries, k: Seq<char>, i: int)
    requires
        unique_keys(m),
        0 <= i < m.len(),
        m[i].0 == k,
    ensures
        find_key(m, k) == Some(i),
{
    lemma_find_key(m, k);
    if let Some(j) = find_key(m, k) {
        if j < i {
            assert(m[j].0 != m[i].0);
        }
    }
}

/// Storing keeps keys unique.
pub proof fn lemma_insert_unique(m: Entries, k: Seq<char>, v: Seq<char>)
    requires
        unique_keys(m),
    ensures
        unique_keys(insert_entry(m, k, v)),
{
    lemma_find_key(m, k);
    let r = insert_entry(m, k, v);
    assert forall|i: int, j: int| 0 <= i < j < r.len() implies #[trigger] r[i].0 != #[trigger] r[j].0 by {
        if find_key(m, k) is None {
            if j == m.len() {
                assert(m[i].0 != k);
            } else {
                assert(m[i].0 != m[j].0);
            }
        } else {
            assert(m[i].0 != m[j].0);
        }
    }
}

/// Removing keeps keys unique.
pub proof fn lemma_remove_unique(m: Entries, k: Seq<char>)
    requires
        unique_keys(m),
    ensures
        unique_keys(remove_entry(m, k)),
{
    let r = remove_entry(m, k);
    if let Some(x) = find_key(m, k) {
        lemma_find_key(m, k);
        assert forall|i: int, j: int| 0 <= i < j < r.len() implies #[trigger] r[i].0 != #[trigger] r[j].0 by {
            let ii = if i < x { i } else { i + 1 };
            let jj = if j < x { j } else { j + 1 };
            assert(r[i] == m[ii]);
            assert(r[j] == m[jj]);
            assert(m[ii].0 != m[jj].0);
        }
    }
}

/// An entry with key `k` that no earlier entry shares is the one that
/// `find_key` finds.
pub proof fn lemma_find_key_first(m: Entries, k: Seq<char>, i: int)
    requires
        0 <= i < m.len(),
        m[i].0 == k,
        forall|j: int| 0 <= j < i ==> #[trigger] m[j].0 != k,
    ensures
        find_key(m, k) == Some(i),
    decreases m.len(),
{
    lemma_find_key(m.drop_last(), k);
    if i < m.len() - 1 {
        assert(m.drop_last()[i] == m[i]);
        assert forall|j: int| 0 <= j < i implies #[trigger] m.drop_last()[j].0 != k by {
            assert(m.drop_last()[j] == m[j]);
        }
        lemma_find_key_first(m.drop_last(), k, i);
    } else {
        if let Some(x) = find_key(m.drop_last(), k) {
            assert(m.drop_last()[x] == m[x]);
        }
    }
}

/// `find_key` looks at keys only.
proof fn lemma_find_key_same_keys(m: Entries, r: Entries, k: Seq<char>)
    requires
        m.len() == r.len(),
        forall|j: int| 0 <= j < m.len() ==> #[trigger] m[j].0 == r[j].0,
    ensures
        find_key(m, k) == find_key(r, k),
    decreases m.len(),
{
    if m.len() > 0 {
        assert forall|j: int| 0 <= j < m.len() - 1 implies #[trigger] m.drop_last()[j].0
            == r.drop_last()[j].0 by {
            assert(m.drop_last()[j] == m[j]);
            assert(r.drop_last()[j] == r[j]);
        }
        lemma_find_key_same_keys(m.drop_last(), r.drop_last(), k);
    }
}

/// A read gives back what the last write of that key stored, and a write
/// to one key leaves every other key's value as it was.
pub proof fn lemma_lookup_insert(m: Entries, k: Seq<char>, v: Seq<char>, k2: Seq<char>)
    ensures
        lookup(insert_entry(m, k, v), k) == Some(v),
        k2 != k ==> lookup(insert_entry(m, k, v), k2) == lookup(m, k2),
{
    lemma_find_key(m, k);
    lemma_find_key(m, k2);
    let r = insert_entry(m, k, v);
    match find_key(m, k) {
        Some(i) => {
            assert forall|j: int| 0 <= j < i implies #[trigger] r[j].0 != k by {
                assert(r[j] == m[j]);
            }
            lemma_find_key_first(r, k, i);
            assert forall|j: int| 0 <= j < m.len() implies #[trigger] m[j].0 == r[j].0 by {}
            lemma_find_key_same_keys(m, r, k2);
            if k2 != k {
                if let Some(y) = find_key(m, k2) {
                    assert(y != i);
                    assert(r[y] == m[y]);
                }
            }
        },
        None => {
            assert forall|j: int| 0 <= j < m.len() implies #[trigger] r[j].0 != k by {
                assert(r[j] == m[j]);
            }
            lemma_find_key_first(r, k, m.len() as int);
            assert(r.drop_last() =~= m);
            if k2 != k {
                lemma_find_key(r, k2);
                if let Some(y) = find_key(m, k2) {
                    assert(r[y] == m[y]);
                }
            }
        },
    }
}

/// After removing `k`, there is no value for `k`; other keys keep theirs.
pub proof fn lemma_lookup_remove(m: Entries, k: Seq<char>, k2: Seq<char>)
    requires
        unique_keys(m),
    ensures
        lookup(remove_entry(m, k), k) is None,
        k2 != k ==> lookup(remove_entry(m, k), k2) == lookup(m, k2),
{
    lemma_find_key(m, k);
    lemma_find_key(m, k2);
    lemma_remove_unique(m, k);
    let r = remove_entry(m, k);
    lemma_find_key(r, k);
    lemma_find_key(r, k2);
    if let Some(x) = find_key(m, k) {
        assert forall|j: int| 0 <= j < r.len() implies #[trigger] r[j].0 != k by {
            let jj = if j < x { j } else { j + 1 };
            assert(r[j] == m[jj]);
            assert(m[jj].0 != m[x].0);
        }
        if k2 != k {
            if let Some(y) = find_key(m, k2) {
                let yy = if y < x { y } else { y - 1 };
                assert(r[yy] == m[y]);
                lemma_find_key_unique(r, k2, yy);
            } else {
                assert forall|j: int| 0 <= j < r.len() implies #[trigger] r[j].0 != k2 by {
                    let jj = if j < x { j } else { j + 1 };
                    assert(r[j] == m[jj]);
                }
            }
        }
    }
}

/// The contents of a list of owned key/value pairs.
pub open spec fn entries_view(v: Seq<(String, String)>) -> Entries {
    Seq::new(v.len(), |i: int| (v[i].0@, v[i].1@))
}

/// A map from strings to strings with at most one entry per key. Entries
/// keep the order in which their keys were first stored.
#[derive(Debug)]
pub struct StringMap {
    entries: Vec<(String, String)>,
}

impl View for StringMap {
    type V = Entries;

    closed spec fn view(&self) -> Entries {
        entries_view(self.entries@)
    }
}

impl StringMap {
    #[verifier::type_invariant]
    spec fn keys_are_unique(&self) -> bool {
        unique_keys(self@)
    }

    /// An empty map.
    pub fn new() -> (m: Self)
        ensures
            m@ == Seq::<(Seq<char>, Seq<char>)>::empty(),
    {
        let m = StringMap { entries: Vec::new() };
        assert(m@ =~= Seq::<(Seq<char>, Seq<char>)>::empty());
        m
    }

    /// The number of entries.
    pub fn len(&self) -> (n: usize)
        ensures
            n == self@.len(),
    {
        self.entries.len()
    }

    /// The key and value of the `i`-th entry.
    pub fn entry(&self, i: usize) -> (r: (&String, &String))
        requires
            i < self@.len(),
        ensures
            r.0@ == self@[i as int].0,
            r.1@ == self@[i as int].1,
    {
        let e = &self.entries[i];
        (&e.0, &e.1)
    }

    /// The position of the entry for `key`.
    fn position(&self, key: &str) -> (r: Option<usize>)
        ensures
            r matches Some(i) ==> find_key(self@, key@) == Some(i as int) && i < self@.len(),
            r is None ==> find_key(self@, key@) is None,
    {
        proof {
            lemma_find_key(self@, key@);
        }
        let mut i: usize = 0;
        while i < self.entries.len()
            invariant
                i <= self.entries@.len(),
                self@.len() == self.entries@.len(),
                forall|j: int| 0 <= j < i ==> #[trigger] self@[j].0 != key@,
            decreases self.entries.len() - i,
        {
            assert(self@[i as int].0 == self.entries@[i as int].0@);
            if str_eq(self.entries[i].0.as_str(), key) {
                proof {
                    let m = self@;
                    lemma_find_key(m, key@);
                    if let Some(j) = find_key(m, key@) {
                        if j > i {
                            assert(m[i as int].0 == key@);
                        }
                    }
                }
                return Some(i);
            }
            i = i + 1;
        }
        None
    }

    /// The value stored for `key`.
    pub fn get(&self, key: &str) -> (r: Option<&String>)
        ensures
            match r {
                Some(v) => lookup(self@, key@) == Some(v@),
                None => lookup(self@, key@) is None,
            },
    {
        match self.position(key) {
            Some(i) => Some(&self.entries[i].1),
            None => None,
        }
    }

    /// Stores `value` for `key`, in place of any value stored before.
    pub fn insert(&mut self, key: String, value: String)
        ensures
            final(self)@ == insert_entry(old(self)@, key@, value@),
            lookup(final(self)@, key@) == Some(value@),
            forall|k: Seq<char>|
                k != key@ ==> #[trigger] lookup(final(self)@, k) == lookup(old(self)@, k),
    {
        proof {
            use_type_invariant(&*self);
            lemma_insert_unique(self@, key@, value@);
            lemma_lookup_insert(self@, key@, value@, key@);
            assert forall|k: Seq<char>| k != key@ implies #[trigger] lookup(
                insert_entry(self@, key@, value@),
                k,
            ) == lookup(self@, k) by {
                lemma_lookup_insert(self@, key@, value@, k);
            }
        }
        let ghost m = self@;
        let pos = self.position(key.as_str());
        let mut entries: Vec<(String, String)> = Vec::new();
        std::mem::swap(&mut entries, &mut self.entries);
        match pos {
            Some(i) => {
                entries.set(i, (key, value));
            },
            None => {
                entries.push((key, value));
            },
        }
        assert(entries_view(entries@) =~= insert_entry(
            m,
            key@,
            value@,
        ));
        self.entries = entries;
    }

    /// Removes the entry for `key`, if there is one.
    pub fn remove(&mut self, key: &str)
        ensures
            final(self)@ == remove_entry(old(self)@, key@),
            lookup(final(self)@, key@) is None,
            forall|k: Seq<char>|
                k != key@ ==> #[trigger] lookup(final(self)@, k) == lookup(old(self)@, k),
    {
        proof {
            use_type_invariant(&*self);
            lemma_remove_unique(self@, key@);
            lemma_lookup_remove(self@, key@, key@);
            assert forall|k: Seq<char>| k != key@ implies #[trigger] lookup(
                remove_entry(self@, key@),
                k,
            ) == lookup(self@, k) by {
                lemma_lookup_remove(self@, key@, k);
            }
        }
        let ghost m = self@;
        let pos = self.position(key);
        let mut entries: Vec<(String, String)> = Vec::new();
        std::mem::swap(&mut entries, &mut self.entries);
        match pos {
            Some(i) => {
                entries.remove(i);
            },
            None => {},
        }
        assert(entries_view(entries@) =~= remove_entry(
            m,
            key@,
        ));
        self.entries = entries;
    }
}

impl Clone for StringMap {
    fn clone(&self) -> (r: Self)
        ensures
            r@ == self@,
    {
        proof {
            use_type_invariant(self);
        }
        let mut entries: Vec<(String, String)> = Vec::new();
        let mut i: usize = 0;
        while i < self.entries.len()
            invariant
                i <= self.entries@.len(),
                entries_view(entries@) == self@.take(i as int),
                self@.len() == self.entries@.len(),
            decreases self.entries.len() - i,
        {
            let e = &self.entries[i];
            let k = e.0.clone();
            let v = e.1.clone();
            assert(k@ == self@[i as int].0);
            assert(v@ == self@[i as int].1);
            let ghost before = entries@;
            entries.push((k, v));
            assert(entries_view(entries@) =~= entries_view(before).push((k@, v@)));
            i = i + 1;
            assert(entries_view(entries@) =~= self@.take(i as int));
        }
        assert(self@.take(self@.len() as int) == self@);
        StringMap { entries }
    }
}

} // verus!
