//! An insertion-ordered map from strings to strings.
//!
//! Attributes of elements and arguments of components live in a `Props`.
//! A key occurs at most once; writing a key again replaces its value and
//! leaves the key where it first stood, so the order in which a map is walked
//! is the order in which its keys were first written.

use crate::text::str_eq;
use vstd::prelude::*;

verus! {

/// The entries of a map in the order in which they are walked.
pub type Entries = Seq<(Seq<char>, Seq<char>)>;

/// The first index at or after `from` that holds the key `k`; the length where none does.
pub open spec fn key_from(m: Entries, k: Seq<char>, from: int) -> int
    decreases m.len() - from,
{
    if from < 0 || from >= m.len() {
        m.len() as int
    } else if m[from].0 == k {
        from
    } else {
        key_from(m, k, from + 1)
    }
}

/// `key_from` returns the least index at or after `from` that holds `k`.
pub proof fn lemma_key_from(m: Entries, k: Seq<char>, from: int)
    requires
        0 <= from <= m.len(),
    ensures
        from <= key_from(m, k, from) <= m.len(),
        key_from(m, k, from) < m.len() ==> m[key_from(m, k, from)].0 == k,
        forall|j: int| from <= j < key_from(m, k, from) ==> (#[trigger] m[j]).0 != k,
    decreases m.len() - from,
{
    if from < m.len() && m[from].0 != k {
        lemma_key_from(m, k, from + 1);
    }
}

/// The value written under `k`, if any.
pub open spec fn lookup(m: Entries, k: Seq<char>) -> Option<Seq<char>> {
    let i = key_from(m, k, 0);
    if 0 <= i < m.len() {
        Some(m[i].1)
    } else {
        None
    }
}

/// Whether `k` is a key of `m`.
pub open spec fn has_key(m: Entries, k: Seq<char>) -> bool {
    lookup(m, k) is Some
}

/// `m` after `v` is written under `k`: in place where `k` is a key already, at the end otherwise.
pub open spec fn put(m: Entries, k: Seq<char>, v: Seq<char>) -> Entries {
    let i = key_from(m, k, 0);
    if 0 <= i < m.len() {
        m.update(i, (k, v))
    } else {
        m.push((k, v))
    }
}

/// No key occurs twice.
pub open spec fn distinct_keys(m: Entries) -> bool {
    forall|i: int, j: int| 0 <= i < j < m.len() ==> (#[trigger] m[i]).0 != (#[trigger] m[j]).0
}

/// Writing keeps the keys distinct, and the key then reads as the value written.
pub proof fn lemma_put(m: Entries, k: Seq<char>, v: Seq<char>)
    requires
        distinct_keys(m),
    ensures
        distinct_keys(put(m, k, v)),
        lookup(put(m, k, v), k) == Some(v),
        forall|other: Seq<char>| other != k ==> lookup(put(m, k, v), other) == lookup(m, other),
{
    let i = key_from(m, k, 0);
    let n = put(m, k, v);
    lemma_key_from(m, k, 0);
    assert(distinct_keys(n)) by {
        assert forall|a: int, b: int| 0 <= a < b < n.len() implies (#[trigger] n[a]).0 != (
        #[trigger] n[b]).0 by {
            if i < m.len() {
                assert(n[a].0 == m[a].0);
                assert(n[b].0 == m[b].0);
            } else if b < m.len() {
                assert(n[a] == m[a] && n[b] == m[b]);
            } else {
                assert(n[a] == m[a]);
            }
        }
    }
    assert(lookup(n, k) == Some(v)) by {
        lemma_same_keys_same_index(m, n, k, 0);
        if i < m.len() {
        } else {
            lemma_key_from(n, k, 0);
            assert(n[m.len() as int].0 == k);
            assert forall|j: int| 0 <= j < m.len() implies (#[trigger] n[j]).0 != k by {
                assert(n[j] == m[j]);
            }
        }
    }
    assert forall|other: Seq<char>| other != k implies lookup(n, other) == lookup(m, other) by {
        lemma_key_from(m, other, 0);
        lemma_key_from(n, other, 0);
        let a = key_from(m, other, 0);
        let b = key_from(n, other, 0);
        if a < m.len() {
            assert(n[a].0 == other);
            if b < a {
                assert(m[b].0 == n[b].0);
            }
            assert(n[a].1 == m[a].1);
        } else {
            if b < n.len() {
                if b < m.len() {
                    assert(m[b].0 == n[b].0);
                }
            }
        }
    }
}

/// A key that differs from all keys is written at the end.
pub proof fn lemma_put_new(m: Entries, key: Seq<char>, value: Seq<char>)
    requires
        forall|j: int| 0 <= j < m.len() ==> (#[trigger] m[j]).0 != key,
    ensures
        put(m, key, value) == m.push((key, value)),
{
    lemma_key_from(m, key, 0);
}

/// Where two maps of one length hold the same keys below the first hit, the hit is at one index.
proof fn lemma_same_keys_same_index(m: Entries, n: Entries, k: Seq<char>, from: int)
    requires
        0 <= from <= m.len() <= n.len(),
        forall|j: int| 0 <= j < m.len() ==> (#[trigger] m[j]).0 == (#[trigger] n[j]).0,
    ensures
        key_from(m, k, from) < m.len() ==> key_from(n, k, from) == key_from(m, k, from),
    decreases m.len() - from,
{
    if from < m.len() {
        assert(m[from].0 == n[from].0);
        if m[from].0 != k {
            lemma_same_keys_same_index(m, n, k, from + 1);
        }
    }
}

/// An insertion-ordered map from strings to strings with distinct keys.
#[derive(Debug, PartialEq, Eq)]
pub struct Props {
    entries: Vec<(String, String)>,
}

/// The entries that a vector of string pairs stands for.
pub open spec fn entries_of(v: Seq<(String, String)>) -> Entries {
    Seq::new(v.len(), |i: int| (v[i].0@, v[i].1@))
}

impl View for Props {
    type V = Entries;

    closed spec fn view(&self) -> Entries {
        entries_of(self.entries@)
    }
}

impl Props {
    #[verifier::type_invariant]
    closed spec fn keys_are_distinct(&self) -> bool {
        distinct_keys(self@)
    }

    /// The empty map.
    pub fn new() -> (r: Props)
        ensures
            r@ == Seq::<(Seq<char>, Seq<char>)>::empty(),
    {
        let r = Props { entries: Vec::new() };
        assert(r@ =~= Seq::<(Seq<char>, Seq<char>)>::empty());
        r
    }

    /// The number of keys, which are distinct.
    pub fn len(&self) -> (n: usize)
        ensures
            n == self@.len(),
            distinct_keys(self@),
    {
        proof {
            use_type_invariant(self);
        }
        self.entries.len()
    }

    /// Whether the map has no key.
    pub fn is_empty(&self) -> (b: bool)
        ensures
            b == (self@.len() == 0),
    {
        self.entries.len() == 0
    }

    /// The index of `key`, or the number of keys where it is none of them.
    fn position(&self, key: &str) -> (i: usize)
        ensures
            i == key_from(self@, key@, 0),
            i <= self@.len(),
    {
        let mut i: usize = 0;
        while i < self.entries.len()
            invariant
                i <= self.entries.len(),
                key_from(self@, key@, 0) == key_from(self@, key@, i as int),
            decreases self.entries.len() - i,
        {
            if str_eq(self.entries[i].0.as_str(), key) {
                return i;
            }
            i += 1;
        }
        i
    }

    /// Writes `value` under `key`.
    pub fn insert(&mut self, key: String, value: String)
        ensures
            final(self)@ == put(old(self)@, key@, value@),
    {
        proof {
            use_type_invariant(&*self);
            lemma_put(self@, key@, value@);
        }
        let i = self.position(key.as_str());
        let ghost before = self@;
        let ghost k = key@;
        let ghost v = value@;
        let mut taken = Props::new();
        core::mem::swap(self, &mut taken);
        let mut entries = taken.entries;
        if i < entries.len() {
            entries.set(i, (key, value));
        } else {
            entries.push((key, value));
        }
        assert(entries_of(entries@) =~= put(before, k, v));
        *self = Props { entries };
    }

    /// The value under `key`, if there is one.
    pub fn get(&self, key: &str) -> (r: Option<&String>)
        ensures
            match r {
                Some(v) => lookup(self@, key@) == Some(v@),
                None => lookup(self@, key@) is None,
            },
    {
        let i = self.position(key);
        if i < self.entries.len() {
            Some(&self.entries[i].1)
        } else {
            None
        }
    }

    /// Whether `key` is a key of the map.
    pub fn contains_key(&self, key: &str) -> (b: bool)
        ensures
            b == has_key(self@, key@),
    {
        let i = self.position(key);
        i < self.entries.len()
    }

    /// The key at place `i` of the walk.
    pub fn key_at(&self, i: usize) -> (k: &String)
        requires
            i < self@.len(),
        ensures
            k@ == self@[i as int].0,
    {
        &self.entries[i].0
    }

    /// The value at place `i` of the walk.
    pub fn value_at(&self, i: usize) -> (v: &String)
        requires
            i < self@.len(),
        ensures
            v@ == self@[i as int].1,
    {
        &self.entries[i].1
    }
}

impl Clone for Props {
    fn clone(&self) -> (r: Self)
        ensures
            r@ == self@,
    {
        proof {
            use_type_invariant(self);
        }
        let mut entries: Vec<(String, String)> = Vec::new();
        let mut i: usize = 0;
        while i < self.entries.len()
            invariant
                i <= self.entries.len(),
                entries.len() == i,
                forall|j: int|
                    0 <= j < i ==> (#[trigger] entries[j]).0@ == self.entries[j].0@ && entries[j].1@
                        == self.entries[j].1@,
            decreases self.entries.len() - i,
        {
            entries.push((self.entries[i].0.clone(), self.entries[i].1.clone()));
            i += 1;
        }
        assert(entries_of(entries@) =~= self@);
        Props { entries }
    }
}

impl Default for Props {
    fn default() -> (r: Props)
        ensures
            r@ == Seq::<(Seq<char>, Seq<char>)>::empty(),
    {
        Props::new()
    }
}

} // verus!
