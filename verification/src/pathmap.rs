//! A map keyed by path strings, kept as a list of entries with distinct keys.
use vstd::prelude::*;

use crate::text::{chars_eq, chars_of};

verus! {

/// The map that a list of entries describes: later entries win over earlier ones.
pub open spec fn entries_map<V>(entries: Seq<(String, V)>) -> Map<Seq<char>, V>
    decreases entries.len(),
{
    if entries.len() == 0 {
        Map::empty()
    } else {
        entries_map(entries.drop_last()).insert(entries.last().0@, entries.last().1)
    }
}

/// No two entries share a key.
pub open spec fn keys_distinct<V>(entries: Seq<(String, V)>) -> bool {
    forall|i: int, j: int| 0 <= i < j < entries.len() ==> entries[i].0@ != entries[j].0@
}

/// The keys of the map are the keys of the entries.
pub proof fn lemma_entries_map_dom<V>(entries: Seq<(String, V)>, k: Seq<char>)
    ensures
        entries_map(entries).dom().contains(k) <==> exists|i: int|
            0 <= i < entries.len() && entries[i].0@ == k,
    decreases entries.len(),
{
    if entries.len() > 0 {
        lemma_entries_map_dom(entries.drop_last(), k);
        if entries_map(entries).dom().contains(k) && entries.last().0@ != k {
            let i = choose|i: int| 0 <= i < entries.drop_last().len() && entries.drop_last()[i].0@ == k;
            assert(entries[i].0@ == k);
        }
        if exists|i: int| 0 <= i < entries.len() && entries[i].0@ == k {
            let i = choose|i: int| 0 <= i < entries.len() && entries[i].0@ == k;
            if i < entries.len() - 1 {
                assert(entries.drop_last()[i].0@ == k);
            }
        }
    }
}

/// With distinct keys, the map gives each entry's value at its key.
pub proof fn lemma_entries_map_value<V>(entries: Seq<(String, V)>, i: int)
    requires
        keys_distinct(entries),
        0 <= i < entries.len(),
    ensures
        entries_map(entries).dom().contains(entries[i].0@),
        entries_map(entries)[entries[i].0@] == entries[i].1,
    decreases entries.len(),
{
    if i < entries.len() - 1 {
        let init = entries.drop_last();
        assert(init[i] == entries[i]);
        assert(keys_distinct(init));
        lemma_entries_map_value(init, i);
        assert(entries[i].0@ != entries.last().0@);
    }
}

/// With distinct keys, the map has one key per entry.
pub proof fn lemma_entries_map_len<V>(entries: Seq<(String, V)>)
    requires
        keys_distinct(entries),
    ensures
        entries_map(entries).dom().finite(),
        entries_map(entries).dom().len() == entries.len(),
    decreases entries.len(),
{
    if entries.len() > 0 {
        let init = entries.drop_last();
        assert(keys_distinct(init));
        lemma_entries_map_len(init);
        lemma_entries_map_dom(init, entries.last().0@);
        assert(!entries_map(init).dom().contains(entries.last().0@));
    } else {
        assert(entries_map(entries).dom() =~= Set::empty());
    }
}

/// Replacing the value of an existing key changes the map at that key only.
proof fn lemma_entries_map_update<V>(entries: Seq<(String, V)>, i: int, key: String, value: V)
    requires
        keys_distinct(entries),
        0 <= i < entries.len(),
        entries[i].0@ == key@,
    ensures
        keys_distinct(entries.update(i, (key, value))),
        entries_map(entries.update(i, (key, value))) == entries_map(entries).insert(key@, value),
{
    let new = entries.update(i, (key, value));
    assert(keys_distinct(new));
    assert forall|k: Seq<char>|
        entries_map(new).dom().contains(k) == entries_map(entries).insert(key@, value).dom().contains(
            k,
        ) by {
        lemma_entries_map_dom(new, k);
        lemma_entries_map_dom(entries, k);
        if exists|j: int| 0 <= j < entries.len() && entries[j].0@ == k {
            let j = choose|j: int| 0 <= j < entries.len() && entries[j].0@ == k;
            assert(new[j].0@ == k);
        }
        if exists|j: int| 0 <= j < new.len() && new[j].0@ == k {
            let j = choose|j: int| 0 <= j < new.len() && new[j].0@ == k;
            if j != i {
                assert(entries[j].0@ == k);
            }
        }
    }
    assert forall|k: Seq<char>| entries_map(new).dom().contains(k) implies entries_map(new)[k]
        == entries_map(entries).insert(key@, value)[k] by {
        lemma_entries_map_dom(new, k);
        let j = choose|j: int| 0 <= j < new.len() && new[j].0@ == k;
        lemma_entries_map_value(new, j);
        if j != i {
            assert(entries[j] == new[j]);
            lemma_entries_map_value(entries, j);
        }
    }
    assert(entries_map(new) =~= entries_map(entries).insert(key@, value));
}

/// Removing the entry of an existing key removes that key from the map.
proof fn lemma_entries_map_remove<V>(entries: Seq<(String, V)>, i: int)
    requires
        keys_distinct(entries),
        0 <= i < entries.len(),
    ensures
        keys_distinct(entries.remove(i)),
        entries_map(entries.remove(i)) == entries_map(entries).remove(entries[i].0@),
{
    let new = entries.remove(i);
    let key = entries[i].0@;
    assert forall|a: int, b: int| 0 <= a < b < new.len() implies new[a].0@ != new[b].0@ by {
        let a2 = if a < i { a } else { a + 1 };
        let b2 = if b < i { b } else { b + 1 };
        assert(new[a] == entries[a2]);
        assert(new[b] == entries[b2]);
    }
    assert forall|k: Seq<char>|
        entries_map(new).dom().contains(k) == entries_map(entries).remove(key).dom().contains(k) by {
        lemma_entries_map_dom(new, k);
        lemma_entries_map_dom(entries, k);
        if exists|j: int| 0 <= j < entries.len() && entries[j].0@ == k {
            let j = choose|j: int| 0 <= j < entries.len() && entries[j].0@ == k;
            if j < i {
                assert(new[j] == entries[j]);
            } else if j > i {
                assert(new[j - 1] == entries[j]);
            }
        }
        if exists|j: int| 0 <= j < new.len() && new[j].0@ == k {
            let j = choose|j: int| 0 <= j < new.len() && new[j].0@ == k;
            let j2 = if j < i { j } else { j + 1 };
            assert(new[j] == entries[j2]);
        }
    }
    assert forall|k: Seq<char>| entries_map(new).dom().contains(k) implies entries_map(new)[k]
        == entries_map(entries).remove(key)[k] by {
        lemma_entries_map_dom(new, k);
        let j = choose|j: int| 0 <= j < new.len() && new[j].0@ == k;
        lemma_entries_map_value(new, j);
        let j2 = if j < i { j } else { j + 1 };
        assert(new[j] == entries[j2]);
        lemma_entries_map_value(entries, j2);
    }
    assert(entries_map(new) =~= entries_map(entries).remove(key));
}

/// A map from path strings to values.
pub struct PathMap<V> {
    entries: Vec<(String, V)>,
}

impl<V> View for PathMap<V> {
    type V = Map<Seq<char>, V>;

    closed spec fn view(&self) -> Map<Seq<char>, V> {
        entries_map(self.entries@)
    }
}

impl<V> PathMap<V> {
    /// The keys of the entries are distinct.
    pub closed spec fn wf(&self) -> bool {
        keys_distinct(self.entries@)
    }

    /// The entries in the order in which their keys were first inserted.
    pub closed spec fn entries(&self) -> Seq<(String, V)> {
        self.entries@
    }

    /// The entries describe the map, and their keys are distinct.
    pub proof fn lemma_entries(&self)
        requires
            self.wf(),
        ensures
            keys_distinct(self.entries()),
            entries_map(self.entries()) == self@,
            self@.dom().finite(),
            self@.dom().len() == self.entries().len(),
    {
        lemma_entries_map_len(self.entries@);
    }

    /// An empty map.
    pub fn new() -> (res: Self)
        ensures
            res.wf(),
            res@ == Map::<Seq<char>, V>::empty(),
            res.entries().len() == 0,
    {
        PathMap { entries: Vec::new() }
    }

    /// The number of keys.
    pub fn len(&self) -> (res: usize)
        requires
            self.wf(),
        ensures
            res == self@.dom().len(),
            res == self.entries().len(),
    {
        proof {
            self.lemma_entries();
        }
        self.entries.len()
    }

    /// The position of `key` among the entries.
    fn position(&self, key: &str) -> (res: Option<usize>)
        requires
            self.wf(),
        ensures
            match res {
                Some(i) => i < self.entries@.len() && self.entries@[i as int].0@ == key@,
                None => !self@.dom().contains(key@),
            },
    {
        let mut i: usize = 0;
        while i < self.entries.len()
            invariant
                i <= self.entries@.len(),
                forall|j: int| 0 <= j < i ==> self.entries@[j].0@ != key@,
            decreases self.entries.len() - i,
        {
            if str_eq(self.entries[i].0.as_str(), key) {
                return Some(i);
            }
            i = i + 1;
        }
        proof {
            lemma_entries_map_dom(self.entries@, key@);
        }
        None
    }

    /// Whether `key` is in the map.
    pub fn contains_key(&self, key: &str) -> (res: bool)
        requires
            self.wf(),
        ensures
            res == self@.dom().contains(key@),
    {
        match self.position(key) {
            Some(i) => {
                proof {
                    lemma_entries_map_value(self.entries@, i as int);
                }
                true
            },
            None => false,
        }
    }

    /// The value at `key`, if any.
    pub fn get(&self, key: &str) -> (res: Option<&V>)
        requires
            self.wf(),
        ensures
            match res {
                Some(v) => self@.dom().contains(key@) && *v == self@[key@],
                None => !self@.dom().contains(key@),
            },
    {
        match self.position(key) {
            Some(i) => {
                proof {
                    lemma_entries_map_value(self.entries@, i as int);
                }
                Some(&self.entries[i].1)
            },
            None => None,
        }
    }

    /// The key and value of the `i`-th entry.
    pub fn entry(&self, i: usize) -> (res: (&String, &V))
        requires
            i < self.entries().len(),
        ensures
            *res.0 == self.entries()[i as int].0,
            *res.1 == self.entries()[i as int].1,
    {
        let e = &self.entries[i];
        (&e.0, &e.1)
    }

    /// Sets the value at `key`; an existing key keeps its place among the entries,
    /// a new key comes last.
    pub fn insert(&mut self, key: String, value: V)
        requires
            old(self).wf(),
        ensures
            final(self).wf(),
            final(self)@ == old(self)@.insert(key@, value),
            old(self)@.dom().contains(key@) ==> final(self).entries().len() == old(
                self,
            ).entries().len(),
            !old(self)@.dom().contains(key@) ==> final(self).entries() == old(self).entries().push(
                (key, value),
            ),
    {
        match self.position(key.as_str()) {
            Some(i) => {
                proof {
                    lemma_entries_map_update(self.entries@, i as int, key, value);
                    lemma_entries_map_dom(self.entries@, key@);
                }
                let mut entries: Vec<(String, V)> = Vec::new();
                std::mem::swap(&mut entries, &mut self.entries);
                entries.set(i, (key, value));
                self.entries = entries;
            },
            None => {
                let ghost k = key@;
                proof {
                    lemma_entries_map_dom(self.entries@, k);
                }
                let mut entries: Vec<(String, V)> = Vec::new();
                std::mem::swap(&mut entries, &mut self.entries);
                entries.push((key, value));
                proof {
                    assert(entries@.drop_last() =~= old(self).entries@);
                }
                self.entries = entries;
            },
        }
    }

    /// Removes `key`, handing back its value.
    pub fn remove(&mut self, key: &str) -> (res: Option<V>)
        requires
            old(self).wf(),
        ensures
            final(self).wf(),
            final(self)@ == old(self)@.remove(key@),
            match res {
                Some(v) => old(self)@.dom().contains(key@) && v == old(self)@[key@],
                None => !old(self)@.dom().contains(key@),
            },
    {
        match self.position(key) {
            Some(i) => {
                proof {
                    lemma_entries_map_value(self.entries@, i as int);
                    lemma_entries_map_remove(self.entries@, i as int);
                }
                let mut entries: Vec<(String, V)> = Vec::new();
                std::mem::swap(&mut entries, &mut self.entries);
                let (_, v) = entries.remove(i);
                self.entries = entries;
                Some(v)
            },
            None => {
                assert(old(self)@.remove(key@) =~= old(self)@);
                None
            },
        }
    }

    /// Empties the map, handing back its entries in order.
    pub fn take_entries(&mut self) -> (res: Vec<(String, V)>)
        requires
            old(self).wf(),
        ensures
            final(self).wf(),
            res@ == old(self).entries(),
            keys_distinct(res@),
            entries_map(res@) == old(self)@,
            final(self)@ == Map::<Seq<char>, V>::empty(),
            final(self).entries().len() == 0,
    {
        let mut entries: Vec<(String, V)> = Vec::new();
        std::mem::swap(&mut entries, &mut self.entries);
        entries
    }
}

/// Whether two strings hold the same characters.
pub fn str_eq(a: &str, b: &str) -> (res: bool)
    ensures
        res == (a@ == b@),
{
    chars_eq(&chars_of(a), &chars_of(b))
}

} // verus!
