//! A small map that finds its keys by comparing them.

use crate::text::same_text;
use vstd::prelude::*;

verus! {

/// A key that can be compared by its view.
pub trait Key: View + Sized {
    fn same(&self, other: &Self) -> (r: bool)
        ensures
            r == (self@ == other@),
    ;
}

impl Key for String {
    fn same(&self, other: &String) -> (r: bool) {
        same_text(self.as_str(), other.as_str())
    }
}

/// The map that a list of entries stands for: the last entry of a key counts.
pub open spec fn contents<K: View, V>(entries: Seq<(K, V)>) -> Map<K::V, V>
    decreases entries.len(),
{
    if entries.len() == 0 {
        Map::empty()
    } else {
        contents(entries.drop_last()).insert(entries.last().0@, entries.last().1)
    }
}

#[derive(Debug)]
pub struct Table<K: Key, V> {
    entries: Vec<(K, V)>,
}

impl<K: Key, V> View for Table<K, V> {
    type V = Map<K::V, V>;

    closed spec fn view(&self) -> Map<K::V, V> {
        contents(self.entries@)
    }
}

proof fn lemma_absent<K: View, V>(entries: Seq<(K, V)>, key: K::V)
    requires
        forall|i: int| 0 <= i < entries.len() ==> (#[trigger] entries[i]).0@ != key,
    ensures
        !contents(entries).dom().contains(key),
    decreases entries.len(),
{
    if entries.len() > 0 {
        let rest = entries.drop_last();
        assert forall|i: int| 0 <= i < rest.len() implies (#[trigger] rest[i]).0@ != key by {
            assert(rest[i] == entries[i]);
        }
        lemma_absent(rest, key);
    }
}

/// The last entry of a key is what the map holds, and replacing it replaces that.
proof fn lemma_present<K: View, V>(entries: Seq<(K, V)>, at: int, new: (K, V))
    requires
        0 <= at < entries.len(),
        forall|i: int| at < i < entries.len() ==> (#[trigger] entries[i]).0@ != entries[at].0@,
        new.0@ == entries[at].0@,
    ensures
        contents(entries).dom().contains(entries[at].0@),
        contents(entries)[entries[at].0@] == entries[at].1,
        contents(entries.update(at, new)) == contents(entries).insert(new.0@, new.1),
    decreases entries.len(),
{
    let rest = entries.drop_last();
    let changed = entries.update(at, new);
    if at == entries.len() - 1 {
        assert(changed.drop_last() =~= rest);
        assert(contents(changed) =~= contents(entries).insert(new.0@, new.1));
    } else {
        assert forall|i: int| at < i < rest.len() implies (#[trigger] rest[i]).0@ != rest[at].0@ by {
            assert(rest[i] == entries[i]);
        }
        lemma_present(rest, at, new);
        assert(changed.drop_last() =~= rest.update(at, new));
        assert(entries[entries.len() - 1].0@ != new.0@);
        assert(contents(changed) =~= contents(entries).insert(new.0@, new.1));
    }
}

impl<K: Key, V> Table<K, V> {
    pub fn new() -> (r: Table<K, V>)
        ensures
            r@ == Map::<K::V, V>::empty(),
    {
        Table { entries: Vec::new() }
    }

    pub fn get(&self, key: &K) -> (r: Option<&V>)
        ensures
            r is Some <==> self@.dom().contains(key@),
            r matches Some(v) ==> *v == self@[key@],
    {
        let mut i: usize = self.entries.len();
        while i > 0
            invariant
                i <= self.entries@.len(),
                forall|j: int|
                    i <= j < self.entries@.len() ==> (#[trigger] self.entries@[j]).0@ != key@,
            decreases i,
        {
            let entry = &self.entries[i - 1];
            if entry.0.same(key) {
                proof {
                    lemma_present(self.entries@, i - 1, self.entries@[i - 1]);
                }
                return Some(&entry.1);
            }
            i = i - 1;
        }
        proof {
            lemma_absent(self.entries@, key@);
        }
        None
    }

    pub fn insert(&mut self, key: K, value: V)
        ensures
            final(self)@ == old(self)@.insert(key@, value),
    {
        let mut i: usize = self.entries.len();
        while i > 0
            invariant
                self.entries@ == old(self).entries@,
                i <= self.entries@.len(),
                forall|j: int|
                    i <= j < self.entries@.len() ==> (#[trigger] self.entries@[j]).0@ != key@,
            decreases i,
        {
            if self.entries[i - 1].0.same(&key) {
                proof {
                    lemma_present(self.entries@, i - 1, (key, value));
                }
                self.entries[i - 1] = (key, value);
                return;
            }
            i = i - 1;
        }
        self.entries.push((key, value));
        assert(self.entries@.drop_last() =~= old(self).entries@);
    }
}

impl Table<String, u8> {
    /// A table with the same contents.
    pub fn duplicate(&self) -> (r: Table<String, u8>)
        ensures
            r@ == self@,
    {
        let mut entries: Vec<(String, u8)> = Vec::new();
        let mut i: usize = 0;
        while i < self.entries.len()
            invariant
                i <= self.entries@.len(),
                entries@ == self.entries@.take(i as int),
            decreases self.entries@.len() - i,
        {
            let entry = &self.entries[i];
            entries.push((entry.0.clone(), entry.1));
            assert(entries@ =~= self.entries@.take(i + 1));
            i = i + 1;
        }
        assert(entries@ =~= self.entries@);
        Table { entries }
    }
}

} // verus!
