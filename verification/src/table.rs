//! A small associative table with unique keys, as the route registries and
//! the tables of pending calls use it.

use vstd::prelude::*;

verus! {

/// Keys that can be compared in executable code.
pub trait TableKey: View + Sized {
    /// Whether two keys are the same key.
    fn key_eq(&self, other: &Self) -> (r: bool)
        ensures
            r == (self@ == other@),
    ;
}

impl TableKey for String {
    fn key_eq(&self, other: &Self) -> (r: bool) {
        String::eq(self, other)
    }
}

impl TableKey for u8 {
    fn key_eq(&self, other: &Self) -> (r: bool) {
        *self == *other
    }
}

/// The map that a list of entries with unique keys stands for.
pub open spec fn entries_map<K: View, V>(es: Seq<(K, V)>) -> Map<K::V, V>
    decreases es.len(),
{
    if es.len() == 0 {
        Map::empty()
    } else {
        entries_map(es.drop_last()).insert(es.last().0@, es.last().1)
    }
}

/// No key occurs twice.
pub open spec fn keys_unique<K: View, V>(es: Seq<(K, V)>) -> bool {
    forall|i: int, j: int| 0 <= i < j < es.len() ==> #[trigger] es[i].0@ != #[trigger] es[j].0@
}

proof fn lemma_entries_map_dom<K: View, V>(es: Seq<(K, V)>, k: K::V)
    ensures
        entries_map(es).dom().contains(k) <==> exists|i: int| 0 <= i < es.len() && #[trigger] es[i].0@ == k,
    decreases es.len(),
{
    if es.len() > 0 {
        lemma_entries_map_dom(es.drop_last(), k);
        if exists|i: int| 0 <= i < es.drop_last().len() && #[trigger] es.drop_last()[i].0@ == k {
            let i = choose|i: int| 0 <= i < es.drop_last().len() && #[trigger] es.drop_last()[i].0@ == k;
            assert(es[i].0@ == k);
        }
        if exists|i: int| 0 <= i < es.len() && #[trigger] es[i].0@ == k {
            let i = choose|i: int| 0 <= i < es.len() && #[trigger] es[i].0@ == k;
            if i < es.len() - 1 {
                assert(es.drop_last()[i].0@ == k);
            }
        }
    }
}

proof fn lemma_entries_map_at<K: View, V>(es: Seq<(K, V)>, i: int)
    requires
        keys_unique(es),
        0 <= i < es.len(),
    ensures
        entries_map(es).dom().contains(es[i].0@),
        entries_map(es)[es[i].0@] == es[i].1,
    decreases es.len(),
{
    if i < es.len() - 1 {
        assert(keys_unique(es.drop_last()));
        lemma_entries_map_at(es.drop_last(), i);
        assert(es.drop_last()[i] == es[i]);
    }
}

proof fn lemma_entries_map_remove<K: View, V>(es: Seq<(K, V)>, i: int)
    requires
        keys_unique(es),
        0 <= i < es.len(),
    ensures
        keys_unique(es.remove(i)),
        entries_map(es.remove(i)) == entries_map(es).remove(es[i].0@),
    decreases es.len(),
{
    let k = es[i].0@;
    if i == es.len() - 1 {
        assert(es.remove(i) =~= es.drop_last());
        assert(!entries_map(es.drop_last()).dom().contains(k)) by {
            lemma_entries_map_dom(es.drop_last(), k);
        }
        assert(entries_map(es.remove(i)) =~= entries_map(es).remove(k));
    } else {
        let d = es.drop_last();
        assert(keys_unique(d));
        lemma_entries_map_remove(d, i);
        assert(es.remove(i).drop_last() =~= d.remove(i));
        assert(es.remove(i).last() == es.last());
        assert(es.last().0@ != k);
        assert(entries_map(es.remove(i)) =~= entries_map(es).remove(k));
    }
}

/// A table of entries with unique keys.
pub struct Table<K, V> {
    entries: Vec<(K, V)>,
}

impl<K: TableKey, V> Table<K, V> {
    /// The keys are unique.
    pub closed spec fn wf(&self) -> bool {
        keys_unique(self.entries@)
    }

    /// The table as a map.
    pub closed spec fn map(&self) -> Map<K::V, V> {
        entries_map(self.entries@)
    }

    /// An empty table.
    pub fn new() -> (r: Self)
        ensures
            r.wf(),
            r.map() == Map::<K::V, V>::empty(),
    {
        Table { entries: Vec::new() }
    }

    /// The position of the entry for `key`.
    fn position(&self, key: &K) -> (r: Option<usize>)
        requires
            self.wf(),
        ensures
            match r {
                Some(i) => i < self.entries@.len() && self.entries@[i as int].0@ == key@,
                None => !self.map().dom().contains(key@),
            },
    {
        let mut i: usize = 0;
        while i < self.entries.len()
            invariant
                i <= self.entries@.len(),
                forall|j: int| 0 <= j < i ==> #[trigger] self.entries@[j].0@ != key@,
            decreases self.entries@.len() - i,
        {
            if self.entries[i].0.key_eq(key) {
                return Some(i);
            }
            i = i + 1;
        }
        proof {
            lemma_entries_map_dom(self.entries@, key@);
        }
        None
    }

    /// Whether the table has an entry for `key`.
    pub fn contains_key(&self, key: &K) -> (r: bool)
        requires
            self.wf(),
        ensures
            r == self.map().dom().contains(key@),
    {
        match self.position(key) {
            Some(i) => {
                proof {
                    lemma_entries_map_at(self.entries@, i as int);
                }
                true
            },
            None => false,
        }
    }

    /// The value for `key`, if any.
    pub fn get(&self, key: &K) -> (r: Option<&V>)
        requires
            self.wf(),
        ensures
            match r {
                Some(v) => self.map().dom().contains(key@) && self.map()[key@] == *v,
                None => !self.map().dom().contains(key@),
            },
    {
        match self.position(key) {
            Some(i) => {
                proof {
                    lemma_entries_map_at(self.entries@, i as int);
                }
                Some(&self.entries[i].1)
            },
            None => None,
        }
    }

    /// Adds an entry for a key that has none; a key that has one is refused and
    /// the table stays as it was.
    pub fn insert_new(&mut self, key: K, value: V) -> (r: bool)
        requires
            old(self).wf(),
        ensures
            final(self).wf(),
            r == !old(self).map().dom().contains(key@),
            r ==> final(self).map() == old(self).map().insert(key@, value),
            !r ==> final(self).map() == old(self).map(),
    {
        match self.position(&key) {
            Some(i) => {
                proof {
                    lemma_entries_map_at(self.entries@, i as int);
                }
                false
            },
            None => {
                let ghost before = self.entries@;
                proof {
                    lemma_entries_map_dom(before, key@);
                }
                self.entries.push((key, value));
                proof {
                    assert(self.entries@.drop_last() =~= before);
                    assert(keys_unique(self.entries@)) by {
                        assert forall|i: int, j: int| 0 <= i < j < self.entries@.len() implies
                            #[trigger] self.entries@[i].0@ != #[trigger] self.entries@[j].0@ by {
                            if j == before.len() {
                                assert(before[i].0@ != key@);
                            } else {
                                assert(before[i].0@ != before[j].0@);
                            }
                        }
                    }
                }
                true
            },
        }
    }

    /// Sets the value for `key`, giving back the value it replaces, if any.
    pub fn insert(&mut self, key: K, value: V) -> (r: Option<V>)
        requires
            old(self).wf(),
        ensures
            final(self).wf(),
            final(self).map() == old(self).map().insert(key@, value),
            match r {
                Some(v) => old(self).map().dom().contains(key@) && old(self).map()[key@] == v,
                None => !old(self).map().dom().contains(key@),
            },
    {
        let old_value = self.remove(&key);
        let added = self.insert_new(key, value);
        proof {
            assert(self.map() =~= old(self).map().insert(key@, value));
        }
        old_value
    }

    /// Removes the entry for `key` and gives its value back.
    pub fn remove(&mut self, key: &K) -> (r: Option<V>)
        requires
            old(self).wf(),
        ensures
            final(self).wf(),
            match r {
                Some(v) => old(self).map().dom().contains(key@) && old(self).map()[key@] == v,
                None => !old(self).map().dom().contains(key@),
            },
            final(self).map() == old(self).map().remove(key@),
    {
        match self.position(key) {
            Some(i) => {
                let ghost before = self.entries@;
                proof {
                    lemma_entries_map_at(before, i as int);
                    lemma_entries_map_remove(before, i as int);
                }
                let (_, v) = self.entries.remove(i);
                Some(v)
            },
            None => {
                proof {
                    assert(self.map().remove(key@) =~= self.map());
                }
                None
            },
        }
    }
}

/// Adding an entry under a new key and removing it again gives the table back
/// as it was, and the removal returns the value that was added.
pub proof fn lemma_insert_then_remove<K, V>(m: Map<K, V>, k: K, v: V)
    requires
        !m.dom().contains(k),
    ensures
        m.insert(k, v).remove(k) == m,
        m.insert(k, v)[k] == v,
{
    assert(m.insert(k, v).remove(k) =~= m);
}

} // verus!
