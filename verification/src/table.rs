use vstd::prelude::*;
use crate::text::str_eq;

verus! {

/// Whether entry `i` of `entries` is filed under `key`.
pub open spec fn filed_at<T>(entries: Seq<(String, T)>, key: Seq<char>, i: int) -> bool {
    0 <= i < entries.len() && entries[i].0@ == key
}

/// Whether no two entries are filed under the same key.
pub open spec fn keys_distinct<T>(entries: Seq<(String, T)>) -> bool {
    forall|i: int, j: int|
        0 <= i < entries.len() && 0 <= j < entries.len() && i != j ==> #[trigger] entries[i].0@
            != #[trigger] entries[j].0@
}

/// The mapping that a list of entries stands for: each key that occurs, with
/// the value filed under it.
pub open spec fn entries_map<T>(entries: Seq<(String, T)>) -> Map<Seq<char>, T> {
    Map::new(
        |key: Seq<char>| exists|i: int| filed_at(entries, key, i),
        |key: Seq<char>| entries[choose|i: int| filed_at(entries, key, i)].1,
    )
}

/// The keys of a list of entries, in the order of the list.
pub open spec fn entries_keys<T>(entries: Seq<(String, T)>) -> Seq<Seq<char>> {
    Seq::new(entries.len(), |i: int| entries[i].0@)
}

/// A mapping from strings to values of `T`. A key occurs at most once: to
/// insert under a key that is present replaces the value.
///
/// The entries are kept in the order in which their keys first came, so that
/// they can be walked by position.
#[derive(Debug)]
pub struct Table<T> {
    entries: Vec<(String, T)>,
}

impl<T> View for Table<T> {
    type V = Map<Seq<char>, T>;

    closed spec fn view(&self) -> Map<Seq<char>, T> {
        entries_map(self.entries@)
    }
}

impl<T> Table<T> {
    #[verifier::type_invariant]
    spec fn well_formed(&self) -> bool {
        keys_distinct(self.entries@)
    }

    /// The keys in the order in which they first came.
    pub closed spec fn keys(&self) -> Seq<Seq<char>> {
        entries_keys(self.entries@)
    }

    /// The empty table.
    pub fn new() -> (table: Self)
        ensures
            table@ == Map::<Seq<char>, T>::empty(),
            table.keys() == Seq::<Seq<char>>::empty(),
    {
        let table = Table { entries: Vec::new() };
        assert(table@ =~= Map::<Seq<char>, T>::empty());
        assert(table.keys() =~= Seq::<Seq<char>>::empty());
        table
    }

    /// The number of keys. Every key of the table stands once in `keys()`.
    pub fn len(&self) -> (n: usize)
        ensures
            n == self.keys().len(),
            n == self@.len(),
            self@.dom().finite(),
            self.keys().no_duplicates(),
            forall|key: Seq<char>| self@.contains_key(key) <==> self.keys().contains(key),
    {
        proof {
            use_type_invariant(self);
            let keys = self.keys();
            assert forall|key: Seq<char>| self@.contains_key(key) <==> keys.contains(
                key,
            ) by {
                if self@.contains_key(key) {
                    let i = choose|i: int| filed_at(self.entries@, key, i);
                    assert(keys[i] == key);
                }
                if keys.contains(key) {
                    let i = choose|i: int| 0 <= i < keys.len() && keys[i] == key;
                    assert(filed_at(self.entries@, key, i));
                }
            }
            assert(keys.no_duplicates());
            assert(self@.dom() =~= keys.to_set());
            keys.unique_seq_to_set();
        }
        self.entries.len()
    }

    /// The entry at position `i`: a key of the table and the value under it.
    pub fn entry_at(&self, i: usize) -> (pair: (&String, &T))
        requires
            i < self.keys().len(),
        ensures
            pair.0@ == self.keys()[i as int],
            self@.contains_key(pair.0@),
            *pair.1 == self@[pair.0@],
    {
        proof {
            use_type_invariant(self);
            assert(filed_at(self.entries@, self.entries@[i as int].0@, i as int));
        }
        let pair = &self.entries[i];
        (&pair.0, &pair.1)
    }

    /// The value under `key`, if the table has the key.
    pub fn get(&self, key: &str) -> (found: Option<&T>)
        ensures
            match found {
                Some(value) => self@.contains_key(key@) && *value == self@[key@],
                None => !self@.contains_key(key@),
            },
    {
        proof {
            use_type_invariant(self);
        }
        let mut i: usize = 0;
        while i < self.entries.len()
            invariant
                i <= self.entries.len(),
                keys_distinct(self.entries@),
                forall|n: int| 0 <= n < i ==> !filed_at(self.entries@, key@, n),
            decreases self.entries.len() - i,
        {
            if str_eq(self.entries[i].0.as_str(), key) {
                assert(filed_at(self.entries@, key@, i as int));
                return Some(&self.entries[i].1);
            }
            i += 1;
        }
        None
    }

    /// Whether the table has `key`.
    pub fn contains_key(&self, key: &str) -> (present: bool)
        ensures
            present == self@.contains_key(key@),
    {
        self.get(key).is_some()
    }

    /// Files `value` under `key`. A value that stood under `key` is replaced;
    /// every other key keeps its value and its place.
    pub fn insert(&mut self, key: String, value: T)
        ensures
            final(self)@ == old(self)@.insert(key@, value),
            final(self).keys() == if old(self)@.contains_key(key@) {
                old(self).keys()
            } else {
                old(self).keys().push(key@)
            },
    {
        proof {
            use_type_invariant(&*self);
        }
        let mut entries: Vec<(String, T)> = Vec::new();
        core::mem::swap(&mut self.entries, &mut entries);
        let ghost before = entries@;
        let mut i: usize = 0;
        while i < entries.len()
            invariant
                i <= entries.len(),
                entries@ == before,
                before == old(self).entries@,
                keys_distinct(before),
                forall|n: int| 0 <= n < i ==> !filed_at(before, key@, n),
            decreases entries.len() - i,
        {
            if str_eq(entries[i].0.as_str(), key.as_str()) {
                entries.set(i, (key, value));
                proof {
                    let after = entries@;
                    assert(filed_at(before, key@, i as int));
                    assert forall|k: Seq<char>, n: int| filed_at(after, k, n) <==> filed_at(
                        before,
                        k,
                        n,
                    ) by {}
                    assert(keys_distinct(after));
                    assert(entries_map(after) =~= entries_map(before).insert(key@, value)) by {
                        assert forall|k: Seq<char>|
                            entries_map(after).contains_key(k) implies #[trigger] entries_map(
                            after,
                        )[k] == entries_map(before).insert(key@, value)[k] by {
                            let n = choose|n: int| filed_at(after, k, n);
                            let m = choose|m: int| filed_at(before, k, m);
                            assert(filed_at(before, k, n));
                            assert(n == m);
                        }
                    }
                    assert(entries_keys(after) =~= entries_keys(before));
                }
                self.entries = entries;
                return;
            }
            i += 1;
        }
        entries.push((key, value));
        proof {
            let after = entries@;
            let last = before.len() as int;
            assert(filed_at(after, key@, last));
            assert forall|k: Seq<char>, n: int| filed_at(after, k, n) <==> (filed_at(before, k, n)
                || (n == last && k == key@)) by {}
            assert forall|a: int, b: int|
                0 <= a < after.len() && 0 <= b < after.len() && a != b implies #[trigger] after[a].0@
                != #[trigger] after[b].0@ by {
                if a == last {
                    assert(!filed_at(before, key@, b));
                } else if b == last {
                    assert(!filed_at(before, key@, a));
                }
            }
            assert(!entries_map(before).contains_key(key@));
            assert(entries_map(after) =~= entries_map(before).insert(key@, value)) by {
                assert forall|k: Seq<char>|
                    entries_map(after).contains_key(k) implies #[trigger] entries_map(after)[k]
                    == entries_map(before).insert(key@, value)[k] by {
                    let n = choose|n: int| filed_at(after, k, n);
                    if k != key@ {
                        let m = choose|m: int| filed_at(before, k, m);
                        assert(filed_at(before, k, n));
                        assert(n == m);
                    } else {
                        assert(n == last);
                    }
                }
            }
            assert(entries_keys(after) =~= entries_keys(before).push(key@));
        }
        self.entries = entries;
    }
}

} // verus!
