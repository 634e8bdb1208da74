//! One logical table of the store: a finite map from a 128-bit key to a
//! value, kept in ascending key order, so that a scan walks the keys in the
//! order a sorted on-disk table would.
use vstd::prelude::*;

verus! {

/// Whether the keys of `entries` strictly increase.
pub open spec fn keys_ascend<V>(entries: Seq<(u128, V)>) -> bool {
    forall|i: int, j: int| 0 <= i < j < entries.len() ==> entries[i].0 < entries[j].0
}

/// Whether `entries` holds `key` somewhere.
pub open spec fn has_key<V>(entries: Seq<(u128, V)>, key: u128) -> bool {
    exists|i: int| 0 <= i < entries.len() && #[trigger] entries[i].0 == key
}

/// The map that a list of entries stands for.
pub open spec fn entries_map<V>(entries: Seq<(u128, V)>) -> Map<u128, V> {
    Map::new(
        |key: u128| has_key(entries, key),
        |key: u128| entries[choose|i: int| 0 <= i < entries.len() && #[trigger] entries[i].0 == key].1,
    )
}

/// In a list with ascending keys, the entry at `i` is what the map holds
/// under that entry's key.
pub proof fn lemma_entry_in_map<V>(entries: Seq<(u128, V)>, i: int)
    requires
        keys_ascend(entries),
        0 <= i < entries.len(),
    ensures
        entries_map(entries).contains_key(entries[i].0),
        entries_map(entries)[entries[i].0] == entries[i].1,
{
    let key = entries[i].0;
    assert(has_key(entries, key));
    let j = choose|j: int| 0 <= j < entries.len() && #[trigger] entries[j].0 == key;
    if j < i {
        assert(entries[j].0 < entries[i].0);
    } else if i < j {
        assert(entries[i].0 < entries[j].0);
    }
}

/// A finite map from `u128` keys to values, in ascending key order.
pub struct Table<V> {
    entries: Vec<(u128, V)>,
}

impl<V> View for Table<V> {
    type V = Map<u128, V>;

    closed spec fn view(&self) -> Map<u128, V> {
        entries_map(self.entries@)
    }
}

impl<V> Table<V> {
    #[verifier::type_invariant]
    spec fn keys_in_order(self) -> bool {
        keys_ascend(self.entries@)
    }

    /// The keys of the table, ascending: the order of a scan.
    pub closed spec fn keys(&self) -> Seq<u128> {
        self.entries@.map_values(|e: (u128, V)| e.0)
    }

    /// An empty table.
    pub fn new() -> (table: Self)
        ensures
            table@ == Map::<u128, V>::empty(),
            table.keys() == Seq::<u128>::empty(),
    {
        let table = Table { entries: Vec::new() };
        assert(table@ =~= Map::<u128, V>::empty());
        assert(table.keys() =~= Seq::<u128>::empty());
        table
    }

    /// The number of entries.
    pub fn len(&self) -> (n: usize)
        ensures
            n == self.keys().len(),
    {
        self.entries.len()
    }

    /// The scan order is strictly ascending and covers exactly the keys of
    /// the map.
    pub fn scan_order(&self)
        ensures
            forall|i: int, j: int| 0 <= i < j < self.keys().len() ==> self.keys()[i] < self.keys()[j],
            forall|key: u128| self@.contains_key(key) <==> self.keys().contains(key),
    {
        proof {
            use_type_invariant(self);
            let entries = self.entries@;
            let keys = self.keys();
            assert forall|key: u128| self@.contains_key(key) <==> keys.contains(key) by {
                if self@.contains_key(key) {
                    let i = choose|i: int| 0 <= i < entries.len() && #[trigger] entries[i].0 == key;
                    assert(keys[i] == key);
                }
                if keys.contains(key) {
                    let i = choose|i: int| 0 <= i < keys.len() && keys[i] == key;
                    assert(entries[i].0 == key);
                }
            }
        }
    }

    /// The value at position `i` of the scan.
    pub fn value_at(&self, i: usize) -> (value: &V)
        requires
            i < self.keys().len(),
        ensures
            self@.contains_key(self.keys()[i as int]),
            *value == self@[self.keys()[i as int]],
    {
        proof {
            use_type_invariant(self);
            lemma_entry_in_map(self.entries@, i as int);
        }
        &self.entries[i].1
    }

    /// The first position whose key is not below `key`.
    fn lower_bound(&self, key: u128) -> (pos: usize)
        ensures
            pos <= self.entries@.len(),
            forall|i: int| 0 <= i < pos ==> self.entries@[i].0 < key,
            forall|i: int| pos <= i < self.entries@.len() ==> self.entries@[i].0 >= key,
    {
        proof {
            use_type_invariant(self);
        }
        let mut lo: usize = 0;
        let mut hi: usize = self.entries.len();
        while lo < hi
            invariant
                lo <= hi <= self.entries@.len(),
                keys_ascend(self.entries@),
                forall|i: int| 0 <= i < lo ==> self.entries@[i].0 < key,
                forall|i: int| hi <= i < self.entries@.len() ==> self.entries@[i].0 >= key,
            decreases hi - lo,
        {
            let mid: usize = lo + (hi - lo) / 2;
            if self.entries[mid].0 < key {
                lo = mid + 1;
            } else {
                hi = mid;
            }
        }
        lo
    }

    /// The value under `key`, if the table holds one.
    pub fn get(&self, key: u128) -> (found: Option<&V>)
        ensures
            match found {
                Some(value) => self@.contains_key(key) && self@[key] == *value,
                None => !self@.contains_key(key),
            },
    {
        proof {
            use_type_invariant(self);
        }
        let pos: usize = self.lower_bound(key);
        if pos < self.entries.len() && self.entries[pos].0 == key {
            proof {
                lemma_entry_in_map(self.entries@, pos as int);
            }
            Some(&self.entries[pos].1)
        } else {
            None
        }
    }

    /// Puts `value` under `key`, in place of what was there, if anything.
    pub fn put(&mut self, key: u128, value: V)
        ensures
            final(self)@ == old(self)@.insert(key, value),
    {
        proof {
            use_type_invariant(&*self);
        }
        let pos: usize = self.lower_bound(key);
        let ghost before = self.entries@;
        let mut entries: Vec<(u128, V)> = Vec::new();
        core::mem::swap(&mut self.entries, &mut entries);
        if pos < entries.len() && entries[pos].0 == key {
            entries.set(pos, (key, value));
            proof {
                let after = entries@;
                assert(keys_ascend(after)) by {
                    assert forall|i: int, j: int| 0 <= i < j < after.len() implies after[i].0
                        < after[j].0 by {
                        assert(after[i].0 == before[i].0);
                        assert(after[j].0 == before[j].0);
                    }
                }
                assert forall|k: u128| has_key(after, k) <==> has_key(before, k) || k == key by {
                    if has_key(after, k) {
                        let i = choose|i: int| 0 <= i < after.len() && #[trigger] after[i].0 == k;
                        assert(before[i].0 == k);
                    }
                    if has_key(before, k) {
                        let i = choose|i: int| 0 <= i < before.len() && #[trigger] before[i].0 == k;
                        assert(after[i].0 == k);
                    }
                    if k == key {
                        assert(after[pos as int].0 == k);
                    }
                }
                assert forall|k: u128| has_key(after, k) implies entries_map(after)[k]
                    == entries_map(before).insert(key, value)[k] by {
                    let i = choose|i: int| 0 <= i < after.len() && #[trigger] after[i].0 == k;
                    lemma_entry_in_map(after, i);
                    if k != key {
                        assert(before[i] == after[i]);
                        lemma_entry_in_map(before, i);
                    }
                }
                assert(entries_map(after) =~= entries_map(before).insert(key, value));
            }
        } else {
            entries.insert(pos, (key, value));
            proof {
                let after = entries@;
                assert(keys_ascend(after)) by {
                    assert forall|i: int, j: int| 0 <= i < j < after.len() implies after[i].0
                        < after[j].0 by {
                        if i < pos && j > pos {
                            assert(after[i] == before[i]);
                            assert(after[j] == before[j - 1]);
                        }
                    }
                }
                assert forall|k: u128| has_key(after, k) <==> has_key(before, k) || k == key by {
                    if has_key(after, k) {
                        let i = choose|i: int| 0 <= i < after.len() && #[trigger] after[i].0 == k;
                        if i < pos {
                            assert(before[i].0 == k);
                        } else if i > pos {
                            assert(before[i - 1].0 == k);
                        }
                    }
                    if has_key(before, k) {
                        let i = choose|i: int| 0 <= i < before.len() && #[trigger] before[i].0 == k;
                        if i < pos {
                            assert(after[i].0 == k);
                        } else {
                            assert(after[i + 1].0 == k);
                        }
                    }
                    if k == key {
                        assert(after[pos as int].0 == k);
                    }
                }
                assert forall|k: u128| has_key(after, k) implies entries_map(after)[k]
                    == entries_map(before).insert(key, value)[k] by {
                    let i = choose|i: int| 0 <= i < after.len() && #[trigger] after[i].0 == k;
                    lemma_entry_in_map(after, i);
                    if i < pos {
                        assert(before[i] == after[i]);
                        lemma_entry_in_map(before, i);
                    } else if i > pos {
                        assert(before[i - 1] == after[i]);
                        lemma_entry_in_map(before, i - 1);
                    }
                }
                assert(entries_map(after) =~= entries_map(before).insert(key, value));
            }
        }
        self.entries = entries;
    }
}

} // verus!
