//! A map from public keys to values that can be walked.
use vstd::hash_map::StringHashMap;
use vstd::prelude::*;

verus! {

/// Entries in no particular order, with an index of their keys.
pub struct Table<V> {
    entries: Vec<(String, V)>,
    index: StringHashMap<usize>,
}

impl<V> View for Table<V> {
    type V = Map<Seq<char>, V>;

    closed spec fn view(&self) -> Map<Seq<char>, V> {
        Map::new(
            |key: Seq<char>| self.index@.contains_key(key),
            |key: Seq<char>| self.entries@[self.index@[key] as int].1,
        )
    }
}

impl<V> Table<V> {
    /// The entries in the order they are walked in.
    pub closed spec fn entries(self) -> Seq<(Seq<char>, V)> {
        self.entries@.map_values(|entry: (String, V)| (entry.0@, entry.1))
    }

    /// The index finds every entry.
    pub closed spec fn wf(self) -> bool {
        &&& self.index@.dom().finite()
        &&& forall|i: int|
            0 <= i < self.entries@.len() ==> self.index@.contains_key(
                (#[trigger] self.entries@[i]).0@,
            ) && self.index@[self.entries@[i].0@] == i
        &&& forall|key: Seq<char>| #[trigger]
            self.index@.contains_key(key) ==> self.index@[key] < self.entries@.len()
                && self.entries@[self.index@[key] as int].0@ == key
    }

    /// Each key has one entry, and that holds its value.
    pub proof fn lemma_entries(self)
        requires
            self.wf(),
        ensures
            self@.dom().finite(),
            forall|key: Seq<char>| #[trigger]
                self@.contains_key(key) ==> exists|i: int|
                    0 <= i < self.entries().len() && (#[trigger] self.entries()[i]).0 == key,
            forall|i: int|
                0 <= i < self.entries().len() ==> self@.contains_key(
                    (#[trigger] self.entries()[i]).0,
                ) && self@[self.entries()[i].0] == self.entries()[i].1,
            forall|i: int, j: int|
                0 <= i < j < self.entries().len() ==> (#[trigger] self.entries()[i]).0 != (
                #[trigger] self.entries()[j]).0,
    {
        assert(self@.dom() =~= self.index@.dom());
        assert forall|key: Seq<char>| #[trigger] self@.contains_key(key) implies exists|i: int|
            0 <= i < self.entries().len() && (#[trigger] self.entries()[i]).0 == key by {
            assert(self.index@.contains_key(key));
            assert(self.entries()[self.index@[key] as int].0 == key);
        }
        assert forall|i: int| 0 <= i < self.entries().len() implies self@.contains_key(
            (#[trigger] self.entries()[i]).0,
        ) && self@[self.entries()[i].0] == self.entries()[i].1 by {
            assert(self.index@.contains_key(self.entries@[i].0@));
        }
        assert forall|i: int, j: int| 0 <= i < j < self.entries().len() implies (
        #[trigger] self.entries()[i]).0 != (#[trigger] self.entries()[j]).0 by {
            assert(self.index@[self.entries@[i].0@] == i);
            assert(self.index@[self.entries@[j].0@] == j);
        }
    }

    /// A table without entries.
    pub fn new() -> (table: Self)
        ensures
            table.wf(),
            table@ == Map::<Seq<char>, V>::empty(),
            table.entries().len() == 0,
    {
        let table = Table { entries: Vec::new(), index: StringHashMap::new() };
        assert(table@ =~= Map::<Seq<char>, V>::empty());
        table
    }

    /// How many keys there are.
    pub fn len(&self) -> (len: usize)
        requires
            self.wf(),
        ensures
            len == self@.dom().len(),
            len == self.entries().len(),
    {
        proof {
            assert(self@.dom() =~= self.index@.dom());
            self.lemma_len();
        }
        self.entries.len()
    }

    /// There are as many keys as entries.
    proof fn lemma_len(self)
        requires
            self.wf(),
        ensures
            self@.dom().len() == self.entries@.len(),
    {
        let n = self.entries@.len() as int;
        let places = vstd::set_lib::set_int_range(0, n);
        vstd::set_lib::lemma_int_range(0, n);
        let key = |i: int| self.entries@[i].0@;
        assert(self@.dom() =~= places.map(key)) by {
            assert forall|k: Seq<char>| self@.dom().contains(k) implies places.map(key).contains(
                k,
            ) by {
                assert(self.index@.contains_key(k));
                let i = self.index@[k] as int;
                assert(places.contains(i) && key(i) == k);
            }
            assert forall|k: Seq<char>| places.map(key).contains(k) implies self@.dom().contains(
                k,
            ) by {
                let i = choose|i: int| places.contains(i) && key(i) == k;
                assert(self.index@.contains_key(self.entries@[i].0@));
            }
        }
        assert(vstd::relations::injective_on(key, places)) by {
            assert forall|i: int, j: int|
                places.contains(i) && places.contains(j) && #[trigger] key(i) == #[trigger] key(
                    j,
                ) implies i == j by {
                assert(self.index@[self.entries@[i].0@] == i);
                assert(self.index@[self.entries@[j].0@] == j);
            }
        }
        vstd::set_lib::lemma_map_size(places, self@.dom(), key);
    }

    /// The value of a key.
    pub fn get(&self, key: &str) -> (value: Option<&V>)
        requires
            self.wf(),
        ensures
            match value {
                Some(v) => self@.contains_key(key@) && *v == self@[key@],
                None => !self@.contains_key(key@),
            },
    {
        match self.index.get(key) {
            Some(i) => Some(&self.entries[*i].1),
            None => None,
        }
    }

    /// The value of the entry at a place.
    pub fn value_at(&self, i: usize) -> (value: &V)
        requires
            self.wf(),
            i < self.entries().len(),
        ensures
            *value == self.entries()[i as int].1,
    {
        &self.entries[i].1
    }

    /// Sets the value of a key.
    pub fn set(&mut self, key: &str, value: V)
        requires
            old(self).wf(),
        ensures
            final(self).wf(),
            final(self)@ == old(self)@.insert(key@, value),
            !old(self)@.contains_key(key@) ==> final(self).entries() == old(self).entries().push(
                (key@, value),
            ),
    {
        let place: Option<usize> = match self.index.get(key) {
            Some(i) => Some(*i),
            None => None,
        };
        match place {
            Some(i) => {
                self.entries[i].1 = value;
            },
            None => {
                let i = self.entries.len();
                self.entries.push((key.to_owned(), value));
                self.index.insert(key.to_owned(), i);
            },
        }
        proof {
            assert forall|k: Seq<char>| k != key@ && old(self)@.contains_key(k) implies (
            #[trigger] self.index@.contains_key(k)) && self.entries@[self.index@[k] as int]
                == old(self).entries@[old(self).index@[k] as int] by {
                assert(old(self).index@.contains_key(k));
            }
            assert forall|i: int| 0 <= i < old(self).entries@.len() implies (
            #[trigger] self.entries@[i]).0@ == old(self).entries@[i].0@ by {}
            assert(self@ =~= old(self)@.insert(key@, value));
            if !old(self)@.contains_key(key@) {
                assert(self.entries() =~= old(self).entries().push((key@, value)));
            }
        }
    }

    /// The value of a key, which is set to `fresh` first if it has none.
    pub fn get_or_set(&mut self, key: &str, fresh: V) -> (value: &V)
        requires
            old(self).wf(),
        ensures
            final(self).wf(),
            final(self)@ == if old(self)@.contains_key(key@) {
                old(self)@
            } else {
                old(self)@.insert(key@, fresh)
            },
            *value == final(self)@[key@],
    {
        let place: Option<usize> = match self.index.get(key) {
            Some(i) => Some(*i),
            None => None,
        };
        let i: usize = match place {
            Some(i) => i,
            None => {
                let i = self.entries.len();
                self.set(key, fresh);
                proof {
                    assert(self.entries().len() == i + 1);
                    assert(self.entries@[i as int].0@ == self.entries()[i as int].0);
                    assert(self.index@.contains_key(self.entries@[i as int].0@));
                }
                i
            },
        };
        &self.entries[i].1
    }

    /// Removes a key.
    pub fn remove(&mut self, key: &str)
        requires
            old(self).wf(),
        ensures
            final(self).wf(),
            final(self)@ == old(self)@.remove(key@),
    {
        let i: usize = match self.index.get(key) {
            Some(i) => *i,
            None => {
                assert(self@.remove(key@) =~= self@);
                return;
            },
        };
        self.entries.swap_remove(i);
        self.index.remove(key);
        if i < self.entries.len() {
            let moved = self.entries[i].0.clone();
            self.index.insert(moved, i);
        }
        proof {
            let was = old(self).entries@;
            let last = was.len() - 1;
            assert forall|j: int| 0 <= j < last implies #[trigger] self.entries@[j] == if j == i {
                was[last]
            } else {
                was[j]
            } by {}
            assert forall|j: int| 0 <= j < last implies self.index@.contains_key(
                (#[trigger] self.entries@[j]).0@,
            ) && self.index@[self.entries@[j].0@] == j by {
                assert(old(self).index@[was[j].0@] == j);
                assert(old(self).index@[was[last].0@] == last);
            }
            assert forall|k: Seq<char>| #[trigger] self.index@.contains_key(k) implies {
                &&& self.index@[k] < self.entries@.len()
                &&& self.entries@[self.index@[k] as int].0@ == k
                &&& old(self).index@.contains_key(k)
                &&& k != key@
                &&& self.entries@[self.index@[k] as int] == was[old(self).index@[k] as int]
            } by {
                if i < last && k == was[last].0@ {
                    assert(old(self).index@[was[last].0@] == last);
                } else {
                    assert(old(self).index@.contains_key(k));
                }
            }
            assert(self@ =~= old(self)@.remove(key@));
        }
    }

    /// Leaves out the entries that are not to be kept.
    pub fn retain(&mut self, keep: &Vec<bool>)
        requires
            old(self).wf(),
            keep@.len() == old(self).entries().len(),
        ensures
            final(self).wf(),
            final(self)@ == Map::new(
                |key: Seq<char>| keeps(old(self).entries(), keep@, key, 0),
                |key: Seq<char>| old(self)@[key],
            ),
    {
        let ghost all = self.entries();
        let ghost values = self@;
        proof {
            self.lemma_entries();
        }
        let mut entries: Vec<(String, V)> = Vec::new();
        std::mem::swap(&mut self.entries, &mut entries);
        let mut rest: Table<V> = Table::new();
        assert(rest@ =~= Map::new(
            |key: Seq<char>| keeps(all, keep@, key, all.len() as int),
            |key: Seq<char>| values[key],
        ));
        while entries.len() > 0
            invariant
                rest.wf(),
                keep@.len() == all.len(),
                entries@.len() <= all.len(),
                forall|i: int|
                    0 <= i < entries@.len() ==> (#[trigger] entries@[i]).0@ == all[i].0
                        && entries@[i].1 == all[i].1,
                forall|i: int|
                    0 <= i < all.len() ==> values[(#[trigger] all[i]).0] == all[i].1,
                rest@ == Map::new(
                    |key: Seq<char>| keeps(all, keep@, key, entries@.len() as int),
                    |key: Seq<char>| values[key],
                ),
            decreases entries.len(),
        {
            let last = entries.len() - 1;
            let ghost was = rest@;
            let ghost n = last as int;
            assert(entries@[n].0@ == all[n].0);
            match entries.pop() {
                Some((key, value)) => {
                    if keep[last] {
                        rest.set(key.as_str(), value);
                    }
                    proof {
                        let now = Map::new(
                            |k: Seq<char>| keeps(all, keep@, k, n),
                            |k: Seq<char>| values[k],
                        );
                        assert forall|k: Seq<char>| keeps(all, keep@, k, n) == (keeps(
                            all,
                            keep@,
                            k,
                            n + 1,
                        ) || (keep@[n] && all[n].0 == k)) by {
                            if keeps(all, keep@, k, n) {
                                let i = choose|i: int|
                                    n <= i < all.len() && (#[trigger] all[i]).0 == k && keep@[i];
                                assert(all[i].0 == k);
                            }
                            if keeps(all, keep@, k, n + 1) {
                                let i = choose|i: int|
                                    n + 1 <= i < all.len() && (#[trigger] all[i]).0 == k
                                        && keep@[i];
                                assert(all[i].0 == k);
                            }
                        }
                        assert(rest@ =~= now);
                    }
                },
                None => {},
            }
        }
        *self = rest;
    }
}

/// Whether an entry of a key, from some place on, is to be kept.
pub open spec fn keeps<V>(
    entries: Seq<(Seq<char>, V)>,
    keep: Seq<bool>,
    key: Seq<char>,
    from: int,
) -> bool {
    exists|i: int| from <= i < entries.len() && (#[trigger] entries[i]).0 == key && keep[i]
}

} // verus!
