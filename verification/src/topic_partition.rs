//! A table keyed by (topic, partition) that keeps its entries in the order in
//! which their keys were first inserted.

use vstd::prelude::*;

verus! {

/// A (topic, partition) pair as contracts speak of it.
pub type Key = (Seq<char>, Seq<char>);

struct Entry<T> {
    topic: String,
    partition: String,
    value: T,
}

/// One value per (topic, partition), in the order of first insertion.
pub struct TopicPartition<T> {
    entries: Vec<Entry<T>>,
}

impl<T> TopicPartition<T> {
    /// The keys, in the order of first insertion.
    pub closed spec fn keys(&self) -> Seq<Key> {
        Seq::new(self.entries@.len(), |i: int| (self.entries@[i].topic@, self.entries@[i].partition@))
    }

    /// The values, each at the position of its key.
    pub closed spec fn values(&self) -> Seq<T> {
        Seq::new(self.entries@.len(), |i: int| self.entries@[i].value)
    }

    /// No key occurs twice.
    pub open spec fn wf(&self) -> bool {
        &&& self.keys().len() == self.values().len()
        &&& self.keys().no_duplicates()
    }

    /// Whether the table has a value for the key.
    pub open spec fn contains_key(&self, key: Key) -> bool {
        self.keys().contains(key)
    }

    /// The value stored for a key that the table contains.
    pub open spec fn value_of(&self, key: Key) -> T {
        self.values()[self.keys().index_of(key)]
    }

    /// In a table without duplicate keys, the key at a position is found at
    /// that position, with the value at that position.
    pub proof fn lemma_key_at(&self, i: int)
        requires
            self.wf(),
            0 <= i < self.keys().len(),
        ensures
            self.contains_key(self.keys()[i]),
            self.keys().index_of(self.keys()[i]) == i,
            self.value_of(self.keys()[i]) == self.values()[i],
    {
        let key = self.keys()[i];
        let k = self.keys().index_of(key);
        assert(0 <= k < self.keys().len() && self.keys()[k] == key);
    }

    /// The table as a map from its keys to their values.
    pub open spec fn as_map(&self) -> Map<Key, T> {
        Map::new(|key: Key| self.contains_key(key), |key: Key| self.value_of(key))
    }

    /// Adding a new key behind the others inserts it into the map.
    pub proof fn lemma_map_after_push(before: Self, after: Self, key: Key, value: T)
        requires
            before.wf(),
            !before.contains_key(key),
            after.keys() == before.keys().push(key),
            after.values() == before.values().push(value),
        ensures
            after.wf(),
            after.as_map() == before.as_map().insert(key, value),
    {
        let n = before.keys().len() as int;
        assert(after.keys()[n] == key);
        assert forall|k: Key| after.contains_key(k) <==> (before.contains_key(k) || k == key) by {
            if before.contains_key(k) {
                let j = before.keys().index_of(k);
                assert(after.keys()[j] == k);
            }
            if after.contains_key(k) && k != key {
                let j = after.keys().index_of(k);
                assert(before.keys()[j] == k);
            }
        }
        assert forall|k: Key| after.contains_key(k) implies after.value_of(k) == (if k == key {
            value
        } else {
            before.value_of(k)
        }) by {
            let j = after.keys().index_of(k);
            after.lemma_key_at(j);
            if k != key {
                assert(before.keys()[j] == k);
                before.lemma_key_at(j);
            }
        }
        assert(after.as_map() =~= before.as_map().insert(key, value));
    }

    /// Replacing the value at a position replaces the value of its key in
    /// the map.
    pub proof fn lemma_map_after_update(before: Self, after: Self, i: int, value: T)
        requires
            before.wf(),
            0 <= i < before.keys().len(),
            after.keys() == before.keys(),
            after.values() == before.values().update(i, value),
        ensures
            after.wf(),
            after.as_map() == before.as_map().insert(before.keys()[i], value),
    {
        let key = before.keys()[i];
        before.lemma_key_at(i);
        after.lemma_key_at(i);
        assert forall|k: Key| after.contains_key(k) implies after.value_of(k) == (if k == key {
            value
        } else {
            before.value_of(k)
        }) by {
            let j = after.keys().index_of(k);
            after.lemma_key_at(j);
            before.lemma_key_at(j);
        }
        assert(after.as_map() =~= before.as_map().insert(key, value));
    }

    /// An empty table.
    pub fn new() -> (table: Self)
        ensures
            table.wf(),
            table.keys() == Seq::<Key>::empty(),
            table.values() == Seq::<T>::empty(),
    {
        TopicPartition { entries: Vec::new() }
    }

    /// The number of keys.
    pub fn len(&self) -> (n: usize)
        ensures
            n == self.keys().len(),
            n == self.values().len(),
    {
        self.entries.len()
    }

    /// The position of the key, if the table contains it.
    pub fn position(&self, topic: &String, partition: &String) -> (found: Option<usize>)
        requires
            self.wf(),
        ensures
            match found {
                Some(i) => i < self.keys().len() && self.keys()[i as int] == (topic@, partition@)
                    && self.keys().index_of((topic@, partition@)) == i,
                None => !self.contains_key((topic@, partition@)),
            },
    {
        let mut i: usize = 0;
        while i < self.entries.len()
            invariant
                self.wf(),
                i <= self.entries@.len(),
                forall|j: int| 0 <= j < i ==> self.keys()[j] != (topic@, partition@),
            decreases self.entries@.len() - i,
        {
            let entry = &self.entries[i];
            if entry.topic == *topic && entry.partition == *partition {
                proof {
                    assert(self.keys()[i as int] == (topic@, partition@));
                    let k = self.keys().index_of((topic@, partition@));
                    assert(0 <= k < self.keys().len() && self.keys()[k] == (topic@, partition@));
                }
                return Some(i);
            }
            i += 1;
        }
        None
    }

    /// The topic of the key at a position.
    pub fn topic_at(&self, i: usize) -> (topic: &String)
        requires
            i < self.keys().len(),
        ensures
            topic@ == self.keys()[i as int].0,
    {
        &self.entries[i].topic
    }

    /// The partition of the key at a position.
    pub fn partition_at(&self, i: usize) -> (partition: &String)
        requires
            i < self.keys().len(),
        ensures
            partition@ == self.keys()[i as int].1,
    {
        &self.entries[i].partition
    }

    /// The value at a position.
    pub fn value_at(&self, i: usize) -> (value: &T)
        requires
            i < self.values().len(),
        ensures
            *value == self.values()[i as int],
    {
        &self.entries[i].value
    }

    /// The value stored for the key, if the table contains it.
    pub fn get(&self, topic: &String, partition: &String) -> (value: Option<&T>)
        requires
            self.wf(),
        ensures
            match value {
                Some(v) => self.contains_key((topic@, partition@)) && *v == self.value_of(
                    (topic@, partition@),
                ),
                None => !self.contains_key((topic@, partition@)),
            },
    {
        match self.position(topic, partition) {
            Some(i) => Some(&self.entries[i].value),
            None => None,
        }
    }

    /// The value at a position, to be changed in place.
    pub fn value_at_mut(&mut self, i: usize) -> (value: &mut T)
        requires
            old(self).wf(),
            i < old(self).keys().len(),
        ensures
            *value == old(self).values()[i as int],
            final(self).keys() == old(self).keys(),
            final(self).values() == old(self).values().update(i as int, *final(value)),
            final(self).wf(),
    {
        &mut self.entries[i].value
    }

    /// Removes the key that was inserted last, and hands it out with its value.
    pub fn pop(&mut self) -> (last: Option<(String, String, T)>)
        requires
            old(self).wf(),
        ensures
            final(self).wf(),
            match last {
                Some((topic, partition, value)) => {
                    &&& old(self).keys().len() > 0
                    &&& (topic@, partition@) == old(self).keys().last()
                    &&& value == old(self).values().last()
                    &&& final(self).keys() == old(self).keys().drop_last()
                    &&& final(self).values() == old(self).values().drop_last()
                },
                None => old(self).keys().len() == 0 && final(self).keys() == old(self).keys()
                    && final(self).values() == old(self).values(),
            },
    {
        match self.entries.pop() {
            Some(entry) => {
                proof {
                    assert(self.keys() =~= old(self).keys().drop_last());
                    assert(self.values() =~= old(self).values().drop_last());
                }
                Some((entry.topic, entry.partition, entry.value))
            },
            None => {
                proof {
                    assert(self.keys() =~= old(self).keys());
                    assert(self.values() =~= old(self).values());
                }
                None
            },
        }
    }

    /// Replaces the value at a position and keeps its key.
    pub fn set_value_at(&mut self, i: usize, value: T)
        requires
            old(self).wf(),
            i < old(self).keys().len(),
        ensures
            final(self).wf(),
            final(self).keys() == old(self).keys(),
            final(self).values() == old(self).values().update(i as int, value),
    {
        self.entries[i].value = value;
        proof {
            assert(self.keys() =~= old(self).keys());
            assert(self.values() =~= old(self).values().update(i as int, value));
        }
    }

    /// Adds a key that the table does not contain, with its value, behind
    /// the keys that it has.
    pub fn push(&mut self, topic: String, partition: String, value: T)
        requires
            old(self).wf(),
            !old(self).contains_key((topic@, partition@)),
        ensures
            final(self).wf(),
            final(self).keys() == old(self).keys().push((topic@, partition@)),
            final(self).values() == old(self).values().push(value),
    {
        self.entries.push(Entry { topic, partition, value });
        proof {
            assert(self.keys() =~= old(self).keys().push((topic@, partition@)));
            assert(self.values() =~= old(self).values().push(value));
        }
    }

    /// Stores the value for the key: in place of the value that the key has,
    /// which is handed out, or with the key behind the keys that the table
    /// has.
    pub fn insert(&mut self, topic: String, partition: String, value: T) -> (previous: Option<T>)
        requires
            old(self).wf(),
        ensures
            final(self).wf(),
            final(self).as_map() == old(self).as_map().insert((topic@, partition@), value),
            old(self).contains_key((topic@, partition@)) ==> previous == Some(
                old(self).value_of((topic@, partition@)),
            ) && final(self).keys() == old(self).keys(),
            !old(self).contains_key((topic@, partition@)) ==> previous.is_none()
                && final(self).keys() == old(self).keys().push((topic@, partition@)),
    {
        match self.position(&topic, &partition) {
            Some(at) => {
                let mut value = value;
                proof {
                    self.lemma_key_at(at as int);
                }
                core::mem::swap(&mut self.entries[at].value, &mut value);
                proof {
                    assert(self.keys() =~= old(self).keys());
                    assert(self.values() =~= old(self).values().update(
                        at as int,
                        self.values()[at as int],
                    ));
                    Self::lemma_map_after_update(
                        *old(self),
                        *self,
                        at as int,
                        self.values()[at as int],
                    );
                }
                Some(value)
            },
            None => {
                self.push(topic, partition, value);
                proof {
                    Self::lemma_map_after_push(*old(self), *self, (topic@, partition@), value);
                }
                None
            },
        }
    }

    /// Removes all keys.
    pub fn clear(&mut self)
        ensures
            final(self).wf(),
            final(self).keys() == Seq::<Key>::empty(),
            final(self).values() == Seq::<T>::empty(),
    {
        self.entries.clear();
    }
}

} // verus!
