use vstd::prelude::*;

verus! {

/// A value with a stable primary key.
pub trait Record {
    spec fn key(&self) -> usize;

    fn primary_key(&self) -> (k: usize)
        ensures
            k == self.key(),
    ;
}

/// Why a keyed table operation was rejected.
#[derive(Debug, Clone, Copy, PartialEq, Eq, Structural)]
pub enum TableError {
    /// A record with that key is already stored.
    KeyConflict,
    /// No record with that key is stored.
    NotFound,
}

/// True when no two records of `s` share a key.
pub open spec fn keys_unique<V: Record>(s: Seq<V>) -> bool {
    forall|i: int, j: int| 0 <= i < j < s.len() ==> s[i].key() != s[j].key()
}

/// True when some record of `s` has key `k`.
pub open spec fn has_key<V: Record>(s: Seq<V>, k: usize) -> bool {
    exists|i: int| 0 <= i < s.len() && s[i].key() == k
}

/// Records kept in insertion order, at most one per primary key.
pub struct Table<V> {
    rows: Vec<V>,
}

impl<V: Record> Table<V> {
    /// The stored records, in insertion order.
    pub closed spec fn view(&self) -> Seq<V> {
        self.rows@
    }

    pub open spec fn wf(&self) -> bool {
        keys_unique(self@)
    }

    pub fn new() -> (t: Self)
        ensures
            t@ == Seq::<V>::empty(),
            t.wf(),
    {
        Table { rows: Vec::new() }
    }

    pub fn len(&self) -> (n: usize)
        ensures
            n == self@.len(),
    {
        self.rows.len()
    }

    /// All records, in insertion order.
    pub fn values(&self) -> (r: &[V])
        ensures
            r@ == self@,
    {
        self.rows.as_slice()
    }

    /// Index of the record with key `key`, if any.
    fn position(&self, key: usize) -> (r: Option<usize>)
        ensures
            match r {
                Some(i) => i < self@.len() && self@[i as int].key() == key,
                None => !has_key(self@, key),
            },
    {
        let mut i: usize = 0;
        while i < self.rows.len()
            invariant
                i <= self.rows@.len(),
                forall|j: int| 0 <= j < i ==> self.rows@[j].key() != key,
            decreases self.rows@.len() - i,
        {
            if self.rows[i].primary_key() == key {
                return Some(i);
            }
            i = i + 1;
        }
        None
    }

    pub fn contains_key(&self, key: usize) -> (r: bool)
        ensures
            r == has_key(self@, key),
    {
        self.position(key).is_some()
    }

    /// The record stored under `key`.
    pub fn get(&self, key: usize) -> (r: Option<&V>)
        requires
            self.wf(),
        ensures
            match r {
                Some(v) => exists|i: int| 0 <= i < self@.len() && self@[i] == *v && v.key() == key,
                None => !has_key(self@, key),
            },
    {
        match self.position(key) {
            Some(i) => Some(&self.rows[i]),
            None => None,
        }
    }

    /// Stores `value` unless its key is taken.
    pub fn insert(&mut self, value: V) -> (r: Result<(), TableError>)
        requires
            old(self).wf(),
        ensures
            final(self).wf(),
            has_key(old(self)@, value.key()) ==> r == Err::<(), TableError>(
                TableError::KeyConflict,
            ) && final(self)@ == old(self)@,
            !has_key(old(self)@, value.key()) ==> r is Ok && final(self)@ == old(self)@.push(
                value,
            ),
    {
        let k = value.primary_key();
        match self.position(k) {
            Some(_) => Err(TableError::KeyConflict),
            None => {
                self.rows.push(value);
                Ok(())
            },
        }
    }

    /// Stores `value`, putting it in place of the record with the same key
    /// if there is one, which is returned.
    pub fn upsert(&mut self, value: V) -> (r: Option<V>)
        requires
            old(self).wf(),
        ensures
            final(self).wf(),
            match r {
                Some(prev) => exists|i: int|
                    0 <= i < old(self)@.len() && old(self)@[i] == prev && prev.key() == value.key()
                        && final(self)@ == old(self)@.update(i, value),
                None => !has_key(old(self)@, value.key()) && final(self)@ == old(self)@.push(
                    value,
                ),
            },
    {
        let k = value.primary_key();
        match self.position(k) {
            Some(i) => {
                let prev = self.rows.remove(i);
                self.rows.insert(i, value);
                assert(self.rows@ =~= old(self)@.update(i as int, value));
                Some(prev)
            },
            None => {
                self.rows.push(value);
                None
            },
        }
    }

    /// Puts `value` in place of the record stored under `key` and returns
    /// that record. `value` may carry another key only if that key is free.
    pub fn replace(&mut self, key: usize, value: V) -> (r: Result<V, TableError>)
        requires
            old(self).wf(),
        ensures
            final(self).wf(),
            !has_key(old(self)@, key) ==> r == Err::<V, TableError>(TableError::NotFound)
                && final(self)@ == old(self)@,
            has_key(old(self)@, key) && value.key() != key && has_key(old(self)@, value.key())
                ==> r == Err::<V, TableError>(TableError::KeyConflict) && final(self)@ == old(
                self,
            )@,
            has_key(old(self)@, key) && (value.key() == key || !has_key(old(self)@, value.key()))
                ==> r is Ok,
            match r {
                Ok(prev) => exists|i: int|
                    0 <= i < old(self)@.len() && old(self)@[i] == prev && prev.key() == key
                        && final(self)@ == old(self)@.update(i, value),
                Err(_) => final(self)@ == old(self)@,
            },
    {
        let new_key = value.primary_key();
        match self.position(key) {
            None => Err(TableError::NotFound),
            Some(i) => {
                if new_key != key && self.position(new_key).is_some() {
                    return Err(TableError::KeyConflict);
                }
                let prev = self.rows.remove(i);
                self.rows.insert(i, value);
                assert(self.rows@ =~= old(self)@.update(i as int, value));
                assert(keys_unique(self@)) by {
                    assert forall|a: int, b: int| 0 <= a < b < self@.len() implies self@[a].key()
                        != self@[b].key() by {
                        if a == i as int {
                            assert(old(self)@[b].key() != key);
                        } else if b == i as int {
                            assert(old(self)@[a].key() != key);
                        }
                    }
                }
                Ok(prev)
            },
        }
    }

    /// Takes out and returns the record stored under `key`.
    pub fn remove(&mut self, key: usize) -> (r: Result<V, TableError>)
        requires
            old(self).wf(),
        ensures
            final(self).wf(),
            !has_key(old(self)@, key) ==> r == Err::<V, TableError>(TableError::NotFound)
                && final(self)@ == old(self)@,
            has_key(old(self)@, key) ==> r is Ok,
            match r {
                Ok(prev) => exists|i: int|
                    0 <= i < old(self)@.len() && old(self)@[i] == prev && prev.key() == key
                        && final(self)@ == old(self)@.remove(i),
                Err(_) => final(self)@ == old(self)@,
            },
    {
        match self.position(key) {
            None => Err(TableError::NotFound),
            Some(i) => {
                let prev = self.rows.remove(i);
                assert(keys_unique(self@)) by {
                    assert forall|a: int, b: int| 0 <= a < b < self@.len() implies self@[a].key()
                        != self@[b].key() by {
                        let a0 = if a < i { a } else { a + 1 };
                        let b0 = if b < i { b } else { b + 1 };
                        assert(self@[a] == old(self)@[a0]);
                        assert(self@[b] == old(self)@[b0]);
                    }
                }
                Ok(prev)
            },
        }
    }
}

} // verus!
