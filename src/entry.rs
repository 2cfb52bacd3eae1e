//! The entry API: a probe for one key that is then consumed by one change of
//! the map, or dropped.
use vstd::prelude::*;
use crate::hash::{SafeHash, HASH_TOP_BIT};
use crate::map::table_ok;
use crate::policy::usable_capacity_spec;
use crate::probe::{pop_internal, put_placed, robin_hood};
use crate::raw::RawTable;

verus! {

/// A view into one key of a map: present or absent.
#[verifier::reject_recursive_types(K)]
pub enum Entry<'a, K, V> {
    /// The key is present.
    Occupied(OccupiedEntry<'a, K, V>),
    /// The key is absent.
    Vacant(VacantEntry<'a, K, V>),
}

/// A present key, in bucket `idx` of the borrowed table.
#[verifier::reject_recursive_types(K)]
pub struct OccupiedEntry<'a, K, V> {
    pub elem: &'a mut RawTable<K, V>,
    pub idx: usize,
    pub tag: Ghost<spec_fn(K) -> u64>,
}

/// Where an absent key goes.
pub enum VacantEntryState {
    /// Into this full bucket, displacing its element, this many buckets past
    /// the key's ideal bucket.
    NeqElem(usize, usize),
    /// Into this empty bucket, this many buckets past the key's ideal bucket.
    NoElem(usize, usize),
}

/// An absent key with its tag, and where it goes in the borrowed table.
#[verifier::reject_recursive_types(K)]
pub struct VacantEntry<'a, K, V> {
    pub hash: SafeHash,
    pub key: K,
    pub elem: VacantEntryState,
    pub table: &'a mut RawTable<K, V>,
    pub tag: Ghost<spec_fn(K) -> u64>,
}

impl<'a, K, V> OccupiedEntry<'a, K, V> {
    /// The table is in order and bucket `idx` is full.
    pub open spec fn inv(&self) -> bool {
        &&& table_ok(*self.elem, self.tag@)
        &&& self.idx < self.elem.cap()
        &&& self.elem.full(self.idx as int)
    }

    /// The key of the entry.
    pub open spec fn key(&self) -> K {
        self.elem.key_at(self.idx as int)
    }

    /// The value of the entry's key.
    pub fn get(&self) -> (r: &V)
        requires
            self.inv(),
        ensures
            *r == (*old(self.elem))@[self.key()],
    {
        let (_, v) = self.elem.read(self.idx);
        v
    }

    /// A mutable reference to the value of the entry's key.
    pub fn get_mut(&mut self) -> (r: &mut V)
        requires
            old(self).inv(),
        ensures
            *r == old(self).elem@[old(self).key()],
            final(self).inv(),
            final(self).idx == old(self).idx,
            final(self).tag == old(self).tag,
            final(self).key() == old(self).key(),
            final(self).elem@ == old(self).elem@.insert(old(self).key(), *final(r)),
            *final(final(self).elem) == *final(old(self).elem),
    {
        proof {
            crate::map::lemma_same_layout(*self.elem, self.idx as int, self.tag@);
        }
        self.elem.read_mut(self.idx)
    }

    /// The value of the entry's key, borrowed for as long as the map.
    pub fn into_mut(self) -> (r: &'a mut V)
        requires
            self.inv(),
        ensures
            *r == (*old(self.elem))@[self.key()],
            table_ok(*final(self.elem), self.tag@),
            (*final(self.elem))@ == (*old(self.elem))@.insert(self.key(), *final(r)),
    {
        proof {
            crate::map::lemma_same_layout(*self.elem, self.idx as int, self.tag@);
        }
        self.elem.read_mut(self.idx)
    }

    /// Replaces the value of the entry's key and hands back the old one.
    pub fn insert(&mut self, value: V) -> (r: V)
        requires
            old(self).inv(),
        ensures
            r == old(self).elem@[old(self).key()],
            final(self).inv(),
            final(self).idx == old(self).idx,
            final(self).tag == old(self).tag,
            final(self).key() == old(self).key(),
            final(self).elem@ == old(self).elem@.insert(old(self).key(), value),
            *final(final(self).elem) == *final(old(self).elem),
    {
        proof {
            crate::map::lemma_same_layout(*self.elem, self.idx as int, self.tag@);
        }
        self.elem.replace_value(self.idx, value)
    }

    /// Removes the entry's key by backward-shift deletion and hands back its
    /// value.
    pub fn remove(self) -> (r: V)
        requires
            self.inv(),
        ensures
            r == (*old(self.elem))@[self.key()],
            table_ok(*final(self.elem), self.tag@),
            (*final(self.elem))@ == (*old(self.elem))@.remove(self.key()),
    {
        proof {
            assert(usable_capacity_spec(self.elem.cap()) < self.elem.cap()) by (nonlinear_arith)
                requires self.elem.cap() >= 32;
        }
        let (_, v) = pop_internal(self.elem, self.idx, Ghost(self.tag@));
        v
    }
}

impl<'a, K, V> VacantEntry<'a, K, V> {
    /// The table is in order with room for one more element, the key is
    /// absent, and `elem` says where Robin Hood order puts it.
    pub open spec fn inv(&self) -> bool {
        &&& table_ok(*self.table, self.tag@)
        &&& self.table@.len() + 1 <= usable_capacity_spec(self.table.cap())
        &&& self.hash@ == (self.tag@)(self.key)
        &&& self.hash@ >= HASH_TOP_BIT
        &&& !self.table@.contains_key(self.key)
        &&& match self.elem {
            VacantEntryState::NoElem(i, d) => {
                &&& i < self.table.cap()
                &&& !self.table.full(i as int)
                &&& self.table.placeable(i as int, self.hash@, d as int)
            },
            VacantEntryState::NeqElem(i, d) => {
                &&& i < self.table.cap()
                &&& self.table.full(i as int)
                &&& self.table.dist(i as int) < d
                &&& self.table.placeable(i as int, self.hash@, d as int)
            },
        }
    }

    /// The absent key.
    pub fn key(&self) -> (r: &K)
        ensures
            *r == self.key,
    {
        &self.key
    }

    /// Inserts the key with `value`, where Robin Hood order puts it, and
    /// returns a reference to the value, borrowed for as long as the map.
    pub fn insert(self, value: V) -> (r: &'a mut V)
        requires
            self.inv(),
        ensures
            *r == value,
            table_ok(*final(self.table), self.tag@),
            (*final(self.table))@ == (*old(self.table))@.insert(self.key, *final(r)),
    {
        let ghost tag = self.tag@;
        let ghost k = self.key;
        let table = self.table;
        let idx = match self.elem {
            VacantEntryState::NoElem(i, d) => {
                put_placed(table, i, self.hash, self.key, value, Ghost(tag));
                i
            },
            VacantEntryState::NeqElem(i, d) => {
                proof {
                    assert(usable_capacity_spec(table.cap()) < table.cap()) by (nonlinear_arith)
                        requires table.cap() >= 32;
                }
                robin_hood(table, i, d, self.hash, self.key, value, Ghost(tag))
            },
        };
        proof {
            crate::map::lemma_same_layout(*table, idx as int, tag);
        }
        table.read_mut(idx)
    }
}

impl<'a, K, V> Entry<'a, K, V> {
    pub open spec fn inv(&self) -> bool {
        match self {
            Entry::Occupied(o) => o.inv(),
            Entry::Vacant(v) => v.inv(),
        }
    }

    /// The value of the entry's key, inserting `default` where the key is
    /// absent.
    pub fn or_insert(self, default: V) -> (r: &'a mut V)
        requires
            self.inv(),
        ensures
            match self {
                Entry::Occupied(o) => {
                    &&& *r == (*o.elem)@[o.key()]
                    &&& table_ok(*final(o.elem), o.tag@)
                    &&& (*final(o.elem))@ == (*o.elem)@.insert(o.key(), *final(r))
                },
                Entry::Vacant(v) => {
                    &&& *r == default
                    &&& table_ok(*final(v.table), v.tag@)
                    &&& (*final(v.table))@ == (*v.table)@.insert(v.key, *final(r))
                },
            },
    {
        match self {
            Entry::Occupied(o) => o.into_mut(),
            Entry::Vacant(v) => v.insert(default),
        }
    }

    /// The value of the entry's key, inserting what `default` makes where the
    /// key is absent.
    pub fn or_insert_with<F: FnOnce() -> V>(self, default: F) -> (r: &'a mut V)
        requires
            self.inv(),
            self is Vacant ==> default.requires(()),
        ensures
            match self {
                Entry::Occupied(o) => {
                    &&& *r == (*o.elem)@[o.key()]
                    &&& table_ok(*final(o.elem), o.tag@)
                    &&& (*final(o.elem))@ == (*o.elem)@.insert(o.key(), *final(r))
                },
                Entry::Vacant(v) => {
                    &&& default.ensures((), *r)
                    &&& table_ok(*final(v.table), v.tag@)
                    &&& (*final(v.table))@ == (*v.table)@.insert(v.key, *final(r))
                },
            },
    {
        match self {
            Entry::Occupied(o) => o.into_mut(),
            Entry::Vacant(v) => v.insert(default()),
        }
    }
}

} // verus!
