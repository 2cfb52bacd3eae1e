//! The hash map: the public operations, the resize policy applied to the
//! bucket array, and the keyed hash state that every operation hashes with.
use vstd::prelude::*;
use vstd::std_specs::cmp::PartialEqSpec;
use crate::hash::{HashState, RandomState, TableKey, lemma_safe_of_nonzero, make_hash, tag_of};
use crate::policy::{
    DefaultResizePolicy, INITIAL_CAPACITY, checked_next_power_of_two, is_pow2,
    lemma_next_pow2_from, min_capacity_spec, next_pow2, usable_capacity_spec,
};
use crate::probe::{insert_hashed_ordered, pop_internal, search_hashed, lemma_wrap};
use crate::entry::{Entry, OccupiedEntry, VacantEntry, VacantEntryState};
use crate::raw::{BucketState, CollectionError, RawTable, layout_fits, lists_map, wrap_add};

verus! {

/// Raw capacity that a table grows to in order to hold `n` elements: the
/// next power of two at or above both `min_capacity(n)` and the initial
/// capacity.
pub open spec fn grow_target(n: int) -> int {
    let need = min_capacity_spec(n);
    next_pow2((if need >= INITIAL_CAPACITY { need } else { INITIAL_CAPACITY as int }) as nat) as int
}

/// A table of raw capacity `grow_target(n)` can be sized without overflow.
pub open spec fn sizing_fits<K, V>(n: int) -> bool {
    &&& min_capacity_spec(n) <= usize::MAX
    &&& grow_target(n) <= usize::MAX
    &&& layout_fits::<K, V>(grow_target(n))
}

/// The bucket array is well formed and in Robin Hood order, each tag is the
/// tag that `tag` gives its key, the raw capacity is 0 or a power of two of
/// at least the initial capacity, and the table is no fuller than the policy
/// allows.
pub open spec fn table_ok<K, V>(t: RawTable<K, V>, tag: spec_fn(K) -> u64) -> bool {
    &&& t.wf()
    &&& t.robin_hood()
    &&& t.tags_match(tag)
    &&& t.cap() == 0 || t.cap() >= INITIAL_CAPACITY
    &&& t@.len() <= usable_capacity_spec(t.cap())
}

/// Room for `n` elements in a table of raw capacity `cap` can be had without
/// overflow: the table is large enough already, or the one it grows to can be
/// sized.
pub open spec fn reserve_fits<K, V>(n: int, cap: int) -> bool {
    &&& n <= usize::MAX
    &&& min_capacity_spec(n) <= usize::MAX
    &&& (cap >= min_capacity_spec(n) || sizing_fits::<K, V>(n))
}

/// `m` after inserting each pair of `s` in turn.
pub open spec fn insert_all<K, V>(m: Map<K, V>, s: Seq<(K, V)>) -> Map<K, V>
    decreases s.len(),
{
    if s.len() == 0 {
        m
    } else {
        insert_all(m, s.drop_last()).insert(s.last().0, s.last().1)
    }
}

/// A hash map with linear probing, Robin Hood bucket stealing and
/// backward-shift deletion. Keys are hashed with a keyed hash state, by
/// default one drawn at random for each map.
#[verifier::reject_recursive_types(K)]
pub struct HashMap<K, V, S = RandomState> {
    hash_state: S,
    table: RawTable<K, V>,
    resize_policy: DefaultResizePolicy,
}

impl<K: TableKey, V> HashMap<K, V, RandomState> {
    /// An empty map, with no buckets allocated, hashing with a random state.
    pub fn new() -> (r: HashMap<K, V, RandomState>)
        ensures
            r.wf(),
            r@ == Map::<K, V>::empty(),
            r.raw_capacity_spec() == 0,
    {
        HashMap::with_hash_state(RandomState::new())
    }

    /// An empty map that holds `capacity` elements before it must grow,
    /// hashing with a random state.
    pub fn with_capacity(capacity: usize) -> (r: Result<HashMap<K, V, RandomState>, CollectionError>)
        ensures
            r is Ok <==> capacity == 0 || sizing_fits::<K, V>(capacity as int),
            r is Ok ==> {
                let m = r->Ok_0;
                &&& m.wf()
                &&& m@ == Map::<K, V>::empty()
                &&& capacity == 0 ==> m.raw_capacity_spec() == 0
                &&& capacity > 0 ==> m.raw_capacity_spec() == grow_target(capacity as int)
                &&& m.capacity_spec() >= capacity
            },
    {
        HashMap::with_capacity_and_hash_state(capacity, RandomState::new())
    }
}

impl<K: TableKey, V, S: HashState> HashMap<K, V, S> {
    /// The pairs that the map holds.
    pub closed spec fn view(&self) -> Map<K, V> {
        self.table@
    }

    /// The number of buckets.
    pub closed spec fn raw_capacity_spec(&self) -> int {
        self.table.cap()
    }

    /// The number of elements the map holds before it must grow.
    pub open spec fn capacity_spec(&self) -> int {
        usable_capacity_spec(self.raw_capacity_spec())
    }

    /// The state that keys are hashed with.
    pub closed spec fn state(&self) -> S {
        self.hash_state
    }

    /// The tag of a key under this map's hash state.
    pub open spec fn tag_fn(&self) -> spec_fn(K) -> u64 {
        |k: K| tag_of(&self.state(), &k)
    }

    /// The bucket array.
    pub closed spec fn table_spec(&self) -> RawTable<K, V> {
        self.table
    }

    /// The bucket array is in order for a map hashing with this map's state.
    pub open spec fn wf(&self) -> bool {
        table_ok(self.table_spec(), self.tag_fn())
    }

    /// The raw capacity is 0 or a power of two of at least 32, and the map
    /// holds no more elements than its capacity.
    pub proof fn lemma_wf_capacity(&self)
        requires
            self.wf(),
        ensures
            self.raw_capacity_spec() == 0 || (is_pow2(self.raw_capacity_spec()) && self.raw_capacity_spec() >= 32),
            self@.len() <= self.capacity_spec(),
            self.raw_capacity_spec() <= usize::MAX,
            self@.dom().finite(),
    {
    }

    /// The tag of each bucket: 0 for an empty one.
    pub closed spec fn bucket_tags(&self) -> Seq<u64> {
        self.table.tags()
    }

    /// Whether bucket `i` holds an element.
    pub closed spec fn bucket_full(&self, i: int) -> bool {
        self.table.entries()[i] is Some
    }

    /// How far the element of bucket `i` sits past its ideal bucket, the one
    /// its tag points to.
    pub closed spec fn bucket_distance(&self, i: int) -> int {
        self.table.dist(i)
    }

    /// The bucket before `i`, wrapping at the start of the table.
    pub closed spec fn bucket_before(&self, i: int) -> int {
        self.table.prev_of(i)
    }

    /// The bucket after `i`, wrapping at the end of the table.
    pub closed spec fn bucket_after(&self, i: int) -> int {
        self.table.next_of(i)
    }

    /// A bucket's tag is 0 exactly when the bucket is empty, and the tag of a
    /// full bucket has its top bit set.
    pub proof fn lemma_tags_mark_full(&self)
        requires
            self.wf(),
        ensures
            self.bucket_tags().len() == self.raw_capacity_spec(),
            forall|i: int| 0 <= i < self.raw_capacity_spec() ==> {
                &&& (#[trigger] self.bucket_tags()[i] == 0 <==> !self.bucket_full(i))
                &&& self.bucket_full(i) ==> self.bucket_tags()[i] >= 0x8000_0000_0000_0000u64
            },
    {
    }

    /// Every element sits fewer buckets past its ideal bucket than the map
    /// holds elements.
    pub proof fn lemma_distance_below_len(&self)
        requires
            self.wf(),
        ensures
            forall|i: int| 0 <= i < self.raw_capacity_spec() && self.bucket_full(i)
                ==> #[trigger] self.bucket_distance(i) < self@.len(),
    {
        assert forall|i: int| 0 <= i < self.raw_capacity_spec() && self.bucket_full(i)
            implies #[trigger] self.bucket_distance(i) < self@.len() by {
            self.table.lemma_dist_below_size(i);
        }
    }

    /// Robin Hood order: an element past its ideal bucket follows a full
    /// bucket whose element sits at least one bucket less far past its own,
    /// so along a run of full buckets the distances never grow by more than
    /// one and the ideal buckets never go back.
    pub proof fn lemma_robin_hood_order(&self)
        requires
            self.wf(),
        ensures
            forall|i: int| 0 <= i < self.raw_capacity_spec() && self.bucket_full(i) && #[trigger] self.bucket_distance(i) > 0 ==> {
                &&& self.bucket_full(self.bucket_before(i))
                &&& self.bucket_distance(self.bucket_before(i)) + 1 >= self.bucket_distance(i)
            },
    {
        assert forall|i: int| 0 <= i < self.raw_capacity_spec() && self.bucket_full(i) && #[trigger] self.bucket_distance(i) > 0 implies {
            &&& self.bucket_full(self.bucket_before(i))
            &&& self.bucket_distance(self.bucket_before(i)) + 1 >= self.bucket_distance(i)
        } by {
            assert(self.table.robin_hood_at(i));
            assert(0 <= self.table.prev_of(i) < self.table.cap());
        }
    }

    /// The key in full bucket `i`.
    pub closed spec fn bucket_key(&self, i: int) -> K {
        self.table.key_at(i)
    }

    /// The bucket that the tag of `k` points to first.
    pub closed spec fn home_bucket(&self, k: K) -> int {
        self.table.ideal_of(tag_of(&self.state(), &k))
    }

    /// Along the probe sequence of a key that the map holds, from the key's
    /// home bucket to the key itself, every bucket is full and the `j`-th
    /// holds an element at least `j` buckets past its own home bucket. So a
    /// search may stop at an empty bucket, or at an element closer to its home
    /// than the steps taken, and the key sits fewer buckets from home than the
    /// map holds elements.
    pub proof fn lemma_probe_chain(&self, k: K) -> (p: int)
        requires
            self.wf(),
            self@.contains_key(k),
        ensures
            0 <= p < self.raw_capacity_spec(),
            self.bucket_full(p),
            self.bucket_key(p) == k,
            p == wrap_add(self.home_bucket(k), self.bucket_distance(p), self.raw_capacity_spec()),
            self.bucket_distance(p) < self@.len(),
            forall|j: int| 0 <= j <= self.bucket_distance(p) ==> {
                &&& self.bucket_full(#[trigger] wrap_add(self.home_bucket(k), j, self.raw_capacity_spec()))
                &&& self.bucket_distance(wrap_add(self.home_bucket(k), j, self.raw_capacity_spec())) >= j
            },
    {
        let tag = self.tag_fn();
        assert(self.table.cap() > 0) by {
            let i = choose|i: int| 0 <= i < self.table.cap() && self.table.full(i) && #[trigger] self.table.key_at(i) == k;
        }
        let p = self.table.lemma_key_placed(tag, k);
        assert forall|j: int| 0 <= j <= self.bucket_distance(p) implies {
            &&& self.bucket_full(#[trigger] wrap_add(self.home_bucket(k), j, self.raw_capacity_spec()))
            &&& self.bucket_distance(wrap_add(self.home_bucket(k), j, self.raw_capacity_spec())) >= j
        } by {
            let w = wrap_add(self.home_bucket(k), j, self.raw_capacity_spec());
            assert(self.table.full(w));
            lemma_wrap(self.home_bucket(k), j, self.table.cap());
        }
        p
    }

    /// An empty map with no buckets allocated, hashing with `hash_state`.
    pub fn with_hash_state(hash_state: S) -> (r: HashMap<K, V, S>)
        ensures
            r.wf(),
            r@ == Map::<K, V>::empty(),
            r.raw_capacity_spec() == 0,
            r.state() == hash_state,
    {
        let table = match RawTable::new(0) {
            Ok(t) => t,
            Err(_) => vstd::pervasive::unreached(),
        };
        HashMap { hash_state, table, resize_policy: DefaultResizePolicy::new() }
    }

    /// An empty map that holds `capacity` elements before it must grow,
    /// hashing with `hash_state`. Fails with `CapacityOverflow` where the
    /// table this takes cannot be sized.
    pub fn with_capacity_and_hash_state(capacity: usize, hash_state: S) -> (r: Result<HashMap<K, V, S>, CollectionError>)
        ensures
            r is Ok <==> capacity == 0 || sizing_fits::<K, V>(capacity as int),
            r is Ok ==> {
                let m = r->Ok_0;
                &&& m.wf()
                &&& m@ == Map::<K, V>::empty()
                &&& m.state() == hash_state
                &&& capacity == 0 ==> m.raw_capacity_spec() == 0
                &&& capacity > 0 ==> m.raw_capacity_spec() == grow_target(capacity as int)
                &&& m.capacity_spec() >= capacity
            },
    {
        if capacity == 0 {
            return Ok(HashMap::with_hash_state(hash_state));
        }
        let resize_policy = DefaultResizePolicy::new();
        let internal_cap = match sizing_target(capacity) {
            Some(c) => c,
            None => return Err(CollectionError::CapacityOverflow),
        };
        let table = match RawTable::new(internal_cap) {
            Ok(t) => t,
            Err(e) => return Err(e),
        };
        proof {
            lemma_usable_of_min(capacity as int, internal_cap as int);
        }
        Ok(HashMap { hash_state, table, resize_policy })
    }

    /// The number of elements the map holds before it must grow.
    pub fn capacity(&self) -> (r: usize)
        requires
            self.wf(),
        ensures
            r == self.capacity_spec(),
    {
        self.resize_policy.usable_capacity(self.table.capacity())
    }

    /// The number of buckets of the underlying table.
    pub fn raw_capacity(&self) -> (r: usize)
        requires
            self.wf(),
        ensures
            r == self.raw_capacity_spec(),
    {
        self.table.capacity()
    }

    /// The number of elements in the map.
    pub fn len(&self) -> (r: usize)
        requires
            self.wf(),
        ensures
            r == self@.len(),
    {
        self.table.size()
    }

    /// Whether the map holds no element.
    pub fn is_empty(&self) -> (r: bool)
        requires
            self.wf(),
        ensures
            r <==> self@.len() == 0,
            r <==> self@ == Map::<K, V>::empty(),
    {
        proof {
            if self@.len() == 0 {
                assert(self@.dom() =~= Set::<K>::empty());
                assert(self@ =~= Map::<K, V>::empty());
            }
        }
        self.len() == 0
    }

    /// Makes room for `additional` more elements: where the table holds fewer
    /// than `min_capacity(len + additional)` buckets, it grows to
    /// `grow_target(len + additional)`. Fails with `CapacityOverflow`, leaving
    /// the map as it was, where the sizes overflow.
    pub fn reserve(&mut self, additional: usize) -> (r: Result<(), CollectionError>)
        requires
            old(self).wf(),
        ensures
            final(self).wf(),
            final(self)@ == old(self)@,
            final(self).state() == old(self).state(),
            r is Ok <==> reserve_fits::<K, V>(old(self)@.len() + additional, old(self).raw_capacity_spec()),
            r is Ok ==> {
                let n = old(self)@.len() + additional;
                &&& final(self).raw_capacity_spec() >= min_capacity_spec(n)
                &&& final(self).capacity_spec() >= n
                &&& old(self).raw_capacity_spec() >= min_capacity_spec(n) ==> final(self).raw_capacity_spec() == old(self).raw_capacity_spec()
                &&& old(self).raw_capacity_spec() < min_capacity_spec(n) ==> final(self).raw_capacity_spec() == grow_target(n)
            },
            r is Err ==> *final(self) == *old(self),
    {
        let len = self.len();
        let new_size = match len.checked_add(additional) {
            Some(n) => n,
            None => return Err(CollectionError::CapacityOverflow),
        };
        let min_cap = match self.resize_policy.checked_min_capacity(new_size) {
            Some(c) => c,
            None => return Err(CollectionError::CapacityOverflow),
        };
        if self.table.capacity() < min_cap {
            let new_capacity = match sizing_target(new_size) {
                Some(c) => c,
                None => return Err(CollectionError::CapacityOverflow),
            };
            proof {
                lemma_usable_of_min(new_size as int, new_capacity as int);
            }
            match self.resize(new_capacity) {
                Ok(()) => {},
                Err(e) => return Err(e),
            }
            proof {
                lemma_usable_of_min(new_size as int, new_capacity as int);
            }
        } else {
            proof {
                lemma_usable_of_min(new_size as int, self.table.cap());
            }
        }
        Ok(())
    }

    /// Inserts `k` with value `v`; where `k` was present, its value is
    /// replaced and the old value returned. Grows the table first where one
    /// more element would not fit.
    pub fn insert(&mut self, k: K, v: V) -> (r: Option<V>)
        requires
            old(self).wf(),
            reserve_fits::<K, V>(old(self)@.len() + 1int, old(self).raw_capacity_spec()),
        ensures
            final(self).wf(),
            final(self)@ == old(self)@.insert(k, v),
            final(self).state() == old(self).state(),
            r == if old(self)@.contains_key(k) { Some(old(self)@[k]) } else { None::<V> },
            old(self).raw_capacity_spec() >= min_capacity_spec(old(self)@.len() + 1int)
                ==> final(self).raw_capacity_spec() == old(self).raw_capacity_spec(),
            old(self).raw_capacity_spec() < min_capacity_spec(old(self)@.len() + 1int)
                ==> final(self).raw_capacity_spec() == grow_target(old(self)@.len() + 1int),
    {
        let hash = make_hash(&self.hash_state, &k);
        match self.reserve(1) {
            Ok(()) => {},
            Err(_) => vstd::pervasive::unreached(),
        }
        let ghost tag = self.tag_fn();
        let ghost before = self.table;
        proof {
            lemma_safe_of_nonzero(self.hash_state.digest_of(k.key_bits()));
            assert(usable_capacity_spec(self.table.cap()) < self.table.cap()) by (nonlinear_arith)
                requires self.table.cap() >= 32;
        }
        match crate::probe::search_entry_hashed(&self.table, hash, &k, Ghost(tag)) {
            crate::probe::ProbeResult::Found(i) => {
                let old_v = self.table.replace_value(i, v);
                proof {
                    let ta = self.table;
                    assert forall|a: int| 0 <= a < ta.cap() implies #[trigger] ta.robin_hood_at(a) by {
                        assert(before.robin_hood_at(a));
                    }
                    assert forall|a: int| 0 <= a < ta.cap() && ta.full(a) implies
                        #[trigger] ta.tags()[a] == tag(ta.key_at(a)) by {
                        assert(before.tags()[a] == tag(before.key_at(a)));
                    }
                }
                Some(old_v)
            },
            crate::probe::ProbeResult::NoElem(i, _) => {
                crate::probe::put_placed(&mut self.table, i, hash, k, v, Ghost(tag));
                None
            },
            crate::probe::ProbeResult::NeqElem(i, d) => {
                crate::probe::robin_hood(&mut self.table, i, d, hash, k, v, Ghost(tag));
                None
            },
        }
    }

    /// The value of `k`, where the map holds it.
    pub fn get(&self, k: &K) -> (r: Option<&V>)
        requires
            self.wf(),
        ensures
            r is Some <==> self@.contains_key(*k),
            r is Some ==> *r->Some_0 == self@[*k],
    {
        let hash = make_hash(&self.hash_state, k);
        match search_hashed(&self.table, hash, k, Ghost(self.tag_fn())) {
            Some(i) => {
                let (_, v) = self.table.read(i);
                Some(v)
            },
            None => None,
        }
    }

    /// A mutable reference to the value of `k`, where the map holds it;
    /// whatever it holds when released becomes the value of `k`.
    pub fn get_mut(&mut self, k: &K) -> (r: Option<&mut V>)
        requires
            old(self).wf(),
        ensures
            r is Some <==> old(self)@.contains_key(*k),
            r is Some ==> *r->Some_0 == old(self)@[*k],
            r is Some ==> final(self)@ == old(self)@.insert(*k, *final(r->Some_0)),
            r is None ==> final(self)@ == old(self)@,
            final(self).wf(),
            final(self).state() == old(self).state(),
            final(self).raw_capacity_spec() == old(self).raw_capacity_spec(),
    {
        let hash = make_hash(&self.hash_state, k);
        let ghost tag = self.tag_fn();
        match search_hashed(&self.table, hash, k, Ghost(tag)) {
            Some(i) => {
                proof {
                    lemma_same_layout(self.table, i as int, tag);
                }
                Some(self.table.read_mut(i))
            },
            None => None,
        }
    }

    /// The entry of `key`: reserves room for one more element, then probes
    /// for the key and reports where it is or where it goes.
    pub fn entry(&mut self, key: K) -> (e: Entry<'_, K, V>)
        requires
            old(self).wf(),
            reserve_fits::<K, V>(old(self)@.len() + 1int, old(self).raw_capacity_spec()),
        ensures
            e.inv(),
            final(self).state() == old(self).state(),
            match e {
                Entry::Occupied(o) => {
                    &&& old(self)@.contains_key(key)
                    &&& o.key() == key
                    &&& o.elem@ == old(self)@
                    &&& o.tag@ == old(self).tag_fn()
                    &&& final(self).table_spec() == *final(o.elem)
                },
                Entry::Vacant(v) => {
                    &&& !old(self)@.contains_key(key)
                    &&& v.key == key
                    &&& v.table@ == old(self)@
                    &&& v.tag@ == old(self).tag_fn()
                    &&& final(self).table_spec() == *final(v.table)
                },
            },
    {
        match self.reserve(1) {
            Ok(()) => {},
            Err(_) => vstd::pervasive::unreached(),
        }
        let hash = make_hash(&self.hash_state, &key);
        let ghost tag = self.tag_fn();
        proof {
            lemma_safe_of_nonzero(self.hash_state.digest_of(key.key_bits()));
            assert(usable_capacity_spec(self.table.cap()) < self.table.cap()) by (nonlinear_arith)
                requires self.table.cap() >= 32;
        }
        match crate::probe::search_entry_hashed(&self.table, hash, &key, Ghost(tag)) {
            crate::probe::ProbeResult::Found(i) => {
                Entry::Occupied(OccupiedEntry { elem: &mut self.table, idx: i, tag: Ghost(tag) })
            },
            crate::probe::ProbeResult::NoElem(i, d) => {
                Entry::Vacant(VacantEntry {
                    hash,
                    key,
                    elem: VacantEntryState::NoElem(i, d),
                    table: &mut self.table,
                    tag: Ghost(tag),
                })
            },
            crate::probe::ProbeResult::NeqElem(i, d) => {
                Entry::Vacant(VacantEntry {
                    hash,
                    key,
                    elem: VacantEntryState::NeqElem(i, d),
                    table: &mut self.table,
                    tag: Ghost(tag),
                })
            },
        }
    }

    /// The value of `k`, which the map must hold.
    pub fn index(&self, k: &K) -> (r: &V)
        requires
            self.wf(),
            self@.contains_key(*k),
        ensures
            *r == self@[*k],
    {
        match self.get(k) {
            Some(v) => v,
            None => vstd::pervasive::unreached(),
        }
    }

    /// Whether the map holds `k`.
    pub fn contains_key(&self, k: &K) -> (r: bool)
        requires
            self.wf(),
        ensures
            r == self@.contains_key(*k),
    {
        let hash = make_hash(&self.hash_state, k);
        search_hashed(&self.table, hash, k, Ghost(self.tag_fn())).is_some()
    }

    /// Removes `k` by backward-shift deletion and returns its value, where the
    /// map holds it.
    pub fn remove(&mut self, k: &K) -> (r: Option<V>)
        requires
            old(self).wf(),
        ensures
            final(self).wf(),
            final(self)@ == old(self)@.remove(*k),
            final(self).state() == old(self).state(),
            final(self).raw_capacity_spec() == old(self).raw_capacity_spec(),
            r == if old(self)@.contains_key(*k) { Some(old(self)@[*k]) } else { None::<V> },
            r is Some ==> exists|g: int| {
                &&& 0 <= g < final(self).raw_capacity_spec()
                &&& !final(self).bucket_full(g)
                &&& #[trigger] final(self).bucket_full(final(self).bucket_after(g)) ==> final(self).bucket_distance(final(self).bucket_after(g)) == 0
            },
    {
        if self.table.size() == 0 {
            proof {
                if self@.contains_key(*k) {
                    assert(self@.dom().contains(*k));
                    vstd::set_lib::lemma_set_empty_equivalency_len(self@.dom());
                }
                assert(self@ =~= self@.remove(*k));
            }
            return None;
        }
        let hash = make_hash(&self.hash_state, k);
        let ghost tag = self.tag_fn();
        match search_hashed(&self.table, hash, k, Ghost(tag)) {
            Some(i) => {
                proof {
                    assert(usable_capacity_spec(self.table.cap()) < self.table.cap()) by (nonlinear_arith)
                        requires self.table.cap() >= 32;
                    assert(self.table@.contains_key(*k));
                }
                let (_, v) = pop_internal(&mut self.table, i, Ghost(tag));
                proof {
                    let g = choose|g: int| {
                        &&& 0 <= g < self.table.cap()
                        &&& !self.table.full(g)
                        &&& #[trigger] self.table.full(self.table.next_of(g)) ==> self.table.dist(self.table.next_of(g)) == 0
                    };
                    assert(!self.bucket_full(g));
                    assert(0 <= self.table.next_of(g) < self.table.cap());
                    assert(self.bucket_full(self.bucket_after(g)) ==> self.bucket_distance(self.bucket_after(g)) == 0);
                }
                Some(v)
            },
            None => {
                proof {
                    assert(self@ =~= self@.remove(*k));
                }
                None
            },
        }
    }

    /// Shrinks the table to `grow_target(len)` buckets, the smallest that the
    /// policy allows for the elements held. Leaves the table as it is where
    /// that table cannot be sized.
    pub fn shrink_to_fit(&mut self)
        requires
            old(self).wf(),
        ensures
            final(self).wf(),
            final(self)@ == old(self)@,
            final(self).state() == old(self).state(),
            sizing_fits::<K, V>(old(self)@.len() as int) ==> final(self).raw_capacity_spec() == grow_target(old(self)@.len() as int),
            !sizing_fits::<K, V>(old(self)@.len() as int) ==> final(self).raw_capacity_spec() == old(self).raw_capacity_spec(),
    {
        let len = self.len();
        let target = match sizing_target(len) {
            Some(c) => c,
            None => return,
        };
        if self.table.capacity() != target {
            proof {
                lemma_usable_of_min(len as int, target as int);
            }
            match self.resize(target) {
                Ok(()) => {},
                Err(_) => {},
            }
        }
    }

    /// The key and value of every element, in bucket order, which depends on
    /// the hash state.
    pub fn iter(&self) -> (r: Vec<(&K, &V)>)
        requires
            self.wf(),
        ensures
            lists_map(deref_pairs(r@), self@),
    {
        let r = self.table.iter();
        proof {
            lemma_deref_pairs(r@, self@);
        }
        r
    }

    /// The key of every element, in the order of `iter`.
    pub fn keys(&self) -> (r: Vec<&K>)
        requires
            self.wf(),
        ensures
            exists|s: Seq<(K, V)>| #[trigger] lists_map(s, self@) && r@.len() == s.len()
                && forall|a: int| 0 <= a < s.len() ==> *r@[a] == (#[trigger] s[a]).0,
    {
        let pairs = self.iter();
        let mut r: Vec<&K> = Vec::new();
        let mut i: usize = 0;
        while i < pairs.len()
            invariant
                i <= pairs@.len(),
                r@.len() == i,
                forall|a: int| 0 <= a < i ==> *r@[a] == *(#[trigger] pairs@[a]).0,
            decreases pairs@.len() - i,
        {
            r.push(pairs[i].0);
            i = i + 1;
        }
        proof {
            let s = deref_pairs(pairs@);
            assert(lists_map(s, self@));
            assert forall|a: int| 0 <= a < s.len() implies *r@[a] == (#[trigger] s[a]).0 by {
                assert(*r@[a] == *pairs@[a].0);
            }
        }
        r
    }

    /// The value of every element, in the order of `iter`.
    pub fn values(&self) -> (r: Vec<&V>)
        requires
            self.wf(),
        ensures
            exists|s: Seq<(K, V)>| #[trigger] lists_map(s, self@) && r@.len() == s.len()
                && forall|a: int| 0 <= a < s.len() ==> *r@[a] == (#[trigger] s[a]).1,
    {
        let pairs = self.iter();
        let mut r: Vec<&V> = Vec::new();
        let mut i: usize = 0;
        while i < pairs.len()
            invariant
                i <= pairs@.len(),
                r@.len() == i,
                forall|a: int| 0 <= a < i ==> *r@[a] == *(#[trigger] pairs@[a]).1,
            decreases pairs@.len() - i,
        {
            r.push(pairs[i].1);
            i = i + 1;
        }
        proof {
            let s = deref_pairs(pairs@);
            assert(lists_map(s, self@));
            assert forall|a: int| 0 <= a < s.len() implies *r@[a] == (#[trigger] s[a]).1 by {
                assert(*r@[a] == *pairs@[a].1);
            }
        }
        r
    }

    /// Takes every element out, in bucket order, keeping the buckets.
    pub fn drain(&mut self) -> (r: Vec<(K, V)>)
        requires
            old(self).wf(),
        ensures
            final(self).wf(),
            final(self)@ == Map::<K, V>::empty(),
            final(self).raw_capacity_spec() == old(self).raw_capacity_spec(),
            final(self).state() == old(self).state(),
            lists_map(r@, old(self)@),
    {
        let r = self.table.drain();
        proof {
            assert forall|a: int| 0 <= a < self.table.cap() implies #[trigger] self.table.robin_hood_at(a) by {
                assert(!self.table.full(a));
            }
        }
        r
    }

    /// Every element, in bucket order, consuming the map.
    pub fn into_iter(self) -> (r: Vec<(K, V)>)
        requires
            self.wf(),
        ensures
            lists_map(r@, self@),
    {
        self.table.into_iter()
    }

    /// Removes every element, keeping the buckets.
    pub fn clear(&mut self)
        requires
            old(self).wf(),
        ensures
            final(self).wf(),
            final(self)@ == Map::<K, V>::empty(),
            final(self).raw_capacity_spec() == old(self).raw_capacity_spec(),
            final(self).state() == old(self).state(),
    {
        let _ = self.drain();
    }

    /// Inserts every pair of `pairs` in turn, after reserving room for all of
    /// them. Fails with `CapacityOverflow`, leaving the map as it was, where
    /// that room cannot be had.
    pub fn extend(&mut self, pairs: Vec<(K, V)>) -> (r: Result<(), CollectionError>)
        requires
            old(self).wf(),
        ensures
            final(self).wf(),
            final(self).state() == old(self).state(),
            r is Ok <==> reserve_fits::<K, V>((old(self)@.len() + pairs@.len()) as int, old(self).raw_capacity_spec()),
            r is Ok ==> final(self)@ == insert_all(old(self)@, pairs@),
            r is Err ==> *final(self) == *old(self),
    {
        let n = pairs.len();
        match self.reserve(n) {
            Ok(()) => {},
            Err(e) => return Err(e),
        }
        let ghost orig = pairs@;
        let ghost start = self@;
        let ghost base = self@.len();
        let mut pairs = pairs;
        let mut rev: Vec<(K, V)> = Vec::new();
        while pairs.len() > 0
            invariant
                pairs@.len() + rev@.len() == n,
                orig.len() == n,
                forall|j: int| 0 <= j < pairs@.len() ==> pairs@[j] == orig[j],
                forall|j: int| 0 <= j < rev@.len() ==> #[trigger] rev@[j] == orig[n - 1 - j],
            decreases pairs@.len(),
        {
            let p = pairs.pop().unwrap();
            rev.push(p);
        }
        let mut i: usize = 0;
        while rev.len() > 0
            invariant
                self.wf(),
                self.state() == old(self).state(),
                orig.len() == n,
                rev@.len() + i == n,
                forall|j: int| 0 <= j < rev@.len() ==> #[trigger] rev@[j] == orig[n - 1 - j],
                self@ == insert_all(start, orig.take(i as int)),
                self@.len() <= base + i,
                base + n <= usize::MAX,
                self.raw_capacity_spec() >= min_capacity_spec(base + n),
                start == old(self)@,
                base == start.len(),
            decreases rev@.len(),
        {
            let (k, v) = rev.pop().unwrap();
            proof {
                crate::laws::law_reserve_covers_inserts(self@.len(), (base + n - self@.len()) as nat, self.raw_capacity_spec() as nat, 1);
                assert(orig.take(i + 1).drop_last() =~= orig.take(i as int));
            }
            self.insert(k, v);
            i = i + 1;
        }
        proof {
            assert(orig.take(n as int) =~= orig);
        }
        Ok(())
    }

    /// Moves every element into a new table of `new_capacity` buckets.
    /// Reinsertion starts at the first element that sits in its ideal bucket,
    /// so that the cluster wrapping round the end of the old table comes last,
    /// and goes once round the old table. Fails, leaving the map as it was,
    /// where the new table cannot be sized.
    fn resize(&mut self, new_capacity: usize) -> (r: Result<(), CollectionError>)
        requires
            old(self).wf(),
            is_pow2(new_capacity as int),
            new_capacity >= INITIAL_CAPACITY,
            old(self)@.len() <= usable_capacity_spec(new_capacity as int),
        ensures
            r is Ok <==> layout_fits::<K, V>(new_capacity as int),
            r is Ok ==> {
                &&& final(self).wf()
                &&& final(self)@ == old(self)@
                &&& final(self).raw_capacity_spec() == new_capacity
                &&& final(self).state() == old(self).state()
            },
            r is Err ==> *final(self) == *old(self),
    {
        let ghost orig = self@;
        let ghost tag = self.tag_fn();
        let mut old_table = match RawTable::new(new_capacity) {
            Ok(t) => t,
            Err(e) => return Err(e),
        };
        std::mem::swap(&mut self.table, &mut old_table);
        proof {
            assert(usable_capacity_spec(new_capacity as int) < new_capacity) by (nonlinear_arith)
                requires new_capacity >= 32;
        }
        let old_cap = old_table.capacity();
        if old_cap == 0 || old_table.size() == 0 {
            proof {
                assert(old_table@ == orig);
                if old_cap == 0 {
                    assert forall|k: K| !orig.contains_key(k) by {
                        if orig.contains_key(k) {
                            let p = choose|p: int| 0 <= p < old_table.cap() && old_table.full(p) && #[trigger] old_table.key_at(p) == k;
                        }
                    }
                }
                assert(orig.dom() =~= Set::<K>::empty());
                assert(orig =~= Map::<K, V>::empty());
                assert(self.table@ =~= Map::<K, V>::empty());
                assert forall|i: int| 0 <= i < new_capacity implies #[trigger] self.table.robin_hood_at(i) by {
                    assert(!self.table.full(i));
                }
            }
            return Ok(());
        }
        let mut start: usize = 0;
        while start < old_cap
            invariant
                old_table.wf(),
                old_cap == old_table.cap(),
                start <= old_cap,
            decreases old_cap - start,
        {
            if let BucketState::Full = old_table.peek(start) {
                if old_table.distance(start) == 0 {
                    break;
                }
            }
            start = start + 1;
        }
        if start == old_cap {
            start = 0;
        }
        let mut idx = start;
        let mut t: usize = 0;
        proof {
            vstd::arithmetic::div_mod::lemma_small_mod(start as nat, old_cap as nat);
            assert(old_table@ == orig);
            assert(self.table@ =~= Map::<K, V>::empty());
            assert forall|i: int| 0 <= i < new_capacity implies #[trigger] self.table.robin_hood_at(i) by {
                assert(!self.table.full(i));
            }
            assert(old_table@.len() > 0);
        }
        while t < old_cap
            invariant
                old_table.wf(),
                old_table.tags_match(tag),
                old_cap == old_table.cap() > 0,
                self.table.wf(),
                self.table.robin_hood(),
                self.table.tags_match(tag),
                self.table.cap() == new_capacity,
                tag == self.tag_fn(),
                layout_fits::<K, V>(new_capacity as int),
                orig == old(self)@,
                self.hash_state == old(self).hash_state,
                is_pow2(new_capacity as int),
                new_capacity >= INITIAL_CAPACITY,
                orig.len() <= usable_capacity_spec(new_capacity as int),
                usable_capacity_spec(new_capacity as int) < new_capacity,
                orig.dom().finite(),
                forall|k: K| #[trigger] orig.contains_key(k) <==> (self.table@.contains_key(k) || old_table@.contains_key(k)),
                forall|k: K| #[trigger] self.table@.contains_key(k) ==> !old_table@.contains_key(k) && self.table@[k] == orig[k],
                forall|k: K| #[trigger] old_table@.contains_key(k) ==> old_table@[k] == orig[k],
                self.table@.len() + old_table@.len() == orig.len(),
                start < old_cap,
                t <= old_cap,
                idx == wrap_add(start as int, t as int, old_cap as int),
                forall|a: int| 0 <= a < t ==> !old_table.full(#[trigger] wrap_add(start as int, a, old_cap as int)),
                old_table@.len() > 0,
            decreases old_cap - t,
        {
            proof {
                lemma_wrap(start as int, t as int, old_cap as int);
            }
            let ghost before = old_table;
            if let BucketState::Full = old_table.peek(idx) {
                let h = old_table.hash(idx);
                let (k, v) = old_table.take(idx);
                proof {
                    assert(before@.contains_key(k));
                    assert(h@ == tag(k));
                    lemma_safe_of_nonzero(self.hash_state.digest_of(k.key_bits()));
                    assert(self.table@.len() < new_capacity);
                    assert forall|a: int| 0 <= a < old_cap && old_table.full(a) implies
                        #[trigger] old_table.tags()[a] == tag(old_table.key_at(a)) by {
                        assert(before.full(a));
                        assert(before.tags()[a] == tag(before.key_at(a)));
                    }
                }
                let ghost mid = self.table@;
                insert_hashed_ordered(&mut self.table, h, k, v, Ghost(tag));
                proof {
                    assert forall|k2: K| #[trigger] orig.contains_key(k2) <==> (self.table@.contains_key(k2) || old_table@.contains_key(k2)) by {
                        if k2 == k {
                        } else {
                            assert(mid.contains_key(k2) == self.table@.contains_key(k2));
                        }
                    }
                }
                if old_table.size() == 0 {
                    proof {
                        assert(old_table@.dom() =~= Set::<K>::empty());
                        assert(self.table@ =~= orig);
                    }
                    return Ok(());
                }
            }
            proof {
                assert forall|a: int| 0 <= a < t + 1 implies !old_table.full(#[trigger] wrap_add(start as int, a, old_cap as int)) by {
                    if a < t {
                        assert(!before.full(wrap_add(start as int, a, old_cap as int)));
                    }
                }
            }
            idx = old_table.next(idx);
            t = t + 1;
        }
        proof {
            assert(exists|k: K| old_table@.contains_key(k)) by {
                if !(exists|k: K| old_table@.contains_key(k)) {
                    assert(old_table@.dom() =~= Set::<K>::empty());
                }
            }
            let k = choose|k: K| old_table@.contains_key(k);
            let p = choose|p: int| 0 <= p < old_cap && old_table.full(p) && #[trigger] old_table.key_at(p) == k;
            let a = (p - start + old_cap) % (old_cap as int);
            lemma_wrap(start as int, a, old_cap as int);
            vstd::arithmetic::div_mod::lemma_mod_bound(p - start + old_cap, old_cap as int);
            assert(wrap_add(start as int, a, old_cap as int) == p) by {
                old_table.lemma_dist_place(p);
                if p >= start {
                    vstd::arithmetic::div_mod::lemma_mod_sub_multiples_vanish(p - start + old_cap, old_cap as int);
                    vstd::arithmetic::div_mod::lemma_small_mod((p - start) as nat, old_cap as nat);
                    vstd::arithmetic::div_mod::lemma_small_mod(p as nat, old_cap as nat);
                } else {
                    vstd::arithmetic::div_mod::lemma_small_mod((p - start + old_cap) as nat, old_cap as nat);
                    vstd::arithmetic::div_mod::lemma_mod_sub_multiples_vanish(p + old_cap, old_cap as int);
                    vstd::arithmetic::div_mod::lemma_small_mod(p as nat, old_cap as nat);
                }
            }
        }
        vstd::pervasive::unreached()
    }
}

/// The raw capacity that `grow_target(n)` names, where it fits in a `usize`.
fn sizing_target(n: usize) -> (r: Option<usize>)
    ensures
        r is Some <==> min_capacity_spec(n as int) <= usize::MAX && grow_target(n as int) <= usize::MAX,
        r is Some ==> {
            let c = r->Some_0;
            &&& c == grow_target(n as int)
            &&& is_pow2(c as int)
            &&& c >= INITIAL_CAPACITY
            &&& c >= min_capacity_spec(n as int)
        },
{
    let policy = DefaultResizePolicy::new();
    let need = match policy.checked_min_capacity(n) {
        Some(c) => c,
        None => return None,
    };
    let floor = if need >= INITIAL_CAPACITY {
        need
    } else {
        INITIAL_CAPACITY
    };
    proof {
        assert(is_pow2(1));
        lemma_next_pow2_from(1, floor as nat);
    }
    checked_next_power_of_two(floor)
}

impl<K: TableKey + Copy, V: Clone, S: HashState + Copy> HashMap<K, V, S> {
    /// A map of the same buckets and hash state, each key copied and each
    /// value cloned.
    pub fn clone(&self) -> (r: HashMap<K, V, S>)
        requires
            self.wf(),
        ensures
            r.wf(),
            r@.dom() == self@.dom(),
            forall|k: K| #[trigger] self@.contains_key(k) ==> cloned(self@[k], r@[k]),
            r.raw_capacity_spec() == self.raw_capacity_spec(),
            r.state() == self.state(),
    {
        let table = self.table.clone_table();
        let r = HashMap { hash_state: self.hash_state, table, resize_policy: self.resize_policy };
        proof {
            let tag = self.tag_fn();
            assert(r.tag_fn() == tag);
            assert forall|a: int| 0 <= a < table.cap() implies #[trigger] table.robin_hood_at(a) by {
                assert(self.table.robin_hood_at(a));
            }
            assert forall|a: int| 0 <= a < table.cap() && table.full(a) implies #[trigger] table.tags()[a] == tag(table.key_at(a)) by {
                assert(self.table.tags()[a] == tag(self.table.key_at(a)));
            }
            assert(r@.len() == self@.len());
        }
        r
    }
}

impl<K: TableKey, V: PartialEq, S: HashState> HashMap<K, V, S> {
    /// Whether both maps hold the same keys, with equal values.
    pub fn eq(&self, other: &HashMap<K, V, S>) -> (r: bool)
        requires
            self.wf(),
            other.wf(),
        ensures
            V::obeys_eq_spec() ==> (r <==> (self@.dom() == other@.dom()
                && forall|k: K| #[trigger] self@.contains_key(k) ==> self@[k].eq_spec(&other@[k]))),
    {
        if self.len() != other.len() {
            return false;
        }
        let pairs = self.iter();
        let ghost s = deref_pairs(pairs@);
        let mut i: usize = 0;
        while i < pairs.len()
            invariant
                self.wf(),
                other.wf(),
                s == deref_pairs(pairs@),
                lists_map(s, self@),
                self@.len() == other@.len(),
                i <= pairs@.len(),
                forall|a: int| 0 <= a < i ==> other@.contains_key(#[trigger] s[a].0)
                    && (V::obeys_eq_spec() ==> s[a].1.eq_spec(&other@[s[a].0])),
            decreases pairs@.len() - i,
        {
            let (k, v) = pairs[i];
            proof {
                assert(s[i as int].0 == *k && s[i as int].1 == *v);
                assert(self@.contains_key(*k) && self@[*k] == *v);
            }
            match other.get(k) {
                None => {
                    proof {
                        assert(!other@.dom().contains(*k));
                        assert(self@.dom().contains(*k));
                    }
                    return false;
                },
                Some(w) => {
                    if !v.eq(w) {
                        return false;
                    }
                },
            }
            i = i + 1;
        }
        proof {
            assert(self@.dom().subset_of(other@.dom())) by {
                assert forall|k: K| #[trigger] self@.dom().contains(k) implies other@.dom().contains(k) by {
                    let a = choose|a: int| 0 <= a < s.len() && (#[trigger] s[a]).0 == k;
                }
            }
            if !(exists|b: K| other@.dom().contains(b) && !self@.dom().contains(b)) {
                assert(self@.dom() =~= other@.dom());
            } else {
                let b = choose|b: K| other@.dom().contains(b) && !self@.dom().contains(b);
                assert(self@.dom().subset_of(other@.dom().remove(b)));
                vstd::set_lib::lemma_len_subset(self@.dom(), other@.dom().remove(b));
            }
            if V::obeys_eq_spec() {
                assert forall|k: K| #[trigger] self@.contains_key(k) implies self@[k].eq_spec(&other@[k]) by {
                    let a = choose|a: int| 0 <= a < s.len() && (#[trigger] s[a]).0 == k;
                }
            }
        }
        true
    }
}

/// The pairs that a sequence of references points to.
pub open spec fn deref_pairs<K, V>(s: Seq<(&K, &V)>) -> Seq<(K, V)> {
    Seq::new(s.len(), |a: int| (*s[a].0, *s[a].1))
}

proof fn lemma_deref_pairs<K, V>(s: Seq<(&K, &V)>, m: Map<K, V>)
    requires
        s.len() == m.len(),
        forall|a: int| 0 <= a < s.len() ==> m.contains_key(*(#[trigger] s[a]).0) && m[*s[a].0] == *s[a].1,
        forall|a: int, b: int| 0 <= a < s.len() && 0 <= b < s.len() && *(#[trigger] s[a]).0 == *(#[trigger] s[b]).0 ==> a == b,
        forall|k: K| #[trigger] m.contains_key(k) ==> exists|a: int| 0 <= a < s.len() && *(#[trigger] s[a]).0 == k,
    ensures
        lists_map(deref_pairs(s), m),
{
    let d = deref_pairs(s);
    assert forall|k: K| #[trigger] m.contains_key(k) implies exists|a: int| 0 <= a < d.len() && (#[trigger] d[a]).0 == k by {
        let a = choose|a: int| 0 <= a < s.len() && *(#[trigger] s[a]).0 == k;
        assert(d[a].0 == k);
    }
    assert forall|a: int, b: int| 0 <= a < d.len() && 0 <= b < d.len() && (#[trigger] d[a]).0 == (#[trigger] d[b]).0 implies a == b by {
        assert(*s[a].0 == *s[b].0);
    }
    assert forall|a: int| 0 <= a < d.len() implies m.contains_key((#[trigger] d[a]).0) && m[d[a].0] == d[a].1 by {
        assert(m.contains_key(*s[a].0));
    }
}

/// A table that differs from `t` only in the value of full bucket `i` keeps
/// Robin Hood order and the tags of its keys.
pub proof fn lemma_same_layout<K, V>(t: RawTable<K, V>, i: int, tag: spec_fn(K) -> u64)
    requires
        t.wf(),
        t.robin_hood(),
        t.tags_match(tag),
        0 <= i < t.cap(),
        t.full(i),
    ensures
        forall|t2: RawTable<K, V>| #![trigger t2.robin_hood()] #![trigger t2.tags_match(tag)]
            t2.tags() == t.tags() && t2.entries() == t.entries().update(i, Some((t.key_at(i), t2.val_at(i))))
            ==> t2.robin_hood() && t2.tags_match(tag),
{
    assert forall|t2: RawTable<K, V>| #![trigger t2.robin_hood()] #![trigger t2.tags_match(tag)]
        t2.tags() == t.tags() && t2.entries() == t.entries().update(i, Some((t.key_at(i), t2.val_at(i))))
        implies t2.robin_hood() && t2.tags_match(tag) by {
        assert forall|a: int| 0 <= a < t2.cap() implies #[trigger] t2.robin_hood_at(a) by {
            assert(t.robin_hood_at(a));
        }
        assert forall|a: int| 0 <= a < t2.cap() && t2.full(a) implies #[trigger] t2.tags()[a] == tag(t2.key_at(a)) by {
            assert(t.tags()[a] == tag(t.key_at(a)));
        }
    }
}

/// A raw capacity of at least `min_capacity(n)` holds `n` elements.
proof fn lemma_usable_of_min(n: int, c: int)
    requires
        n >= 0,
        c >= min_capacity_spec(n),
    ensures
        usable_capacity_spec(c) >= n,
{
    assert(c * 10 >= n * 11) by (nonlinear_arith)
        requires c >= (n * 11 + 9) / 10, n >= 0;
    assert((c * 10) / 11 >= n) by (nonlinear_arith)
        requires c * 10 >= n * 11;
}

} // verus!
