//! The bucket array: a tag per bucket (0 for an empty one) beside the slot that
//! holds the bucket's key and value. Buckets are addressed by index; this layer
//! keeps the tags, the slots and the map they hold in step, and leaves all
//! placement decisions to its callers.
use vstd::prelude::*;
use crate::hash::{SafeHash, HASH_TOP_BIT};
use crate::policy::{calculate_allocation, is_pow2, round_up_spec};

verus! {

/// Why a table could not be sized as asked.
#[derive(Clone, Copy, PartialEq, Eq, Structural, Debug)]
pub enum CollectionError {
    /// The arithmetic of sizing the table would overflow a machine word.
    CapacityOverflow,
}

/// What a bucket holds.
#[derive(Clone, Copy, PartialEq, Eq, Structural, Debug)]
pub enum BucketState {
    Empty,
    Full,
}

/// The buffer of `capacity` tags, keys and values, each array aligned for its
/// element type, fits in the address space.
pub open spec fn layout_fits<K, V>(capacity: int) -> bool {
    let hs = capacity * 8;
    let ks = capacity * vstd::layout::size_of::<K>();
    let vs = capacity * vstd::layout::size_of::<V>();
    let ka = vstd::layout::align_of::<K>() as int;
    let va = vstd::layout::align_of::<V>() as int;
    let ko = round_up_spec(hs, ka);
    let vo = round_up_spec(ko + ks, va);
    &&& hs <= usize::MAX
    &&& ks <= usize::MAX
    &&& vs <= usize::MAX
    &&& hs + ka - 1 <= usize::MAX
    &&& ko + ks + va - 1 <= usize::MAX
    &&& vo + vs <= usize::MAX
}

/// The raw table: `capacity` tags and `capacity` slots, and the number of full
/// buckets.
#[verifier::reject_recursive_types(K)]
pub struct RawTable<K, V> {
    hashes: Vec<u64>,
    slots: Vec<Option<(K, V)>>,
    size: usize,
}

impl<K, V> RawTable<K, V> {
    /// The tag of each bucket.
    pub closed spec fn tags(&self) -> Seq<u64> {
        self.hashes@
    }

    /// The content of each bucket.
    pub closed spec fn entries(&self) -> Seq<Option<(K, V)>> {
        self.slots@
    }

    /// The pairs that the table holds: the key and value of each full bucket.
    pub closed spec fn view(&self) -> Map<K, V> {
        Map::new(|k: K| self.holds_key(k), |k: K| self.val_at(self.index_of(k)))
    }

    /// Some full bucket holds `k`.
    pub open spec fn holds_key(&self, k: K) -> bool {
        exists|i: int| 0 <= i < self.cap() && self.full(i) && #[trigger] self.key_at(i) == k
    }

    /// A full bucket that holds `k`.
    pub open spec fn index_of(&self, k: K) -> int {
        choose|i: int| 0 <= i < self.cap() && self.full(i) && #[trigger] self.key_at(i) == k
    }

    pub closed spec fn spec_size(&self) -> nat {
        self.size as nat
    }

    pub open spec fn cap(&self) -> int {
        self.tags().len() as int
    }

    pub open spec fn full(&self, i: int) -> bool {
        self.tags()[i] != 0
    }

    pub open spec fn key_at(&self, i: int) -> K {
        self.entries()[i]->Some_0.0
    }

    pub open spec fn val_at(&self, i: int) -> V {
        self.entries()[i]->Some_0.1
    }

    /// Index of the bucket that a tag points to first.
    pub open spec fn ideal_of(&self, h: u64) -> int {
        (h as int) % self.cap()
    }

    /// How far the element in bucket `i` sits past its ideal bucket.
    pub open spec fn dist(&self, i: int) -> int {
        (i - self.ideal_of(self.tags()[i]) + self.cap()) % self.cap()
    }

    /// The bucket after `i`, wrapping at the end.
    pub open spec fn next_of(&self, i: int) -> int {
        if i + 1 == self.cap() {
            0
        } else {
            i + 1
        }
    }

    /// The bucket before `i`, wrapping at the start.
    pub open spec fn prev_of(&self, i: int) -> int {
        if i == 0 {
            self.cap() - 1
        } else {
            i - 1
        }
    }

    /// The tags and the slots agree, each key is in one bucket at most, and
    /// `size` counts the full buckets.
    pub open spec fn core_wf(&self) -> bool {
        &&& self.entries().len() == self.cap()
        &&& self.cap() == 0 || is_pow2(self.cap())
        &&& self.cap() <= usize::MAX
        &&& forall|i: int| 0 <= i < self.cap() ==> (#[trigger] self.tags()[i] == 0 <==> self.entries()[i] is None)
        &&& forall|i: int| 0 <= i < self.cap() && self.full(i) ==> #[trigger] self.tags()[i] >= HASH_TOP_BIT
        &&& forall|i: int, j: int| 0 <= i < self.cap() && 0 <= j < self.cap() && self.full(i) && self.full(j)
            && #[trigger] self.key_at(i) == #[trigger] self.key_at(j) ==> i == j
        &&& self.spec_size() == self.full_set().len()
    }

    /// `core_wf`, with what it implies of the view: the view holds exactly the
    /// pairs of the full buckets, and as many as there are full buckets.
    pub open spec fn wf(&self) -> bool {
        &&& self.core_wf()
        &&& forall|i: int| 0 <= i < self.cap() && self.full(i) ==> {
            &&& self@.contains_key(#[trigger] self.key_at(i))
            &&& self@[self.key_at(i)] == self.val_at(i)
        }
        &&& forall|k: K| #[trigger] self@.contains_key(k) ==> exists|i: int| 0 <= i < self.cap() && self.full(i) && #[trigger] self.key_at(i) == k
        &&& self@.dom().finite()
        &&& self.spec_size() == self@.len()
    }

    proof fn lemma_core_wf(&self)
        requires
            self.core_wf(),
        ensures
            self.wf(),
    {
        assert forall|i: int| 0 <= i < self.cap() && self.full(i) implies {
            &&& self@.contains_key(#[trigger] self.key_at(i))
            &&& self@[self.key_at(i)] == self.val_at(i)
        } by {
            assert(self.holds_key(self.key_at(i)));
            let j = self.index_of(self.key_at(i));
            assert(self.key_at(j) == self.key_at(i));
        }
        let f = |i: int| self.key_at(i);
        self.lemma_full_set_bounded();
        assert(self.full_set().map(f) =~= self@.dom()) by {
            assert forall|k: K| #[trigger] self@.dom().contains(k) implies self.full_set().map(f).contains(k) by {
                let i = choose|i: int| 0 <= i < self.cap() && self.full(i) && #[trigger] self.key_at(i) == k;
                assert(self.full_set().contains(i));
                assert(f(i) == k);
            }
        }
        assert(vstd::relations::injective_on(f, self.full_set())) by {
            assert forall|a: int, c: int| self.full_set().contains(a) && self.full_set().contains(c) && #[trigger] f(a) == #[trigger] f(c) implies a == c by {
                assert(self.key_at(a) == self.key_at(c));
            }
        }
        vstd::set_lib::lemma_map_size(self.full_set(), self@.dom(), f);
    }

    /// The indices of the full buckets.
    pub open spec fn full_set(&self) -> Set<int> {
        Set::new(|i: int| 0 <= i < self.cap() && self.full(i))
    }

    /// There are finitely many full buckets, at most one per bucket.
    pub proof fn lemma_full_set_bounded(&self)
        ensures
            self.full_set().finite(),
            self.full_set().len() <= self.cap(),
    {
        vstd::set_lib::lemma_int_range(0, self.cap());
        assert(self.full_set().subset_of(vstd::set_lib::set_int_range(0, self.cap())));
        vstd::set_lib::lemma_set_subset_finite(vstd::set_lib::set_int_range(0, self.cap()), self.full_set());
        vstd::set_lib::lemma_len_subset(self.full_set(), vstd::set_lib::set_int_range(0, self.cap()));
    }

    /// A table with an empty bucket holds fewer elements than it has buckets.
    pub proof fn lemma_empty_bucket_bounds_size(&self, e: int)
        requires
            self.wf(),
            0 <= e < self.cap(),
            !self.full(e),
        ensures
            self@.len() < self.cap(),
    {
        let r = vstd::set_lib::set_int_range(0, self.cap());
        vstd::set_lib::lemma_int_range(0, self.cap());
        assert(self.full_set().subset_of(r.remove(e)));
        vstd::set_lib::lemma_len_subset(self.full_set(), r.remove(e));
    }

    /// `m` distinct full buckets, starting at `b` and wrapping at the end,
    /// hold `m` of the table's elements.
    pub proof fn lemma_full_run_bounded(&self, b: int, m: int)
        requires
            self.wf(),
            0 <= b < self.cap(),
            0 <= m <= self.cap(),
            forall|j: int| 0 <= j < m ==> self.full(#[trigger] wrap_add(b, j, self.cap())),
        ensures
            m <= self@.len(),
    {
        let run = run_set(b, m, self.cap());
        self.lemma_run_len(b, m);
        self.lemma_full_set_bounded();
        assert(run.subset_of(self.full_set()));
        vstd::set_lib::lemma_len_subset(run, self.full_set());
    }

    proof fn lemma_run_len(&self, b: int, m: int)
        requires
            self.cap() > 0,
            0 <= b < self.cap(),
            0 <= m <= self.cap(),
        ensures
            ({
                let run = run_set(b, m, self.cap());
                run.finite() && run.len() == m
            }),
        decreases m,
    {
        let n = self.cap();
        let run = run_set(b, m, n);
        if m == 0 {
            assert(run =~= Set::empty());
        } else {
            let prev = run_set(b, m - 1, n);
            self.lemma_run_len(b, m - 1);
            let last = (b + m - 1) % n;
            assert(run =~= prev.insert(last)) by {
                assert forall|i: int| run.contains(i) implies prev.insert(last).contains(i) by {
                    let j = choose|j: int| 0 <= j < m && i == #[trigger] wrap_add(b, j, n);
                    if j < m - 1 {
                        assert(prev.contains(i));
                    }
                }
                assert forall|i: int| prev.insert(last).contains(i) implies run.contains(i) by {
                    if i != last {
                        let j = choose|j: int| 0 <= j < m - 1 && i == #[trigger] wrap_add(b, j, n);
                        assert(0 <= j < m && i == wrap_add(b, j, n));
                    } else {
                        assert(0 <= m - 1 < m && i == wrap_add(b, m - 1, n));
                    }
                }
            }
            assert(!prev.contains(last)) by {
                if prev.contains(last) {
                    let j = choose|j: int| 0 <= j < m - 1 && last == #[trigger] wrap_add(b, j, n);
                    lemma_mod_distinct(b + j, b + m - 1, n);
                }
            }
        }
    }

    /// A table of `capacity` empty buckets. Fails with `CapacityOverflow` when
    /// the buffer of `capacity` tags, keys and values would not fit in the
    /// address space.
    pub fn new(capacity: usize) -> (r: Result<RawTable<K, V>, CollectionError>)
        requires
            capacity == 0 || is_pow2(capacity as int),
        ensures
            r is Ok ==> {
                let t = r->Ok_0;
                &&& t.wf()
                &&& t.cap() == capacity
                &&& t@ == Map::<K, V>::empty()
                &&& forall|i: int| 0 <= i < capacity ==> t.tags()[i] == 0
            },
            r is Ok <==> capacity == 0 || layout_fits::<K, V>(capacity as int),
    {
        if capacity > 0 {
            let sk = std::mem::size_of::<K>();
            let sv = std::mem::size_of::<V>();
            vstd::layout::layout_for_type_is_valid::<K>();
            vstd::layout::layout_for_type_is_valid::<V>();
            let (hashes_size, keys_size, vals_size) = match (
                capacity.checked_mul(8),
                capacity.checked_mul(sk),
                capacity.checked_mul(sv),
            ) {
                (Some(a), Some(b), Some(c)) => (a, b, c),
                _ => return Err(CollectionError::CapacityOverflow),
            };
            let (_, _, _, oflo) = calculate_allocation(
                hashes_size,
                8,
                keys_size,
                std::mem::align_of::<K>(),
                vals_size,
                std::mem::align_of::<V>(),
            );
            if oflo {
                return Err(CollectionError::CapacityOverflow);
            }
        }
        let mut hashes: Vec<u64> = Vec::with_capacity(capacity);
        let mut slots: Vec<Option<(K, V)>> = Vec::with_capacity(capacity);
        let mut i: usize = 0;
        while i < capacity
            invariant
                i <= capacity,
                hashes@.len() == i,
                slots@.len() == i,
                forall|j: int| 0 <= j < i ==> hashes@[j] == 0,
                forall|j: int| 0 <= j < i ==> slots@[j] is None,
            decreases capacity - i,
        {
            hashes.push(0);
            slots.push(None);
            i = i + 1;
        }
        let t = RawTable { hashes, slots, size: 0 };
        proof {
            assert(t.full_set() =~= Set::<int>::empty());
            t.lemma_core_wf();
            assert(t@.dom() =~= Set::<K>::empty());
            assert(t@ =~= Map::<K, V>::empty());
        }
        Ok(t)
    }

    /// The number of buckets.
    pub fn capacity(&self) -> (r: usize)
        requires
            self.wf(),
        ensures
            r == self.cap(),
    {
        self.hashes.len()
    }

    /// The number of full buckets.
    pub fn size(&self) -> (r: usize)
        requires
            self.wf(),
        ensures
            r == self@.len(),
    {
        self.size
    }

    /// Whether bucket `i` is empty or full.
    pub fn peek(&self, i: usize) -> (r: BucketState)
        requires
            self.wf(),
            i < self.cap(),
        ensures
            r == BucketState::Full <==> self.full(i as int),
    {
        if self.hashes[i] == 0 {
            BucketState::Empty
        } else {
            BucketState::Full
        }
    }

    /// The index after `i`, wrapping at the end of the table.
    pub fn next(&self, i: usize) -> (r: usize)
        requires
            self.wf(),
            i < self.cap(),
        ensures
            r == self.next_of(i as int),
            r < self.cap(),
    {
        if i + 1 == self.hashes.len() {
            0
        } else {
            i + 1
        }
    }

    /// The tag of full bucket `i`.
    pub fn hash(&self, i: usize) -> (r: SafeHash)
        requires
            self.wf(),
            i < self.cap(),
            self.full(i as int),
        ensures
            r@ == self.tags()[i as int],
    {
        let h = self.hashes[i];
        proof {
            assert(h >= HASH_TOP_BIT);
            assert(h >= 0x8000_0000_0000_0000u64 ==> (h | 0x8000_0000_0000_0000u64) == h) by (bit_vector);
        }
        SafeHash::new(h)
    }

    /// The ideal bucket of a tag.
    pub fn ideal_index(&self, h: SafeHash) -> (r: usize)
        requires
            self.wf(),
            self.cap() > 0,
        ensures
            r == self.ideal_of(h@),
            r < self.cap(),
    {
        (h.inspect() % (self.hashes.len() as u64)) as usize
    }

    /// How far the element of full bucket `i` sits past its ideal bucket.
    pub fn distance(&self, i: usize) -> (r: usize)
        requires
            self.wf(),
            i < self.cap(),
            self.full(i as int),
        ensures
            r == self.dist(i as int),
            r < self.cap(),
    {
        let cap = self.hashes.len();
        let ideal = (self.hashes[i] % (cap as u64)) as usize;
        if i >= ideal {
            proof {
                vstd::arithmetic::div_mod::lemma_mod_add_multiples_vanish(i - ideal, cap as int);
                vstd::arithmetic::div_mod::lemma_small_mod((i - ideal) as nat, cap as nat);
            }
            i - ideal
        } else {
            proof {
                vstd::arithmetic::div_mod::lemma_small_mod((i + cap - ideal) as nat, cap as nat);
            }
            i + (cap - ideal)
        }
    }

    /// The key and value of full bucket `i`.
    pub fn read(&self, i: usize) -> (r: (&K, &V))
        requires
            self.wf(),
            i < self.cap(),
            self.full(i as int),
        ensures
            *r.0 == self.key_at(i as int),
            *r.1 == self.val_at(i as int),
    {
        match &self.slots[i] {
            Some(kv) => (&kv.0, &kv.1),
            None => vstd::pervasive::unreached(),
        }
    }

    /// A mutable reference to the value of full bucket `i`; whatever it holds
    /// when released becomes the value of the bucket's key.
    pub fn read_mut(&mut self, i: usize) -> (r: &mut V)
        requires
            old(self).wf(),
            i < old(self).cap(),
            old(self).full(i as int),
        ensures
            *r == old(self).val_at(i as int),
            final(self).wf(),
            final(self).tags() == old(self).tags(),
            final(self).entries() == old(self).entries().update(i as int, Some((old(self).key_at(i as int), *final(r)))),
            final(self)@ == old(self)@.insert(old(self).key_at(i as int), *final(r)),
    {
        proof {
            self.lemma_value_update(i as int);
        }
        match &mut self.slots[i] {
            Some(kv) => {
                &mut kv.1
            },
            None => vstd::pervasive::unreached(),
        }
    }

    /// A table that differs from this one only in the value of full bucket `i`
    /// is well formed, and maps that bucket's key to its new value.
    proof fn lemma_value_update(&self, i: int)
        requires
            self.wf(),
            0 <= i < self.cap(),
            self.full(i),
        ensures
            forall|t: RawTable<K, V>| #![trigger t.wf()] #![trigger t.view()]
                t.tags() == self.tags() && t.spec_size() == self.spec_size()
                && t.entries() == self.entries().update(i, Some((self.key_at(i), t.val_at(i))))
                ==> t.wf() && t@ == self@.insert(self.key_at(i), t.val_at(i)),
    {
        assert forall|t: RawTable<K, V>| #![trigger t.wf()] #![trigger t.view()]
            t.tags() == self.tags() && t.spec_size() == self.spec_size()
            && t.entries() == self.entries().update(i, Some((self.key_at(i), t.val_at(i))))
            implies t.wf() && t@ == self@.insert(self.key_at(i), t.val_at(i)) by {
            assert(t.full_set() =~= self.full_set());
            assert forall|a: int, c: int| 0 <= a < t.cap() && 0 <= c < t.cap() && t.full(a) && t.full(c)
                && #[trigger] t.key_at(a) == #[trigger] t.key_at(c) implies a == c by {
                assert(self.key_at(a) == self.key_at(c));
            }
            t.lemma_core_wf();
            let key = self.key_at(i);
            let m = self@.insert(key, t.val_at(i));
            assert forall|k2: K| #[trigger] t@.contains_key(k2) <==> m.contains_key(k2) by {
                if t@.contains_key(k2) {
                    let j = choose|j: int| 0 <= j < t.cap() && t.full(j) && #[trigger] t.key_at(j) == k2;
                    assert(self.full(j) && self.key_at(j) == k2);
                }
                if self@.contains_key(k2) {
                    let j = choose|j: int| 0 <= j < self.cap() && self.full(j) && #[trigger] self.key_at(j) == k2;
                    assert(t.full(j) && t.key_at(j) == k2);
                }
            }
            assert forall|k2: K| #[trigger] t@.contains_key(k2) implies t@[k2] == m[k2] by {
                let j = choose|j: int| 0 <= j < t.cap() && t.full(j) && #[trigger] t.key_at(j) == k2;
                assert(self.full(j) && self.key_at(j) == k2);
            }
            assert(t@ =~= m);
        }
    }

    /// Puts `key` and `value` with tag `hash` into empty bucket `i`.
    pub fn put(&mut self, i: usize, hash: SafeHash, key: K, value: V)
        requires
            old(self).wf(),
            i < old(self).cap(),
            !old(self).full(i as int),
            hash@ >= HASH_TOP_BIT,
            !old(self)@.contains_key(key),
        ensures
            final(self).wf(),
            final(self).tags() == old(self).tags().update(i as int, hash@),
            final(self).entries() == old(self).entries().update(i as int, Some((key, value))),
            final(self)@ == old(self)@.insert(key, value),
    {
        let ghost old_t = *self;
        proof {
            self.lemma_empty_bucket_bounds_size(i as int);
        }
        self.hashes.set(i, hash.inspect());
        self.slots.set(i, Some((key, value)));
        self.size = self.size + 1;
        proof {
            old_t.lemma_full_set_bounded();
            assert(self.full_set() =~= old_t.full_set().insert(i as int));
            assert(!old_t.full_set().contains(i as int));
            assert(self.key_at(i as int) == key);
            assert forall|a: int, c: int| 0 <= a < self.cap() && 0 <= c < self.cap() && self.full(a) && self.full(c)
                && #[trigger] self.key_at(a) == #[trigger] self.key_at(c) implies a == c by {
                if a != i && c != i {
                    assert(old_t.full(a) && old_t.full(c));
                    assert(old_t.key_at(a) == old_t.key_at(c));
                } else if a != i {
                    assert(old_t.full(a));
                    assert(old_t@.contains_key(old_t.key_at(a)));
                } else if c != i {
                    assert(old_t.full(c));
                    assert(old_t@.contains_key(old_t.key_at(c)));
                }
            }
            self.lemma_core_wf();
            let m = old_t@.insert(key, value);
            assert forall|k2: K| #[trigger] self@.contains_key(k2) <==> m.contains_key(k2) by {
                if self@.contains_key(k2) && k2 != key {
                    let j = choose|j: int| 0 <= j < self.cap() && self.full(j) && #[trigger] self.key_at(j) == k2;
                    assert(old_t.full(j) && old_t.key_at(j) == k2);
                }
                if old_t@.contains_key(k2) && k2 != key {
                    let j = choose|j: int| 0 <= j < old_t.cap() && old_t.full(j) && #[trigger] old_t.key_at(j) == k2;
                    assert(self.full(j) && self.key_at(j) == k2);
                }
                if k2 == key {
                    assert(self.full(i as int));
                }
            }
            assert forall|k2: K| #[trigger] self@.contains_key(k2) implies self@[k2] == m[k2] by {
                if k2 != key {
                    let j = choose|j: int| 0 <= j < self.cap() && self.full(j) && #[trigger] self.key_at(j) == k2;
                    assert(old_t.full(j) && old_t.key_at(j) == k2);
                }
            }
            assert(self@ =~= m);
        }
    }

    /// Empties full bucket `i` and hands back its key and value.
    pub fn take(&mut self, i: usize) -> (r: (K, V))
        requires
            old(self).wf(),
            i < old(self).cap(),
            old(self).full(i as int),
        ensures
            final(self).wf(),
            r.0 == old(self).key_at(i as int),
            r.1 == old(self).val_at(i as int),
            final(self).tags() == old(self).tags().update(i as int, 0),
            final(self).entries() == old(self).entries().update(i as int, None),
            final(self)@ == old(self)@.remove(old(self).key_at(i as int)),
    {
        let ghost old_t = *self;
        let mut taken: Option<(K, V)> = None;
        std::mem::swap(&mut taken, &mut self.slots[i]);
        self.hashes.set(i, 0);
        let ghost key = old_t.key_at(i as int);
        proof {
            old_t.lemma_full_set_bounded();
            assert(old_t.full_set().contains(i as int));
        }
        self.size = self.size - 1;
        proof {
            assert(self.full_set() =~= old_t.full_set().remove(i as int));
            assert forall|a: int, c: int| 0 <= a < self.cap() && 0 <= c < self.cap() && self.full(a) && self.full(c)
                && #[trigger] self.key_at(a) == #[trigger] self.key_at(c) implies a == c by {
                assert(old_t.full(a) && old_t.full(c));
                assert(old_t.key_at(a) == old_t.key_at(c));
            }
            self.lemma_core_wf();
            let m = old_t@.remove(key);
            assert forall|k2: K| #[trigger] self@.contains_key(k2) <==> m.contains_key(k2) by {
                if self@.contains_key(k2) {
                    let j = choose|j: int| 0 <= j < self.cap() && self.full(j) && #[trigger] self.key_at(j) == k2;
                    assert(old_t.full(j) && old_t.key_at(j) == k2);
                    assert(j != i);
                }
                if m.contains_key(k2) {
                    let j = choose|j: int| 0 <= j < old_t.cap() && old_t.full(j) && #[trigger] old_t.key_at(j) == k2;
                    assert(j != i);
                    assert(self.full(j) && self.key_at(j) == k2);
                }
            }
            assert forall|k2: K| #[trigger] self@.contains_key(k2) implies self@[k2] == m[k2] by {
                let j = choose|j: int| 0 <= j < self.cap() && self.full(j) && #[trigger] self.key_at(j) == k2;
                assert(old_t.full(j) && old_t.key_at(j) == k2);
            }
            assert(self@ =~= m);
        }
        match taken {
            Some(kv) => kv,
            None => vstd::pervasive::unreached(),
        }
    }

    /// Puts `key` and `value` with tag `hash` into full bucket `i` and hands
    /// back what the bucket held.
    pub fn replace(&mut self, i: usize, hash: SafeHash, key: K, value: V) -> (r: (SafeHash, K, V))
        requires
            old(self).wf(),
            i < old(self).cap(),
            old(self).full(i as int),
            hash@ >= HASH_TOP_BIT,
            key == old(self).key_at(i as int) || !old(self)@.contains_key(key),
        ensures
            final(self).wf(),
            r.0@ == old(self).tags()[i as int],
            r.1 == old(self).key_at(i as int),
            r.2 == old(self).val_at(i as int),
            final(self).tags() == old(self).tags().update(i as int, hash@),
            final(self).entries() == old(self).entries().update(i as int, Some((key, value))),
            final(self)@ == old(self)@.remove(old(self).key_at(i as int)).insert(key, value),
    {
        let old_hash = self.hash(i);
        let (k, v) = self.take(i);
        self.put(i, hash, key, value);
        (old_hash, k, v)
    }

    /// Puts `value` in full bucket `i` and hands back the value it held.
    pub fn replace_value(&mut self, i: usize, value: V) -> (r: V)
        requires
            old(self).wf(),
            i < old(self).cap(),
            old(self).full(i as int),
        ensures
            final(self).wf(),
            r == old(self).val_at(i as int),
            final(self).tags() == old(self).tags(),
            final(self).entries() == old(self).entries().update(i as int, Some((old(self).key_at(i as int), value))),
            final(self)@ == old(self)@.insert(old(self).key_at(i as int), value),
    {
        let h = self.hash(i);
        let (k, v) = self.take(i);
        self.put(i, h, k, value);
        v
    }

    /// Moves the element of full bucket `src` into empty bucket `gap`.
    pub fn shift(&mut self, gap: usize, src: usize)
        requires
            old(self).wf(),
            gap < old(self).cap(),
            src < old(self).cap(),
            !old(self).full(gap as int),
            old(self).full(src as int),
        ensures
            final(self).wf(),
            final(self).tags() == old(self).tags().update(gap as int, old(self).tags()[src as int]).update(src as int, 0),
            final(self).entries() == old(self).entries().update(gap as int, old(self).entries()[src as int]).update(src as int, None),
            final(self)@ == old(self)@,
    {
        let h = self.hash(src);
        let (k, v) = self.take(src);
        self.put(gap, h, k, v);
        proof {
            assert(self@ =~= old(self)@);
        }
    }

    /// The full buckets among the first `i`.
    pub open spec fn full_below(&self, i: int) -> Set<int> {
        Set::new(|j: int| 0 <= j < i && self.full(j))
    }

    proof fn lemma_full_below(&self, i: int)
        requires
            0 <= i <= self.cap(),
        ensures
            self.full_below(i).finite(),
            i < self.cap() ==> self.full_below(i + 1) == if self.full(i) {
                self.full_below(i).insert(i)
            } else {
                self.full_below(i)
            },
            i == self.cap() ==> self.full_below(i) == self.full_set(),
    {
        vstd::set_lib::lemma_int_range(0, i);
        assert(self.full_below(i).subset_of(vstd::set_lib::set_int_range(0, i)));
        vstd::set_lib::lemma_set_subset_finite(vstd::set_lib::set_int_range(0, i), self.full_below(i));
        if i < self.cap() {
            if self.full(i) {
                assert(self.full_below(i + 1) =~= self.full_below(i).insert(i));
            } else {
                assert(self.full_below(i + 1) =~= self.full_below(i));
            }
        }
        if i == self.cap() {
            assert(self.full_below(i) =~= self.full_set());
        }
    }

    /// The key and value of every full bucket, in bucket order.
    pub fn iter(&self) -> (r: Vec<(&K, &V)>)
        requires
            self.wf(),
        ensures
            r@.len() == self@.len(),
            forall|a: int| 0 <= a < r@.len() ==> self@.contains_key(*(#[trigger] r@[a]).0) && self@[*r@[a].0] == *r@[a].1,
            forall|a: int, b: int| 0 <= a < r@.len() && 0 <= b < r@.len() && *(#[trigger] r@[a]).0 == *(#[trigger] r@[b]).0 ==> a == b,
            forall|k: K| #[trigger] self@.contains_key(k) ==> exists|a: int| 0 <= a < r@.len() && *(#[trigger] r@[a]).0 == k,
    {
        let cap = self.hashes.len();
        let mut r: Vec<(&K, &V)> = Vec::new();
        let mut i: usize = 0;
        let ghost mut idxs: Seq<int> = Seq::empty();
        proof {
            assert(self.full_below(0) =~= Set::<int>::empty());
        }
        while i < cap
            invariant
                cap == self.cap(),
                self.wf(),
                i <= cap,
                r@.len() == idxs.len(),
                forall|a: int| 0 <= a < idxs.len() ==> {
                    &&& 0 <= #[trigger] idxs[a] < i
                    &&& self.full(idxs[a])
                    &&& *r@[a].0 == self.key_at(idxs[a])
                    &&& *r@[a].1 == self.val_at(idxs[a])
                },
                forall|a: int, b: int| 0 <= a < b < idxs.len() ==> #[trigger] idxs[a] < #[trigger] idxs[b],
                forall|j: int| 0 <= j < i && self.full(j) ==> exists|a: int| 0 <= a < idxs.len() && #[trigger] idxs[a] == j,
                r@.len() == self.full_below(i as int).len(),
            decreases cap - i,
        {
            proof {
                self.lemma_full_below(i as int);
            }
            if let BucketState::Full = self.peek(i) {
                let kv = self.read(i);
                r.push(kv);
                let ghost old_idxs = idxs;
                proof {
                    idxs = idxs.push(i as int);
                    assert forall|j: int| 0 <= j < i + 1 && self.full(j) implies exists|a: int| 0 <= a < idxs.len() && #[trigger] idxs[a] == j by {
                        if j == i {
                            assert(idxs[idxs.len() - 1] == j);
                        } else {
                            let a = choose|a: int| 0 <= a < old_idxs.len() && #[trigger] old_idxs[a] == j;
                            assert(idxs[a] == j);
                        }
                    }
                }
            }
            i = i + 1;
        }
        proof {
            self.lemma_full_below(cap as int);
            assert forall|a: int| 0 <= a < r@.len() implies self@.contains_key(*(#[trigger] r@[a]).0) && self@[*r@[a].0] == *r@[a].1 by {
                assert(self.full(idxs[a]));
            }
            assert forall|a: int, b: int| 0 <= a < r@.len() && 0 <= b < r@.len() && *(#[trigger] r@[a]).0 == *(#[trigger] r@[b]).0 implies a == b by {
                assert(self.key_at(idxs[a]) == self.key_at(idxs[b]));
                if a < b {
                    assert(idxs[a] < idxs[b]);
                } else if b < a {
                    assert(idxs[b] < idxs[a]);
                }
            }
            assert forall|k: K| #[trigger] self@.contains_key(k) implies exists|a: int| 0 <= a < r@.len() && *(#[trigger] r@[a]).0 == k by {
                let j = choose|j: int| 0 <= j < self.cap() && self.full(j) && #[trigger] self.key_at(j) == k;
                let a = choose|a: int| 0 <= a < idxs.len() && #[trigger] idxs[a] == j;
                assert(*r@[a].0 == k);
            }
        }
        r
    }

    /// Every element, in bucket order, consuming the table.
    pub fn into_iter(self) -> (r: Vec<(K, V)>)
        requires
            self.wf(),
        ensures
            lists_map(r@, self@),
    {
        let mut t = self;
        t.drain()
    }

    /// Takes every element out, in bucket order, and leaves every bucket
    /// empty.
    pub fn drain(&mut self) -> (r: Vec<(K, V)>)
        requires
            old(self).wf(),
        ensures
            final(self).wf(),
            final(self).cap() == old(self).cap(),
            final(self)@ == Map::<K, V>::empty(),
            forall|i: int| 0 <= i < final(self).cap() ==> !final(self).full(i),
            lists_map(r@, old(self)@),
    {
        let ghost orig = self@;
        let cap = self.hashes.len();
        let mut r: Vec<(K, V)> = Vec::new();
        let mut i: usize = 0;
        while i < cap
            invariant
                cap == self.cap(),
                self.wf(),
                i <= cap,
                forall|j: int| 0 <= j < i ==> !self.full(j),
                forall|k: K| #[trigger] orig.contains_key(k) <==> (self@.contains_key(k) || exists|a: int| 0 <= a < r@.len() && (#[trigger] r@[a]).0 == k),
                forall|a: int| 0 <= a < r@.len() ==> orig.contains_key((#[trigger] r@[a]).0) && orig[r@[a].0] == r@[a].1 && !self@.contains_key(r@[a].0),
                forall|a: int, b: int| 0 <= a < r@.len() && 0 <= b < r@.len() && (#[trigger] r@[a]).0 == (#[trigger] r@[b]).0 ==> a == b,
                forall|k: K| #[trigger] self@.contains_key(k) ==> orig.contains_key(k) && orig[k] == self@[k],
                r@.len() + self@.len() == orig.len(),
            decreases cap - i,
        {
            if let BucketState::Full = self.peek(i) {
                let ghost before = self@;
                let ghost before_t = *self;
                let ghost r_before = r@;
                let kv = self.take(i);
                r.push(kv);
                proof {
                    assert forall|j: int| 0 <= j < i + 1 implies !self.full(j) by {
                        if j < i {
                            assert(!before_t.full(j));
                        }
                    }
                    assert(before.contains_key(kv.0));
                    assert forall|k: K| #[trigger] orig.contains_key(k) implies (self@.contains_key(k) || exists|a: int| 0 <= a < r@.len() && (#[trigger] r@[a]).0 == k) by {
                        if k == kv.0 {
                            assert(r@[r@.len() - 1].0 == k);
                        } else if !self@.contains_key(k) {
                            assert(!before.contains_key(k));
                            let a = choose|a: int| 0 <= a < r_before.len() && (#[trigger] r_before[a]).0 == k;
                            assert(r@[a] == r_before[a]);
                        }
                    }
                    assert forall|k: K| (self@.contains_key(k) || exists|a: int| 0 <= a < r@.len() && (#[trigger] r@[a]).0 == k) implies #[trigger] orig.contains_key(k) by {
                        if !self@.contains_key(k) {
                            let a = choose|a: int| 0 <= a < r@.len() && (#[trigger] r@[a]).0 == k;
                            if a < r@.len() - 1 {
                                assert(r@[a] == r_before[a]);
                                assert(orig.contains_key(r_before[a].0));
                            }
                        }
                    }
                }
            }
            i = i + 1;
        }
        proof {
            assert(self@.dom() =~= Set::<K>::empty()) by {
                assert forall|k: K| !self@.contains_key(k) by {
                    if self@.contains_key(k) {
                        let j = choose|j: int| 0 <= j < self.cap() && self.full(j) && #[trigger] self.key_at(j) == k;
                    }
                }
            }
            assert(self@ =~= Map::<K, V>::empty());
        }
        r
    }

    /// A table of the same buckets, each key copied and each value cloned.
    pub fn clone_table(&self) -> (r: RawTable<K, V>)
        where
            K: Copy,
            V: Clone,
        requires
            self.wf(),
        ensures
            r.wf(),
            r.tags() == self.tags(),
            forall|i: int| 0 <= i < self.cap() && self.full(i) ==> #[trigger] r.key_at(i) == self.key_at(i)
                && cloned(self.val_at(i), r.val_at(i)),
            r@.dom() == self@.dom(),
            forall|k: K| #[trigger] self@.contains_key(k) ==> cloned(self@[k], r@[k]),
    {
        let cap = self.hashes.len();
        let mut hashes: Vec<u64> = Vec::with_capacity(cap);
        let mut slots: Vec<Option<(K, V)>> = Vec::with_capacity(cap);
        let mut i: usize = 0;
        while i < cap
            invariant
                cap == self.cap(),
                self.wf(),
                i <= cap,
                hashes@ == self.tags().subrange(0, i as int),
                slots@.len() == i,
                forall|j: int| 0 <= j < i ==> (#[trigger] slots@[j] is None <==> self.entries()[j] is None),
                forall|j: int| 0 <= j < i && self.full(j) ==> (#[trigger] slots@[j])->Some_0.0 == self.key_at(j)
                    && cloned(self.val_at(j), slots@[j]->Some_0.1),
            decreases cap - i,
        {
            hashes.push(self.hashes[i]);
            match &self.slots[i] {
                Some(kv) => {
                    let k = kv.0;
                    let v = kv.1.clone();
                    slots.push(Some((k, v)));
                },
                None => {
                    slots.push(None);
                },
            }
            proof {
                assert(hashes@ =~= self.tags().subrange(0, i + 1));
            }
            i = i + 1;
        }
        let r = RawTable { hashes, slots, size: self.size };
        proof {
            assert(r.tags() =~= self.tags());
            assert(r.full_set() =~= self.full_set());
            assert forall|a: int, c: int| 0 <= a < r.cap() && 0 <= c < r.cap() && r.full(a) && r.full(c)
                && #[trigger] r.key_at(a) == #[trigger] r.key_at(c) implies a == c by {
                assert(self.key_at(a) == self.key_at(c));
            }
            r.lemma_core_wf();
            assert forall|k: K| #[trigger] r@.dom().contains(k) <==> self@.dom().contains(k) by {
                if r@.contains_key(k) {
                    let j = choose|j: int| 0 <= j < r.cap() && r.full(j) && #[trigger] r.key_at(j) == k;
                    assert(self.full(j) && self.key_at(j) == k);
                }
                if self@.contains_key(k) {
                    let j = choose|j: int| 0 <= j < self.cap() && self.full(j) && #[trigger] self.key_at(j) == k;
                    assert(r.full(j) && r.key_at(j) == k);
                }
            }
            assert(r@.dom() =~= self@.dom());
            assert forall|k: K| #[trigger] self@.contains_key(k) implies cloned(self@[k], r@[k]) by {
                let j = choose|j: int| 0 <= j < self.cap() && self.full(j) && #[trigger] self.key_at(j) == k;
                assert(r.full(j) && r.key_at(j) == k);
            }
        }
        r
    }
}

/// `s` lists the pairs of `m`, each key once.
pub open spec fn lists_map<K, V>(s: Seq<(K, V)>, m: Map<K, V>) -> bool {
    &&& s.len() == m.len()
    &&& forall|a: int| 0 <= a < s.len() ==> m.contains_key((#[trigger] s[a]).0) && m[s[a].0] == s[a].1
    &&& forall|a: int, b: int| 0 <= a < s.len() && 0 <= b < s.len() && (#[trigger] s[a]).0 == (#[trigger] s[b]).0 ==> a == b
    &&& forall|k: K| #[trigger] m.contains_key(k) ==> exists|a: int| 0 <= a < s.len() && (#[trigger] s[a]).0 == k
}

/// `b + j`, wrapped into `0..n`.
pub open spec fn wrap_add(b: int, j: int, n: int) -> int {
    (b + j) % n
}

/// The indices `b`, `b + 1`, ..., `b + m - 1`, wrapped into `0..n`.
pub open spec fn run_set(b: int, m: int, n: int) -> Set<int> {
    Set::new(|i: int| exists|j: int| 0 <= j < m && i == #[trigger] wrap_add(b, j, n))
}

/// Two numbers less than `n` apart leave different remainders.
pub proof fn lemma_mod_distinct(a: int, b: int, n: int)
    requires
        n > 0,
        0 <= a < b < a + n,
    ensures
        a % n != b % n,
{
    vstd::arithmetic::div_mod::lemma_fundamental_div_mod(a, n);
    vstd::arithmetic::div_mod::lemma_fundamental_div_mod(b, n);
    vstd::arithmetic::div_mod::lemma_mod_bound(a, n);
    vstd::arithmetic::div_mod::lemma_mod_bound(b, n);
    if a % n == b % n {
        assert((b - a) == n * (b / n - a / n)) by (nonlinear_arith)
            requires a == n * (a / n) + a % n, b == n * (b / n) + b % n, a % n == b % n;
        assert(b / n - a / n >= 1) by (nonlinear_arith)
            requires b - a == n * (b / n - a / n), b - a > 0, n > 0;
        assert(n * (b / n - a / n) >= n) by (nonlinear_arith)
            requires b / n - a / n >= 1, n > 0;
    }
}

} // verus!
