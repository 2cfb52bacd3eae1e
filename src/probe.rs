//! Hashed search, Robin Hood insertion and backward-shift deletion over a
//! `RawTable`, with the Robin Hood invariant that makes an early stop of a
//! search sound.
use vstd::prelude::*;
use crate::hash::{SafeHash, TableKey, HASH_TOP_BIT};
use crate::raw::{BucketState, RawTable, wrap_add};

verus! {

/// Facts about indices that wrap at `n`.
pub proof fn lemma_wrap(b: int, j: int, n: int)
    requires
        0 <= b < n,
        0 <= j,
    ensures
        0 <= wrap_add(b, j, n) < n,
        wrap_add(b, j + 1, n) == if wrap_add(b, j, n) + 1 == n { 0 } else { wrap_add(b, j, n) + 1 },
        j < n ==> (wrap_add(b, j, n) - b + n) % n == j,
{
    let w = wrap_add(b, j, n);
    vstd::arithmetic::div_mod::lemma_mod_bound(b + j, n);
    vstd::arithmetic::div_mod::lemma_mod_bound(b + j + 1, n);
    if n == 1 {
        vstd::arithmetic::div_mod::lemma_mod_bound(b + j + 1, 1);
    } else {
        vstd::arithmetic::div_mod::lemma_add_mod_noop(b + j, 1, n);
        vstd::arithmetic::div_mod::lemma_small_mod(1, n as nat);
        if w + 1 == n {
            vstd::arithmetic::div_mod::lemma_mod_self_0(n);
        } else {
            vstd::arithmetic::div_mod::lemma_small_mod((w + 1) as nat, n as nat);
        }
    }
    if j < n {
        if b + j < n {
            vstd::arithmetic::div_mod::lemma_small_mod((b + j) as nat, n as nat);
            vstd::arithmetic::div_mod::lemma_mod_add_multiples_vanish(j, n);
            vstd::arithmetic::div_mod::lemma_small_mod(j as nat, n as nat);
        } else {
            vstd::arithmetic::div_mod::lemma_mod_sub_multiples_vanish(b + j, n);
            vstd::arithmetic::div_mod::lemma_small_mod((b + j - n) as nat, n as nat);
            assert(w == b + j - n);
            vstd::arithmetic::div_mod::lemma_small_mod(j as nat, n as nat);
        }
    }
}

impl<K, V> RawTable<K, V> {
    /// Robin Hood order: an element that sits past its ideal bucket has a full
    /// bucket before it, whose element sits at most one bucket less far from
    /// its own ideal bucket. Along a run of full buckets the ideal indices
    /// never decrease, and no empty bucket lies between an element and its
    /// ideal bucket.
    pub open spec fn robin_hood_at(&self, i: int) -> bool {
        self.full(i) && self.dist(i) > 0 ==> self.full(self.prev_of(i)) && self.dist(self.prev_of(i)) + 1 >= self.dist(i)
    }

    pub open spec fn robin_hood(&self) -> bool {
        forall|i: int| 0 <= i < self.cap() ==> #[trigger] self.robin_hood_at(i)
    }

    /// Every full bucket carries the tag that `tag` gives its key.
    pub open spec fn tags_match(&self, tag: spec_fn(K) -> u64) -> bool {
        forall|i: int| 0 <= i < self.cap() && self.full(i) ==> #[trigger] self.tags()[i] == tag(self.key_at(i))
    }

    /// The ideal bucket of the element in bucket `i`.
    pub open spec fn ideal_at(&self, i: int) -> int {
        self.ideal_of(self.tags()[i])
    }

    /// A full bucket sits `dist` buckets past its ideal bucket.
    pub proof fn lemma_dist_place(&self, p: int)
        requires
            self.cap() > 0,
            0 <= p < self.cap(),
        ensures
            0 <= self.ideal_at(p) < self.cap(),
            0 <= self.dist(p) < self.cap(),
            p == wrap_add(self.ideal_at(p), self.dist(p), self.cap()),
    {
        let n = self.cap();
        let b = self.ideal_at(p);
        vstd::arithmetic::div_mod::lemma_mod_bound(self.tags()[p] as int, n);
        vstd::arithmetic::div_mod::lemma_mod_bound(p - b + n, n);
        if p >= b {
            vstd::arithmetic::div_mod::lemma_mod_sub_multiples_vanish(p - b + n, n);
            vstd::arithmetic::div_mod::lemma_small_mod((p - b) as nat, n as nat);
            vstd::arithmetic::div_mod::lemma_small_mod(p as nat, n as nat);
        } else {
            vstd::arithmetic::div_mod::lemma_small_mod((p - b + n) as nat, n as nat);
            vstd::arithmetic::div_mod::lemma_mod_sub_multiples_vanish(p + n, n);
            vstd::arithmetic::div_mod::lemma_small_mod(p as nat, n as nat);
        }
    }

    /// Between a full bucket's ideal bucket and itself, every bucket is full,
    /// and the `j`-th one holds an element at least `j` buckets past its own
    /// ideal bucket.
    pub proof fn lemma_chain(&self, p: int, j: int)
        requires
            self.wf(),
            self.robin_hood(),
            self.cap() > 0,
            0 <= p < self.cap(),
            self.full(p),
            0 <= j <= self.dist(p),
        ensures
            self.full(wrap_add(self.ideal_at(p), j, self.cap())),
            self.dist(wrap_add(self.ideal_at(p), j, self.cap())) >= j,
        decreases self.dist(p) - j,
    {
        let n = self.cap();
        let b = self.ideal_at(p);
        self.lemma_dist_place(p);
        if j < self.dist(p) {
            self.lemma_chain(p, j + 1);
            let s = wrap_add(b, j + 1, n);
            lemma_wrap(b, j, n);
            assert(self.robin_hood_at(s));
            assert(self.prev_of(s) == wrap_add(b, j, n));
        }
    }

    /// No element sits as far as `size` buckets past its ideal bucket.
    pub proof fn lemma_dist_below_size(&self, p: int)
        requires
            self.wf(),
            self.robin_hood(),
            self.cap() > 0,
            0 <= p < self.cap(),
            self.full(p),
        ensures
            self.dist(p) < self@.len(),
    {
        let b = self.ideal_at(p);
        self.lemma_dist_place(p);
        assert forall|j: int| 0 <= j < self.dist(p) + 1 implies self.full(#[trigger] wrap_add(b, j, self.cap())) by {
            self.lemma_chain(p, j);
        }
        self.lemma_full_run_bounded(b, self.dist(p) + 1);
    }

    /// A key that the table holds sits in a full bucket reached from its ideal
    /// bucket through buckets whose elements sit at least as far from theirs.
    pub proof fn lemma_key_placed(&self, tag: spec_fn(K) -> u64, k: K) -> (p: int)
        requires
            self.wf(),
            self.robin_hood(),
            self.tags_match(tag),
            self.cap() > 0,
            self@.contains_key(k),
        ensures
            0 <= p < self.cap(),
            self.full(p),
            self.key_at(p) == k,
            self.tags()[p] == tag(k),
            p == wrap_add(self.ideal_of(tag(k)), self.dist(p), self.cap()),
            self.dist(p) < self@.len(),
            forall|j: int| 0 <= j <= self.dist(p) ==> {
                &&& self.full(#[trigger] wrap_add(self.ideal_of(tag(k)), j, self.cap()))
                &&& self.dist(wrap_add(self.ideal_of(tag(k)), j, self.cap())) >= j
            },
    {
        let p = choose|p: int| 0 <= p < self.cap() && self.full(p) && #[trigger] self.key_at(p) == k;
        self.lemma_dist_place(p);
        self.lemma_dist_below_size(p);
        assert forall|j: int| 0 <= j <= self.dist(p) implies {
            &&& self.full(#[trigger] wrap_add(self.ideal_of(tag(k)), j, self.cap()))
            &&& self.dist(wrap_add(self.ideal_of(tag(k)), j, self.cap())) >= j
        } by {
            self.lemma_chain(p, j);
        }
        p
    }

    /// How far an element with tag `h` would sit past its ideal bucket if it
    /// were in bucket `i`.
    pub open spec fn dist_of(&self, i: int, h: u64) -> int {
        (i - self.ideal_of(h) + self.cap()) % self.cap()
    }

    /// An element with tag `h`, `d` buckets past its ideal bucket when placed
    /// in bucket `i`, keeps Robin Hood order there.
    pub open spec fn placeable(&self, i: int, h: u64, d: int) -> bool {
        &&& self.dist_of(i, h) == d
        &&& d > 0 ==> self.full(self.prev_of(i)) && self.dist(self.prev_of(i)) + 1 >= d
    }

    /// One bucket further, an element sits one bucket further from its ideal
    /// bucket, unless it wraps back onto it.
    pub proof fn lemma_dist_step(&self, x: int, h: u64)
        requires
            self.cap() > 0,
            0 <= x < self.cap(),
        ensures
            0 <= self.dist_of(x, h) < self.cap(),
            self.dist_of(self.next_of(x), h) > 0 ==> self.dist_of(x, h) + 1 == self.dist_of(self.next_of(x), h),
            self.dist_of(x, h) + 1 < self.cap() ==> self.dist_of(self.next_of(x), h) == self.dist_of(x, h) + 1,
    {
        let n = self.cap();
        let b = self.ideal_of(h);
        vstd::arithmetic::div_mod::lemma_mod_bound(h as int, n);
        let d = self.dist_of(x, h);
        let w = (x - b + n) % n;
        vstd::arithmetic::div_mod::lemma_mod_bound(x - b + n, n);
        if x >= b {
            vstd::arithmetic::div_mod::lemma_mod_sub_multiples_vanish(x - b + n, n);
            vstd::arithmetic::div_mod::lemma_small_mod((x - b) as nat, n as nat);
        } else {
            vstd::arithmetic::div_mod::lemma_small_mod((x - b + n) as nat, n as nat);
        }
        let y = self.next_of(x);
        vstd::arithmetic::div_mod::lemma_mod_bound(y - b + n, n);
        if y >= b {
            vstd::arithmetic::div_mod::lemma_mod_sub_multiples_vanish(y - b + n, n);
            vstd::arithmetic::div_mod::lemma_small_mod((y - b) as nat, n as nat);
        } else {
            vstd::arithmetic::div_mod::lemma_small_mod((y - b + n) as nat, n as nat);
        }
    }

    /// Changing the tag of bucket `x` alone leaves Robin Hood order in place
    /// everywhere but at `x` and the bucket after it.
    pub proof fn lemma_rh_frame(&self, other: &RawTable<K, V>, x: int)
        requires
            self.cap() == other.cap() > 0,
            0 <= x < self.cap(),
            forall|a: int| 0 <= a < self.cap() && a != x ==> other.tags()[a] == self.tags()[a],
        ensures
            forall|a: int| 0 <= a < self.cap() && a != x && a != self.next_of(x) && #[trigger] self.robin_hood_at(a)
                ==> other.robin_hood_at(a),
    {
        assert forall|a: int| 0 <= a < self.cap() && a != x && a != self.next_of(x) && #[trigger] self.robin_hood_at(a)
            implies other.robin_hood_at(a) by {
            assert(self.prev_of(a) != x);
            assert(0 <= self.prev_of(a) < self.cap());
        }
    }
}

/// Looks for `k`, whose tag is `hash`, probing at most `size` buckets from its
/// ideal one and stopping early at an empty bucket or at an element that sits
/// closer to its ideal bucket than `k` would.
pub fn search_hashed<K: TableKey, V>(
    table: &RawTable<K, V>,
    hash: SafeHash,
    k: &K,
    Ghost(tag): Ghost<spec_fn(K) -> u64>,
) -> (r: Option<usize>)
    requires
        table.wf(),
        table.robin_hood(),
        table.tags_match(tag),
        hash@ == tag(*k),
    ensures
        r is Some ==> {
            let i = r->Some_0 as int;
            0 <= i < table.cap() && table.full(i) && table.key_at(i) == *k
        },
        r is None <==> !table@.contains_key(*k),
{
    let cap = table.capacity();
    if cap == 0 {
        proof {
            if table@.contains_key(*k) {
                let i = choose|i: int| 0 <= i < table.cap() && table.full(i) && #[trigger] table.key_at(i) == *k;
            }
        }
        return None;
    }
    let size = table.size();
    let ib = table.ideal_index(hash);
    let mut idx = ib;
    let mut j: usize = 0;
    let kb = k.bits();
    proof {
        vstd::arithmetic::div_mod::lemma_small_mod(ib as nat, cap as nat);
    }
    while j < size
        invariant
            table.wf(),
            table.robin_hood(),
            table.tags_match(tag),
            hash@ == tag(*k),
            kb == k.key_bits(),
            cap == table.cap() > 0,
            size == table@.len(),
            ib == table.ideal_of(hash@),
            0 <= ib < cap,
            j <= size,
            idx == wrap_add(ib as int, j as int, cap as int),
            forall|a: int| 0 <= a < j ==> table.key_at(#[trigger] wrap_add(ib as int, a, cap as int)) != *k,
        decreases size - j,
    {
        proof {
            lemma_wrap(ib as int, j as int, cap as int);
        }
        if let BucketState::Empty = table.peek(idx) {
            proof {
                if table@.contains_key(*k) {
                    let p = table.lemma_key_placed(tag, *k);
                    if j <= table.dist(p) {
                    } else {
                        assert(table.key_at(wrap_add(ib as int, table.dist(p), cap as int)) != *k);
                    }
                }
            }
            return None;
        }
        let d = table.distance(idx);
        if d < j {
            proof {
                if table@.contains_key(*k) {
                    let p = table.lemma_key_placed(tag, *k);
                    if j <= table.dist(p) {
                    } else {
                        assert(table.key_at(wrap_add(ib as int, table.dist(p), cap as int)) != *k);
                    }
                }
            }
            return None;
        }
        if table.hash(idx).inspect() == hash.inspect() {
            let (fk, _) = table.read(idx);
            if fk.bits() == kb {
                proof {
                    K::lemma_bits_injective(fk, k);
                }
                return Some(idx);
            }
            proof {
                if table.key_at(idx as int) == *k {
                    assert(fk.key_bits() == kb);
                }
            }
        } else {
            proof {
                assert(table.tags()[idx as int] == tag(table.key_at(idx as int)));
            }
        }
        assert(table.key_at(wrap_add(ib as int, j as int, cap as int)) != *k);
        idx = table.next(idx);
        j = j + 1;
    }
    proof {
        if table@.contains_key(*k) {
            let p = table.lemma_key_placed(tag, *k);
            assert(table.key_at(wrap_add(ib as int, table.dist(p), cap as int)) != *k);
        }
    }
    None
}

/// Where the probe for a key ended.
pub enum ProbeResult {
    /// The key is in this full bucket.
    Found(usize),
    /// The key is absent; it goes into this empty bucket, this many buckets
    /// past its ideal one.
    NoElem(usize, usize),
    /// The key is absent; it displaces the element of this full bucket, which
    /// sits closer to its ideal bucket than the key would, this many buckets
    /// past the key's ideal one.
    NeqElem(usize, usize),
}

/// Probes for `k`, whose tag is `hash`, from its ideal bucket: finds it, or
/// finds where Robin Hood order puts it. The table must have an empty bucket.
pub fn search_entry_hashed<K: TableKey, V>(
    table: &RawTable<K, V>,
    hash: SafeHash,
    k: &K,
    Ghost(tag): Ghost<spec_fn(K) -> u64>,
) -> (r: ProbeResult)
    requires
        table.wf(),
        table.robin_hood(),
        table.tags_match(tag),
        hash@ == tag(*k),
        table@.len() < table.cap(),
    ensures
        match r {
            ProbeResult::Found(i) => {
                &&& i < table.cap()
                &&& table.full(i as int)
                &&& table.key_at(i as int) == *k
            },
            ProbeResult::NoElem(i, d) => {
                &&& i < table.cap()
                &&& !table.full(i as int)
                &&& !table@.contains_key(*k)
                &&& table.placeable(i as int, hash@, d as int)
            },
            ProbeResult::NeqElem(i, d) => {
                &&& i < table.cap()
                &&& table.full(i as int)
                &&& table.dist(i as int) < d
                &&& !table@.contains_key(*k)
                &&& table.placeable(i as int, hash@, d as int)
            },
        },
{
    let cap = table.capacity();
    let ib = table.ideal_index(hash);
    let mut idx = ib;
    let mut j: usize = 0;
    let kb = k.bits();
    proof {
        vstd::arithmetic::div_mod::lemma_small_mod(ib as nat, cap as nat);
    }
    loop
        invariant
            table.wf(),
            table.robin_hood(),
            table.tags_match(tag),
            hash@ == tag(*k),
            kb == k.key_bits(),
            cap == table.cap() > 0,
            table@.len() < cap,
            ib == table.ideal_of(hash@),
            0 <= ib < cap,
            j < cap,
            idx == wrap_add(ib as int, j as int, cap as int),
            forall|a: int| 0 <= a < j ==> {
                &&& table.full(#[trigger] wrap_add(ib as int, a, cap as int))
                &&& table.key_at(wrap_add(ib as int, a, cap as int)) != *k
                &&& table.dist(wrap_add(ib as int, a, cap as int)) >= a
            },
        decreases cap - j,
    {
        proof {
            lemma_wrap(ib as int, j as int, cap as int);
            if j > 0 {
                lemma_wrap(ib as int, j - 1, cap as int);
                assert(table.prev_of(idx as int) == wrap_add(ib as int, j - 1, cap as int));
            }
        }
        if let BucketState::Empty = table.peek(idx) {
            proof {
                if table@.contains_key(*k) {
                    let p = table.lemma_key_placed(tag, *k);
                    if j <= table.dist(p) {
                    } else {
                        assert(table.key_at(wrap_add(ib as int, table.dist(p), cap as int)) != *k);
                    }
                }
            }
            return ProbeResult::NoElem(idx, j);
        }
        let d = table.distance(idx);
        if d < j {
            proof {
                if table@.contains_key(*k) {
                    let p = table.lemma_key_placed(tag, *k);
                    if j <= table.dist(p) {
                    } else {
                        assert(table.key_at(wrap_add(ib as int, table.dist(p), cap as int)) != *k);
                    }
                }
            }
            return ProbeResult::NeqElem(idx, j);
        }
        if table.hash(idx).inspect() == hash.inspect() {
            let (fk, _) = table.read(idx);
            if fk.bits() == kb {
                proof {
                    K::lemma_bits_injective(fk, k);
                }
                return ProbeResult::Found(idx);
            }
            proof {
                if table.key_at(idx as int) == *k {
                    assert(fk.key_bits() == kb);
                }
            }
        } else {
            proof {
                assert(table.tags()[idx as int] == tag(table.key_at(idx as int)));
            }
        }
        assert(table.key_at(wrap_add(ib as int, j as int, cap as int)) != *k);
        proof {
            assert forall|a: int| 0 <= a < j + 1 implies table.full(#[trigger] wrap_add(ib as int, a, cap as int)) by {
            }
            table.lemma_full_run_bounded(ib as int, j + 1);
        }
        idx = table.next(idx);
        j = j + 1;
    }
}

/// Robin Hood insertion of absent key `k` at full bucket `i`, whose element
/// sits closer to its ideal bucket than `k` would: `k` takes the bucket, and
/// each displaced element moves on and takes the bucket of the next element
/// that sits closer to its ideal bucket than it would, until one lands in an
/// empty bucket. Returns `i`, where `k` now is.
pub fn robin_hood<K, V>(
    table: &mut RawTable<K, V>,
    i: usize,
    disp: usize,
    hash: SafeHash,
    k: K,
    v: V,
    Ghost(tag): Ghost<spec_fn(K) -> u64>,
) -> (r: usize)
    requires
        old(table).wf(),
        old(table).robin_hood(),
        old(table).tags_match(tag),
        hash@ == tag(k),
        hash@ >= HASH_TOP_BIT,
        !old(table)@.contains_key(k),
        old(table)@.len() < old(table).cap(),
        i < old(table).cap(),
        old(table).full(i as int),
        old(table).dist(i as int) < disp,
        old(table).placeable(i as int, hash@, disp as int),
    ensures
        final(table).wf(),
        final(table).robin_hood(),
        final(table).tags_match(tag),
        final(table).cap() == old(table).cap(),
        final(table)@ == old(table)@.insert(k, v),
        r == i,
        final(table).full(r as int),
        final(table).key_at(r as int) == k,
{
    let ghost t0 = *table;
    let ghost n = t0.cap();
    let first_dist = table.distance(i);
    let (h0, k0, v0) = table.replace(i, hash, k, v);
    let ghost t1 = *table;
    proof {
        t0.lemma_rh_frame(&t1, i as int);
        t0.lemma_dist_place(i as int);
        assert(t1.dist(i as int) == disp);
        assert forall|a: int| 0 <= a < n implies #[trigger] t1.robin_hood_at(a) by {
            assert(t0.robin_hood_at(a));
            if a == t0.next_of(i as int) && a != i {
                assert(t1.prev_of(a) == i);
            }
            if a == i {
                if disp > 0 {
                    assert(t0.prev_of(a) != i) by {
                        if t0.prev_of(a) == i {
                            assert(n == 1);
                        }
                    }
                }
            }
        }
        assert forall|a: int| 0 <= a < n && t1.full(a) implies #[trigger] t1.tags()[a] == tag(t1.key_at(a)) by {
            if a != i {
                assert(t0.full(a));
                assert(t0.tags()[a] == tag(t0.key_at(a)));
            }
        }
        assert(t1@.insert(k0, v0) =~= t0@.insert(k, v));
        assert(t0@.contains_key(k0));
        assert(t1@.len() == t0@.len());
        vstd::arithmetic::div_mod::lemma_small_mod(i as nat, n as nat);
    }
    let mut ch = h0;
    let mut ck = k0;
    let mut cv = v0;
    let mut cd = first_dist;
    let mut idx = i;
    let mut t: usize = 0;
    loop
        invariant
            table.wf(),
            table.robin_hood(),
            table.tags_match(tag),
            table.cap() == n,
            n == t0.cap() > 0,
            t0 == *old(table),
            !table@.contains_key(ck),
            table@.insert(ck, cv) == t0@.insert(k, v),
            table@.len() == t0@.len(),
            t0@.len() < n,
            ch@ == tag(ck),
            ch@ >= HASH_TOP_BIT,
            idx < n,
            table.full(idx as int),
            table.dist(idx as int) >= cd,
            table.dist_of(idx as int, ch@) == cd,
            t < n,
            idx == wrap_add(i as int, t as int, n),
            forall|a: int| 0 <= a <= t ==> table.full(#[trigger] wrap_add(i as int, a, n)),
            i < n,
            table.full(i as int),
            table.key_at(i as int) == k,
        decreases n - t,
    {
        proof {
            table.lemma_dist_below_size(idx as int);
            table.lemma_dist_step(idx as int, ch@);
            lemma_wrap(i as int, t as int, n);
            assert forall|a: int| 0 <= a < t + 1 implies table.full(#[trigger] wrap_add(i as int, a, n)) by {
            }
            table.lemma_full_run_bounded(i as int, t + 1);
            lemma_wrap(i as int, t + 1, n);
            crate::raw::lemma_mod_distinct(i as int, i + t + 1, n);
            vstd::arithmetic::div_mod::lemma_small_mod(i as nat, n as nat);
        }
        let ghost tb = *table;
        let nxt = table.next(idx);
        let ncd = cd + 1;
        proof {
            assert(tb.prev_of(nxt as int) == idx) by {
                if idx + 1 == n {
                } else {
                }
            }
            assert(nxt != i);
        }
        if let BucketState::Empty = table.peek(nxt) {
            table.put(nxt, ch, ck, cv);
            proof {
                let ta = *table;
                tb.lemma_rh_frame(&ta, nxt as int);
                assert(ta.dist(nxt as int) == ncd);
                assert forall|a: int| 0 <= a < n implies #[trigger] ta.robin_hood_at(a) by {
                    assert(tb.robin_hood_at(a));
                    if a == tb.next_of(nxt as int) && a != nxt {
                        assert(ta.prev_of(a) == nxt);
                    }
                }
                assert forall|a: int| 0 <= a < n && ta.full(a) implies #[trigger] ta.tags()[a] == tag(ta.key_at(a)) by {
                    if a != nxt {
                        assert(tb.full(a));
                        assert(tb.tags()[a] == tag(tb.key_at(a)));
                    }
                }
                assert(ta@ =~= t0@.insert(k, v));
            }
            return i;
        }
        let d = table.distance(nxt);
        if d < ncd {
            let (h1, k1, v1) = table.replace(nxt, ch, ck, cv);
            proof {
                let ta = *table;
                tb.lemma_rh_frame(&ta, nxt as int);
                assert(ta.dist(nxt as int) == ncd);
                assert forall|a: int| 0 <= a < n implies #[trigger] ta.robin_hood_at(a) by {
                    assert(tb.robin_hood_at(a));
                    if a == tb.next_of(nxt as int) && a != nxt {
                        assert(ta.prev_of(a) == nxt);
                    }
                    if a == nxt {
                        assert(ta.prev_of(a) == idx);
                        if idx == nxt {
                            assert(n == 1);
                        }
                    }
                }
                assert forall|a: int| 0 <= a < n && ta.full(a) implies #[trigger] ta.tags()[a] == tag(ta.key_at(a)) by {
                    if a != nxt {
                        assert(tb.full(a));
                        assert(tb.tags()[a] == tag(tb.key_at(a)));
                    }
                }
                assert(tb@.contains_key(k1));
                assert(ta@.insert(k1, v1) =~= tb@.insert(ck, cv));
                assert(ta@.len() == tb@.len());
                assert(tb.tags()[nxt as int] == tag(k1));
            }
            ch = h1;
            ck = k1;
            cv = v1;
            cd = d;
        } else {
            cd = ncd;
        }
        idx = nxt;
        t = t + 1;
    }
}

/// Backward-shift deletion: empties full bucket `i` and closes the gap by
/// moving each following element one bucket back, until the next bucket is
/// empty or holds an element in its ideal bucket. Hands back the removed key
/// and value.
pub fn pop_internal<K, V>(
    table: &mut RawTable<K, V>,
    i: usize,
    Ghost(tag): Ghost<spec_fn(K) -> u64>,
) -> (r: (K, V))
    requires
        old(table).wf(),
        old(table).robin_hood(),
        old(table).tags_match(tag),
        old(table)@.len() < old(table).cap(),
        i < old(table).cap(),
        old(table).full(i as int),
    ensures
        final(table).wf(),
        final(table).robin_hood(),
        final(table).tags_match(tag),
        final(table).cap() == old(table).cap(),
        r.0 == old(table).key_at(i as int),
        r.1 == old(table).val_at(i as int),
        final(table)@ == old(table)@.remove(old(table).key_at(i as int)),
        exists|g: int| {
            &&& 0 <= g < final(table).cap()
            &&& !final(table).full(g)
            &&& #[trigger] final(table).full(final(table).next_of(g)) ==> final(table).dist(final(table).next_of(g)) == 0
        },
{
    let ghost t0 = *table;
    let ghost n = t0.cap();
    let (rk, rv) = table.take(i);
    let ghost t1 = *table;
    proof {
        t0.lemma_rh_frame(&t1, i as int);
        t0.lemma_dist_place(i as int);
        assert(t0.robin_hood_at(i as int));
        assert(t0.robin_hood_at(t0.next_of(i as int)));
        assert forall|a: int| 0 <= a < n && a != t1.next_of(i as int) implies #[trigger] t1.robin_hood_at(a) by {
            assert(t0.robin_hood_at(a));
        }
        assert forall|a: int| 0 <= a < n && t1.full(a) implies #[trigger] t1.tags()[a] == tag(t1.key_at(a)) by {
            assert(t0.full(a));
            assert(t0.tags()[a] == tag(t0.key_at(a)));
        }
        let nx = t0.next_of(i as int);
        let pv = t0.prev_of(i as int);
        if t1.full(nx) && t1.dist(nx) > 1 {
            t0.lemma_dist_place(nx);
            assert(nx != i);
            assert(pv != i);
            assert(t0.full(nx));
            assert(t0.prev_of(nx) == i);
        }
        vstd::arithmetic::div_mod::lemma_small_mod(i as nat, n as nat);
        assert(t0@.contains_key(rk));
    }
    let mut gap = i;
    let mut t: usize = 0;
    loop
        invariant
            table.wf(),
            table.tags_match(tag),
            table.cap() == n,
            n == t0.cap() > 0,
            t0 == *old(table),
            table@ == t0@.remove(t0.key_at(i as int)),
            rk == t0.key_at(i as int),
            rv == t0.val_at(i as int),
            table@.len() + 2 <= n,
            gap < n,
            !table.full(gap as int),
            t < n,
            gap == wrap_add(i as int, t as int, n),
            forall|a: int| 0 <= a < t ==> table.full(#[trigger] wrap_add(i as int, a, n)),
            i < n,
            forall|a: int| 0 <= a < n && a != table.next_of(gap as int) ==> #[trigger] table.robin_hood_at(a),
            table.full(table.next_of(gap as int)) && table.dist(table.next_of(gap as int)) > 1 ==> {
                &&& table.full(table.prev_of(gap as int))
                &&& table.dist(table.prev_of(gap as int)) + 2 >= table.dist(table.next_of(gap as int))
            },
        decreases n - t,
    {
        let ghost tb = *table;
        let nxt = table.next(gap);
        let stop = match table.peek(nxt) {
            BucketState::Empty => true,
            BucketState::Full => table.distance(nxt) == 0,
        };
        if stop {
            proof {
                assert forall|a: int| 0 <= a < n implies #[trigger] table.robin_hood_at(a) by {
                }
                assert(table.full(table.next_of(gap as int)) ==> table.dist(table.next_of(gap as int)) == 0);
            }
            return (rk, rv);
        }
        proof {
            lemma_wrap(i as int, t as int, n);
            tb.lemma_full_run_bounded(i as int, t as int);
            lemma_wrap(i as int, t + 1, n);
            assert forall|a: int| 0 <= a < t implies #[trigger] wrap_add(i as int, a, n) != nxt by {
                crate::raw::lemma_mod_distinct(i + a, i + t + 1, n);
            }
            tb.lemma_dist_place(nxt as int);
            tb.lemma_dist_step(gap as int, tb.tags()[nxt as int]);
            assert(tb.prev_of(nxt as int) == gap);
        }
        table.shift(gap, nxt);
        proof {
            let ta = *table;
            let m = tb.next_of(nxt as int);
            let pg = tb.prev_of(gap as int);
            let dn = tb.dist(nxt as int);
            assert(ta.dist(gap as int) == dn - 1);
            assert(tb.robin_hood_at(m) || m == nxt);
            assert forall|a: int| 0 <= a < n && a != m implies #[trigger] ta.robin_hood_at(a) by {
                if a == gap as int {
                    if dn - 1 > 0 {
                        assert(pg != gap as int && pg != nxt as int);
                        assert(ta.prev_of(a) == pg);
                    }
                } else if a == nxt as int {
                } else {
                    assert(tb.robin_hood_at(a));
                    assert(ta.prev_of(a) != gap as int);
                    assert(ta.prev_of(a) != nxt as int);
                    assert(0 <= ta.prev_of(a) < n);
                }
            }
            if ta.full(m) && ta.dist(m) > 1 {
                assert(m != gap as int);
                assert(m != nxt as int);
                assert(tb.robin_hood_at(m));
                assert(ta.prev_of(m) == nxt);
                assert(tb.prev_of(m) == nxt);
            }
            assert forall|a: int| 0 <= a < n && ta.full(a) implies #[trigger] ta.tags()[a] == tag(ta.key_at(a)) by {
                if a == gap as int {
                    assert(tb.tags()[nxt as int] == tag(tb.key_at(nxt as int)));
                } else {
                    assert(tb.full(a));
                    assert(tb.tags()[a] == tag(tb.key_at(a)));
                }
            }
            assert forall|a: int| 0 <= a < t + 1 implies ta.full(#[trigger] wrap_add(i as int, a, n)) by {
            }
            ta.lemma_full_run_bounded(i as int, t + 1);
        }
        gap = nxt;
        t = t + 1;
    }
}

/// Ordered insertion, as resizing uses it: walks from the ideal bucket of
/// absent key `k` to the first empty bucket and puts the element there,
/// comparing no keys. Where an element on the way sits closer to its ideal
/// bucket than `k` would, which the reinsertion order of a resize never
/// produces, Robin Hood displacement takes over, so the table stays in order
/// whatever the order of insertion. The table must have an empty bucket.
pub fn insert_hashed_ordered<K, V>(
    table: &mut RawTable<K, V>,
    hash: SafeHash,
    k: K,
    v: V,
    Ghost(tag): Ghost<spec_fn(K) -> u64>,
) -> (r: usize)
    requires
        old(table).wf(),
        old(table).robin_hood(),
        old(table).tags_match(tag),
        hash@ == tag(k),
        hash@ >= HASH_TOP_BIT,
        !old(table)@.contains_key(k),
        old(table)@.len() < old(table).cap(),
    ensures
        final(table).wf(),
        final(table).robin_hood(),
        final(table).tags_match(tag),
        final(table).cap() == old(table).cap(),
        final(table)@ == old(table)@.insert(k, v),
        r < final(table).cap(),
        final(table).full(r as int),
        final(table).key_at(r as int) == k,
{
    let cap = table.capacity();
    let ib = table.ideal_index(hash);
    let mut idx = ib;
    let mut j: usize = 0;
    proof {
        vstd::arithmetic::div_mod::lemma_small_mod(ib as nat, cap as nat);
    }
    loop
        invariant
            table.wf(),
            table.robin_hood(),
            table.tags_match(tag),
            hash@ == tag(k),
            hash@ >= HASH_TOP_BIT,
            !table@.contains_key(k),
            *table == *old(table),
            cap == table.cap() > 0,
            table@.len() < cap,
            ib == table.ideal_of(hash@),
            0 <= ib < cap,
            j < cap,
            idx == wrap_add(ib as int, j as int, cap as int),
            forall|a: int| 0 <= a < j ==> {
                &&& table.full(#[trigger] wrap_add(ib as int, a, cap as int))
                &&& table.dist(wrap_add(ib as int, a, cap as int)) >= a
            },
        decreases cap - j,
    {
        proof {
            lemma_wrap(ib as int, j as int, cap as int);
            if j > 0 {
                lemma_wrap(ib as int, j - 1, cap as int);
                assert(table.prev_of(idx as int) == wrap_add(ib as int, j - 1, cap as int));
            }
        }
        proof {
            assert(table.placeable(idx as int, hash@, j as int));
        }
        if let BucketState::Empty = table.peek(idx) {
            put_placed(table, idx, hash, k, v, Ghost(tag));
            return idx;
        }
        if table.distance(idx) < j {
            return robin_hood(table, idx, j, hash, k, v, Ghost(tag));
        }
        proof {
            assert forall|a: int| 0 <= a < j + 1 implies table.full(#[trigger] wrap_add(ib as int, a, cap as int)) by {
            }
            table.lemma_full_run_bounded(ib as int, j + 1);
        }
        idx = table.next(idx);
        j = j + 1;
    }
}

/// Puts absent key `k` into empty bucket `i`, where it keeps Robin Hood order.
pub fn put_placed<K, V>(
    table: &mut RawTable<K, V>,
    i: usize,
    hash: SafeHash,
    k: K,
    v: V,
    Ghost(tag): Ghost<spec_fn(K) -> u64>,
)
    requires
        old(table).wf(),
        old(table).robin_hood(),
        old(table).tags_match(tag),
        hash@ == tag(k),
        hash@ >= HASH_TOP_BIT,
        !old(table)@.contains_key(k),
        i < old(table).cap(),
        !old(table).full(i as int),
        exists|d: int| old(table).placeable(i as int, hash@, d),
    ensures
        final(table).wf(),
        final(table).robin_hood(),
        final(table).tags_match(tag),
        final(table).cap() == old(table).cap(),
        final(table)@ == old(table)@.insert(k, v),
        final(table).full(i as int),
        final(table).key_at(i as int) == k,
{
    let ghost tb = *table;
    let ghost n = tb.cap();
    table.put(i, hash, k, v);
    proof {
        let ta = *table;
        let d = choose|d: int| tb.placeable(i as int, hash@, d);
        tb.lemma_rh_frame(&ta, i as int);
        assert forall|a: int| 0 <= a < n implies #[trigger] ta.robin_hood_at(a) by {
            assert(tb.robin_hood_at(a));
            if a == tb.next_of(i as int) && a != i {
                assert(ta.prev_of(a) == i);
            }
            if a == i && d > 0 {
                assert(tb.prev_of(a) != i);
            }
        }
        assert forall|a: int| 0 <= a < n && ta.full(a) implies #[trigger] ta.tags()[a] == tag(ta.key_at(a)) by {
            if a != i {
                assert(tb.full(a));
                assert(tb.tags()[a] == tag(tb.key_at(a)));
            }
        }
    }
}

} // verus!
