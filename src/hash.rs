//! Keyed hashing of keys into non-zero 64-bit tags.
use vstd::prelude::*;

verus! {

/// The bit that every tag of a full bucket carries.
pub const HASH_TOP_BIT: u64 = 0x8000_0000_0000_0000;

/// A tag for the bucket array: a 64-bit hash with its top bit set, so that it
/// never equals the tag of an empty bucket, 0.
#[derive(Clone, Copy, PartialEq, Eq, Structural)]
pub struct SafeHash {
    hash: u64,
}

/// A hash with its top bit forced to 1.
pub open spec fn safe_of(h: u64) -> u64 {
    h | HASH_TOP_BIT
}

/// What the keyed SipHash-2-4 of std returns for the eight little-endian bytes
/// of `x`, under the keys `k0` and `k1`.
pub uninterp spec fn sip_hash(k0: u64, k1: u64, x: u64) -> u64;

/// Relies on std::hash::SipHasher (keyed SipHash-2-4): a function of the two
/// keys and of the bytes written, with nothing else to influence it.
#[verifier::external_body]
#[allow(deprecated)]
fn keyed_sip_hash(k0: u64, k1: u64, x: u64) -> (r: u64)
    ensures
        r == sip_hash(k0, k1, x),
{
    let mut h = std::hash::SipHasher::new_with_keys(k0, k1);
    std::hash::Hasher::write(&mut h, &x.to_le_bytes());
    std::hash::Hasher::finish(&h)
}

/// Relies on rand::random: a value drawn from the thread-local generator,
/// seeded from the operating system's entropy; nothing is promised of it.
pub assume_specification<T>[ rand::random::<T> ]() -> (r: T)
    where
        rand::distributions::Standard: rand::distributions::Distribution<T>,
;

impl SafeHash {
    pub closed spec fn view(&self) -> u64 {
        self.hash
    }

    /// The top bit is set.
    #[verifier::type_invariant]
    spec fn top_bit_set(&self) -> bool {
        self.hash >= HASH_TOP_BIT
    }

    /// Wraps a digest, forcing its top bit.
    pub fn new(digest: u64) -> (r: SafeHash)
        ensures
            r@ == safe_of(digest),
    {
        proof {
            lemma_safe_of_nonzero(digest);
        }
        SafeHash { hash: digest | HASH_TOP_BIT }
    }

    /// Peek at the hash value, which is guaranteed to be non-zero.
    pub fn inspect(&self) -> (r: u64)
        ensures
            r == self@,
            r >= HASH_TOP_BIT,
    {
        proof {
            use_type_invariant(self);
        }
        self.hash
    }
}

/// A tag of a full bucket is at least `2^63`, so never 0.
pub proof fn lemma_safe_of_nonzero(h: u64)
    ensures
        safe_of(h) >= HASH_TOP_BIT,
        safe_of(h) != 0,
{
    assert((h | 0x8000_0000_0000_0000u64) >= 0x8000_0000_0000_0000u64) by (bit_vector);
}

/// A key that the table can hold: it is identified by 64 bits, which are what
/// is hashed and what equality compares.
pub trait TableKey: Sized {
    /// The bits that identify the key.
    spec fn key_bits(&self) -> u64;

    fn bits(&self) -> (r: u64)
        ensures
            r == self.key_bits(),
    ;

    /// Two keys with the same bits are the same key.
    proof fn lemma_bits_injective(a: &Self, b: &Self)
        ensures
            a.key_bits() == b.key_bits() ==> a == b,
    ;
}

impl TableKey for u64 {
    open spec fn key_bits(&self) -> u64 {
        *self
    }

    fn bits(&self) -> (r: u64) {
        *self
    }

    proof fn lemma_bits_injective(a: &Self, b: &Self) {
    }
}

impl TableKey for u32 {
    open spec fn key_bits(&self) -> u64 {
        *self as u64
    }

    fn bits(&self) -> (r: u64) {
        *self as u64
    }

    proof fn lemma_bits_injective(a: &Self, b: &Self) {
    }
}

impl TableKey for usize {
    open spec fn key_bits(&self) -> u64 {
        *self as u64
    }

    fn bits(&self) -> (r: u64) {
        *self as u64
    }

    proof fn lemma_bits_injective(a: &Self, b: &Self) {
        assert(*a as u64 == *a);
        assert(*b as u64 == *b);
    }
}

impl TableKey for i32 {
    open spec fn key_bits(&self) -> u64 {
        *self as u64
    }

    fn bits(&self) -> (r: u64) {
        *self as u64
    }

    proof fn lemma_bits_injective(a: &Self, b: &Self) {
        let x = *a;
        let y = *b;
        assert(x as u64 == y as u64 ==> x == y) by (bit_vector);
    }
}

impl TableKey for i64 {
    open spec fn key_bits(&self) -> u64 {
        *self as u64
    }

    fn bits(&self) -> (r: u64) {
        *self as u64
    }

    proof fn lemma_bits_injective(a: &Self, b: &Self) {
        let x = *a;
        let y = *b;
        assert(x as u64 == y as u64 ==> x == y) by (bit_vector);
    }
}

impl TableKey for isize {
    open spec fn key_bits(&self) -> u64 {
        *self as u64
    }

    fn bits(&self) -> (r: u64) {
        *self as u64
    }

    proof fn lemma_bits_injective(a: &Self, b: &Self) {
        let x = *a as i64;
        let y = *b as i64;
        assert(x as u64 == y as u64 ==> x == y) by (bit_vector);
    }
}

/// A factory of keyed hashers: each hashing operation starts afresh from this
/// state, so that the digest of a key depends on the state and the key alone.
pub trait HashState: Sized {
    /// The digest of the key bits `x` under this state.
    spec fn digest_of(&self, x: u64) -> u64;

    fn digest(&self, x: u64) -> (r: u64)
        ensures
            r == self.digest_of(x),
    ;
}

/// The default hash state: SipHash-2-4 under two 64-bit keys drawn at random
/// for each map, so that different maps probe differently.
#[derive(Clone, Copy)]
pub struct RandomState {
    k0: u64,
    k1: u64,
}

impl RandomState {
    /// A state whose keys come from the random number generator.
    pub fn new() -> (r: RandomState) {
        let k0: u64 = rand::random::<u64>();
        let k1: u64 = rand::random::<u64>();
        RandomState { k0, k1 }
    }

    /// A state with the given keys, for maps that must probe the same way
    /// in every run.
    pub fn with_keys(k0: u64, k1: u64) -> (r: RandomState)
        ensures
            r.keys() == (k0, k1),
    {
        RandomState { k0, k1 }
    }

    /// The two SipHash keys.
    pub closed spec fn keys(&self) -> (u64, u64) {
        (self.k0, self.k1)
    }
}

impl HashState for RandomState {
    closed spec fn digest_of(&self, x: u64) -> u64 {
        sip_hash(self.k0, self.k1, x)
    }

    fn digest(&self, x: u64) -> (r: u64) {
        keyed_sip_hash(self.k0, self.k1, x)
    }
}

/// A hash state without keys of its own: SipHash-2-4 under the keys that a
/// default SipHash hasher starts from, both 0. Every map built on it probes
/// the same way.
#[derive(Clone, Copy)]
pub struct DefaultState;

impl HashState for DefaultState {
    open spec fn digest_of(&self, x: u64) -> u64 {
        sip_hash(0, 0, x)
    }

    fn digest(&self, x: u64) -> (r: u64) {
        keyed_sip_hash(0, 0, x)
    }
}

/// The tag of a key under a hash state.
pub open spec fn tag_of<K: TableKey, S: HashState>(state: &S, k: &K) -> u64 {
    safe_of(state.digest_of(k.key_bits()))
}

/// Hashes `t` under `hash_state` and forces the top bit of the digest.
pub fn make_hash<K: TableKey, S: HashState>(hash_state: &S, t: &K) -> (r: SafeHash)
    ensures
        r@ == tag_of(hash_state, t),
{
    let b = t.bits();
    SafeHash::new(hash_state.digest(b))
}

} // verus!
