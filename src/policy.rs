//! Sizing rules: the load-factor policy and the layout arithmetic of the bucket
//! array.
use vstd::prelude::*;

verus! {

/// Smallest raw capacity of a table that has been allocated.
pub const INITIAL_CAPACITY: usize = 32;

/// `unrounded` rounded up to the next multiple of `align`.
pub open spec fn round_up_spec(unrounded: int, align: int) -> int {
    ((unrounded + align - 1) / align) * align
}

/// `n` is a power of two.
pub open spec fn is_pow2(n: int) -> bool
    decreases n,
{
    if n <= 0 {
        false
    } else if n == 1 {
        true
    } else {
        n % 2 == 0 && is_pow2(n / 2)
    }
}

/// The smallest power of two that is at least `n`, searching upward from `p`.
pub open spec fn next_pow2_from(p: nat, n: nat) -> nat
    decreases (if p >= n { 0 } else { n - p }) when p > 0
{
    if p >= n {
        p
    } else {
        next_pow2_from(2 * p, n)
    }
}

/// The smallest power of two that is at least `n`.
pub open spec fn next_pow2(n: nat) -> nat {
    next_pow2_from(1, n)
}

/// `next_pow2_from` climbs through powers of two and lands at or above `n`,
/// at the first power of two that gets there.
pub proof fn lemma_next_pow2_from(p: nat, n: nat)
    requires
        p > 0,
        is_pow2(p as int),
    ensures
        is_pow2(next_pow2_from(p, n) as int),
        next_pow2_from(p, n) >= n,
        next_pow2_from(p, n) >= p,
        p < n ==> next_pow2_from(p, n) >= 2 * p,
        next_pow2_from(p, n) == p || next_pow2_from(p, n) < 2 * n,
    decreases (if p >= n { 0 } else { n - p }),
{
    if p < n {
        assert((2 * p) as int / 2 == p as int);
        assert(is_pow2((2 * p) as int));
        lemma_next_pow2_from(2 * p, n);
    }
}

/// The smallest power of two at least `n`, or `None` where it does not fit in
/// a `usize`.
pub fn checked_next_power_of_two(n: usize) -> (r: Option<usize>)
    ensures
        r == if next_pow2(n as nat) <= usize::MAX { Some(next_pow2(n as nat) as usize) } else { None::<usize> },
{
    let mut p: usize = 1;
    proof {
        lemma_next_pow2_from(1, n as nat);
    }
    while p < n
        invariant
            p > 0,
            is_pow2(p as int),
            next_pow2_from(p as nat, n as nat) == next_pow2(n as nat),
        decreases (if p >= n { 0 } else { n - p }),
    {
        proof {
            lemma_next_pow2_from(p as nat, n as nat);
        }
        if p > usize::MAX / 2 {
            return None;
        }
        proof {
            assert((2 * p) as int / 2 == p as int);
        }
        p = p * 2;
    }
    Some(p)
}

/// Minimum raw capacity needed to hold `n` elements: the ceiling of `n * 11 / 10`.
pub open spec fn min_capacity_spec(n: int) -> int {
    (n * 11 + 9) / 10
}

/// Largest number of elements that a table of raw capacity `cap` may hold:
/// the floor of `cap * 10 / 11`.
pub open spec fn usable_capacity_spec(cap: int) -> int {
    (cap * 10) / 11
}

/// Rounds `unrounded` up to the closest multiple of `target_alignment`.
pub fn round_up_to_next(unrounded: usize, target_alignment: usize) -> (r: usize)
    requires
        target_alignment > 0,
        unrounded + target_alignment - 1 <= usize::MAX,
    ensures
        r == round_up_spec(unrounded as int, target_alignment as int),
        r % target_alignment == 0,
        unrounded <= r < unrounded + target_alignment,
{
    let a = target_alignment;
    let q = (unrounded + (a - 1)) / a;
    proof {
        let u = unrounded as int;
        let ai = a as int;
        vstd::arithmetic::div_mod::lemma_fundamental_div_mod(u + ai - 1, ai);
        vstd::arithmetic::div_mod::lemma_mod_bound(u + ai - 1, ai);
        assert(q * ai <= u + ai - 1) by (nonlinear_arith)
            requires q == (u + ai - 1) / ai, ai > 0, u + ai - 1 >= 0,
        {
            vstd::arithmetic::div_mod::lemma_fundamental_div_mod(u + ai - 1, ai);
        }
        vstd::arithmetic::mul::lemma_mul_is_commutative(q as int, ai);
        vstd::arithmetic::div_mod::lemma_mod_multiples_basic(q as int, ai);
    }
    q * a
}

/// Offsets of the key array and of the value array from the start of a buffer
/// that begins with `hashes_size` bytes of hash tags, and whether computing
/// them overflowed.
pub fn calculate_offsets(
    hashes_size: usize,
    keys_size: usize,
    keys_align: usize,
    vals_align: usize,
) -> (r: (usize, usize, bool))
    requires
        keys_align > 0,
        vals_align > 0,
    ensures
        !r.2 <==> ({
            let ko = round_up_spec(hashes_size as int, keys_align as int);
            &&& hashes_size + keys_align - 1 <= usize::MAX
            &&& ko + keys_size + vals_align - 1 <= usize::MAX
        }),
        !r.2 ==> r.0 == round_up_spec(hashes_size as int, keys_align as int),
        !r.2 ==> r.1 == round_up_spec(r.0 + keys_size, vals_align as int),
{
    if hashes_size > usize::MAX - (keys_align - 1) {
        return (0, 0, true);
    }
    let keys_offset = round_up_to_next(hashes_size, keys_align);
    if keys_offset > usize::MAX - keys_size {
        return (keys_offset, 0, true);
    }
    let end_of_keys = keys_offset + keys_size;
    if end_of_keys > usize::MAX - (vals_align - 1) {
        return (keys_offset, 0, true);
    }
    let vals_offset = round_up_to_next(end_of_keys, vals_align);
    (keys_offset, vals_offset, false)
}

/// The larger of two sizes.
fn max_usize(a: usize, b: usize) -> (r: usize)
    ensures
        r == if a >= b { a } else { b },
{
    if a >= b {
        a
    } else {
        b
    }
}

/// The layout of a single buffer holding the hash tags, then the keys, then the
/// values: `(alignment, hash_offset, total_size, overflowed)`.
pub fn calculate_allocation(
    hash_size: usize,
    hash_align: usize,
    keys_size: usize,
    keys_align: usize,
    vals_size: usize,
    vals_align: usize,
) -> (r: (usize, usize, usize, bool))
    requires
        keys_align > 0,
        vals_align > 0,
    ensures
        r.0 == if hash_align >= keys_align && hash_align >= vals_align {
            hash_align
        } else if keys_align >= vals_align {
            keys_align
        } else {
            vals_align
        },
        r.1 == 0,
        !r.3 <==> ({
            let ko = round_up_spec(hash_size as int, keys_align as int);
            let vo = round_up_spec(ko + keys_size, vals_align as int);
            &&& hash_size + keys_align - 1 <= usize::MAX
            &&& ko + keys_size + vals_align - 1 <= usize::MAX
            &&& vo + vals_size <= usize::MAX
        }),
        !r.3 ==> r.2 == round_up_spec(
            round_up_spec(hash_size as int, keys_align as int) + keys_size,
            vals_align as int,
        ) + vals_size,
{
    let hash_offset: usize = 0;
    let (_, vals_offset, oflo) = calculate_offsets(hash_size, keys_size, keys_align, vals_align);
    let align = max_usize(hash_align, max_usize(keys_align, vals_align));
    if oflo || vals_offset > usize::MAX - vals_size {
        return (align, hash_offset, 0, true);
    }
    (align, hash_offset, vals_offset + vals_size, false)
}

/// The load-factor policy: a table grows once it is more than 10/11 full.
#[derive(Clone, Copy)]
pub struct DefaultResizePolicy;

impl DefaultResizePolicy {
    pub fn new() -> (r: DefaultResizePolicy) {
        DefaultResizePolicy
    }

    /// Minimum raw capacity needed to hold `usable_size` elements without
    /// resizing.
    pub fn min_capacity(&self, usable_size: usize) -> (r: usize)
        requires
            min_capacity_spec(usable_size as int) <= usize::MAX,
        ensures
            r == min_capacity_spec(usable_size as int),
    {
        usable_size + (usable_size + 9) / 10
    }

    /// `min_capacity(usable_size)`, or `None` where it does not fit in a
    /// `usize`.
    pub fn checked_min_capacity(&self, usable_size: usize) -> (r: Option<usize>)
        ensures
            r == if min_capacity_spec(usable_size as int) <= usize::MAX {
                Some(min_capacity_spec(usable_size as int) as usize)
            } else {
                None::<usize>
            },
    {
        let tenth = usable_size / 10 + if usable_size % 10 == 0 { 0 } else { 1 };
        proof {
            let n = usable_size as int;
            vstd::arithmetic::div_mod::lemma_fundamental_div_mod(n, 10);
            assert((n * 11 + 9) / 10 == n + tenth) by (nonlinear_arith)
                requires n == 10 * (n / 10) + n % 10, 0 <= n % 10 < 10,
                    tenth == n / 10 + if n % 10 == 0 { 0int } else { 1int };
        }
        if usable_size > usize::MAX - tenth {
            None
        } else {
            Some(usable_size + tenth)
        }
    }

    /// Maximum number of elements a table of raw capacity `cap` may hold before
    /// it must grow.
    pub fn usable_capacity(&self, cap: usize) -> (r: usize)
        ensures
            r == usable_capacity_spec(cap as int),
    {
        let q = cap / 11;
        let r = cap % 11;
        proof {
            let c = cap as int;
            vstd::arithmetic::div_mod::lemma_fundamental_div_mod(c, 11);
            assert((c * 10) / 11 == if r == 0 { c - q } else { c - q - 1 }) by (nonlinear_arith)
                requires c == 11 * q + r, 0 <= r < 11, q >= 0;
        }
        if r == 0 {
            cap - q
        } else {
            cap - q - 1
        }
    }
}

/// `min_capacity(usable_capacity(x)) <= x` and `usable_capacity(min_capacity(x)) <= x`.
pub proof fn lemma_policy_inverse(x: nat)
    ensures
        min_capacity_spec(usable_capacity_spec(x as int)) <= x,
        usable_capacity_spec(min_capacity_spec(x as int)) <= x,
{
    let u = usable_capacity_spec(x as int);
    let m = min_capacity_spec(x as int);
    assert(u * 11 <= x * 10) by (nonlinear_arith)
        requires u == (x * 10) / 11, x >= 0;
    assert((u * 11 + 9) / 10 <= x) by (nonlinear_arith)
        requires u * 11 <= x * 10, u >= 0;
    assert(m * 10 <= x * 11 + 9) by (nonlinear_arith)
        requires m == (x * 11 + 9) / 10, x >= 0;
    assert((m * 10) / 11 <= x) by (nonlinear_arith)
        requires m * 10 <= x * 11 + 9, m >= 0;
}

} // verus!
