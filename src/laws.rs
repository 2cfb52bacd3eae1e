//! Laws that relate the map operations, stated over the views their
//! contracts speak of.
use vstd::prelude::*;
use crate::policy::{min_capacity_spec, usable_capacity_spec, lemma_policy_inverse};

verus! {

/// After `insert(k, v)`, `get(k)` finds `v`.
pub proof fn law_insert_then_get<K, V>(m: Map<K, V>, k: K, v: V)
    ensures
        m.insert(k, v).contains_key(k),
        m.insert(k, v)[k] == v,
{
}

/// After `insert(k, v)`, a second `insert(k, w)` hands back `v`, and `get(k)`
/// then finds `w`.
pub proof fn law_insert_twice<K, V>(m: Map<K, V>, k: K, v: V, w: V)
    ensures
        m.insert(k, v).contains_key(k),
        m.insert(k, v)[k] == v,
        m.insert(k, v).insert(k, w)[k] == w,
        m.insert(k, v).insert(k, w) == m.insert(k, w),
{
    assert(m.insert(k, v).insert(k, w) =~= m.insert(k, w));
}

/// After `insert(k, v)`, `remove(k)` hands back `v`, and `get(k)` then finds
/// nothing.
pub proof fn law_insert_then_remove<K, V>(m: Map<K, V>, k: K, v: V)
    ensures
        m.insert(k, v)[k] == v,
        !m.insert(k, v).remove(k).contains_key(k),
        !m.contains_key(k) ==> m.insert(k, v).remove(k) == m,
{
    if !m.contains_key(k) {
        assert(m.insert(k, v).remove(k) =~= m);
    }
}

/// A clone holds the same keys, each with a clone of its value; where cloning
/// a value yields an equal value, the clone equals the map it came from, pair by pair.
pub proof fn law_clone_equal<K, V: Clone>(m: Map<K, V>, c: Map<K, V>)
    requires
        c.dom() == m.dom(),
        forall|k: K| #[trigger] m.contains_key(k) ==> cloned(m[k], c[k]),
        forall|a: V, b: V| #[trigger] cloned(a, b) ==> a == b,
    ensures
        c == m,
{
    assert(c =~= m);
}

/// A table with room for `len + n` elements has room for `len + j` for every
/// `j <= n`: after `reserve(n)`, none of the next `n` insertions grows it.
pub proof fn law_reserve_covers_inserts(len: nat, n: nat, cap: nat, j: nat)
    requires
        cap >= min_capacity_spec((len + n) as int),
        j <= n,
    ensures
        cap >= min_capacity_spec((len + j) as int),
        usable_capacity_spec(cap as int) >= len + j,
{
    assert(min_capacity_spec((len + j) as int) <= min_capacity_spec((len + n) as int)) by (nonlinear_arith)
        requires j <= n;
    assert(cap * 10 >= (len + j) * 11) by (nonlinear_arith)
        requires cap >= ((len + j) * 11 + 9) / 10;
    assert((cap * 10) / 11 >= len + j) by (nonlinear_arith)
        requires cap * 10 >= (len + j) * 11;
}

/// The load-factor policy's two sizes undo each other from below:
/// `min_capacity(usable_capacity(x)) <= x` and
/// `usable_capacity(min_capacity(x)) <= x`.
pub proof fn law_policy_inverse(x: nat)
    ensures
        min_capacity_spec(usable_capacity_spec(x as int)) <= x,
        usable_capacity_spec(min_capacity_spec(x as int)) <= x,
{
    lemma_policy_inverse(x);
}

} // verus!
