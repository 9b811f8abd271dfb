//! The container's laws, stated over the mathematical content of the map
//! and proved from the contracts of its operations.
//!
//! Each operation's `ensures` describes the new content in terms of the
//! old; the lemmas here spell out what those descriptions add up to for
//! a reader: round trips, replacement, observational agreement of the
//! two insertion paths, exact-match lookup, and the shape of removal.

use vstd::prelude::*;
use crate::bitstrings::strict_prefix_of;
use crate::prefix::Prefix;
use crate::map::PrefixMap;
use crate::map::value_only_change;
use crate::map::wf_edge;

verus! {

/// Round trip: a map whose content arose from binding `k` to `v` holds
/// exactly `v` at `k`.  With `insert`'s contract, inserting `v` at `k`
/// and then calling `get(k)` yields `v`.
pub proof fn lemma_round_trip<P: Prefix, T>(
    m1: PrefixMap<P, T>,
    m2: PrefixMap<P, T>,
    k: Seq<bool>,
    v: T,
)
    requires
        m2.as_map() == m1.as_map().insert(k, v),
    ensures
        m2.spec_get(k) == Some(v),
{
    assert(m2.as_map().dom().contains(k));
    assert(m2.as_map()[k] == v);
}

/// Replacement: binding `k` to `v1` and then to `v2` leaves `v2` at `k`;
/// the middle map held `v1` there, which is what the second `insert`
/// reports replacing, and every other key still holds what it began
/// with.
pub proof fn lemma_replacement<P: Prefix, T>(
    m0: PrefixMap<P, T>,
    m1: PrefixMap<P, T>,
    m2: PrefixMap<P, T>,
    k: Seq<bool>,
    v1: T,
    v2: T,
)
    requires
        m1.as_map() == m0.as_map().insert(k, v1),
        m2.as_map() == m1.as_map().insert(k, v2),
        forall|k2: Seq<bool>| k2 != k ==> m1.spec_get(k2) == m0.spec_get(k2),
        forall|k2: Seq<bool>| k2 != k ==> m2.spec_get(k2) == m1.spec_get(k2),
    ensures
        m1.spec_get(k) == Some(v1),
        m2.spec_get(k) == Some(v2),
        forall|k2: Seq<bool>| k2 != k ==> m2.spec_get(k2) == m0.spec_get(k2),
{
    lemma_round_trip(m0, m1, k, v1);
    lemma_round_trip(m1, m2, k, v2);
}

/// Entry/insert equivalence: `entry(k)` followed by the entry's `insert`
/// and the map's own `insert` promise one and the same outcome — the
/// prior value as the result, and the old content with `k` bound to the
/// value.  Any two maps and results satisfying those promises agree
/// observationally.
pub proof fn lemma_entry_insert_equivalence<P: Prefix, T>(
    m: PrefixMap<P, T>,
    ma: PrefixMap<P, T>,
    mb: PrefixMap<P, T>,
    k: Seq<bool>,
    v: T,
    ra: Option<T>,
    rb: Option<T>,
)
    requires
        ma.as_map() == m.as_map().insert(k, v),
        ra == m.spec_get(k),
        mb.as_map() == m.as_map().insert(k, v),
        rb == m.spec_get(k),
    ensures
        ma.as_map() == mb.as_map(),
        ra == rb,
{
}

/// Structural invariant: in a well-formed trie every child is a strict,
/// length-increasing descendant of its parent, and where both children
/// are present their prefixes diverge at the bit immediately after the
/// parent's own prefix length: 0 on the left, 1 on the right.
pub proof fn lemma_structure<P: Prefix, T>(m: PrefixMap<P, T>, i: int)
    requires
        m.inv(),
        0 <= i < m.table@.len(),
    ensures
        m.table@[i].left matches Some(c) ==> (c as int) < m.table@.len() && strict_prefix_of(
            m.table@[i].prefix.model(),
            m.table@[c as int].prefix.model(),
        ) && m.table@[c as int].prefix.model()[m.table@[i].prefix.model().len() as int] == false,
        m.table@[i].right matches Some(c) ==> (c as int) < m.table@.len() && strict_prefix_of(
            m.table@[i].prefix.model(),
            m.table@[c as int].prefix.model(),
        ) && m.table@[c as int].prefix.model()[m.table@[i].prefix.model().len() as int] == true,
{
    assert(wf_edge(m.table@, i, false));
    assert(wf_edge(m.table@, i, true));
}

/// Exact-match lookup: starting from an empty map, inserting only an
/// ancestor prefix `b` leaves every strictly longer descendant key `a`
/// absent — placement is prefix-aware, lookup is not longest-prefix
/// match.
pub proof fn lemma_ancestor_lookup<P: Prefix, T>(
    m0: PrefixMap<P, T>,
    m1: PrefixMap<P, T>,
    a: Seq<bool>,
    b: Seq<bool>,
    x: T,
)
    requires
        forall|k2: Seq<bool>| m0.spec_get(k2) is None,
        m1.spec_get(b) == Some(x),
        forall|k2: Seq<bool>| k2 != b ==> m1.spec_get(k2) == m0.spec_get(k2),
        strict_prefix_of(b, a),
    ensures
        m1.spec_get(a) is None,
{
    assert(a != b);
}

/// Removal leaves a branch: clearing the value of one key changes no
/// node's prefix or links and no other key's value, so a stored
/// descendant is unaffected while the cleared key reads as absent.
pub proof fn lemma_removal_leaves_branch<P: Prefix, T>(
    m1: PrefixMap<P, T>,
    m2: PrefixMap<P, T>,
    idx: int,
    k1: Seq<bool>,
    k2: Seq<bool>,
)
    requires
        value_only_change(m1.table@, m2.table@, idx),
        m2.spec_get(k1) is None,
        forall|q: Seq<bool>| q != k1 ==> m2.spec_get(q) == m1.spec_get(q),
        k1 != k2,
    ensures
        m2.spec_get(k2) == m1.spec_get(k2),
        m2.table@.len() == m1.table@.len(),
{
}

} // verus!
