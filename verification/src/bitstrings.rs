//! Facts about bit strings (`Seq<bool>`) under the prefix ordering.
//!
//! A prefix `a` is an *ancestor* of `b` when `a` is a bit-wise prefix of
//! `b`; it is a *strict* ancestor when it is also shorter.  These lemmas
//! are the arithmetic of that ordering: transitivity, comparability of
//! two ancestors of one key, and maximality of the longest common prefix.

use vstd::prelude::*;

verus! {

/// `a` is a proper bit-wise prefix of `b`: an ancestor, and shorter.
pub open spec fn strict_prefix_of(a: Seq<bool>, b: Seq<bool>) -> bool {
    a.is_prefix_of(b) && a.len() < b.len()
}

/// The empty bit string is a prefix of every bit string.
pub proof fn lemma_empty_prefix(s: Seq<bool>)
    ensures
        Seq::<bool>::empty().is_prefix_of(s),
{
    assert(Seq::<bool>::empty() =~= s.subrange(0, 0));
}

/// A bit string is a prefix of itself.
pub proof fn lemma_prefix_refl(k: Seq<bool>)
    ensures
        k.is_prefix_of(k),
{
    assert(k =~= k.subrange(0, k.len() as int));
}

/// A prefix agrees with the longer string on every position it covers.
pub proof fn lemma_prefix_index(a: Seq<bool>, b: Seq<bool>, i: int)
    requires
        a.is_prefix_of(b),
        0 <= i < a.len(),
    ensures
        a[i] == b[i],
{
    assert(a[i] == b.subrange(0, a.len() as int)[i]);
}

/// A prefix of equal length is the string itself.
pub proof fn lemma_prefix_same_len(a: Seq<bool>, b: Seq<bool>)
    requires
        a.is_prefix_of(b),
        a.len() == b.len(),
    ensures
        a == b,
{
    assert(b.subrange(0, b.len() as int) =~= b);
}

/// The prefix ordering is transitive.
pub proof fn lemma_prefix_trans(a: Seq<bool>, b: Seq<bool>, c: Seq<bool>)
    requires
        a.is_prefix_of(b),
        b.is_prefix_of(c),
    ensures
        a.is_prefix_of(c),
{
    assert forall|i: int| 0 <= i < a.len() implies a[i] == c[i] by {
        lemma_prefix_index(a, b, i);
        lemma_prefix_index(b, c, i);
    }
    assert(a =~= c.subrange(0, a.len() as int));
}

/// Two ancestors of one key are comparable: the shorter is a prefix of
/// the longer.
pub proof fn lemma_prefix_comparable(a: Seq<bool>, b: Seq<bool>, k: Seq<bool>)
    requires
        a.is_prefix_of(k),
        b.is_prefix_of(k),
        a.len() <= b.len(),
    ensures
        a.is_prefix_of(b),
{
    assert forall|i: int| 0 <= i < a.len() implies a[i] == b[i] by {
        lemma_prefix_index(a, k, i);
        lemma_prefix_index(b, k, i);
    }
    assert(a =~= b.subrange(0, a.len() as int));
}

/// Maximality of the longest common prefix: if `g` is a common prefix of
/// `a` and `b` at whose end the two diverge (or one ends), then every
/// common prefix `x` of `a` and `b` is a prefix of `g`.
pub proof fn lemma_lcp_longest(x: Seq<bool>, a: Seq<bool>, b: Seq<bool>, g: Seq<bool>)
    requires
        x.is_prefix_of(a),
        x.is_prefix_of(b),
        g.is_prefix_of(a),
        g.is_prefix_of(b),
        g.len() < a.len() && g.len() < b.len() ==> a[g.len() as int] != b[g.len() as int],
    ensures
        x.is_prefix_of(g),
{
    if x.len() <= g.len() {
        lemma_prefix_comparable(x, g, a);
    } else {
        // x would extend past the point of divergence, forcing
        // a and b to agree there: contradiction.
        lemma_prefix_index(x, a, g.len() as int);
        lemma_prefix_index(x, b, g.len() as int);
        assert(false);
    }
}

} // verus!
