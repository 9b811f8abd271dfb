//! The trie container: a flat arena of nodes, the structural invariant,
//! the lookup and walk specifications, and the direction resolver.
//!
//! Nodes are linked by arena indices rather than pointers.  A node with
//! `value == None` is a branch node: a pure fork point.  The root always
//! sits at index 0 and carries the zero-length prefix, so it is an
//! ancestor of every key.

use vstd::prelude::*;
use crate::bitstrings::strict_prefix_of;
use crate::bitstrings::lemma_empty_prefix;
use crate::bitstrings::lemma_prefix_index;
use crate::bitstrings::lemma_prefix_same_len;
use crate::bitstrings::lemma_prefix_trans;
use crate::bitstrings::lemma_prefix_refl;
use crate::bitstrings::lemma_prefix_comparable;
use crate::bitstrings::lemma_lcp_longest;
use crate::prefix::Prefix;

verus! {

/// One record of the arena.
pub struct Node<P, T> {
    /// The bit-string position this node occupies in the trie.
    pub prefix: P,
    /// The stored value; `None` marks a branch node.
    pub value: Option<T>,
    /// Child whose prefix continues with a 0 bit.
    pub left: Option<usize>,
    /// Child whose prefix continues with a 1 bit.
    pub right: Option<usize>,
}

/// How insertion must proceed at the node currently visited by the walk.
pub enum DirectionForInsert<P> {
    /// The node's prefix equals the key: reuse this node.
    Reached,
    /// The key strictly extends the node's prefix and the branching side
    /// is empty: attach a new leaf there.
    NewLeaf { right: bool },
    /// The child on the branching side is itself an ancestor of the key:
    /// descend and resolve again there.
    Enter { next: usize, right: bool },
    /// The key is a strict ancestor of the existing child: splice the new
    /// node in between, taking over that child.
    NewChild { right: bool, child_right: bool },
    /// The key and the existing child diverge: synthesize a valueless
    /// branch at their common prefix, with both as its children.
    NewBranch { branch_prefix: P, right: bool, prefix_right: bool },
}

/// The child slot of `n` selected by a branching bit.
pub open spec fn child_of<P, T>(n: Node<P, T>, right: bool) -> Option<usize> {
    if right {
        n.right
    } else {
        n.left
    }
}

/// The per-edge structural invariant: a child is in bounds, its prefix is
/// a strict descendant of its parent's, and the bit immediately after the
/// parent's prefix selects the side the child sits on.
pub open spec fn wf_edge<P: Prefix, T>(t: Seq<Node<P, T>>, i: int, r: bool) -> bool {
    child_of(t[i], r) matches Some(c) ==> {
        &&& (c as int) < t.len()
        &&& t[i].prefix.model().len() < t[c as int].prefix.model().len()
        &&& t[i].prefix.model().is_prefix_of(t[c as int].prefix.model())
        &&& t[c as int].prefix.model()[t[i].prefix.model().len() as int] == r
    }
}

/// The arena's structural invariant: a zero-prefix root at index 0, and
/// every edge well formed.
pub open spec fn table_inv<P: Prefix, T>(t: Seq<Node<P, T>>) -> bool {
    &&& 1 <= t.len()
    &&& t[0].prefix.model() == Seq::<bool>::empty()
    &&& forall|i: int, r: bool| 0 <= i < t.len() ==> #[trigger] wf_edge(t, i, r)
}

/// Exact-match lookup from node `i`: the value stored at the node whose
/// prefix equals `k`, reached by the directional walk, if any.
///
/// The length test on the child keeps the recursion well founded on its
/// own; under the structural invariant it always holds.
pub open spec fn lookup_at<P: Prefix, T>(t: Seq<Node<P, T>>, i: int, k: Seq<bool>) -> Option<T>
    decreases k.len() - t[i].prefix.model().len(),
{
    let p = t[i].prefix.model();
    if p == k {
        t[i].value
    } else {
        match child_of(t[i], k[p.len() as int]) {
            Some(c) => {
                if t[c as int].prefix.model().is_prefix_of(k) && p.len()
                    < t[c as int].prefix.model().len() {
                    lookup_at(t, c as int, k)
                } else {
                    None
                }
            },
            None => None,
        }
    }
}

/// The node where the directional walk for `k` from node `i` ends: the
/// node whose prefix equals `k`, or the last ancestor node visited before
/// the walk finds no ancestor child to enter.
///
/// The length test on the child keeps the recursion well founded on its
/// own; under the structural invariant it always holds.
pub open spec fn walk_dest<P: Prefix, T>(t: Seq<Node<P, T>>, i: int, k: Seq<bool>) -> int
    decreases k.len() - t[i].prefix.model().len(),
{
    let p = t[i].prefix.model();
    if p == k {
        i
    } else {
        match child_of(t[i], k[p.len() as int]) {
            Some(c) => {
                if t[c as int].prefix.model().is_prefix_of(k) && p.len()
                    < t[c as int].prefix.model().len() {
                    walk_dest(t, c as int, k)
                } else {
                    i
                }
            },
            None => i,
        }
    }
}

/// What the resolver's outcome asserts about the arena, the visited node
/// `i` and the key `k`.
pub open spec fn direction_ok<P: Prefix, T>(
    t: Seq<Node<P, T>>,
    i: int,
    k: Seq<bool>,
    d: DirectionForInsert<P>,
) -> bool {
    let p = t[i].prefix.model();
    match d {
        DirectionForInsert::Reached => p == k,
        DirectionForInsert::NewLeaf { right } => {
            &&& strict_prefix_of(p, k)
            &&& right == k[p.len() as int]
            &&& child_of(t[i], right) is None
        },
        DirectionForInsert::Enter { next, right } => {
            &&& strict_prefix_of(p, k)
            &&& right == k[p.len() as int]
            &&& child_of(t[i], right) == Some(next)
            &&& t[next as int].prefix.model().is_prefix_of(k)
        },
        DirectionForInsert::NewChild { right, child_right } => {
            &&& strict_prefix_of(p, k)
            &&& right == k[p.len() as int]
            &&& child_of(t[i], right) matches Some(c) && {
                let cp = t[c as int].prefix.model();
                &&& strict_prefix_of(k, cp)
                &&& child_right == cp[k.len() as int]
            }
        },
        DirectionForInsert::NewBranch { branch_prefix, right, prefix_right } => {
            let bp = branch_prefix.model();
            &&& strict_prefix_of(p, k)
            &&& right == k[p.len() as int]
            &&& child_of(t[i], right) matches Some(c) && {
                let cp = t[c as int].prefix.model();
                &&& strict_prefix_of(bp, k)
                &&& strict_prefix_of(bp, cp)
                &&& p.len() < bp.len()
                &&& k[bp.len() as int] != cp[bp.len() as int]
                &&& prefix_right == k[bp.len() as int]
            }
        },
    }
}

/// The trie map: a dense, index-addressed arena of nodes.
pub struct PrefixMap<P, T> {
    pub table: Vec<Node<P, T>>,
}

impl<P: Prefix, T> PrefixMap<P, T> {
    /// The structural invariant, established by `new` and preserved by
    /// every operation.
    pub open spec fn inv(self) -> bool {
        table_inv(self.table@)
    }

    /// The value stored at key `k`, if any: the map's mathematical
    /// content, read pointwise.
    pub open spec fn spec_get(self, k: Seq<bool>) -> Option<T> {
        lookup_at(self.table@, 0, k)
    }

    /// Whether key `k` holds a value.
    pub open spec fn contains_key(self, k: Seq<bool>) -> bool {
        self.spec_get(k) is Some
    }

    /// The map's content as a mathematical map from bit strings to values.
    pub open spec fn as_map(self) -> Map<Seq<bool>, T> {
        Map::new(|k: Seq<bool>| self.spec_get(k) is Some, |k: Seq<bool>| self.spec_get(k)->Some_0)
    }

    /// An empty trie: a single valueless root at the zero-length prefix.
    pub fn new() -> (r: Self)
        ensures
            r.inv(),
            forall|k: Seq<bool>| r.spec_get(k) is None,
            r.as_map() == Map::<Seq<bool>, T>::empty(),
    {
        let mut table: Vec<Node<P, T>> = Vec::new();
        table.push(Node { prefix: P::zero(), value: None, left: None, right: None });
        let r = PrefixMap { table };
        proof {
            assert(forall|i: int, r2: bool| 0 <= i < r.table@.len() ==> #[trigger] wf_edge(
                r.table@,
                i,
                r2,
            ));
            assert forall|k: Seq<bool>| r.spec_get(k) is None by {
                lemma_empty_prefix(k);
                assert(r.table@[0].prefix.model() =~= Seq::<bool>::empty());
            }
            assert(r.as_map() =~= Map::<Seq<bool>, T>::empty());
        }
        r
    }

    /// Exact-key lookup: walks from the root, descending while the node's
    /// prefix is an ancestor of the key; never mutates, never allocates.
    pub fn get(&self, key: &P) -> (r: Option<&T>)
        requires
            self.inv(),
        ensures
            match r {
                Some(v) => self.spec_get(key.model()) == Some(*v),
                None => self.spec_get(key.model()) is None,
            },
    {
        let ghost t = self.table@;
        let ghost k = key.model();
        let mut cur: usize = 0;
        proof {
            lemma_empty_prefix(k);
            assert(t[0].prefix.model() =~= Seq::<bool>::empty());
        }
        loop
            invariant
                self.inv(),
                t == self.table@,
                k == key.model(),
                cur < t.len(),
                t[cur as int].prefix.model().is_prefix_of(k),
                lookup_at(t, 0, k) == lookup_at(t, cur as int, k),
            decreases k.len() - t[cur as int].prefix.model().len(),
        {
            let node = &self.table[cur];
            let ghost p = node.prefix.model();
            if node.prefix.eq_prefix(key) {
                return node.value.as_ref();
            }
            proof {
                if p.len() == k.len() {
                    lemma_prefix_same_len(p, k);
                }
            }
            let right = key.bit_at(node.prefix.prefix_len());
            let child_opt = if right {
                node.right
            } else {
                node.left
            };
            proof {
                assert(wf_edge(t, cur as int, right));
            }
            match child_opt {
                Some(c) => {
                    let cnode = &self.table[c];
                    if is_ancestor(&cnode.prefix, key) {
                        proof {
                            assert(lookup_at(t, cur as int, k) == lookup_at(t, c as int, k));
                        }
                        cur = c;
                    } else {
                        return None;
                    }
                },
                None => {
                    return None;
                },
            }
        }
    }

    /// Classify how the key relates to the node at `idx`, examining the
    /// child on the key's branching side; pure computation.
    pub fn direction_for_insert(&self, idx: usize, key: &P) -> (d: DirectionForInsert<P>)
        requires
            self.inv(),
            idx < self.table@.len(),
            self.table@[idx as int].prefix.model().is_prefix_of(key.model()),
        ensures
            direction_ok(self.table@, idx as int, key.model(), d),
    {
        let ghost t = self.table@;
        let ghost k = key.model();
        let node = &self.table[idx];
        let ghost p = node.prefix.model();
        if node.prefix.eq_prefix(key) {
            return DirectionForInsert::Reached;
        }
        proof {
            if p.len() == k.len() {
                lemma_prefix_same_len(p, k);
            }
        }
        let right = key.bit_at(node.prefix.prefix_len());
        let child_opt = if right {
            node.right
        } else {
            node.left
        };
        proof {
            assert(wf_edge(t, idx as int, right));
        }
        match child_opt {
            None => DirectionForInsert::NewLeaf { right },
            Some(c) => {
                let cnode = &self.table[c];
                let ghost cp = cnode.prefix.model();
                if is_ancestor(&cnode.prefix, key) {
                    DirectionForInsert::Enter { next: c, right }
                } else if is_ancestor(key, &cnode.prefix) {
                    proof {
                        if k.len() == cp.len() {
                            lemma_prefix_same_len(k, cp);
                        }
                    }
                    let child_right = cnode.prefix.bit_at(key.prefix_len());
                    DirectionForInsert::NewChild { right, child_right }
                } else {
                    let branch_prefix = key.longest_common_prefix(&cnode.prefix);
                    let ghost bp = branch_prefix.model();
                    proof {
                        // The node's prefix is a common prefix of key and
                        // child, so it sits below the longest one.
                        lemma_lcp_longest(p, k, cp, bp);
                        // bp is strictly shorter than both: neither key nor
                        // child is an ancestor of the other here.
                        if bp.len() == k.len() {
                            lemma_prefix_same_len(bp, k);
                        }
                        if bp.len() == cp.len() {
                            lemma_prefix_same_len(bp, cp);
                        }
                        // bp strictly extends p: key and child agree on the
                        // branching bit right after p, so they cannot
                        // diverge there.
                        if bp.len() == p.len() {
                            assert(k[bp.len() as int] != cp[bp.len() as int]);
                            assert(cp[p.len() as int] == right);
                            assert(false);
                        }
                    }
                    let prefix_right = key.bit_at(branch_prefix.prefix_len());
                    DirectionForInsert::NewBranch { branch_prefix, right, prefix_right }
                }
            },
        }
    }
}

/// The walk and the lookup agree: the lookup's result is the value at
/// the walk's destination when that node's prefix equals the key, and
/// absent otherwise.
pub proof fn lemma_walk_lookup<P: Prefix, T>(t: Seq<Node<P, T>>, i: int, k: Seq<bool>)
    requires
        table_inv(t),
        0 <= i < t.len(),
        t[i].prefix.model().is_prefix_of(k),
    ensures
        ({
            let d = walk_dest(t, i, k);
            &&& 0 <= d < t.len()
            &&& t[d].prefix.model().is_prefix_of(k)
            &&& lookup_at(t, i, k) == (if t[d].prefix.model() == k {
                t[d].value
            } else {
                None::<T>
            })
        }),
    decreases k.len() - t[i].prefix.model().len(),
{
    let p = t[i].prefix.model();
    if p == k {
    } else {
        if p.len() == k.len() {
            lemma_prefix_same_len(p, k);
        }
        let b = k[p.len() as int];
        assert(wf_edge(t, i, b));
        match child_of(t[i], b) {
            Some(c) => {
                if t[c as int].prefix.model().is_prefix_of(k) {
                    lemma_walk_lookup(t, c as int, k);
                }
            },
            None => {},
        }
    }
}

/// Two arenas with the same prefixes and links satisfy the invariant
/// together: values play no structural role.
pub proof fn lemma_inv_same_structure<P: Prefix, T>(t1: Seq<Node<P, T>>, t2: Seq<Node<P, T>>)
    requires
        table_inv(t1),
        t1.len() == t2.len(),
        forall|i: int| 0 <= i < t1.len() ==> (#[trigger] t2[i]).prefix == t1[i].prefix
            && t2[i].left == t1[i].left && t2[i].right == t1[i].right,
    ensures
        table_inv(t2),
{
    assert forall|i: int, r: bool| 0 <= i < t2.len() implies #[trigger] wf_edge(t2, i, r) by {
        assert(wf_edge(t1, i, r));
        assert(child_of(t2[i], r) == child_of(t1[i], r));
    }
}

/// Two arenas with the same prefixes and links walk alike: the walk
/// never reads values.
pub proof fn lemma_walk_same_structure<P: Prefix, T>(
    t1: Seq<Node<P, T>>,
    t2: Seq<Node<P, T>>,
    j: int,
    k: Seq<bool>,
)
    requires
        table_inv(t1),
        t1.len() == t2.len(),
        forall|i: int| 0 <= i < t1.len() ==> (#[trigger] t2[i]).prefix == t1[i].prefix
            && t2[i].left == t1[i].left && t2[i].right == t1[i].right,
        0 <= j < t1.len(),
        t1[j].prefix.model().is_prefix_of(k),
    ensures
        walk_dest(t2, j, k) == walk_dest(t1, j, k),
    decreases k.len() - t1[j].prefix.model().len(),
{
    let p = t1[j].prefix.model();
    assert(t2[j].prefix == t1[j].prefix);
    if p == k {
    } else {
        if p.len() == k.len() {
            lemma_prefix_same_len(p, k);
        }
        let b = k[p.len() as int];
        assert(wf_edge(t1, j, b));
        assert(child_of(t2[j], b) == child_of(t1[j], b));
        match child_of(t1[j], b) {
            Some(c) => {
                assert(t2[c as int].prefix == t1[c as int].prefix);
                if t1[c as int].prefix.model().is_prefix_of(k) && p.len() < t1[
                    c as int
                ].prefix.model().len() {
                    lemma_walk_same_structure(t1, t2, c as int, k);
                }
            },
            None => {},
        }
    }
}

/// Committing a `NewLeaf` direction: `t2` extends `t1` with one fresh
/// leaf at index `m` for key `k`, hung on the empty branching side of
/// `idx`.  Every other key looks up the same value as before, and the
/// walk for `k` now ends at the leaf.
pub proof fn lemma_commit_leaf<P: Prefix, T>(
    t1: Seq<Node<P, T>>,
    t2: Seq<Node<P, T>>,
    idx: int,
    m: int,
    k: Seq<bool>,
    right: bool,
    j: int,
    k2: Seq<bool>,
)
    requires
        table_inv(t1),
        table_inv(t2),
        0 <= idx < t1.len(),
        m == t1.len(),
        m <= usize::MAX as int,
        t2.len() == t1.len() + 1,
        forall|i: int| 0 <= i < t1.len() && i != idx ==> t2[i] == t1[i],
        t2[idx].prefix == t1[idx].prefix,
        t2[idx].value == t1[idx].value,
        child_of(t2[idx], !right) == child_of(t1[idx], !right),
        child_of(t2[idx], right) == Some(m as usize),
        child_of(t1[idx], right) is None,
        t2[m].prefix.model() == k,
        t2[m].left is None,
        t2[m].right is None,
        strict_prefix_of(t1[idx].prefix.model(), k),
        right == k[t1[idx].prefix.model().len() as int],
        0 <= j < t1.len(),
        t1[j].prefix.model().is_prefix_of(k2),
    ensures
        k2 != k ==> lookup_at(t2, j, k2) == lookup_at(t1, j, k2),
        k2 == k && walk_dest(t1, j, k2) == idx ==> walk_dest(t2, j, k2) == m && lookup_at(
            t2,
            j,
            k2,
        ) == t2[m].value,
    decreases k2.len() - t1[j].prefix.model().len(),
{
    let p = t1[j].prefix.model();
    assert(t2[j].prefix == t1[j].prefix);
    if p == k2 {
        // Terminal at j in both arenas; if this is the inserted key the
        // destination hypothesis cannot point at idx, whose prefix is
        // strictly shorter than k.
        assert(t2[j].value == t1[j].value);
    } else {
        if p.len() == k2.len() {
            lemma_prefix_same_len(p, k2);
        }
        let b = k2[p.len() as int];
        assert(wf_edge(t1, j, b));
        assert(wf_edge(t2, j, b));
        if j == idx && b == right {
            if k2 == k {
                lemma_prefix_refl(k);
                assert(walk_dest(t2, j, k2) == walk_dest(t2, m, k2));
                assert(walk_dest(t2, m, k2) == m);
                assert(lookup_at(t2, j, k2) == lookup_at(t2, m, k2));
            } else {
                // In t1 the slot is empty: the key is absent.
                assert(lookup_at(t1, j, k2) == None::<T>);
                if k.is_prefix_of(k2) {
                    if k.len() == k2.len() {
                        lemma_prefix_same_len(k, k2);
                    }
                    // Descend into the leaf: it has no children, so the
                    // lookup still comes up empty.
                    assert(lookup_at(t2, j, k2) == lookup_at(t2, m, k2));
                    assert(lookup_at(t2, m, k2) == None::<T>);
                } else {
                    assert(lookup_at(t2, j, k2) == None::<T>);
                }
            }
        } else {
            assert(child_of(t2[j], b) == child_of(t1[j], b));
            if k2 == k && j == idx {
                assert(b == right);
            }
            match child_of(t1[j], b) {
                Some(c) => {
                    assert(t2[c as int].prefix == t1[c as int].prefix);
                    if t1[c as int].prefix.model().is_prefix_of(k2) && p.len() < t1[
                        c as int
                    ].prefix.model().len() {
                        lemma_commit_leaf(t1, t2, idx, m, k, right, c as int, k2);
                        assert(lookup_at(t1, j, k2) == lookup_at(t1, c as int, k2));
                        assert(lookup_at(t2, j, k2) == lookup_at(t2, c as int, k2));
                        assert(walk_dest(t1, j, k2) == walk_dest(t1, c as int, k2));
                        assert(walk_dest(t2, j, k2) == walk_dest(t2, c as int, k2));
                    } else {
                        assert(lookup_at(t1, j, k2) == None::<T>);
                        assert(lookup_at(t2, j, k2) == None::<T>);
                        assert(walk_dest(t1, j, k2) == j);
                    }
                },
                None => {
                    assert(lookup_at(t1, j, k2) == None::<T>);
                    assert(lookup_at(t2, j, k2) == None::<T>);
                    assert(walk_dest(t1, j, k2) == j);
                },
            }
        }
    }
}

/// Committing a `NewChild` direction: `t2` extends `t1` with one fresh
/// node at index `m` for key `k`, spliced between `idx` and its former
/// child `c`, whose prefix the key strictly covers.  Every other key
/// looks up the same value as before, and the walk for `k` ends at `m`.
pub proof fn lemma_commit_child<P: Prefix, T>(
    t1: Seq<Node<P, T>>,
    t2: Seq<Node<P, T>>,
    idx: int,
    m: int,
    c: usize,
    k: Seq<bool>,
    right: bool,
    cr: bool,
    j: int,
    k2: Seq<bool>,
)
    requires
        table_inv(t1),
        table_inv(t2),
        0 <= idx < t1.len(),
        m == t1.len(),
        m <= usize::MAX as int,
        t2.len() == t1.len() + 1,
        forall|i: int| 0 <= i < t1.len() && i != idx ==> t2[i] == t1[i],
        t2[idx].prefix == t1[idx].prefix,
        t2[idx].value == t1[idx].value,
        child_of(t2[idx], !right) == child_of(t1[idx], !right),
        child_of(t2[idx], right) == Some(m as usize),
        child_of(t1[idx], right) == Some(c),
        t2[m].prefix.model() == k,
        child_of(t2[m], cr) == Some(c),
        child_of(t2[m], !cr) is None,
        strict_prefix_of(t1[idx].prefix.model(), k),
        right == k[t1[idx].prefix.model().len() as int],
        strict_prefix_of(k, t1[c as int].prefix.model()),
        cr == t1[c as int].prefix.model()[k.len() as int],
        0 <= j < t1.len(),
        t1[j].prefix.model().is_prefix_of(k2),
    ensures
        k2 != k ==> lookup_at(t2, j, k2) == lookup_at(t1, j, k2),
        k2 == k && walk_dest(t1, j, k2) == idx ==> walk_dest(t2, j, k2) == m && lookup_at(
            t2,
            j,
            k2,
        ) == t2[m].value,
    decreases k2.len() - t1[j].prefix.model().len(),
{
    let p = t1[j].prefix.model();
    let cp = t1[c as int].prefix.model();
    assert(t2[j].prefix == t1[j].prefix);
    if p == k2 {
        assert(t2[j].value == t1[j].value);
    } else {
        if p.len() == k2.len() {
            lemma_prefix_same_len(p, k2);
        }
        let b = k2[p.len() as int];
        assert(wf_edge(t1, j, b));
        assert(wf_edge(t2, j, b));
        if j == idx && b == right {
            lemma_prefix_refl(k);
            if k2 == k {
                assert(walk_dest(t2, j, k2) == walk_dest(t2, m, k2));
                assert(walk_dest(t2, m, k2) == m);
                assert(lookup_at(t2, j, k2) == lookup_at(t2, m, k2));
            } else {
                if k.is_prefix_of(k2) {
                    if k.len() == k2.len() {
                        lemma_prefix_same_len(k, k2);
                    }
                    assert(lookup_at(t2, j, k2) == lookup_at(t2, m, k2));
                    let b2 = k2[k.len() as int];
                    if b2 == cr {
                        if cp.is_prefix_of(k2) {
                            assert(lookup_at(t2, m, k2) == lookup_at(t2, c as int, k2));
                            assert(lookup_at(t1, j, k2) == lookup_at(t1, c as int, k2));
                            lemma_commit_child(t1, t2, idx, m, c, k, right, cr, c as int, k2);
                        } else {
                            assert(lookup_at(t2, m, k2) == None::<T>);
                            assert(lookup_at(t1, j, k2) == None::<T>);
                        }
                    } else {
                        assert(lookup_at(t2, m, k2) == None::<T>);
                        if cp.is_prefix_of(k2) {
                            lemma_prefix_index(cp, k2, k.len() as int);
                            assert(false);
                        }
                        assert(lookup_at(t1, j, k2) == None::<T>);
                    }
                } else {
                    assert(lookup_at(t2, j, k2) == None::<T>);
                    if cp.is_prefix_of(k2) {
                        lemma_prefix_trans(k, cp, k2);
                        assert(false);
                    }
                    assert(lookup_at(t1, j, k2) == None::<T>);
                }
            }
        } else {
            assert(child_of(t2[j], b) == child_of(t1[j], b));
            if k2 == k && j == idx {
                assert(b == right);
            }
            match child_of(t1[j], b) {
                Some(cc) => {
                    assert(t2[cc as int].prefix == t1[cc as int].prefix);
                    if t1[cc as int].prefix.model().is_prefix_of(k2) && p.len() < t1[
                        cc as int
                    ].prefix.model().len() {
                        lemma_commit_child(t1, t2, idx, m, c, k, right, cr, cc as int, k2);
                        assert(lookup_at(t1, j, k2) == lookup_at(t1, cc as int, k2));
                        assert(lookup_at(t2, j, k2) == lookup_at(t2, cc as int, k2));
                        assert(walk_dest(t1, j, k2) == walk_dest(t1, cc as int, k2));
                        assert(walk_dest(t2, j, k2) == walk_dest(t2, cc as int, k2));
                    } else {
                        assert(lookup_at(t1, j, k2) == None::<T>);
                        assert(lookup_at(t2, j, k2) == None::<T>);
                        assert(walk_dest(t1, j, k2) == j);
                    }
                },
                None => {
                    assert(lookup_at(t1, j, k2) == None::<T>);
                    assert(lookup_at(t2, j, k2) == None::<T>);
                    assert(walk_dest(t1, j, k2) == j);
                },
            }
        }
    }
}

/// Committing a `NewBranch` direction: `t2` extends `t1` with a fresh
/// valueless branch node at index `mb` (at the longest common prefix of
/// the key and the diverging child `c`) and a fresh leaf at `mn` for the
/// key; the branch takes over `c` on the opposite side.  Every other key
/// looks up the same value as before, and the walk for `k` ends at `mn`.
pub proof fn lemma_commit_branch<P: Prefix, T>(
    t1: Seq<Node<P, T>>,
    t2: Seq<Node<P, T>>,
    idx: int,
    mb: int,
    mn: int,
    c: usize,
    k: Seq<bool>,
    right: bool,
    pr: bool,
    j: int,
    k2: Seq<bool>,
)
    requires
        table_inv(t1),
        table_inv(t2),
        0 <= idx < t1.len(),
        mb == t1.len(),
        mn == t1.len() + 1,
        mn <= usize::MAX as int,
        t2.len() == t1.len() + 2,
        forall|i: int| 0 <= i < t1.len() && i != idx ==> t2[i] == t1[i],
        t2[idx].prefix == t1[idx].prefix,
        t2[idx].value == t1[idx].value,
        child_of(t2[idx], !right) == child_of(t1[idx], !right),
        child_of(t2[idx], right) == Some(mb as usize),
        child_of(t1[idx], right) == Some(c),
        t2[mb].value is None,
        child_of(t2[mb], pr) == Some(mn as usize),
        child_of(t2[mb], !pr) == Some(c),
        t2[mn].prefix.model() == k,
        t2[mn].left is None,
        t2[mn].right is None,
        strict_prefix_of(t1[idx].prefix.model(), k),
        right == k[t1[idx].prefix.model().len() as int],
        strict_prefix_of(t2[mb].prefix.model(), k),
        strict_prefix_of(t2[mb].prefix.model(), t1[c as int].prefix.model()),
        t1[idx].prefix.model().len() < t2[mb].prefix.model().len(),
        k[t2[mb].prefix.model().len() as int] != t1[c as int].prefix.model()[t2[
            mb
        ].prefix.model().len() as int],
        pr == k[t2[mb].prefix.model().len() as int],
        0 <= j < t1.len(),
        t1[j].prefix.model().is_prefix_of(k2),
    ensures
        k2 != k ==> lookup_at(t2, j, k2) == lookup_at(t1, j, k2),
        k2 == k && walk_dest(t1, j, k2) == idx ==> walk_dest(t2, j, k2) == mn && lookup_at(
            t2,
            j,
            k2,
        ) == t2[mn].value,
    decreases k2.len() - t1[j].prefix.model().len(),
{
    let p = t1[j].prefix.model();
    let cp = t1[c as int].prefix.model();
    let bp = t2[mb].prefix.model();
    assert(t2[j].prefix == t1[j].prefix);
    if p == k2 {
        assert(t2[j].value == t1[j].value);
    } else {
        if p.len() == k2.len() {
            lemma_prefix_same_len(p, k2);
        }
        let b = k2[p.len() as int];
        assert(wf_edge(t1, j, b));
        assert(wf_edge(t2, j, b));
        if j == idx && b == right {
            lemma_prefix_refl(k);
            if k2 == k {
                assert(walk_dest(t2, j, k2) == walk_dest(t2, mb, k2));
                assert(walk_dest(t2, mb, k2) == walk_dest(t2, mn, k2));
                assert(walk_dest(t2, mn, k2) == mn);
                assert(lookup_at(t2, j, k2) == lookup_at(t2, mb, k2));
                assert(lookup_at(t2, mb, k2) == lookup_at(t2, mn, k2));
            } else {
                if bp.is_prefix_of(k2) {
                    assert(lookup_at(t2, j, k2) == lookup_at(t2, mb, k2));
                    if bp.len() == k2.len() {
                        lemma_prefix_same_len(bp, k2);
                        // k2 is the branch prefix itself: a valueless node.
                        assert(lookup_at(t2, mb, k2) == None::<T>);
                        assert(lookup_at(t1, j, k2) == None::<T>);
                    } else {
                        let b3 = k2[bp.len() as int];
                        if b3 == pr {
                            if k.is_prefix_of(k2) {
                                if k.len() == k2.len() {
                                    lemma_prefix_same_len(k, k2);
                                }
                                assert(lookup_at(t2, mb, k2) == lookup_at(t2, mn, k2));
                                assert(lookup_at(t2, mn, k2) == None::<T>);
                            } else {
                                assert(lookup_at(t2, mb, k2) == None::<T>);
                            }
                            if cp.is_prefix_of(k2) {
                                lemma_prefix_index(cp, k2, bp.len() as int);
                                assert(false);
                            }
                            assert(lookup_at(t1, j, k2) == None::<T>);
                        } else {
                            if cp.is_prefix_of(k2) {
                                assert(lookup_at(t2, mb, k2) == lookup_at(t2, c as int, k2));
                                assert(lookup_at(t1, j, k2) == lookup_at(t1, c as int, k2));
                                lemma_commit_branch(
                                    t1,
                                    t2,
                                    idx,
                                    mb,
                                    mn,
                                    c,
                                    k,
                                    right,
                                    pr,
                                    c as int,
                                    k2,
                                );
                            } else {
                                assert(lookup_at(t2, mb, k2) == None::<T>);
                                assert(lookup_at(t1, j, k2) == None::<T>);
                            }
                        }
                    }
                } else {
                    assert(lookup_at(t2, j, k2) == None::<T>);
                    if cp.is_prefix_of(k2) {
                        lemma_prefix_trans(bp, cp, k2);
                        assert(false);
                    }
                    assert(lookup_at(t1, j, k2) == None::<T>);
                }
            }
        } else {
            assert(child_of(t2[j], b) == child_of(t1[j], b));
            if k2 == k && j == idx {
                assert(b == right);
            }
            match child_of(t1[j], b) {
                Some(cc) => {
                    assert(t2[cc as int].prefix == t1[cc as int].prefix);
                    if t1[cc as int].prefix.model().is_prefix_of(k2) && p.len() < t1[
                        cc as int
                    ].prefix.model().len() {
                        lemma_commit_branch(t1, t2, idx, mb, mn, c, k, right, pr, cc as int, k2);
                        assert(lookup_at(t1, j, k2) == lookup_at(t1, cc as int, k2));
                        assert(lookup_at(t2, j, k2) == lookup_at(t2, cc as int, k2));
                        assert(walk_dest(t1, j, k2) == walk_dest(t1, cc as int, k2));
                        assert(walk_dest(t2, j, k2) == walk_dest(t2, cc as int, k2));
                    } else {
                        assert(lookup_at(t1, j, k2) == None::<T>);
                        assert(lookup_at(t2, j, k2) == None::<T>);
                        assert(walk_dest(t1, j, k2) == j);
                    }
                },
                None => {
                    assert(lookup_at(t1, j, k2) == None::<T>);
                    assert(lookup_at(t2, j, k2) == None::<T>);
                    assert(walk_dest(t1, j, k2) == j);
                },
            }
        }
    }
}

/// `t2` differs from `t1` at most in the value slot of node `idx`:
/// same length, same nodes elsewhere, same prefix and links at `idx`.
pub open spec fn value_only_change<P, T>(t1: Seq<Node<P, T>>, t2: Seq<Node<P, T>>, idx: int) -> bool {
    &&& t2.len() == t1.len()
    &&& forall|i: int| 0 <= i < t1.len() && i != idx ==> t2[i] == t1[i]
    &&& t2[idx].prefix == t1[idx].prefix
    &&& t2[idx].left == t1[idx].left
    &&& t2[idx].right == t1[idx].right
}

/// Changing the value slot of the node where the walk for `k` ends
/// changes the lookup at `k` alone, and no walk at all.
pub proof fn lemma_value_only_change<P: Prefix, T>(
    t1: Seq<Node<P, T>>,
    t2: Seq<Node<P, T>>,
    idx: int,
    k: Seq<bool>,
)
    requires
        table_inv(t1),
        0 <= idx < t1.len(),
        value_only_change(t1, t2, idx),
        t1[idx].prefix.model() == k,
        walk_dest(t1, 0, k) == idx,
    ensures
        table_inv(t2),
        walk_dest(t2, 0, k) == idx,
        lookup_at(t2, 0, k) == t2[idx].value,
        forall|k2: Seq<bool>| k2 != k ==> lookup_at(t2, 0, k2) == lookup_at(t1, 0, k2),
{
    lemma_inv_same_structure(t1, t2);
    lemma_empty_prefix(k);
    lemma_walk_same_structure(t1, t2, 0, k);
    lemma_walk_lookup(t2, 0, k);
    assert forall|k2: Seq<bool>| k2 != k implies lookup_at(t2, 0, k2) == lookup_at(t1, 0, k2) by {
        lemma_empty_prefix(k2);
        lemma_walk_same_structure(t1, t2, 0, k2);
        lemma_walk_lookup(t1, 0, k2);
        lemma_walk_lookup(t2, 0, k2);
        let d = walk_dest(t1, 0, k2);
        if d != idx {
            assert(t2[d] == t1[d]);
        }
    }
}

/// A map whose content equals another's except that `k` now holds `v`
/// is, as a mathematical map, the other with `k` bound to `v`.
pub proof fn lemma_as_map_insert<P: Prefix, T>(
    m1: PrefixMap<P, T>,
    m2: PrefixMap<P, T>,
    k: Seq<bool>,
    v: T,
)
    requires
        m2.spec_get(k) == Some(v),
        forall|k2: Seq<bool>| k2 != k ==> m2.spec_get(k2) == m1.spec_get(k2),
    ensures
        m2.as_map() == m1.as_map().insert(k, v),
{
    assert forall|k2: Seq<bool>| #[trigger] m2.as_map().dom().contains(k2) <==> m1.as_map().insert(
        k,
        v,
    ).dom().contains(k2) by {}
    assert(m2.as_map() =~= m1.as_map().insert(k, v));
}

/// Whether `a`'s bit string is an ancestor-or-equal of `b`'s.
pub fn is_ancestor<P: Prefix>(a: &P, b: &P) -> (r: bool)
    ensures
        r == a.model().is_prefix_of(b.model()),
{
    let c = a.common_prefix_len(b);
    let r = c == a.prefix_len();
    proof {
        let am = a.model();
        let bm = b.model();
        if c == am.len() {
            assert(am =~= bm.subrange(0, am.len() as int)) by {
                assert forall|j: int| 0 <= j < am.len() implies am[j] == bm.subrange(
                    0,
                    am.len() as int,
                )[j] by {
                    assert(am.subrange(0, c as int)[j] == bm.subrange(0, c as int)[j]);
                }
            }
        } else {
            if am.is_prefix_of(bm) {
                lemma_prefix_index(am, bm, c as int);
                assert(false);
            }
        }
    }
    r
}

} // verus!
