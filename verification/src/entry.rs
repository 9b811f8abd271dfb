//! The entry abstraction: inspect-then-mutate without repeating the walk.
//!
//! `entry` walks the trie once and captures the outcome: either the key's
//! node exists and holds a value (`Occupied`), or the exact structural
//! recipe for inserting it (`Vacant`).  Committing a vacant entry performs
//! the arena mutation the captured direction describes.  An entry is tied
//! to the map value it was computed from by its well-formedness predicate,
//! which every committing operation requires.

use vstd::prelude::*;
use vstd::pervasive::unreached;
use core::marker::PhantomData;
use crate::bitstrings::lemma_empty_prefix;
use crate::bitstrings::lemma_prefix_index;
use crate::bitstrings::lemma_prefix_comparable;
use crate::prefix::Prefix;
use crate::map::PrefixMap;
use crate::map::Node;
use crate::map::DirectionForInsert;
use crate::map::child_of;
use crate::map::wf_edge;
use crate::map::table_inv;
use crate::map::lookup_at;
use crate::map::walk_dest;
use crate::map::direction_ok;
use crate::map::lemma_walk_lookup;
use crate::map::lemma_inv_same_structure;
use crate::map::lemma_walk_same_structure;
use crate::map::lemma_commit_leaf;
use crate::map::lemma_commit_child;
use crate::map::lemma_commit_branch;
use crate::map::value_only_change;
use crate::map::lemma_value_only_change;
use crate::map::lemma_as_map_insert;

verus! {

/// A mutable view into a single entry of the map, vacant or occupied.
pub enum Entry<P, T> {
    /// The key holds no value yet; carries the insertion recipe.
    Vacant(VacantEntry<P, T>),
    /// The key's node exists and holds a value.
    Occupied(OccupiedEntry<P, T>),
}

/// A view into a missing entry: the walk's terminal position and the
/// direction describing how the key's node must be created.
pub struct VacantEntry<P, T> {
    /// The key to be inserted.
    pub prefix: P,
    /// The node at which the walk ended.
    pub idx: usize,
    /// The structural recipe computed by the direction resolver.
    pub direction: DirectionForInsert<P>,
    /// The value type this entry will store.
    pub marker: PhantomData<T>,
}

/// A view into an existing entry: the index of the key's node.
pub struct OccupiedEntry<P, T> {
    /// The key that was looked up.
    pub prefix: P,
    /// The index of the node whose prefix equals the key.
    pub idx: usize,
    /// The value type this entry stores.
    pub marker: PhantomData<T>,
}

/// How many nodes committing this direction allocates.
pub open spec fn new_node_count<P>(d: DirectionForInsert<P>) -> int {
    match d {
        DirectionForInsert::Reached => 0,
        DirectionForInsert::NewLeaf { .. } => 1,
        DirectionForInsert::Enter { .. } => 0,
        DirectionForInsert::NewChild { .. } => 1,
        DirectionForInsert::NewBranch { .. } => 2,
    }
}

impl<P: Prefix, T> OccupiedEntry<P, T> {
    /// This entry matches the map: the walk for its key ends at `idx`,
    /// whose node carries the key's bit string and a value.
    pub open spec fn wf(self, m: PrefixMap<P, T>) -> bool {
        &&& m.inv()
        &&& (self.idx as int) < m.table@.len()
        &&& m.table@[self.idx as int].prefix.model() == self.prefix.model()
        &&& m.table@[self.idx as int].value is Some
        &&& walk_dest(m.table@, 0, self.prefix.model()) == self.idx as int
    }
}

impl<P: Prefix, T> VacantEntry<P, T> {
    /// This entry matches the map: the walk for its key ends at `idx`
    /// with the captured terminal direction, and the key holds no value.
    pub open spec fn wf(self, m: PrefixMap<P, T>) -> bool {
        &&& m.inv()
        &&& (self.idx as int) < m.table@.len()
        &&& m.table@[self.idx as int].prefix.model().is_prefix_of(self.prefix.model())
        &&& walk_dest(m.table@, 0, self.prefix.model()) == self.idx as int
        &&& direction_ok(m.table@, self.idx as int, self.prefix.model(), self.direction)
        &&& !(self.direction is Enter)
        &&& (self.direction is Reached ==> m.table@[self.idx as int].value is None)
    }
}

impl<P: Prefix, T> Entry<P, T> {
    /// This entry matches the map it was computed from.
    pub open spec fn wf(self, m: PrefixMap<P, T>) -> bool {
        match self {
            Entry::Vacant(e) => e.wf(m),
            Entry::Occupied(e) => e.wf(m),
        }
    }

    /// The bit string of the key this entry is for.
    pub open spec fn key_model(self) -> Seq<bool> {
        match self {
            Entry::Vacant(e) => e.prefix.model(),
            Entry::Occupied(e) => e.prefix.model(),
        }
    }
}

impl<P: Prefix, T> PrefixMap<P, T> {
    /// Locate the entry for a key: one walk from the root, applying the
    /// direction resolver until it yields a terminal direction.  The
    /// entry is occupied exactly when the key holds a value.
    pub fn entry(&self, prefix: P) -> (e: Entry<P, T>)
        requires
            self.inv(),
        ensures
            e.wf(*self),
            e.key_model() == prefix.model(),
            (e is Occupied) <==> self.contains_key(prefix.model()),
    {
        let ghost t = self.table@;
        let ghost k = prefix.model();
        let mut cur: usize = 0;
        proof {
            lemma_empty_prefix(k);
            lemma_walk_lookup(t, 0, k);
        }
        loop
            invariant
                self.inv(),
                t == self.table@,
                k == prefix.model(),
                cur < t.len(),
                t[cur as int].prefix.model().is_prefix_of(k),
                walk_dest(t, 0, k) == walk_dest(t, cur as int, k),
                lookup_at(t, 0, k) == (if t[walk_dest(t, 0, k)].prefix.model() == k {
                    t[walk_dest(t, 0, k)].value
                } else {
                    None::<T>
                }),
            decreases k.len() - t[cur as int].prefix.model().len(),
        {
            let d = self.direction_for_insert(cur, &prefix);
            let ghost p = t[cur as int].prefix.model();
            match d {
                DirectionForInsert::Enter { next, right } => {
                    proof {
                        assert(wf_edge(t, cur as int, right));
                        assert(walk_dest(t, cur as int, k) == walk_dest(t, next as int, k));
                    }
                    cur = next;
                },
                DirectionForInsert::Reached => {
                    proof {
                        assert(walk_dest(t, cur as int, k) == cur as int);
                    }
                    let node = &self.table[cur];
                    if node.value.is_some() {
                        return Entry::Occupied(
                            OccupiedEntry { prefix, idx: cur, marker: PhantomData },
                        );
                    } else {
                        return Entry::Vacant(
                            VacantEntry {
                                prefix,
                                idx: cur,
                                direction: DirectionForInsert::Reached,
                                marker: PhantomData,
                            },
                        );
                    }
                },
                DirectionForInsert::NewLeaf { right } => {
                    proof {
                        assert(walk_dest(t, cur as int, k) == cur as int);
                    }
                    return Entry::Vacant(
                        VacantEntry {
                            prefix,
                            idx: cur,
                            direction: DirectionForInsert::NewLeaf { right },
                            marker: PhantomData,
                        },
                    );
                },
                DirectionForInsert::NewChild { right, child_right } => {
                    proof {
                        assert(walk_dest(t, cur as int, k) == cur as int);
                    }
                    return Entry::Vacant(
                        VacantEntry {
                            prefix,
                            idx: cur,
                            direction: DirectionForInsert::NewChild { right, child_right },
                            marker: PhantomData,
                        },
                    );
                },
                DirectionForInsert::NewBranch { branch_prefix, right, prefix_right } => {
                    proof {
                        let c = child_of(t[cur as int], right)->Some_0;
                        let cp = t[c as int].prefix.model();
                        let bp = branch_prefix.model();
                        if cp.is_prefix_of(k) {
                            lemma_prefix_index(cp, k, bp.len() as int);
                            assert(false);
                        }
                        assert(walk_dest(t, cur as int, k) == cur as int);
                    }
                    return Entry::Vacant(
                        VacantEntry {
                            prefix,
                            idx: cur,
                            direction: DirectionForInsert::NewBranch {
                                branch_prefix,
                                right,
                                prefix_right,
                            },
                            marker: PhantomData,
                        },
                    );
                },
            }
        }
    }
}

impl<P: Prefix, T> VacantEntry<P, T> {
    /// Commit the captured recipe: create exactly the nodes the direction
    /// specifies, link them, and store `v` at the key's node, whose index
    /// is returned.  Every other key's value is untouched.
    fn commit(self, map: &mut PrefixMap<P, T>, v: T) -> (r: usize)
        requires
            self.wf(*old(map)),
        ensures
            final(map).inv(),
            (r as int) < final(map).table@.len(),
            final(map).table@[r as int].prefix.model() == self.prefix.model(),
            final(map).table@[r as int].value == Some(v),
            walk_dest(final(map).table@, 0, self.prefix.model()) == r as int,
            old(map).spec_get(self.prefix.model()) is None,
            final(map).spec_get(self.prefix.model()) == Some(v),
            forall|k2: Seq<bool>|
                k2 != self.prefix.model() ==> final(map).spec_get(k2) == old(map).spec_get(k2),
            final(map).table@.len() == old(map).table@.len() + new_node_count(self.direction),
    {
        let ghost t1 = map.table@;
        let ghost k = self.prefix.model();
        let idx = self.idx;
        proof {
            lemma_empty_prefix(k);
            lemma_walk_lookup(t1, 0, k);
        }
        match self.direction {
            DirectionForInsert::Reached => {
                let nref = &mut map.table[idx];
                nref.value = Some(v);
                proof {
                    let t2 = map.table@;
                    assert(forall|i: int| 0 <= i < t1.len() && i != idx ==> t2[i] == t1[i]);
                    lemma_inv_same_structure(t1, t2);
                    assert forall|k2: Seq<bool>| k2 != k implies lookup_at(t2, 0, k2) == lookup_at(
                        t1,
                        0,
                        k2,
                    ) by {
                        lemma_empty_prefix(k2);
                        lemma_walk_same_structure(t1, t2, 0, k2);
                        lemma_walk_lookup(t1, 0, k2);
                        lemma_walk_lookup(t2, 0, k2);
                        let d = walk_dest(t1, 0, k2);
                        if d != idx {
                            assert(t2[d] == t1[d]);
                        }
                    }
                    lemma_walk_same_structure(t1, t2, 0, k);
                    lemma_walk_lookup(t2, 0, k);
                }
                idx
            },
            DirectionForInsert::NewLeaf { right } => {
                let m = map.table.len();
                map.table.push(Node { prefix: self.prefix, value: Some(v), left: None, right: None });
                let nref = &mut map.table[idx];
                if right {
                    nref.right = Some(m);
                } else {
                    nref.left = Some(m);
                }
                proof {
                    let t2 = map.table@;
                    assert(forall|i: int| 0 <= i < t1.len() && i != idx ==> t2[i] == t1[i]);
                    assert(child_of(t2[idx as int], right) == Some(m));
                    assert(child_of(t2[idx as int], !right) == child_of(t1[idx as int], !right));
                    assert forall|i: int, rr: bool| 0 <= i < t2.len() implies #[trigger] wf_edge(
                        t2,
                        i,
                        rr,
                    ) by {
                        if i < t1.len() {
                            assert(wf_edge(t1, i, rr));
                            match child_of(t2[i], rr) {
                                Some(cc) => {
                                    assert(cc == m || t2[cc as int].prefix == t1[
                                        cc as int
                                    ].prefix);
                                },
                                None => {},
                            }
                        }
                    }
                    assert(table_inv(t2));
                    assert forall|k2: Seq<bool>| k2 != k implies lookup_at(t2, 0, k2) == lookup_at(
                        t1,
                        0,
                        k2,
                    ) by {
                        lemma_empty_prefix(k2);
                        lemma_commit_leaf(t1, t2, idx as int, m as int, k, right, 0, k2);
                    }
                    lemma_commit_leaf(t1, t2, idx as int, m as int, k, right, 0, k);
                }
                m
            },
            DirectionForInsert::NewChild { right, child_right } => {
                let m = map.table.len();
                let c = if right {
                    map.table[idx].right.unwrap()
                } else {
                    map.table[idx].left.unwrap()
                };
                let node = if child_right {
                    Node { prefix: self.prefix, value: Some(v), left: None, right: Some(c) }
                } else {
                    Node { prefix: self.prefix, value: Some(v), left: Some(c), right: None }
                };
                map.table.push(node);
                let nref = &mut map.table[idx];
                if right {
                    nref.right = Some(m);
                } else {
                    nref.left = Some(m);
                }
                proof {
                    let t2 = map.table@;
                    assert(forall|i: int| 0 <= i < t1.len() && i != idx ==> t2[i] == t1[i]);
                    assert(child_of(t2[idx as int], right) == Some(m));
                    assert(child_of(t2[idx as int], !right) == child_of(t1[idx as int], !right));
                    assert(child_of(t2[m as int], child_right) == Some(c));
                    assert(child_of(t2[m as int], !child_right) is None);
                    assert(wf_edge(t1, idx as int, right));
                    assert forall|i: int, rr: bool| 0 <= i < t2.len() implies #[trigger] wf_edge(
                        t2,
                        i,
                        rr,
                    ) by {
                        if i < t1.len() {
                            assert(wf_edge(t1, i, rr));
                            match child_of(t2[i], rr) {
                                Some(cc) => {
                                    assert(cc == m || t2[cc as int].prefix == t1[
                                        cc as int
                                    ].prefix);
                                },
                                None => {},
                            }
                        }
                    }
                    assert(table_inv(t2));
                    assert forall|k2: Seq<bool>| k2 != k implies lookup_at(t2, 0, k2) == lookup_at(
                        t1,
                        0,
                        k2,
                    ) by {
                        lemma_empty_prefix(k2);
                        lemma_commit_child(
                            t1,
                            t2,
                            idx as int,
                            m as int,
                            c,
                            k,
                            right,
                            child_right,
                            0,
                            k2,
                        );
                    }
                    lemma_commit_child(
                        t1,
                        t2,
                        idx as int,
                        m as int,
                        c,
                        k,
                        right,
                        child_right,
                        0,
                        k,
                    );
                }
                m
            },
            DirectionForInsert::NewBranch { branch_prefix, right, prefix_right } => {
                let mb = map.table.len();
                let c = if right {
                    map.table[idx].right.unwrap()
                } else {
                    map.table[idx].left.unwrap()
                };
                let ghost bp = branch_prefix.model();
                let ghost cp = map.table@[c as int].prefix.model();
                let bnode = if prefix_right {
                    Node { prefix: branch_prefix, value: None, left: Some(c), right: None }
                } else {
                    Node { prefix: branch_prefix, value: None, left: None, right: Some(c) }
                };
                map.table.push(bnode);
                let mn = map.table.len();
                map.table.push(Node { prefix: self.prefix, value: Some(v), left: None, right: None });
                let bref = &mut map.table[mb];
                if prefix_right {
                    bref.right = Some(mn);
                } else {
                    bref.left = Some(mn);
                }
                let nref = &mut map.table[idx];
                if right {
                    nref.right = Some(mb);
                } else {
                    nref.left = Some(mb);
                }
                proof {
                    let t2 = map.table@;
                    let p = t1[idx as int].prefix.model();
                    assert(forall|i: int| 0 <= i < t1.len() && i != idx ==> t2[i] == t1[i]);
                    assert(child_of(t2[idx as int], right) == Some(mb));
                    assert(child_of(t2[idx as int], !right) == child_of(t1[idx as int], !right));
                    assert(child_of(t2[mb as int], prefix_right) == Some(mn));
                    assert(child_of(t2[mb as int], !prefix_right) == Some(c));
                    assert(t2[mb as int].prefix.model() == bp);
                    assert(wf_edge(t1, idx as int, right));
                    // The node's prefix is a strict prefix of the branch
                    // prefix, which continues with the same bit.
                    lemma_prefix_comparable(p, bp, k);
                    lemma_prefix_index(bp, k, p.len() as int);
                    assert forall|i: int, rr: bool| 0 <= i < t2.len() implies #[trigger] wf_edge(
                        t2,
                        i,
                        rr,
                    ) by {
                        if i < t1.len() {
                            assert(wf_edge(t1, i, rr));
                            match child_of(t2[i], rr) {
                                Some(cc) => {
                                    assert(cc == mb || cc == mn || t2[cc as int].prefix == t1[
                                        cc as int
                                    ].prefix);
                                },
                                None => {},
                            }
                        }
                    }
                    assert(table_inv(t2));
                    assert forall|k2: Seq<bool>| k2 != k implies lookup_at(t2, 0, k2) == lookup_at(
                        t1,
                        0,
                        k2,
                    ) by {
                        lemma_empty_prefix(k2);
                        lemma_commit_branch(
                            t1,
                            t2,
                            idx as int,
                            mb as int,
                            mn as int,
                            c,
                            k,
                            right,
                            prefix_right,
                            0,
                            k2,
                        );
                    }
                    lemma_commit_branch(
                        t1,
                        t2,
                        idx as int,
                        mb as int,
                        mn as int,
                        c,
                        k,
                        right,
                        prefix_right,
                        0,
                        k,
                    );
                }
                mn
            },
            DirectionForInsert::Enter { .. } => unreached(),
        }
    }
}

/// A mutable borrow of the value slot of node `idx`, which must be the
/// walk destination for its own prefix.  Whatever the caller writes
/// through the borrow, the map's content changes at that one key alone.
fn node_value_mut<'a, P: Prefix, T>(map: &'a mut PrefixMap<P, T>, idx: usize) -> (r: &'a mut T)
    requires
        old(map).inv(),
        (idx as int) < old(map).table@.len(),
        old(map).table@[idx as int].value is Some,
        walk_dest(old(map).table@, 0, old(map).table@[idx as int].prefix.model()) == idx as int,
    ensures
        *r == old(map).table@[idx as int].value->Some_0,
        final(map).inv(),
        value_only_change(old(map).table@, final(map).table@, idx as int),
        final(map).table@[idx as int].value == Some(*final(r)),
        walk_dest(final(map).table@, 0, old(map).table@[idx as int].prefix.model()) == idx as int,
        final(map).spec_get(old(map).table@[idx as int].prefix.model()) == Some(*final(r)),
        forall|k2: Seq<bool>|
            k2 != old(map).table@[idx as int].prefix.model() ==> final(map).spec_get(k2) == old(
                map,
            ).spec_get(k2),
{
    let ghost t1 = map.table@;
    let ghost k = t1[idx as int].prefix.model();
    proof {
        assert forall|t2: Seq<Node<P, T>>|
            #![trigger table_inv(t2)]
            #![trigger walk_dest(t2, 0, k)]
            #![trigger lookup_at(t2, 0, k)]
            value_only_change(t1, t2, idx as int) implies table_inv(t2) && walk_dest(t2, 0, k)
            == idx as int && lookup_at(t2, 0, k) == t2[idx as int].value && (forall|k2: Seq<bool>|
            k2 != k ==> lookup_at(t2, 0, k2) == lookup_at(t1, 0, k2)) by {
            lemma_value_only_change(t1, t2, idx as int, k);
        }
    }
    let nref = &mut map.table[idx];
    match &mut nref.value {
        Some(x) => x,
        None => unreached(),
    }
}

impl<P: Prefix, T> OccupiedEntry<P, T> {
    /// The key in the entry.
    pub fn key(&self) -> (r: &P)
        ensures
            r.model() == self.prefix.model(),
    {
        &self.prefix
    }

    /// The value in the entry.
    pub fn get<'a>(&self, map: &'a PrefixMap<P, T>) -> (r: &'a T)
        requires
            self.wf(*map),
        ensures
            map.spec_get(self.prefix.model()) == Some(*r),
    {
        proof {
            lemma_empty_prefix(self.prefix.model());
            lemma_walk_lookup(map.table@, 0, self.prefix.model());
        }
        match &map.table[self.idx].value {
            Some(x) => x,
            None => unreached(),
        }
    }

    /// A mutable borrow of the value in the entry; whatever is written
    /// through it becomes the value stored at the key.
    pub fn get_mut<'a>(&self, map: &'a mut PrefixMap<P, T>) -> (r: &'a mut T)
        requires
            self.wf(*old(map)),
        ensures
            Some(*r) == old(map).spec_get(self.prefix.model()),
            final(map).inv(),
            self.wf(*final(map)),
            value_only_change(old(map).table@, final(map).table@, self.idx as int),
            final(map).spec_get(self.prefix.model()) == Some(*final(r)),
            forall|k2: Seq<bool>|
                k2 != self.prefix.model() ==> final(map).spec_get(k2) == old(map).spec_get(k2),
    {
        proof {
            lemma_empty_prefix(self.prefix.model());
            lemma_walk_lookup(map.table@, 0, self.prefix.model());
        }
        node_value_mut(map, self.idx)
    }

    /// Store a new value at the key, returning the old one.
    pub fn insert(&self, map: &mut PrefixMap<P, T>, value: T) -> (r: T)
        requires
            self.wf(*old(map)),
        ensures
            final(map).inv(),
            self.wf(*final(map)),
            Some(r) == old(map).spec_get(self.prefix.model()),
            final(map).spec_get(self.prefix.model()) == Some(value),
            value_only_change(old(map).table@, final(map).table@, self.idx as int),
            forall|k2: Seq<bool>|
                k2 != self.prefix.model() ==> final(map).spec_get(k2) == old(map).spec_get(k2),
    {
        let ghost t1 = map.table@;
        let ghost k = self.prefix.model();
        proof {
            lemma_empty_prefix(k);
            lemma_walk_lookup(t1, 0, k);
        }
        let nref = &mut map.table[self.idx];
        let old_v = nref.value.take();
        nref.value = Some(value);
        proof {
            lemma_value_only_change(t1, map.table@, self.idx as int, k);
        }
        old_v.unwrap()
    }

    /// Clear and return the value; the node record stays in the arena,
    /// degraded to a branch node.
    pub fn remove(&self, map: &mut PrefixMap<P, T>) -> (r: T)
        requires
            self.wf(*old(map)),
        ensures
            final(map).inv(),
            Some(r) == old(map).spec_get(self.prefix.model()),
            final(map).spec_get(self.prefix.model()) is None,
            value_only_change(old(map).table@, final(map).table@, self.idx as int),
            forall|k2: Seq<bool>|
                k2 != self.prefix.model() ==> final(map).spec_get(k2) == old(map).spec_get(k2),
    {
        let ghost t1 = map.table@;
        let ghost k = self.prefix.model();
        proof {
            lemma_empty_prefix(k);
            lemma_walk_lookup(t1, 0, k);
        }
        let nref = &mut map.table[self.idx];
        let old_v = nref.value.take();
        proof {
            lemma_value_only_change(t1, map.table@, self.idx as int, k);
        }
        old_v.unwrap()
    }
}

impl<P: Prefix, T> VacantEntry<P, T> {
    /// The key in the entry.
    pub fn key(&self) -> (r: &P)
        ensures
            r.model() == self.prefix.model(),
    {
        &self.prefix
    }

    /// Commit the entry with the given value and borrow the stored value
    /// mutably.
    pub fn insert<'a>(self, map: &'a mut PrefixMap<P, T>, default: T) -> (r: &'a mut T)
        requires
            self.wf(*old(map)),
        ensures
            *r == default,
            final(map).inv(),
            old(map).spec_get(self.prefix.model()) is None,
            final(map).spec_get(self.prefix.model()) == Some(*final(r)),
            forall|k2: Seq<bool>|
                k2 != self.prefix.model() ==> final(map).spec_get(k2) == old(map).spec_get(k2),
    {
        let ghost k = self.prefix.model();
        let idx = self.commit(map, default);
        node_value_mut(map, idx)
    }

    /// Commit the entry with the result of the given function and borrow
    /// the stored value mutably.
    pub fn insert_with<'a, F: FnOnce() -> T>(self, map: &'a mut PrefixMap<P, T>, default: F) -> (r:
        &'a mut T)
        requires
            self.wf(*old(map)),
            call_requires(default, ()),
        ensures
            call_ensures(default, (), *r),
            final(map).inv(),
            old(map).spec_get(self.prefix.model()) is None,
            final(map).spec_get(self.prefix.model()) == Some(*final(r)),
            forall|k2: Seq<bool>|
                k2 != self.prefix.model() ==> final(map).spec_get(k2) == old(map).spec_get(k2),
    {
        let v = default();
        let idx = self.commit(map, v);
        node_value_mut(map, idx)
    }
}

impl<P: Prefix, T: Default> VacantEntry<P, T> {
    /// Commit the entry with the value type's default and borrow the
    /// stored value mutably.
    pub fn default<'a>(self, map: &'a mut PrefixMap<P, T>) -> (r: &'a mut T)
        requires
            self.wf(*old(map)),
        ensures
            final(map).inv(),
            old(map).spec_get(self.prefix.model()) is None,
            final(map).spec_get(self.prefix.model()) == Some(*final(r)),
            forall|k2: Seq<bool>|
                k2 != self.prefix.model() ==> final(map).spec_get(k2) == old(map).spec_get(k2),
    {
        let v = T::default();
        let idx = self.commit(map, v);
        node_value_mut(map, idx)
    }
}

impl<P: Prefix, T> Entry<P, T> {
    /// The key of the entry.
    pub fn key(&self) -> (r: &P)
        ensures
            r.model() == self.key_model(),
    {
        match self {
            Entry::Vacant(e) => &e.prefix,
            Entry::Occupied(e) => &e.prefix,
        }
    }

    /// The value at the key, if the entry is occupied.
    pub fn get<'a>(&self, map: &'a PrefixMap<P, T>) -> (r: Option<&'a T>)
        requires
            self.wf(*map),
        ensures
            match r {
                Some(v) => map.spec_get(self.key_model()) == Some(*v),
                None => map.spec_get(self.key_model()) is None,
            },
    {
        match self {
            Entry::Vacant(e) => {
                proof {
                    lemma_empty_prefix(e.prefix.model());
                    lemma_walk_lookup(map.table@, 0, e.prefix.model());
                }
                None
            },
            Entry::Occupied(e) => Some(e.get(map)),
        }
    }

    /// Replace the entry's value, returning what was stored before.
    pub fn insert(self, map: &mut PrefixMap<P, T>, v: T) -> (r: Option<T>)
        requires
            self.wf(*old(map)),
        ensures
            final(map).inv(),
            r == old(map).spec_get(self.key_model()),
            final(map).spec_get(self.key_model()) == Some(v),
            forall|k2: Seq<bool>|
                k2 != self.key_model() ==> final(map).spec_get(k2) == old(map).spec_get(k2),
            final(map).as_map() == old(map).as_map().insert(self.key_model(), v),
    {
        let ghost k = self.key_model();
        let r = match self {
            Entry::Vacant(e) => {
                e.commit(map, v);
                None
            },
            Entry::Occupied(e) => Some(e.insert(map, v)),
        };
        proof {
            lemma_as_map_insert(*old(map), *map, k, v);
        }
        r
    }

    /// Borrow the value mutably, inserting the given default first if
    /// the entry is vacant.
    pub fn or_insert<'a>(self, map: &'a mut PrefixMap<P, T>, default: T) -> (r: &'a mut T)
        requires
            self.wf(*old(map)),
        ensures
            final(map).inv(),
            old(map).spec_get(self.key_model()) is Some ==> Some(*r) == old(map).spec_get(
                self.key_model(),
            ),
            old(map).spec_get(self.key_model()) is None ==> *r == default,
            final(map).spec_get(self.key_model()) == Some(*final(r)),
            forall|k2: Seq<bool>|
                k2 != self.key_model() ==> final(map).spec_get(k2) == old(map).spec_get(k2),
    {
        match self {
            Entry::Vacant(e) => e.insert(map, default),
            Entry::Occupied(e) => e.get_mut(map),
        }
    }

    /// Borrow the value mutably, inserting the function's result first
    /// if the entry is vacant; the function runs only then.
    pub fn or_insert_with<'a, F: FnOnce() -> T>(self, map: &'a mut PrefixMap<P, T>, default: F) -> (
        r: &'a mut T)
        requires
            self.wf(*old(map)),
            call_requires(default, ()),
        ensures
            final(map).inv(),
            old(map).spec_get(self.key_model()) is Some ==> Some(*r) == old(map).spec_get(
                self.key_model(),
            ),
            old(map).spec_get(self.key_model()) is None ==> call_ensures(default, (), *r),
            final(map).spec_get(self.key_model()) == Some(*final(r)),
            forall|k2: Seq<bool>|
                k2 != self.key_model() ==> final(map).spec_get(k2) == old(map).spec_get(k2),
    {
        match self {
            Entry::Vacant(e) => e.insert_with(map, default),
            Entry::Occupied(e) => e.get_mut(map),
        }
    }

    /// Apply `f` to the value in place if the entry is occupied; a
    /// vacant entry, and the map, stay untouched.  Returns the entry for
    /// further chaining.
    pub fn and_modify<F: FnOnce(T) -> T>(self, map: &mut PrefixMap<P, T>, f: F) -> (r: Entry<P, T>)
        requires
            self.wf(*old(map)),
            self is Occupied ==> call_requires(f, (old(map).spec_get(self.key_model())->Some_0,)),
        ensures
            final(map).inv(),
            r.wf(*final(map)),
            r.key_model() == self.key_model(),
            (r is Occupied) <==> (self is Occupied),
            self is Vacant ==> *final(map) == *old(map),
            self is Occupied ==> final(map).spec_get(self.key_model()) is Some && call_ensures(
                f,
                (old(map).spec_get(self.key_model())->Some_0,),
                final(map).spec_get(self.key_model())->Some_0,
            ),
            forall|k2: Seq<bool>|
                k2 != self.key_model() ==> final(map).spec_get(k2) == old(map).spec_get(k2),
    {
        match self {
            Entry::Vacant(e) => Entry::Vacant(e),
            Entry::Occupied(e) => {
                let ghost t1 = map.table@;
                let ghost k = e.prefix.model();
                proof {
                    lemma_empty_prefix(k);
                    lemma_walk_lookup(t1, 0, k);
                }
                let nref = &mut map.table[e.idx];
                let old_v = nref.value.take();
                let new_v = f(old_v.unwrap());
                nref.value = Some(new_v);
                proof {
                    lemma_value_only_change(t1, map.table@, e.idx as int, k);
                }
                Entry::Occupied(e)
            },
        }
    }
}

impl<P: Prefix, T: Default> Entry<P, T> {
    /// Borrow the value mutably, inserting the value type's default
    /// first if the entry is vacant.
    pub fn or_default<'a>(self, map: &'a mut PrefixMap<P, T>) -> (r: &'a mut T)
        requires
            self.wf(*old(map)),
        ensures
            final(map).inv(),
            old(map).spec_get(self.key_model()) is Some ==> Some(*r) == old(map).spec_get(
                self.key_model(),
            ),
            final(map).spec_get(self.key_model()) == Some(*final(r)),
            forall|k2: Seq<bool>|
                k2 != self.key_model() ==> final(map).spec_get(k2) == old(map).spec_get(k2),
    {
        match self {
            Entry::Vacant(e) => e.default(map),
            Entry::Occupied(e) => e.get_mut(map),
        }
    }
}

impl<P: Prefix, T> Entry<P, T> {
    /// A mutable borrow of the value at the key, if the entry is
    /// occupied; whatever is written through it becomes the stored
    /// value.
    pub fn get_mut<'a>(&self, map: &'a mut PrefixMap<P, T>) -> (r: Option<&'a mut T>)
        requires
            self.wf(*old(map)),
        ensures
            (r is Some) <==> old(map).spec_get(self.key_model()) is Some,
            r is None ==> *final(map) == *old(map),
            r matches Some(x) ==> Some(*x) == old(map).spec_get(self.key_model())
                && final(map).inv()
                && final(map).spec_get(self.key_model()) == Some(*final(x))
                && (forall|k2: Seq<bool>|
                    k2 != self.key_model() ==> final(map).spec_get(k2) == old(map).spec_get(k2)),
    {
        match self {
            Entry::Vacant(e) => {
                proof {
                    lemma_empty_prefix(e.prefix.model());
                    lemma_walk_lookup(map.table@, 0, e.prefix.model());
                }
                None
            },
            Entry::Occupied(e) => Some(e.get_mut(map)),
        }
    }
}

impl<P: Prefix, T> PrefixMap<P, T> {
    /// The index of the key's node, when that node holds a value.
    fn find_value_node(&self, key: &P) -> (r: Option<usize>)
        requires
            self.inv(),
        ensures
            r matches Some(i) ==> (i as int) < self.table@.len() && self.table@[
                i as int
            ].prefix.model() == key.model() && self.table@[i as int].value is Some && walk_dest(
                self.table@,
                0,
                key.model(),
            ) == i as int,
            r is None ==> self.spec_get(key.model()) is None,
    {
        let ghost t = self.table@;
        let ghost k = key.model();
        let mut cur: usize = 0;
        proof {
            lemma_empty_prefix(k);
            lemma_walk_lookup(t, 0, k);
        }
        loop
            invariant
                self.inv(),
                t == self.table@,
                k == key.model(),
                cur < t.len(),
                t[cur as int].prefix.model().is_prefix_of(k),
                walk_dest(t, 0, k) == walk_dest(t, cur as int, k),
                lookup_at(t, 0, k) == (if t[walk_dest(t, 0, k)].prefix.model() == k {
                    t[walk_dest(t, 0, k)].value
                } else {
                    None::<T>
                }),
            decreases k.len() - t[cur as int].prefix.model().len(),
        {
            let node = &self.table[cur];
            let ghost p = node.prefix.model();
            if node.prefix.eq_prefix(key) {
                proof {
                    assert(walk_dest(t, cur as int, k) == cur as int);
                }
                if node.value.is_some() {
                    return Some(cur);
                } else {
                    return None;
                }
            }
            proof {
                if p.len() == k.len() {
                    crate::bitstrings::lemma_prefix_same_len(p, k);
                }
            }
            let right = key.bit_at(node.prefix.prefix_len());
            let child_opt = if right {
                node.right
            } else {
                node.left
            };
            proof {
                assert(wf_edge(t, cur as int, right));
            }
            match child_opt {
                Some(c) => {
                    let cnode = &self.table[c];
                    if crate::map::is_ancestor(&cnode.prefix, key) {
                        proof {
                            assert(walk_dest(t, cur as int, k) == walk_dest(t, c as int, k));
                        }
                        cur = c;
                    } else {
                        proof {
                            assert(walk_dest(t, cur as int, k) == cur as int);
                        }
                        return None;
                    }
                },
                None => {
                    proof {
                        assert(walk_dest(t, cur as int, k) == cur as int);
                    }
                    return None;
                },
            }
        }
    }

    /// A mutable borrow of the value at a key, if present: the same walk
    /// as `get`, with a writable result.
    pub fn get_mut<'a>(&'a mut self, key: &P) -> (r: Option<&'a mut T>)
        requires
            old(self).inv(),
        ensures
            (r is Some) <==> old(self).spec_get(key.model()) is Some,
            r is None ==> *final(self) == *old(self),
            r matches Some(x) ==> Some(*x) == old(self).spec_get(key.model()) && final(self).inv()
                && final(self).spec_get(key.model()) == Some(*final(x)) && (forall|k2: Seq<bool>|
                k2 != key.model() ==> final(self).spec_get(k2) == old(self).spec_get(k2)),
    {
        proof {
            lemma_empty_prefix(key.model());
            lemma_walk_lookup(self.table@, 0, key.model());
        }
        match self.find_value_node(key) {
            Some(i) => Some(node_value_mut(self, i)),
            None => None,
        }
    }

    /// Insert a value at a key, returning the prior value if the key
    /// already held one; sugar over `entry` followed by its `insert`.
    pub fn insert(&mut self, prefix: P, value: T) -> (r: Option<T>)
        requires
            old(self).inv(),
        ensures
            final(self).inv(),
            r == old(self).spec_get(prefix.model()),
            final(self).spec_get(prefix.model()) == Some(value),
            forall|k2: Seq<bool>|
                k2 != prefix.model() ==> final(self).spec_get(k2) == old(self).spec_get(k2),
            final(self).as_map() == old(self).as_map().insert(prefix.model(), value),
    {
        let ghost k = prefix.model();
        let e = self.entry(prefix);
        e.insert(self, value)
    }
}

} // verus!
