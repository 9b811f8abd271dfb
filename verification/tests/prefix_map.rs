//! Scenario tests for the prefix-keyed trie map.

use prefix_trie::BitPrefix;
use prefix_trie::Entry;
use prefix_trie::PrefixMap;

/// Build the prefix of the dotted-quad address `a.b.c.d` with the given
/// prefix length, as its bits, most significant first.
fn v4(a: u8, b: u8, c: u8, d: u8, len: usize) -> BitPrefix {
    let addr: u32 = ((a as u32) << 24) | ((b as u32) << 16) | ((c as u32) << 8) | (d as u32);
    let mut bits: Vec<bool> = Vec::new();
    let mut i: usize = 0;
    while i < len {
        bits.push(((addr >> (31 - i)) & 1) == 1);
        i += 1;
    }
    BitPrefix::from_bits(bits)
}

#[test]
fn round_trip_insert_get() {
    let mut pm: PrefixMap<BitPrefix, i32> = PrefixMap::new();
    assert_eq!(pm.insert(v4(192, 168, 1, 0, 24), 7), None);
    assert_eq!(pm.get(&v4(192, 168, 1, 0, 24)), Some(&7));
}

#[test]
fn empty_map_has_nothing() {
    let pm: PrefixMap<BitPrefix, i32> = PrefixMap::new();
    assert_eq!(pm.get(&v4(0, 0, 0, 0, 0)), None);
    assert_eq!(pm.get(&v4(10, 0, 0, 0, 8)), None);
}

#[test]
fn replacement_returns_prior_value() {
    let mut pm: PrefixMap<BitPrefix, i32> = PrefixMap::new();
    assert_eq!(pm.insert(v4(10, 0, 0, 0, 8), 1), None);
    assert_eq!(pm.insert(v4(10, 0, 0, 0, 8), 2), Some(1));
    assert_eq!(pm.get(&v4(10, 0, 0, 0, 8)), Some(&2));
}

#[test]
fn entry_insert_equivalence() {
    let mut pa: PrefixMap<BitPrefix, i32> = PrefixMap::new();
    let mut pb: PrefixMap<BitPrefix, i32> = PrefixMap::new();
    for (key, value) in [
        (v4(10, 0, 0, 0, 8), 1),
        (v4(10, 1, 0, 0, 16), 2),
        (v4(10, 0, 0, 0, 8), 3),
    ] {
        let e = pa.entry(key.clone());
        let ra = e.insert(&mut pa, value);
        let rb = pb.insert(key, value);
        assert_eq!(ra, rb);
    }
    assert_eq!(pa.get(&v4(10, 0, 0, 0, 8)), Some(&3));
    assert_eq!(pa.get(&v4(10, 1, 0, 0, 16)), Some(&2));
    assert_eq!(pa.table.len(), pb.table.len());
}

#[test]
fn or_insert_keeps_existing_value() {
    let mut pm: PrefixMap<BitPrefix, i32> = PrefixMap::new();
    pm.insert(v4(192, 168, 1, 0, 24), 1);
    let e = pm.entry(v4(192, 168, 1, 0, 24));
    assert_eq!(*e.or_insert(&mut pm, 10), 1);
    let e = pm.entry(v4(192, 168, 2, 0, 24));
    assert_eq!(*e.or_insert(&mut pm, 20), 20);
    assert_eq!(pm.get(&v4(192, 168, 1, 0, 24)), Some(&1));
    assert_eq!(pm.get(&v4(192, 168, 2, 0, 24)), Some(&20));
}

#[test]
fn or_insert_borrow_writes_back() {
    let mut pm: PrefixMap<BitPrefix, i32> = PrefixMap::new();
    pm.insert(v4(10, 0, 0, 0, 8), 5);
    let e = pm.entry(v4(10, 0, 0, 0, 8));
    let r = e.or_insert(&mut pm, 0);
    *r += 1;
    assert_eq!(pm.get(&v4(10, 0, 0, 0, 8)), Some(&6));
}

#[test]
fn or_insert_with_runs_only_when_vacant() {
    let mut pm: PrefixMap<BitPrefix, i32> = PrefixMap::new();
    pm.insert(v4(192, 168, 1, 0, 24), 1);
    let e = pm.entry(v4(192, 168, 1, 0, 24));
    assert_eq!(*e.or_insert_with(&mut pm, || 10), 1);
    let e = pm.entry(v4(192, 168, 2, 0, 24));
    assert_eq!(*e.or_insert_with(&mut pm, || 20), 20);
    assert_eq!(pm.get(&v4(192, 168, 2, 0, 24)), Some(&20));
}

#[test]
fn or_default_inserts_zero() {
    let mut pm: PrefixMap<BitPrefix, i32> = PrefixMap::new();
    pm.insert(v4(192, 168, 1, 0, 24), 1);
    let e = pm.entry(v4(192, 168, 1, 0, 24));
    assert_eq!(*e.or_default(&mut pm), 1);
    let e = pm.entry(v4(192, 168, 2, 0, 24));
    assert_eq!(*e.or_default(&mut pm), 0);
    assert_eq!(pm.get(&v4(192, 168, 2, 0, 24)), Some(&0));
}

#[test]
fn and_modify_absent_changes_nothing() {
    let mut pm: PrefixMap<BitPrefix, i32> = PrefixMap::new();
    pm.insert(v4(10, 0, 0, 0, 8), 1);
    let nodes_before = pm.table.len();
    let e = pm.entry(v4(10, 1, 0, 0, 16));
    let e = e.and_modify(&mut pm, |x| x + 1);
    assert!(matches!(e, Entry::Vacant(_)));
    assert_eq!(pm.table.len(), nodes_before);
    assert_eq!(pm.get(&v4(10, 1, 0, 0, 16)), None);
    assert_eq!(pm.get(&v4(10, 0, 0, 0, 8)), Some(&1));
}

#[test]
fn and_modify_present_applies_in_place() {
    let mut pm: PrefixMap<BitPrefix, i32> = PrefixMap::new();
    pm.insert(v4(10, 0, 0, 0, 8), 1);
    let e = pm.entry(v4(10, 0, 0, 0, 8));
    let e = e.and_modify(&mut pm, |x| x + 1);
    assert_eq!(e.get(&pm), Some(&2));
    assert_eq!(pm.get(&v4(10, 0, 0, 0, 8)), Some(&2));
}

#[test]
fn entry_get_and_key() {
    let mut pm: PrefixMap<BitPrefix, i32> = PrefixMap::new();
    pm.insert(v4(192, 168, 1, 0, 24), 1);
    let e = pm.entry(v4(192, 168, 1, 0, 24));
    assert_eq!(e.key().bits, v4(192, 168, 1, 0, 24).bits);
    assert_eq!(e.get(&pm), Some(&1));
    let e = pm.entry(v4(192, 168, 2, 0, 24));
    assert_eq!(e.key().bits, v4(192, 168, 2, 0, 24).bits);
    assert_eq!(e.get(&pm), None);
}

#[test]
fn occupied_entry_operations() {
    let mut pm: PrefixMap<BitPrefix, i32> = PrefixMap::new();
    pm.insert(v4(192, 168, 1, 0, 24), 1);
    match pm.entry(v4(192, 168, 1, 0, 24)) {
        Entry::Occupied(e) => {
            assert_eq!(e.key().bits, v4(192, 168, 1, 0, 24).bits);
            assert_eq!(*e.get(&pm), 1);
            assert_eq!(e.insert(&mut pm, 10), 1);
            *e.get_mut(&mut pm) += 5;
        }
        Entry::Vacant(_) => unreachable!(),
    }
    assert_eq!(pm.get(&v4(192, 168, 1, 0, 24)), Some(&15));
}

#[test]
fn vacant_entry_operations() {
    let mut pm: PrefixMap<BitPrefix, i32> = PrefixMap::new();
    match pm.entry(v4(192, 168, 1, 0, 24)) {
        Entry::Vacant(e) => {
            assert_eq!(e.key().bits, v4(192, 168, 1, 0, 24).bits);
            assert_eq!(*e.insert(&mut pm, 10), 10);
        }
        Entry::Occupied(_) => unreachable!(),
    }
    assert_eq!(pm.get(&v4(192, 168, 1, 0, 24)), Some(&10));
    match pm.entry(v4(192, 168, 2, 0, 24)) {
        Entry::Vacant(e) => {
            assert_eq!(*e.insert_with(&mut pm, || 20), 20);
        }
        Entry::Occupied(_) => unreachable!(),
    }
    assert_eq!(pm.get(&v4(192, 168, 2, 0, 24)), Some(&20));
    match pm.entry(v4(192, 168, 3, 0, 24)) {
        Entry::Vacant(e) => {
            assert_eq!(*e.default(&mut pm), 0);
        }
        Entry::Occupied(_) => unreachable!(),
    }
    assert_eq!(pm.get(&v4(192, 168, 3, 0, 24)), Some(&0));
}

#[test]
fn ancestor_lookup_is_exact_match() {
    let mut pm: PrefixMap<BitPrefix, i32> = PrefixMap::new();
    pm.insert(v4(172, 16, 0, 0, 16), 9);
    assert_eq!(pm.get(&v4(172, 16, 5, 0, 24)), None);
    assert_eq!(pm.get(&v4(172, 16, 0, 0, 16)), Some(&9));
}

#[test]
fn removal_leaves_branch() {
    let mut pm: PrefixMap<BitPrefix, i32> = PrefixMap::new();
    pm.insert(v4(10, 0, 0, 0, 8), 1);
    pm.insert(v4(10, 1, 0, 0, 16), 2);
    let nodes = pm.table.len();
    match pm.entry(v4(10, 0, 0, 0, 8)) {
        Entry::Occupied(e) => {
            assert_eq!(e.remove(&mut pm), 1);
        }
        Entry::Vacant(_) => unreachable!(),
    }
    assert_eq!(pm.get(&v4(10, 0, 0, 0, 8)), None);
    assert_eq!(pm.get(&v4(10, 1, 0, 0, 16)), Some(&2));
    assert_eq!(pm.table.len(), nodes);
    // Re-inserting the cleared key reuses its node: no restructuring.
    assert_eq!(pm.insert(v4(10, 0, 0, 0, 8), 3), None);
    assert_eq!(pm.table.len(), nodes);
    assert_eq!(pm.get(&v4(10, 0, 0, 0, 8)), Some(&3));
    assert_eq!(pm.get(&v4(10, 1, 0, 0, 16)), Some(&2));
}

#[test]
fn concrete_scenario_with_branch() {
    let mut pm: PrefixMap<BitPrefix, i32> = PrefixMap::new();
    pm.insert(v4(10, 0, 0, 0, 8), 1);
    pm.insert(v4(10, 1, 0, 0, 16), 2);
    pm.insert(v4(10, 2, 0, 0, 16), 3);
    assert_eq!(pm.get(&v4(10, 0, 0, 0, 8)), Some(&1));
    assert_eq!(pm.get(&v4(10, 1, 0, 0, 16)), Some(&2));
    assert_eq!(pm.get(&v4(10, 3, 0, 0, 16)), None);

    // The arena holds the zero root, the /8 key node, the two /16 key
    // nodes, and one synthesized branch where the /16s diverge.
    assert_eq!(pm.table.len(), 5);
    let mut idx8: Option<usize> = None;
    let mut i: usize = 0;
    while i < pm.table.len() {
        if pm.table[i].prefix.bits == v4(10, 0, 0, 0, 8).bits {
            idx8 = Some(i);
        }
        i += 1;
    }
    let idx8 = idx8.expect("node for 10.0.0.0/8");
    assert_eq!(pm.table[idx8].value, Some(1));

    // Exactly one child under the /8: the synthesized valueless branch,
    // whose children are the two /16 key nodes, diverging on the bit
    // that distinguishes .1. from .2. (bit 14).
    let branch = pm.table[idx8]
        .left
        .or(pm.table[idx8].right)
        .expect("branch under the /8");
    let bnode = &pm.table[branch];
    assert_eq!(bnode.value, None);
    assert_eq!(bnode.prefix.bits.len(), 14);
    let l = bnode.left.expect("left child of the branch");
    let r = bnode.right.expect("right child of the branch");
    assert_eq!(pm.table[l].prefix.bits, v4(10, 1, 0, 0, 16).bits);
    assert_eq!(pm.table[r].prefix.bits, v4(10, 2, 0, 0, 16).bits);
    assert!(!pm.table[l].prefix.bits[14]);
    assert!(pm.table[r].prefix.bits[14]);
    assert_eq!(pm.table[l].value, Some(2));
    assert_eq!(pm.table[r].value, Some(3));
}

#[test]
fn divergent_siblings_under_root() {
    let mut pm: PrefixMap<BitPrefix, u64> = PrefixMap::new();
    pm.insert(v4(10, 0, 0, 0, 8), 1);
    pm.insert(v4(192, 168, 0, 0, 16), 2);
    assert_eq!(pm.get(&v4(10, 0, 0, 0, 8)), Some(&1));
    assert_eq!(pm.get(&v4(192, 168, 0, 0, 16)), Some(&2));
    assert_eq!(pm.get(&v4(0, 0, 0, 0, 0)), None);
}

#[test]
fn new_child_takes_over_descendant() {
    let mut pm: PrefixMap<BitPrefix, i32> = PrefixMap::new();
    // Insert the descendant first, then its ancestor: the ancestor's
    // node is spliced in between the root and the descendant.
    pm.insert(v4(10, 1, 0, 0, 16), 2);
    pm.insert(v4(10, 0, 0, 0, 8), 1);
    assert_eq!(pm.get(&v4(10, 1, 0, 0, 16)), Some(&2));
    assert_eq!(pm.get(&v4(10, 0, 0, 0, 8)), Some(&1));
    assert_eq!(pm.table.len(), 3);
}

#[test]
fn get_mut_writes_through() {
    let mut pm: PrefixMap<BitPrefix, i32> = PrefixMap::new();
    pm.insert(v4(192, 168, 1, 0, 24), 1);
    if let Some(x) = pm.get_mut(&v4(192, 168, 1, 0, 24)) {
        *x += 1;
    }
    assert!(pm.get_mut(&v4(192, 168, 2, 0, 24)).is_none());
    assert_eq!(pm.get(&v4(192, 168, 1, 0, 24)), Some(&2));
    assert_eq!(pm.get(&v4(192, 168, 2, 0, 24)), None);
}

#[test]
fn entry_get_mut_writes_through() {
    let mut pm: PrefixMap<BitPrefix, i32> = PrefixMap::new();
    pm.insert(v4(192, 168, 1, 0, 24), 1);
    let e = pm.entry(v4(192, 168, 1, 0, 24));
    if let Some(x) = e.get_mut(&mut pm) {
        *x += 1;
    }
    let e = pm.entry(v4(192, 168, 2, 0, 24));
    assert!(e.get_mut(&mut pm).is_none());
    assert_eq!(pm.get(&v4(192, 168, 1, 0, 24)), Some(&2));
    assert_eq!(pm.get(&v4(192, 168, 2, 0, 24)), None);
}

#[test]
fn zero_length_key_uses_root() {
    let mut pm: PrefixMap<BitPrefix, i32> = PrefixMap::new();
    assert_eq!(pm.get(&v4(0, 0, 0, 0, 0)), None);
    assert_eq!(pm.insert(v4(0, 0, 0, 0, 0), 42), None);
    assert_eq!(pm.get(&v4(0, 0, 0, 0, 0)), Some(&42));
    assert_eq!(pm.table.len(), 1);
    assert_eq!(pm.insert(v4(0, 0, 0, 0, 0), 43), Some(42));
    assert_eq!(pm.get(&v4(0, 0, 0, 0, 0)), Some(&43));
}
