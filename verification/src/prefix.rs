//! The key capability: variable-length bit-string prefixes.
//!
//! The trie is generic over its key type.  A key must offer its length,
//! bit indexing, the longest-common-prefix operation, equality, and the
//! zero-length prefix; each operation is specified against the key's
//! mathematical value, a bit string (`Seq<bool>`).  `BitPrefix` is the
//! library's own key type: a prefix held directly as a vector of bits.

use vstd::prelude::*;

verus! {

/// What the trie requires of a key type.
///
/// `model` is the key's mathematical value: its bits, most significant
/// first.  One prefix is an ancestor of another when its model is a
/// bit-wise prefix of the other's; all operations are assumed total and
/// pure, and the trie performs no further validation of keys.
pub trait Prefix: Sized {
    /// The bit string this key stands for.
    spec fn model(&self) -> Seq<bool>;

    /// The number of bits in the prefix.
    fn prefix_len(&self) -> (r: usize)
        ensures
            r == self.model().len(),
    ;

    /// The bit at position `i` (counted from the most significant bit).
    fn bit_at(&self, i: usize) -> (r: bool)
        requires
            i < self.model().len(),
        ensures
            r == self.model()[i as int],
    ;

    /// Whether the two keys are the same bit string.
    fn eq_prefix(&self, other: &Self) -> (r: bool)
        ensures
            r == (self.model() == other.model()),
    ;

    /// The length of the longest common prefix of the two bit strings.
    fn common_prefix_len(&self, other: &Self) -> (r: usize)
        ensures
            r <= self.model().len(),
            r <= other.model().len(),
            self.model().subrange(0, r as int) == other.model().subrange(0, r as int),
            r < self.model().len() && r < other.model().len() ==> self.model()[r as int]
                != other.model()[r as int],
    ;

    /// The longest common prefix of the two keys, as a key.
    fn longest_common_prefix(&self, other: &Self) -> (r: Self)
        ensures
            r.model().is_prefix_of(self.model()),
            r.model().is_prefix_of(other.model()),
            r.model().len() < self.model().len() && r.model().len() < other.model().len()
                ==> self.model()[r.model().len() as int] != other.model()[r.model().len() as int],
    ;

    /// The zero-length prefix, ancestor of every key.
    fn zero() -> (r: Self)
        ensures
            r.model() == Seq::<bool>::empty(),
    ;
}

/// A prefix held directly as its bits, most significant first.
pub struct BitPrefix {
    pub bits: Vec<bool>,
}

impl BitPrefix {
    /// Build a prefix from its bits.
    pub fn from_bits(bits: Vec<bool>) -> (r: Self)
        ensures
            r.model() == bits@,
    {
        BitPrefix { bits }
    }
}

impl Clone for BitPrefix {
    /// The clone stands for the same bit string.
    fn clone(&self) -> (r: Self)
        ensures
            r.model() == self.model(),
    {
        let mut bits: Vec<bool> = Vec::new();
        let mut i: usize = 0;
        while i < self.bits.len()
            invariant
                i <= self.bits.len(),
                bits@ == self.bits@.subrange(0, i as int),
            decreases self.bits.len() - i,
        {
            bits.push(self.bits[i]);
            assert(bits@ =~= self.bits@.subrange(0, i + 1 as int));
            i = i + 1;
        }
        assert(bits@ =~= self.bits@);
        BitPrefix { bits }
    }
}

impl Prefix for BitPrefix {
    open spec fn model(&self) -> Seq<bool> {
        self.bits@
    }

    fn prefix_len(&self) -> (r: usize) {
        self.bits.len()
    }

    fn bit_at(&self, i: usize) -> (r: bool) {
        self.bits[i]
    }

    fn eq_prefix(&self, other: &Self) -> (r: bool) {
        if self.bits.len() != other.bits.len() {
            return false;
        }
        let c = self.common_prefix_len(other);
        if c == self.bits.len() {
            proof {
                assert forall|j: int| 0 <= j < self.bits@.len() implies self.bits@[j]
                    == other.bits@[j] by {
                    assert(self.bits@.subrange(0, c as int)[j] == other.bits@.subrange(
                        0,
                        c as int,
                    )[j]);
                }
                assert(self.bits@ =~= other.bits@);
            }
            true
        } else {
            proof {
                if self.bits@ == other.bits@ {
                    assert(false);
                }
            }
            false
        }
    }

    fn common_prefix_len(&self, other: &Self) -> (r: usize) {
        let n = if self.bits.len() < other.bits.len() {
            self.bits.len()
        } else {
            other.bits.len()
        };
        let mut i: usize = 0;
        while i < n
            invariant
                i <= n,
                n <= self.bits@.len(),
                n <= other.bits@.len(),
                forall|j: int| 0 <= j < i ==> self.bits@[j] == other.bits@[j],
            decreases n - i,
        {
            if self.bits[i] != other.bits[i] {
                proof {
                    assert(self.bits@.subrange(0, i as int) =~= other.bits@.subrange(0, i as int));
                }
                return i;
            }
            i = i + 1;
        }
        proof {
            assert(self.bits@.subrange(0, n as int) =~= other.bits@.subrange(0, n as int));
        }
        n
    }

    fn longest_common_prefix(&self, other: &Self) -> (r: Self) {
        let c = self.common_prefix_len(other);
        let mut bits: Vec<bool> = Vec::new();
        let mut i: usize = 0;
        while i < c
            invariant
                i <= c,
                c <= self.bits@.len(),
                bits@ == self.bits@.subrange(0, i as int),
            decreases c - i,
        {
            bits.push(self.bits[i]);
            assert(bits@ =~= self.bits@.subrange(0, i + 1 as int));
            i = i + 1;
        }
        proof {
            assert(bits@ =~= self.bits@.subrange(0, c as int));
            assert(bits@.is_prefix_of(self.bits@));
            assert(bits@ =~= other.bits@.subrange(0, c as int));
            assert(bits@.is_prefix_of(other.bits@));
        }
        BitPrefix { bits }
    }

    fn zero() -> (r: Self) {
        BitPrefix { bits: Vec::new() }
    }
}

} // verus!
