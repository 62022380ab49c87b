//! A Bloom filter for infohashes.
//!
//! The positions of an item come from two 64-bit hashes: the `i`-th is the first hash plus `i` times
//! the second.

use crate::bytes::be_bytes;
use crate::types::Infohash;
use std::collections::hash_map::DefaultHasher;
use std::hash::Hasher;
use vstd::prelude::*;
use vstd::std_specs::hash::*;

verus! {

/// What the second hash is seeded with besides the first.
pub const HASH_SEED: u64 = 0x9E37_79B9_7F4A_7C15;

/// The eight bytes of a number, least significant byte first.
pub open spec fn le_bytes(n: u64) -> Seq<u8> {
    be_bytes(n as nat, 8).reverse()
}

/// What is hashed for an item: its length and its bytes.
pub open spec fn hashed_item(item: Infohash) -> Seq<Seq<u8>> {
    seq![le_bytes(20), item@]
}

/// The first hash of an item.
pub open spec fn first_hash(item: Infohash) -> u64 {
    DefaultHasher::spec_finish(hashed_item(item))
}

/// The second hash of an item.
pub open spec fn second_hash(item: Infohash) -> u64 {
    DefaultHasher::spec_finish(
        seq![le_bytes(first_hash(item)), le_bytes(HASH_SEED), le_bytes(20), item@],
    )
}

/// The `i`-th position of an item in a filter of `num_bits` bits.
pub open spec fn position(item: Infohash, i: u64, num_bits: nat) -> int {
    first_hash(item).wrapping_add(i.wrapping_mul(second_hash(item))) as int % num_bits as int
}

/// The positions of an item in a filter with `num_hashes` hashes.
pub open spec fn positions(item: Infohash, num_hashes: nat, num_bits: nat) -> Set<int> {
    Set::new(
        |p: int| exists|i: u64| 0 <= i < num_hashes && p == #[trigger] position(item, i, num_bits),
    )
}

/// Whether bit `p` is set.
pub open spec fn bit_is_set(words: Seq<u64>, p: int) -> bool {
    words[p / 64] & (1u64 << ((p % 64) as u64)) != 0
}

/// A Bloom filter.
pub struct BloomFilter {
    bits: Vec<u64>,
    num_bits: usize,
    num_hashes: usize,
    count: usize,
}

fn little_endian(n: u64) -> (r: [u8; 8])
    ensures
        r@ == le_bytes(n),
{
    let mut big: Vec<u8> = Vec::new();
    crate::bytes::put_be(&mut big, n, 8);
    proof {
        crate::bytes::lemma_be_bytes_len(n as nat, 8);
        assert(big@ =~= be_bytes(n as nat, 8));
    }
    let r: [u8; 8] = [big[7], big[6], big[5], big[4], big[3], big[2], big[1], big[0]];
    assert(r@ =~= le_bytes(n));
    r
}

impl BloomFilter {
    /// The number of bits.
    pub closed spec fn size(&self) -> nat {
        self.num_bits as nat
    }

    /// The number of hashes.
    pub closed spec fn hashes(&self) -> nat {
        self.num_hashes as nat
    }

    /// The number of insertions.
    pub closed spec fn insertions(&self) -> nat {
        self.count as nat
    }

    /// The bits that are set.
    pub closed spec fn set_bits(&self) -> Set<int> {
        Set::new(|p: int| 0 <= p < self.num_bits && bit_is_set(self.bits@, p))
    }

    /// What holds of every filter.
    pub closed spec fn wf(&self) -> bool {
        &&& 64 <= self.num_bits
        &&& self.num_bits <= 64 * self.bits@.len()
        &&& 64 * self.bits@.len() < self.num_bits + 64
        &&& 2 <= self.num_hashes <= 20
    }

    /// The size of the bits in bytes: whole words of 64 bits.
    pub open spec fn memory(&self) -> nat {
        8 * ((self.size() + 63) / 64)
    }

    /// Whether an item may have been inserted.
    pub open spec fn may_contain(&self, item: Infohash) -> bool {
        positions(item, self.hashes(), self.size()).subset_of(self.set_bits())
    }

    /// An empty filter with `num_bits` bits, at least 64, and `num_hashes` hashes, at least 2 and at
    /// most 20.
    pub fn with_size(num_bits: usize, num_hashes: usize) -> (r: BloomFilter)
        requires
            num_bits <= usize::MAX - 63,
        ensures
            r.wf(),
            r.size() == if num_bits < 64 {
                64
            } else {
                num_bits as nat
            },
            r.hashes() == if num_hashes < 2 {
                2
            } else if num_hashes > 20 {
                20
            } else {
                num_hashes as nat
            },
            r.set_bits() == Set::<int>::empty(),
            r.insertions() == 0,
    {
        let num_bits: usize = if num_bits < 64 {
            64
        } else {
            num_bits
        };
        let num_hashes: usize = if num_hashes < 2 {
            2
        } else if num_hashes > 20 {
            20
        } else {
            num_hashes
        };
        let num_words: usize = (num_bits + 63) / 64;
        let r: BloomFilter = BloomFilter {
            bits: vec![0u64; num_words],
            num_bits,
            num_hashes,
            count: 0,
        };
        proof {
            assert forall|p: int| 0 <= p < num_bits implies !bit_is_set(r.bits@, p) by {
                let m = 1u64 << ((p % 64) as u64);
                assert(0u64 & m == 0) by (bit_vector);
            }
            assert(r.set_bits() =~= Set::<int>::empty());
        }
        r
    }

    /// The two hashes of an item.
    fn hash_pair(item: &Infohash) -> (r: (u64, u64))
        ensures
            r == (first_hash(*item), second_hash(*item)),
    {
        let length: [u8; 8] = little_endian(20);
        let mut hasher1: DefaultHasher = DefaultHasher::new();
        hasher1.write(&length);
        hasher1.write(item);
        assert(hasher1@ =~= hashed_item(*item));
        let h1: u64 = hasher1.finish();
        let seed1: [u8; 8] = little_endian(h1);
        let seed2: [u8; 8] = little_endian(HASH_SEED);
        let mut hasher2: DefaultHasher = DefaultHasher::new();
        hasher2.write(&seed1);
        hasher2.write(&seed2);
        hasher2.write(&length);
        hasher2.write(item);
        assert(hasher2@ =~= seq![
            le_bytes(first_hash(*item)),
            le_bytes(HASH_SEED),
            le_bytes(20),
            item@,
        ]);
        (h1, hasher2.finish())
    }

    /// Inserts an item.
    pub fn insert(&mut self, item: &Infohash)
        requires
            old(self).wf(),
            old(self).insertions() < usize::MAX,
        ensures
            final(self).wf(),
            final(self).size() == old(self).size(),
            final(self).hashes() == old(self).hashes(),
            final(self).set_bits() == old(self).set_bits().union(
                positions(*item, old(self).hashes(), old(self).size()),
            ),
            final(self).insertions() == old(self).insertions() + 1,
    {
        let (h1, h2): (u64, u64) = Self::hash_pair(item);
        let ghost before = self.set_bits();
        let ghost size = self.size();
        let mut i: usize = 0;
        proof {
            assert(positions(*item, 0, size) =~= Set::<int>::empty());
            assert(before =~= before.union(positions(*item, 0, size)));
        }
        while i < self.num_hashes
            invariant
                self.wf(),
                i <= self.num_hashes,
                size == self.num_bits,
                h1 == first_hash(*item),
                h2 == second_hash(*item),
                self.num_hashes == old(self).num_hashes,
                self.num_bits == old(self).num_bits,
                self.count == old(self).count,
                self.set_bits() == before.union(positions(*item, i as nat, size)),
            decreases self.num_hashes - i,
        {
            let hash: u64 = h1.wrapping_add((i as u64).wrapping_mul(h2));
            let bit_idx: usize = (hash % self.num_bits as u64) as usize;
            let word_idx: usize = bit_idx / 64;
            let bit_offset: usize = bit_idx % 64;
            let ghost words = self.bits@;
            let ghost here = self.set_bits();
            assert(bit_idx == position(*item, i as u64, size));
            let mask: u64 = 1u64 << bit_offset as u64;
            let word: u64 = self.bits[word_idx];
            self.bits.set(word_idx, word | mask);
            proof {
                let after = self.bits@;
                assert forall|p: int| 0 <= p < self.num_bits implies (bit_is_set(after, p) <==> (
                bit_is_set(words, p) || p == bit_idx)) by {
                    if p / 64 == word_idx {
                        let a = (p % 64) as u64;
                        let b = bit_offset as u64;
                        assert(((word | (1u64 << b)) & (1u64 << a) != 0) <==> ((word & (1u64 << a)
                            != 0) || a == b)) by (bit_vector)
                            requires
                                a < 64,
                                b < 64,
                        ;
                    }
                }
                assert(self.set_bits() =~= here.insert(bit_idx as int));
                assert(positions(*item, (i + 1) as nat, size) =~= positions(
                    *item,
                    i as nat,
                    size,
                ).insert(bit_idx as int)) by {
                    assert forall|p: int|
                        positions(*item, (i + 1) as nat, size).contains(p) <==> positions(
                            *item,
                            i as nat,
                            size,
                        ).insert(bit_idx as int).contains(p) by {
                        if positions(*item, (i + 1) as nat, size).contains(p) {
                            let k = choose|k: u64|
                                0 <= k < i + 1 && p == #[trigger] position(*item, k, size);
                            if k < i {
                                assert(p == position(*item, k, size));
                            }
                        }
                        if positions(*item, i as nat, size).contains(p) {
                            let k = choose|k: u64|
                                0 <= k < i && p == #[trigger] position(*item, k, size);
                            assert(p == position(*item, k, size));
                        }
                        if p == bit_idx {
                            assert(p == position(*item, i as u64, size));
                        }
                    }
                }
                assert(self.set_bits() =~= before.union(positions(*item, (i + 1) as nat, size)));
            }
            i += 1;
        }
        self.count = self.count + 1;
        assert(self.set_bits() =~= before.union(positions(*item, self.hashes(), size)));
    }

    /// Whether an item may have been inserted. An item that was inserted always may.
    pub fn contains(&self, item: &Infohash) -> (r: bool)
        requires
            self.wf(),
        ensures
            r == self.may_contain(*item),
    {
        let (h1, h2): (u64, u64) = Self::hash_pair(item);
        let mut i: usize = 0;
        while i < self.num_hashes
            invariant
                self.wf(),
                i <= self.num_hashes,
                h1 == first_hash(*item),
                h2 == second_hash(*item),
                forall|k: u64|
                    0 <= k < i ==> self.set_bits().contains(
                        #[trigger] position(*item, k, self.size()),
                    ),
            decreases self.num_hashes - i,
        {
            let hash: u64 = h1.wrapping_add((i as u64).wrapping_mul(h2));
            let bit_idx: usize = (hash % self.num_bits as u64) as usize;
            let word_idx: usize = bit_idx / 64;
            let bit_offset: usize = bit_idx % 64;
            assert(bit_idx == position(*item, i as u64, self.size()));
            if self.bits[word_idx] & (1u64 << bit_offset as u64) == 0 {
                proof {
                    let p = bit_idx as int;
                    assert(!self.set_bits().contains(p));
                    assert(positions(*item, self.hashes(), self.size()).contains(p)) by {
                        assert(p == position(*item, i as u64, self.size()));
                    }
                }
                return false;
            }
            i += 1;
        }
        proof {
            assert forall|p: int|
                positions(*item, self.hashes(), self.size()).contains(
                    p,
                ) implies self.set_bits().contains(p) by {
                let k = choose|k: u64|
                    0 <= k < self.hashes() && p == #[trigger] position(*item, k, self.size());
                assert(self.set_bits().contains(position(*item, k, self.size())));
            }
        }
        true
    }

    /// Inserts an item unless it may have been inserted before. Returns whether it was inserted.
    pub fn insert_and_check(&mut self, item: &Infohash) -> (r: bool)
        requires
            old(self).wf(),
            old(self).insertions() < usize::MAX,
        ensures
            final(self).wf(),
            final(self).size() == old(self).size(),
            final(self).hashes() == old(self).hashes(),
            r == !old(self).may_contain(*item),
            final(self).may_contain(*item),
            final(self).set_bits() == old(self).set_bits().union(
                positions(*item, old(self).hashes(), old(self).size()),
            ),
            final(self).insertions() == old(self).insertions() + if r {
                1int
            } else {
                0
            },
    {
        if self.contains(item) {
            assert(self.set_bits() =~= self.set_bits().union(
                positions(*item, self.hashes(), self.size()),
            ));
            false
        } else {
            self.insert(item);
            true
        }
    }

    /// The number of insertions.
    pub fn len(&self) -> (r: usize)
        ensures
            r == self.insertions(),
    {
        self.count
    }

    /// Whether nothing was inserted.
    pub fn is_empty(&self) -> (r: bool)
        ensures
            r == (self.insertions() == 0),
    {
        self.count == 0
    }

    /// The number of bits.
    pub fn bit_count(&self) -> (r: usize)
        ensures
            r == self.size(),
    {
        self.num_bits
    }

    /// The number of hashes.
    pub fn hash_count(&self) -> (r: usize)
        ensures
            r == self.hashes(),
    {
        self.num_hashes
    }

    /// The size of the bits in bytes: whole words of 64 bits.
    pub fn memory_usage(&self) -> (r: usize)
        requires
            self.wf(),
        ensures
            r == self.memory(),
    {
        self.bits.len() * 8
    }

    /// Empties the filter.
    pub fn clear(&mut self)
        requires
            old(self).wf(),
        ensures
            final(self).wf(),
            final(self).size() == old(self).size(),
            final(self).hashes() == old(self).hashes(),
            final(self).set_bits() == Set::<int>::empty(),
            final(self).insertions() == 0,
            final(self).memory() == old(self).memory(),
            forall|item: Infohash| !#[trigger] final(self).may_contain(item),
    {
        let mut i: usize = 0;
        while i < self.bits.len()
            invariant
                i <= self.bits@.len(),
                self.bits@.len() == old(self).bits@.len(),
                self.num_bits == old(self).num_bits,
                self.num_hashes == old(self).num_hashes,
                forall|j: int| 0 <= j < i ==> self.bits@[j] == 0,
            decreases self.bits@.len() - i,
        {
            self.bits.set(i, 0);
            i += 1;
        }
        self.count = 0;
        proof {
            assert forall|p: int| 0 <= p < self.num_bits implies !bit_is_set(self.bits@, p) by {
                let m = 1u64 << ((p % 64) as u64);
                assert(0u64 & m == 0) by (bit_vector);
            }
            assert(self.set_bits() =~= Set::<int>::empty());
            assert forall|item: Infohash| !#[trigger] self.may_contain(item) by {
                law_empty_filter_denies(*self, item);
            }
        }
    }

    /// Adds what was inserted into another filter. A filter of another shape is skipped.
    pub fn merge(&mut self, other: &BloomFilter)
        requires
            old(self).wf(),
            other.wf(),
            old(self).insertions() + other.insertions() <= usize::MAX,
        ensures
            final(self).wf(),
            final(self).size() == old(self).size(),
            final(self).hashes() == old(self).hashes(),
            if old(self).size() == other.size() && old(self).hashes() == other.hashes() {
                &&& final(self).set_bits() == old(self).set_bits().union(other.set_bits())
                &&& final(self).insertions() == old(self).insertions() + other.insertions()
            } else {
                *final(self) == *old(self)
            },
    {
        if self.num_bits != other.num_bits || self.num_hashes != other.num_hashes {
            return;
        }
        let ghost words = self.bits@;
        let mut i: usize = 0;
        while i < self.bits.len()
            invariant
                i <= self.bits@.len(),
                self.bits@.len() == words.len() == other.bits@.len(),
                self.num_bits == old(self).num_bits,
                self.num_hashes == old(self).num_hashes,
                self.count == old(self).count,
                forall|j: int| 0 <= j < i ==> self.bits@[j] == words[j] | other.bits@[j],
                forall|j: int| i <= j < words.len() ==> self.bits@[j] == words[j],
            decreases self.bits@.len() - i,
        {
            let word: u64 = self.bits[i] | other.bits[i];
            self.bits.set(i, word);
            i += 1;
        }
        self.count = self.count + other.count;
        proof {
            assert forall|p: int| 0 <= p < self.num_bits implies (bit_is_set(self.bits@, p) <==> (
            bit_is_set(words, p) || bit_is_set(other.bits@, p))) by {
                let x = words[p / 64];
                let y = other.bits@[p / 64];
                let m = 1u64 << ((p % 64) as u64);
                assert(((x | y) & m != 0) <==> ((x & m != 0) || (y & m != 0))) by (bit_vector);
            }
            assert(self.set_bits() =~= old(self).set_bits().union(other.set_bits()));
        }
    }
}

impl Default for BloomFilter {
    /// A filter for a million items of which one in a hundred that were not inserted may seem to
    /// have been.
    fn default() -> (r: BloomFilter)
        ensures
            r.wf(),
            r.size() == 9_585_059,
            r.hashes() == 7,
            r.set_bits() == Set::<int>::empty(),
            r.insertions() == 0,
    {
        BloomFilter::with_size(9_585_059, 7)
    }
}

/// The bits that are set after items were inserted one after the other.
pub open spec fn bits_after(
    before: Set<int>,
    items: Seq<Infohash>,
    num_hashes: nat,
    num_bits: nat,
) -> Set<int>
    decreases items.len(),
{
    if items.len() == 0 {
        before
    } else {
        bits_after(before, items.drop_last(), num_hashes, num_bits).union(
            positions(items.last(), num_hashes, num_bits),
        )
    }
}

/// Whatever else is inserted before or after, an item that was inserted is found, and so is all that
/// was found before.
pub proof fn law_no_false_negatives(
    before: Set<int>,
    items: Seq<Infohash>,
    item: Infohash,
    num_hashes: nat,
    num_bits: nat,
)
    requires
        items.contains(item) || positions(item, num_hashes, num_bits).subset_of(before),
    ensures
        positions(item, num_hashes, num_bits).subset_of(
            bits_after(before, items, num_hashes, num_bits),
        ),
    decreases items.len(),
{
    if items.len() > 0 {
        let rest = items.drop_last();
        if item != items.last() || positions(item, num_hashes, num_bits).subset_of(before) {
            if items.contains(item) && item != items.last() {
                let i = choose|i: int| 0 <= i < items.len() && items[i] == item;
                assert(rest[i] == item);
            }
            law_no_false_negatives(before, rest, item, num_hashes, num_bits);
        }
    }
}

/// A filter has at least two hashes and 64 bits, so one without a set bit denies every item.
pub proof fn law_empty_filter_denies(filter: BloomFilter, item: Infohash)
    requires
        filter.wf(),
        filter.set_bits() == Set::<int>::empty(),
    ensures
        2 <= filter.hashes() <= 20,
        64 <= filter.size(),
        !filter.may_contain(item),
{
    let p = position(item, 0, filter.size());
    assert(positions(item, filter.hashes(), filter.size()).contains(p));
    assert(!Set::<int>::empty().contains(p));
}

/// An item has as many positions as there are hashes, each within the filter; the first is the first
/// hash, and each further one adds the second hash, wrapping round.
pub proof fn law_positions_of_an_item(item: Infohash, i: u64, num_hashes: nat, num_bits: nat)
    requires
        i < num_hashes,
        num_bits > 0,
    ensures
        positions(item, num_hashes, num_bits).contains(position(item, i, num_bits)),
        0 <= position(item, i, num_bits) < num_bits,
        position(item, i, num_bits) == ((first_hash(item) + (i * second_hash(item)) % 0x1_0000_0000_0000_0000int) % 0x1_0000_0000_0000_0000int)
            % num_bits as int,
{
    let a = first_hash(item);
    let b = second_hash(item);
    assert(i.wrapping_mul(b) as int == (i * b) % 0x1_0000_0000_0000_0000int);
    assert(a.wrapping_add(i.wrapping_mul(b)) as int == (a + i.wrapping_mul(b)) % 0x1_0000_0000_0000_0000int);
}

} // verus!
