use vstd::prelude::*;

use crate::bit_map::BitMap;
use crate::hashing::BloomItem;

verus! {

/// Bit that the hash function numbered `i` picks for `item` in a filter of `m` bits.
pub open spec fn bit_index<T: BloomItem>(item: &T, i: int, m: nat) -> int {
    ((item.spec_seeded_hash(i as usize) as usize) as nat % m) as int
}

/// Whether all `k` bits that `item` picks are set in `bits`.
pub open spec fn all_bits_set<T: BloomItem>(bits: Seq<bool>, item: &T, k: nat) -> bool {
    forall|i: int| 0 <= i < k ==> #[trigger] bits[bit_index(item, i, bits.len())]
}

/// Bits planned for `n` items at a false-positive rate of one in ten: `n * ln(10) / ln(2)^2`,
/// with the factor fixed to ten decimals and the product rounded down.
pub open spec fn planned_bits(n: nat) -> nat {
    n * 47925291890 / 10000000000
}

/// Bits planned for `n` items, capped at `usize::MAX`.
pub open spec fn capped_bits(n: nat) -> nat {
    if planned_bits(n) > usize::MAX {
        usize::MAX as nat
    } else {
        planned_bits(n)
    }
}

/// Hash functions planned for `n` items in `m` bits: `m / n * ln(2)` rounded up, none for
/// an empty plan.
pub open spec fn planned_hash_functions(n: nat, m: nat) -> nat {
    if n == 0 {
        0
    } else {
        ((m * 6931471806 + n * 10000000000 - 1) as nat / (n * 10000000000)) as nat
    }
}

/// Probabilistic set membership: `contains` never answers `false` for an item that was added.
///
/// The filter is sized by its number of bits and its number of hash functions; larger filters
/// give fewer false positives for the same number of items.
#[derive(Debug)]
pub struct BloomFilter {
    filter: BitMap,
    hash_functions: usize,
}

impl BloomFilter {
    pub closed spec fn wf(&self) -> bool {
        self.filter.wf() && (self.hash_functions > 0 ==> self.filter@.len() > 0)
    }

    /// The filter's bits.
    pub closed spec fn bits(&self) -> Seq<bool> {
        self.filter@
    }

    /// Its number of hash functions.
    pub closed spec fn spec_hash_functions(&self) -> nat {
        self.hash_functions as nat
    }

    /// The packed bits, eight to a byte, least significant first.
    pub closed spec fn bytes(&self) -> Seq<u8> {
        self.filter.bytes()
    }

    /// The filter's bits are packed as a `BitMap` packs them: bit `i` in byte `i / 8` at mask
    /// `1 << (i % 8)`.
    pub proof fn lemma_layout(&self)
        requires
            self.wf(),
        ensures
            self.bytes().len() == crate::bit_map::bytes_for(self.bits().len()),
            forall|i: int|
                0 <= i < self.bits().len() ==> #[trigger] self.bits()[i]
                    == crate::bit_map::bit_of(self.bytes()[i / 8], (i % 8) as u8),
    {
        self.filter.lemma_layout();
    }

    /// An empty filter of `bit_size` bits that uses `hash_functions` hash functions.
    pub fn with_size(bit_size: usize, hash_functions: usize) -> (r: BloomFilter)
        requires
            hash_functions > 0 ==> bit_size > 0,
        ensures
            r.wf(),
            r.bits().len() == bit_size,
            r.spec_hash_functions() == hash_functions,
            forall|j: int| 0 <= j < bit_size ==> !#[trigger] r.bits()[j],
    {
        BloomFilter { filter: BitMap::new(bit_size), hash_functions }
    }

    /// An empty filter planned for `planned_capacity` items at a false-positive rate of one in
    /// ten; the number of bits is capped at `usize::MAX`.
    pub fn for_capacity(planned_capacity: usize) -> (r: BloomFilter)
        ensures
            r.wf(),
            r.bits().len() == capped_bits(planned_capacity as nat),
            r.spec_hash_functions() == planned_hash_functions(
                planned_capacity as nat,
                capped_bits(planned_capacity as nat),
            ),
            forall|j: int| 0 <= j < r.bits().len() ==> !#[trigger] r.bits()[j],
    {
        let n = planned_capacity as u128;
        assert(n * 47925291890 / 10000000000 <= n * 5) by (nonlinear_arith);
        let planned: u128 = n * 47925291890u128 / 10000000000u128;
        let bits: u128 = if planned > usize::MAX as u128 {
            usize::MAX as u128
        } else {
            planned
        };
        let hash_functions: u128 = if n == 0 {
            0
        } else {
            assert(bits * 6931471806 + n * 10000000000 - 1 < 0x7fff_ffff_ffff_ffff_ffff_ffff_ffff_ffff)
                by (nonlinear_arith)
                requires
                    bits <= 0xffff_ffff_ffff_ffff,
                    n <= 0xffff_ffff_ffff_ffff,
            ;
            assert((bits * 6931471806 + n * 10000000000 - 1) / (n * 10000000000) <= bits) by (nonlinear_arith)
                requires
                    n > 0,
                    bits >= 4,
            {
                assert(bits * 6931471806 + n * 10000000000 - 1 < bits * (n * 10000000000) + n * 10000000000);
            }
            (bits * 6931471806u128 + n * 10000000000u128 - 1) / (n * 10000000000u128)
        };
        BloomFilter::with_size(bits as usize, hash_functions as usize)
    }

    /// The packed bits.
    pub fn bit_bytes(&self) -> (r: &Vec<u8>)
        ensures
            r@ == self.bytes(),
    {
        self.filter.as_bytes()
    }

    /// Number of bits of the filter.
    pub fn bit_size(&self) -> (r: usize)
        ensures
            r == self.bits().len(),
    {
        self.filter.bit_size()
    }

    /// Number of bytes that hold the bits.
    pub fn byte_size(&self) -> (r: usize)
        requires
            self.wf(),
        ensures
            r == crate::bit_map::bytes_for(self.bits().len()),
    {
        self.filter.byte_size()
    }

    /// Number of hash functions.
    pub fn hash_functions(&self) -> (r: usize)
        ensures
            r == self.spec_hash_functions(),
    {
        self.hash_functions
    }

    /// Sets every bit that `item` picks; no bit is cleared.
    pub fn add<T: BloomItem>(&mut self, item: T)
        requires
            old(self).wf(),
        ensures
            final(self).wf(),
            final(self).spec_hash_functions() == old(self).spec_hash_functions(),
            final(self).bits().len() == old(self).bits().len(),
            forall|j: int|
                0 <= j < old(self).bits().len() ==> (#[trigger] final(self).bits()[j] <==> (old(
                    self,
                ).bits()[j] || exists|i: int|
                    0 <= i < old(self).spec_hash_functions() && j == bit_index(
                        &item,
                        i,
                        old(self).bits().len(),
                    ))),
    {
        let m = self.filter.bit_size();
        let indexes = Self::get_bit_index_iter(self.hash_functions, m, &item);
        let mut n: usize = 0;
        while n < indexes.len()
            invariant
                self.wf(),
                self.hash_functions == old(self).hash_functions,
                self.bits().len() == m,
                m == old(self).bits().len(),
                indexes@.len() == old(self).hash_functions,
                forall|i: int|
                    0 <= i < indexes@.len() ==> #[trigger] indexes@[i] == bit_index(&item, i, m as nat),
                n <= indexes@.len(),
                forall|j: int|
                    0 <= j < m ==> (#[trigger] self.bits()[j] <==> (old(self).bits()[j] || exists|
                        i: int,
                    | 0 <= i < n && j == indexes@[i])),
            decreases indexes@.len() - n,
        {
            let ghost before = self.bits();
            self.filter.set(indexes[n]);
            proof {
                assert forall|j: int| 0 <= j < m implies (#[trigger] self.bits()[j] <==> (old(
                    self,
                ).bits()[j] || exists|i: int| 0 <= i < n + 1 && j == indexes@[i])) by {
                    if j == indexes@[n as int] {
                        assert(0 <= n < n + 1 && j == indexes@[n as int]);
                    } else if before[j] && !old(self).bits()[j] {
                        let i = choose|i: int| 0 <= i < n && j == indexes@[i];
                        assert(0 <= i < n + 1 && j == indexes@[i]);
                    }
                }
            }
            n = n + 1;
        }
        proof {
            assert forall|j: int| 0 <= j < m implies (#[trigger] self.bits()[j] <==> (old(
                self,
            ).bits()[j] || exists|i: int|
                0 <= i < old(self).spec_hash_functions() && j == bit_index(&item, i, m as nat))) by {
                if exists|i: int| 0 <= i < n && j == indexes@[i] {
                    let i = choose|i: int| 0 <= i < n && j == indexes@[i];
                    assert(0 <= i < old(self).spec_hash_functions() && j == bit_index(
                        &item,
                        i,
                        m as nat,
                    ));
                }
                if exists|i: int|
                    0 <= i < old(self).spec_hash_functions() && j == bit_index(&item, i, m as nat) {
                    let i = choose|i: int|
                        0 <= i < old(self).spec_hash_functions() && j == bit_index(
                            &item,
                            i,
                            m as nat,
                        );
                    assert(0 <= i < n && j == indexes@[i]);
                }
            }
        }
    }

    /// Whether every bit that `item` picks is set.
    pub fn contains<T: BloomItem>(&self, item: &T) -> (r: bool)
        requires
            self.wf(),
        ensures
            r == all_bits_set(self.bits(), item, self.spec_hash_functions()),
    {
        let m = self.filter.bit_size();
        let indexes = Self::get_bit_index_iter(self.hash_functions, m, item);
        let mut n: usize = 0;
        while n < indexes.len()
            invariant
                self.wf(),
                m == self.bits().len(),
                indexes@.len() == self.hash_functions,
                forall|i: int|
                    0 <= i < indexes@.len() ==> #[trigger] indexes@[i] == bit_index(item, i, m as nat),
                n <= indexes@.len(),
                forall|i: int| 0 <= i < n ==> #[trigger] self.bits()[bit_index(item, i, m as nat)],
            decreases indexes@.len() - n,
        {
            if !self.filter.is_set(indexes[n]) {
                return false;
            }
            n = n + 1;
        }
        true
    }

    /// The bits that `item` picks, one for each hash function.
    fn get_bit_index_iter<T: BloomItem>(functions: usize, filter_len: usize, item: &T) -> (r: Vec<
        usize,
    >)
        requires
            functions > 0 ==> filter_len > 0,
        ensures
            r@.len() == functions,
            forall|i: int|
                0 <= i < functions ==> #[trigger] r@[i] == bit_index(item, i, filter_len as nat),
            forall|i: int| 0 <= i < functions ==> #[trigger] r@[i] < filter_len,
    {
        let mut r: Vec<usize> = Vec::new();
        let mut i: usize = 0;
        while i < functions
            invariant
                i <= functions,
                functions > 0 ==> filter_len > 0,
                r@.len() == i,
                forall|j: int|
                    0 <= j < i ==> #[trigger] r@[j] == bit_index(item, j, filter_len as nat),
                forall|j: int| 0 <= j < i ==> #[trigger] r@[j] < filter_len,
            decreases functions - i,
        {
            let h = item.seeded_hash(i);
            r.push((h as usize) % filter_len);
            i = i + 1;
        }
        r
    }
}

/// An item that was added is always reported as present, whatever else the filter held.
pub proof fn lemma_no_false_negative<T: BloomItem>(before: BloomFilter, after: BloomFilter, item: T)
    requires
        before.wf(),
        after.wf(),
        after.spec_hash_functions() == before.spec_hash_functions(),
        after.bits().len() == before.bits().len(),
        forall|j: int|
            0 <= j < before.bits().len() ==> (#[trigger] after.bits()[j] <==> (before.bits()[j]
                || exists|i: int|
                0 <= i < before.spec_hash_functions() && j == bit_index(
                    &item,
                    i,
                    before.bits().len(),
                ))),
    ensures
        all_bits_set(after.bits(), &item, after.spec_hash_functions()),
{
    let m = before.bits().len();
    assert forall|i: int| 0 <= i < after.spec_hash_functions() implies #[trigger] after.bits()[bit_index(
        &item,
        i,
        after.bits().len(),
    )] by {
        let j = bit_index(&item, i, m);
        assert(0 <= j < m);
        assert(0 <= i < before.spec_hash_functions() && j == bit_index(&item, i, m));
    }
}

} // verus!
