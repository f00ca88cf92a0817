use vstd::prelude::*;

use crate::bloom_filter::{bit_index, planned_hash_functions};
use crate::hashing::BloomItem;

verus! {

/// Counters planned for `n` items at a false-positive rate of one in a hundred:
/// `n * ln(100) / ln(2)^2`, with the factor fixed to ten decimals and the product rounded down,
/// capped at `usize::MAX`.
pub open spec fn planned_counters(n: nat) -> nat {
    if n * 95850583780 / 10000000000 > usize::MAX {
        usize::MAX as nat
    } else {
        n * 95850583780 / 10000000000
    }
}

/// How many of the first `k` hash functions pick counter `j` for `item` among `m` counters.
pub open spec fn hits<T: BloomItem>(item: &T, k: nat, m: nat, j: int) -> nat
    decreases k,
{
    if k == 0 {
        0
    } else {
        hits(item, (k - 1) as nat, m, j) + if bit_index(item, k - 1, m) == j {
            1nat
        } else {
            0nat
        }
    }
}

pub open spec fn sat_add(a: nat, b: nat) -> nat {
    if a + b > usize::MAX {
        usize::MAX as nat
    } else {
        a + b
    }
}

pub open spec fn sat_sub(a: nat, b: nat) -> nat {
    if a < b {
        0
    } else {
        (a - b) as nat
    }
}

/// A Bloom filter with a counter in place of each bit, so that items can be removed.
#[derive(Debug)]
pub struct CountingBloomFilter {
    filter: Vec<usize>,
    hash_functions: usize,
}

impl CountingBloomFilter {
    pub closed spec fn wf(&self) -> bool {
        self.hash_functions > 0 ==> self.filter@.len() > 0
    }

    /// The counters.
    pub closed spec fn counters(&self) -> Seq<nat> {
        self.filter@.map_values(|c: usize| c as nat)
    }

    pub closed spec fn spec_hash_functions(&self) -> nat {
        self.hash_functions as nat
    }

    /// A filter with hash functions has counters.
    pub proof fn lemma_wf(&self)
        requires
            self.wf(),
        ensures
            self.spec_hash_functions() > 0 ==> self.counters().len() > 0,
    {
    }

    /// Whether every counter that `item` picks is above zero.
    pub open spec fn spec_contains<T: BloomItem>(&self, item: &T) -> bool {
        forall|i: int|
            0 <= i < self.spec_hash_functions() ==> #[trigger] self.counters()[bit_index(
                item,
                i,
                self.counters().len(),
            )] > 0
    }

    /// An empty filter of `counters` counters that uses `hash_functions` hash functions.
    pub fn with_size(counters: usize, hash_functions: usize) -> (r: CountingBloomFilter)
        requires
            hash_functions > 0 ==> counters > 0,
        ensures
            r.wf(),
            r.counters().len() == counters,
            r.spec_hash_functions() == hash_functions,
            forall|j: int| 0 <= j < r.counters().len() ==> #[trigger] r.counters()[j] == 0,
    {
        CountingBloomFilter { filter: vec![0usize; counters], hash_functions }
    }

    /// Number of counters.
    pub fn counter_count(&self) -> (r: usize)
        ensures
            r == self.counters().len(),
    {
        self.filter.len()
    }

    /// Number of hash functions.
    pub fn hash_functions(&self) -> (r: usize)
        ensures
            r == self.spec_hash_functions(),
    {
        self.hash_functions
    }

    /// An empty filter planned for `planned_capacity` items at a false-positive rate of one
    /// in a hundred.
    pub fn with_planned_capacity(planned_capacity: usize) -> (r: CountingBloomFilter)
        ensures
            r.wf(),
            r.counters().len() == planned_counters(planned_capacity as nat),
            r.spec_hash_functions() == planned_hash_functions(
                planned_capacity as nat,
                planned_counters(planned_capacity as nat),
            ),
            forall|j: int| 0 <= j < r.counters().len() ==> #[trigger] r.counters()[j] == 0,
    {
        let n = planned_capacity as u128;
        assert(n * 95850583780 / 10000000000 <= n * 10) by (nonlinear_arith);
        let planned: u128 = n * 95850583780u128 / 10000000000u128;
        let counters: u128 = if planned > usize::MAX as u128 {
            usize::MAX as u128
        } else {
            planned
        };
        let hash_functions: u128 = if n == 0 {
            0
        } else {
            assert(counters * 6931471806 + n * 10000000000 - 1 < 0x7fff_ffff_ffff_ffff_ffff_ffff_ffff_ffff)
                by (nonlinear_arith)
                requires
                    counters <= 0xffff_ffff_ffff_ffff,
                    n <= 0xffff_ffff_ffff_ffff,
            ;
            assert((counters * 6931471806 + n * 10000000000 - 1) / (n * 10000000000) <= counters)
                by (nonlinear_arith)
                requires
                    n > 0,
                    counters >= 9,
            {
                assert(counters * 6931471806 + n * 10000000000 - 1 < counters * (n * 10000000000) + n
                    * 10000000000);
            }
            (counters * 6931471806u128 + n * 10000000000u128 - 1) / (n * 10000000000u128)
        };
        let r = CountingBloomFilter {
            filter: vec![0usize; counters as usize],
            hash_functions: hash_functions as usize,
        };
        r
    }

    /// Counts `item` once more on each counter it picks, saturating at `usize::MAX`.
    pub fn add<T: BloomItem>(&mut self, item: &T)
        requires
            old(self).wf(),
        ensures
            final(self).wf(),
            final(self).spec_hash_functions() == old(self).spec_hash_functions(),
            final(self).counters().len() == old(self).counters().len(),
            forall|j: int|
                0 <= j < old(self).counters().len() ==> #[trigger] final(self).counters()[j]
                    == sat_add(
                    old(self).counters()[j],
                    hits(item, old(self).spec_hash_functions(), old(self).counters().len(), j),
                ),
    {
        let m = self.filter.len();
        let indexes = Self::get_indexes(self.hash_functions, m, item);
        let mut n: usize = 0;
        while n < indexes.len()
            invariant
                self.hash_functions == old(self).hash_functions,
                self.filter@.len() == m,
                m == old(self).filter@.len(),
                self.wf(),
                indexes@.len() == self.hash_functions,
                forall|i: int|
                    0 <= i < indexes@.len() ==> #[trigger] indexes@[i] == bit_index(item, i, m as nat),
                forall|i: int| 0 <= i < indexes@.len() ==> #[trigger] indexes@[i] < m,
                n <= indexes@.len(),
                forall|j: int|
                    0 <= j < m ==> #[trigger] self.filter@[j] as nat == sat_add(
                        old(self).filter@[j] as nat,
                        hits(item, n as nat, m as nat, j),
                    ),
            decreases indexes@.len() - n,
        {
            let idx = indexes[n];
            let c = self.filter[idx];
            self.filter.set(idx, c.saturating_add(1));
            n = n + 1;
        }
        proof {
            assert forall|j: int| 0 <= j < m implies #[trigger] self.counters()[j] == sat_add(
                old(self).counters()[j],
                hits(item, old(self).spec_hash_functions(), m as nat, j),
            ) by {
                assert(self.counters()[j] == self.filter@[j] as nat);
                assert(old(self).counters()[j] == old(self).filter@[j] as nat);
            }
        }
    }

    /// Whether every counter that `item` picks is above zero.
    pub fn contains<T: BloomItem>(&self, item: &T) -> (r: bool)
        requires
            self.wf(),
        ensures
            r == self.spec_contains(item),
    {
        let m = self.filter.len();
        let indexes = Self::get_indexes(self.hash_functions, m, item);
        let mut n: usize = 0;
        while n < indexes.len()
            invariant
                self.wf(),
                m == self.filter@.len(),
                indexes@.len() == self.hash_functions,
                forall|i: int|
                    0 <= i < indexes@.len() ==> #[trigger] indexes@[i] == bit_index(item, i, m as nat),
                forall|i: int| 0 <= i < indexes@.len() ==> #[trigger] indexes@[i] < m,
                n <= indexes@.len(),
                forall|i: int| 0 <= i < n ==> #[trigger] self.counters()[bit_index(item, i, m as nat)] > 0,
            decreases indexes@.len() - n,
        {
            if self.filter[indexes[n]] == 0 {
                proof {
                    assert(self.counters().len() == m);
                    assert(self.counters()[bit_index(item, n as int, self.counters().len())] == 0);
                }
                return false;
            }
            n = n + 1;
        }
        true
    }

    /// Where every counter that `item` picks is above zero, counts it once less on each and
    /// answers `true`; otherwise changes nothing and answers `false`.
    pub fn remove<T: BloomItem>(&mut self, item: &T) -> (r: bool)
        requires
            old(self).wf(),
        ensures
            final(self).wf(),
            r == old(self).spec_contains(item),
            final(self).spec_hash_functions() == old(self).spec_hash_functions(),
            final(self).counters().len() == old(self).counters().len(),
            !r ==> final(self).counters() == old(self).counters(),
            r ==> forall|j: int|
                0 <= j < old(self).counters().len() ==> #[trigger] final(self).counters()[j]
                    == sat_sub(
                    old(self).counters()[j],
                    hits(item, old(self).spec_hash_functions(), old(self).counters().len(), j),
                ),
    {
        if !self.contains(item) {
            return false;
        }
        let m = self.filter.len();
        let indexes = Self::get_indexes(self.hash_functions, m, item);
        let mut n: usize = 0;
        while n < indexes.len()
            invariant
                self.hash_functions == old(self).hash_functions,
                self.filter@.len() == m,
                m == old(self).filter@.len(),
                self.wf(),
                indexes@.len() == self.hash_functions,
                forall|i: int|
                    0 <= i < indexes@.len() ==> #[trigger] indexes@[i] == bit_index(item, i, m as nat),
                forall|i: int| 0 <= i < indexes@.len() ==> #[trigger] indexes@[i] < m,
                n <= indexes@.len(),
                forall|j: int|
                    0 <= j < m ==> #[trigger] self.filter@[j] as nat == sat_sub(
                        old(self).filter@[j] as nat,
                        hits(item, n as nat, m as nat, j),
                    ),
            decreases indexes@.len() - n,
        {
            let idx = indexes[n];
            let c = self.filter[idx];
            self.filter.set(idx, c.saturating_sub(1));
            n = n + 1;
        }
        proof {
            assert forall|j: int| 0 <= j < m implies #[trigger] self.counters()[j] == sat_sub(
                old(self).counters()[j],
                hits(item, old(self).spec_hash_functions(), m as nat, j),
            ) by {
                assert(self.counters()[j] == self.filter@[j] as nat);
                assert(old(self).counters()[j] == old(self).filter@[j] as nat);
            }
        }
        true
    }

    /// The counters that `item` picks, one for each hash function.
    fn get_indexes<T: BloomItem>(functions: usize, size: usize, item: &T) -> (r: Vec<usize>)
        requires
            functions > 0 ==> size > 0,
        ensures
            r@.len() == functions,
            forall|i: int| 0 <= i < functions ==> #[trigger] r@[i] == bit_index(item, i, size as nat),
            forall|i: int| 0 <= i < functions ==> #[trigger] r@[i] < size,
    {
        let mut r: Vec<usize> = Vec::new();
        let mut i: usize = 0;
        while i < functions
            invariant
                i <= functions,
                functions > 0 ==> size > 0,
                r@.len() == i,
                forall|j: int| 0 <= j < i ==> #[trigger] r@[j] == bit_index(item, j, size as nat),
                forall|j: int| 0 <= j < i ==> #[trigger] r@[j] < size,
            decreases functions - i,
        {
            let h = item.seeded_hash(i);
            r.push((h as usize) % size);
            i = i + 1;
        }
        r
    }
}

} // verus!
