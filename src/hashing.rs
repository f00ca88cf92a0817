use vstd::prelude::*;

verus! {

/// What std's `DefaultHasher::new()` finishes with after hashing a `u16` and then a `usize`.
pub uninterp spec fn default_hash_u16(x: u16, seed: usize) -> u64;

/// What std's `DefaultHasher::new()` finishes with after hashing a `u64` and then a `usize`.
pub uninterp spec fn default_hash_u64(x: u64, seed: usize) -> u64;

/// What std's `DefaultHasher::new()` finishes with after hashing a byte vector and then a `usize`.
pub uninterp spec fn default_hash_bytes(b: Seq<u8>, seed: usize) -> u64;

/// Relies on std's `DefaultHasher::new`, `Hash for u16` and `Hash for usize`: every hasher
/// made by `new` starts from the same keys, so the result depends on `x` and `seed` alone.
#[verifier::external_body]
fn hash_u16_with_seed(x: u16, seed: usize) -> (r: u64)
    ensures
        r == default_hash_u16(x, seed),
{
    let mut hasher = std::hash::DefaultHasher::new();
    std::hash::Hash::hash(&x, &mut hasher);
    std::hash::Hash::hash(&seed, &mut hasher);
    std::hash::Hasher::finish(&hasher)
}

/// Relies on std's `DefaultHasher::new`, `Hash for u64` and `Hash for usize`: every hasher
/// made by `new` starts from the same keys, so the result depends on `x` and `seed` alone.
#[verifier::external_body]
fn hash_u64_with_seed(x: u64, seed: usize) -> (r: u64)
    ensures
        r == default_hash_u64(x, seed),
{
    let mut hasher = std::hash::DefaultHasher::new();
    std::hash::Hash::hash(&x, &mut hasher);
    std::hash::Hash::hash(&seed, &mut hasher);
    std::hash::Hasher::finish(&hasher)
}

/// Relies on std's `DefaultHasher::new`, `Hash for Vec<u8>` and `Hash for usize`: every
/// hasher made by `new` starts from the same keys, so the result depends on the bytes of `b`
/// and on `seed` alone.
#[verifier::external_body]
fn hash_bytes_with_seed(b: &Vec<u8>, seed: usize) -> (r: u64)
    ensures
        r == default_hash_bytes(b@, seed),
{
    let mut hasher = std::hash::DefaultHasher::new();
    std::hash::Hash::hash(b, &mut hasher);
    std::hash::Hash::hash(&seed, &mut hasher);
    std::hash::Hasher::finish(&hasher)
}

/// An item that a Bloom filter can hold: it yields one stable hash for each seed.
pub trait BloomItem {
    spec fn spec_seeded_hash(&self, seed: usize) -> u64;

    fn seeded_hash(&self, seed: usize) -> (r: u64)
        ensures
            r == self.spec_seeded_hash(seed),
    ;
}

impl BloomItem for u16 {
    open spec fn spec_seeded_hash(&self, seed: usize) -> u64 {
        default_hash_u16(*self, seed)
    }

    fn seeded_hash(&self, seed: usize) -> (r: u64) {
        hash_u16_with_seed(*self, seed)
    }
}

impl BloomItem for u64 {
    open spec fn spec_seeded_hash(&self, seed: usize) -> u64 {
        default_hash_u64(*self, seed)
    }

    fn seeded_hash(&self, seed: usize) -> (r: u64) {
        hash_u64_with_seed(*self, seed)
    }
}

impl BloomItem for Vec<u8> {
    open spec fn spec_seeded_hash(&self, seed: usize) -> u64 {
        default_hash_bytes(self@, seed)
    }

    fn seeded_hash(&self, seed: usize) -> (r: u64) {
        hash_bytes_with_seed(self, seed)
    }
}

} // verus!
