//! The key contract: a total order together with a deterministic hash.
//!
//! The map works for any key type that can be compared and hashed; both
//! are pinned down abstractly by an injective integer model, so that the
//! tree and table invariants can be stated over plain integers.

use vstd::prelude::*;

verus! {

/// A map key: totally ordered and hashable.
///
/// `model` embeds the key injectively into the integers; the executable
/// comparisons are specified against that embedding, which makes the
/// order total and consistent with equality. `hash_model` is the key's
/// raw hash, a pure function of the key, so equal keys hash equally.
pub trait HashKey: Sized {
    /// The key as an integer; the order of keys is the order of models.
    spec fn model(self) -> int;

    /// The key's raw hash, a pure function of the key.
    spec fn hash_model(self) -> u64;

    /// The integer model is injective: keys with equal models are equal.
    proof fn lemma_model_injective(a: Self, b: Self)
        requires
            a.model() == b.model(),
        ensures
            a == b,
    ;

    /// Strict order test, decided by the integer models.
    fn key_lt(&self, other: &Self) -> (r: bool)
        ensures
            r == (self.model() < other.model()),
    ;

    /// Equality test, decided by the integer models.
    fn key_eq(&self, other: &Self) -> (r: bool)
        ensures
            r == (self.model() == other.model()),
    ;

    /// Computes the raw hash.
    fn key_hash(&self) -> (h: u64)
        ensures
            h == self.hash_model(),
    ;
}

impl HashKey for i32 {
    open spec fn model(self) -> int {
        self as int
    }

    open spec fn hash_model(self) -> u64 {
        self as u64
    }

    proof fn lemma_model_injective(a: Self, b: Self) {
    }

    fn key_lt(&self, other: &Self) -> (r: bool) {
        *self < *other
    }

    fn key_eq(&self, other: &Self) -> (r: bool) {
        *self == *other
    }

    fn key_hash(&self) -> (h: u64) {
        #[verifier::truncate] (*self as u64)
    }
}

impl HashKey for i64 {
    open spec fn model(self) -> int {
        self as int
    }

    open spec fn hash_model(self) -> u64 {
        self as u64
    }

    proof fn lemma_model_injective(a: Self, b: Self) {
    }

    fn key_lt(&self, other: &Self) -> (r: bool) {
        *self < *other
    }

    fn key_eq(&self, other: &Self) -> (r: bool) {
        *self == *other
    }

    fn key_hash(&self) -> (h: u64) {
        #[verifier::truncate] (*self as u64)
    }
}

impl HashKey for isize {
    open spec fn model(self) -> int {
        self as int
    }

    open spec fn hash_model(self) -> u64 {
        self as u64
    }

    proof fn lemma_model_injective(a: Self, b: Self) {
    }

    fn key_lt(&self, other: &Self) -> (r: bool) {
        *self < *other
    }

    fn key_eq(&self, other: &Self) -> (r: bool) {
        *self == *other
    }

    fn key_hash(&self) -> (h: u64) {
        #[verifier::truncate] (*self as u64)
    }
}

impl HashKey for u32 {
    open spec fn model(self) -> int {
        self as int
    }

    open spec fn hash_model(self) -> u64 {
        self as u64
    }

    proof fn lemma_model_injective(a: Self, b: Self) {
    }

    fn key_lt(&self, other: &Self) -> (r: bool) {
        *self < *other
    }

    fn key_eq(&self, other: &Self) -> (r: bool) {
        *self == *other
    }

    fn key_hash(&self) -> (h: u64) {
        *self as u64
    }
}

impl HashKey for u64 {
    open spec fn model(self) -> int {
        self as int
    }

    open spec fn hash_model(self) -> u64 {
        self
    }

    proof fn lemma_model_injective(a: Self, b: Self) {
    }

    fn key_lt(&self, other: &Self) -> (r: bool) {
        *self < *other
    }

    fn key_eq(&self, other: &Self) -> (r: bool) {
        *self == *other
    }

    fn key_hash(&self) -> (h: u64) {
        *self
    }
}

impl HashKey for usize {
    open spec fn model(self) -> int {
        self as int
    }

    open spec fn hash_model(self) -> u64 {
        self as u64
    }

    proof fn lemma_model_injective(a: Self, b: Self) {
    }

    fn key_lt(&self, other: &Self) -> (r: bool) {
        *self < *other
    }

    fn key_eq(&self, other: &Self) -> (r: bool) {
        *self == *other
    }

    fn key_hash(&self) -> (h: u64) {
        #[verifier::truncate] (*self as u64)
    }
}

/// A hasher factory: turns a key's raw hash into the table hash.
///
/// The map consumes any such factory; the table's dispatch is stated
/// over `hash_spec`, so a factory only has to be a pure function of the
/// raw hash.
pub trait BuildKeyHash: Sized {
    /// What the factory's hasher returns for a raw hash.
    spec fn hash_spec(self, raw: u64) -> u64;

    /// Computes the table hash of a raw key hash.
    fn finish_hash(&self, raw: u64) -> (r: u64)
        ensures
            r == self.hash_spec(raw),
    ;
}

/// The default hasher factory: folds a fixed seed into the raw hash.
///
/// A per-process random seed would need an entropy source, which this
/// library does not touch; callers wanting a seeded table build the
/// factory with a seed of their choice.
#[derive(Clone, Copy)]
pub struct SeedState {
    pub seed: u64,
}

impl SeedState {
    /// A factory with the given seed.
    pub fn with_seed(seed: u64) -> (s: Self)
        ensures
            s.seed == seed,
    {
        SeedState { seed }
    }
}

impl BuildKeyHash for SeedState {
    open spec fn hash_spec(self, raw: u64) -> u64 {
        (raw ^ self.seed) ^ ((raw ^ self.seed) >> 31)
    }

    fn finish_hash(&self, raw: u64) -> (r: u64) {
        let x: u64 = raw ^ self.seed;
        x ^ (x >> 31)
    }
}

impl Default for SeedState {
    /// The default factory: seed zero, so the table hash is a pure
    /// function of the key alone.
    fn default() -> (s: Self)
        ensures
            s.seed == 0,
    {
        SeedState { seed: 0 }
    }
}

} // verus!
