//! The element contract shared by both set variants.
//!
//! A set element must offer a deterministic 64-bit digest, an equality
//! test, and a clone. The digest is the element's canonical hash: the
//! bucket index of an element is always `digest % capacity`, so the
//! digest must be a function of the element's value alone.

use vstd::prelude::*;

verus! {

/// Exclusive upper bound on element digests. Once a table's capacity
/// passes every possible digest, an element's bucket index equals its
/// digest, so distinct elements no longer collide and the table never
/// needs to grow past twice this bound. Keeping the bound at 2^30 keeps
/// every capacity the growth policy can produce within `usize`, whatever
/// the pointer width.
pub const DIGEST_BOUND: u64 = 0x4000_0000;

/// What the set variants ask of an element type.
///
/// `digest` is the mathematical value of the element's canonical hash;
/// `hash_code` computes it. Distinct elements must have distinct
/// digests, and every digest lies below `DIGEST_BOUND`: together these
/// guarantee that an over-full bucket can only occur while the table is
/// still small enough to double.
pub trait Settable: Sized {
    /// The element's digest, as a mathematical function of its value.
    spec fn digest(self) -> u64;

    /// Distinct elements have distinct digests.
    proof fn digest_injective(a: Self, b: Self)
        requires
            a.digest() == b.digest(),
        ensures
            a == b;

    /// Digests stay below `DIGEST_BOUND`.
    proof fn digest_bounded(a: Self)
        ensures
            a.digest() < DIGEST_BOUND;

    /// Computes the canonical digest.
    fn hash_code(&self) -> (h: u64)
        ensures
            h == self.digest();

    /// Equality of values.
    fn eq_val(&self, other: &Self) -> (r: bool)
        ensures
            r == (self == other);

    /// A copy of the value.
    fn clone_val(&self) -> (r: Self)
        ensures
            r == *self;
}

/// No finite collection of elements can hold more than `DIGEST_BOUND`
/// of them: digests are injective into `[0, DIGEST_BOUND)`.
pub proof fn lemma_card_below_digest_bound<T: Settable>(s: Set<T>)
    requires
        s.finite(),
    ensures
        s.len() <= DIGEST_BOUND,
{
    let f = |x: T| x.digest() as int;
    assert(vstd::relations::injective_on(f, s)) by {
        assert forall|a: T, b: T|
            #![trigger s.contains(a), s.contains(b)]
            s.contains(a) && s.contains(b) && f(a) == f(b) implies a == b by {
            T::digest_injective(a, b);
        }
    }
    let y = s.map(f);
    vstd::set_lib::lemma_map_size(s, y, f);
    let range = vstd::set_lib::set_int_range(0, DIGEST_BOUND as int);
    vstd::set_lib::lemma_int_range(0, DIGEST_BOUND as int);
    assert(y.subset_of(range)) by {
        assert forall|v: int| y.contains(v) implies range.contains(v) by {
            let a = choose|a: T| s.contains(a) && f(a) == v;
            T::digest_bounded(a);
        }
    }
    vstd::set_lib::lemma_len_subset(y, range);
}

impl Settable for u16 {
    open spec fn digest(self) -> u64 {
        self as u64
    }

    proof fn digest_injective(a: Self, b: Self) {
    }

    proof fn digest_bounded(a: Self) {
    }

    fn hash_code(&self) -> (h: u64) {
        *self as u64
    }

    fn eq_val(&self, other: &Self) -> (r: bool) {
        *self == *other
    }

    fn clone_val(&self) -> (r: Self) {
        *self
    }
}

impl Settable for i16 {
    open spec fn digest(self) -> u64 {
        (self as int + 0x8000) as u64
    }

    proof fn digest_injective(a: Self, b: Self) {
    }

    proof fn digest_bounded(a: Self) {
    }

    fn hash_code(&self) -> (h: u64) {
        let wide: i32 = *self as i32 + 0x8000;
        wide as u64
    }

    fn eq_val(&self, other: &Self) -> (r: bool) {
        *self == *other
    }

    fn clone_val(&self) -> (r: Self) {
        *self
    }
}

} // verus!
