//! Key types with a total order that both executable code and proofs use.
use core::cmp::Ordering;
use vstd::prelude::*;

verus! {

/// A type whose values are totally ordered: `less` is a strict order in
/// which any two distinct values are comparable, and `compare` decides it.
pub trait TotalOrder: Sized {
    /// Whether `self` comes strictly before `other`.
    spec fn less(self, other: Self) -> bool;

    /// No value comes before itself.
    proof fn lemma_irreflexive(a: Self)
        ensures
            !a.less(a),
    ;

    /// Coming before is transitive.
    proof fn lemma_transitive(a: Self, b: Self, c: Self)
        requires
            a.less(b),
            b.less(c),
        ensures
            a.less(c),
    ;

    /// Of two values, one comes first or they are equal.
    proof fn lemma_total(a: Self, b: Self)
        ensures
            a.less(b) || a == b || b.less(a),
    ;

    /// Three-way comparison of `self` with `other`.
    fn compare(&self, other: &Self) -> (r: Ordering)
        ensures
            (r == Ordering::Less) == self.less(*other),
            (r == Ordering::Equal) == (*self == *other),
            (r == Ordering::Greater) == other.less(*self),
    ;
}

/// Two values never come before each other.
pub proof fn lemma_asymmetric<K: TotalOrder>(a: K, b: K)
    requires
        a.less(b),
    ensures
        !b.less(a),
{
    if b.less(a) {
        K::lemma_transitive(a, b, a);
        K::lemma_irreflexive(a);
    }
}

impl TotalOrder for i32 {
    open spec fn less(self, other: Self) -> bool {
        self < other
    }

    proof fn lemma_irreflexive(a: Self) {
    }

    proof fn lemma_transitive(a: Self, b: Self, c: Self) {
    }

    proof fn lemma_total(a: Self, b: Self) {
    }

    fn compare(&self, other: &Self) -> (r: Ordering) {
        if *self < *other {
            Ordering::Less
        } else if *self == *other {
            Ordering::Equal
        } else {
            Ordering::Greater
        }
    }
}

impl TotalOrder for i64 {
    open spec fn less(self, other: Self) -> bool {
        self < other
    }

    proof fn lemma_irreflexive(a: Self) {
    }

    proof fn lemma_transitive(a: Self, b: Self, c: Self) {
    }

    proof fn lemma_total(a: Self, b: Self) {
    }

    fn compare(&self, other: &Self) -> (r: Ordering) {
        if *self < *other {
            Ordering::Less
        } else if *self == *other {
            Ordering::Equal
        } else {
            Ordering::Greater
        }
    }
}

impl TotalOrder for u32 {
    open spec fn less(self, other: Self) -> bool {
        self < other
    }

    proof fn lemma_irreflexive(a: Self) {
    }

    proof fn lemma_transitive(a: Self, b: Self, c: Self) {
    }

    proof fn lemma_total(a: Self, b: Self) {
    }

    fn compare(&self, other: &Self) -> (r: Ordering) {
        if *self < *other {
            Ordering::Less
        } else if *self == *other {
            Ordering::Equal
        } else {
            Ordering::Greater
        }
    }
}

impl TotalOrder for u64 {
    open spec fn less(self, other: Self) -> bool {
        self < other
    }

    proof fn lemma_irreflexive(a: Self) {
    }

    proof fn lemma_transitive(a: Self, b: Self, c: Self) {
    }

    proof fn lemma_total(a: Self, b: Self) {
    }

    fn compare(&self, other: &Self) -> (r: Ordering) {
        if *self < *other {
            Ordering::Less
        } else if *self == *other {
            Ordering::Equal
        } else {
            Ordering::Greater
        }
    }
}

impl TotalOrder for usize {
    open spec fn less(self, other: Self) -> bool {
        self < other
    }

    proof fn lemma_irreflexive(a: Self) {
    }

    proof fn lemma_transitive(a: Self, b: Self, c: Self) {
    }

    proof fn lemma_total(a: Self, b: Self) {
    }

    fn compare(&self, other: &Self) -> (r: Ordering) {
        if *self < *other {
            Ordering::Less
        } else if *self == *other {
            Ordering::Equal
        } else {
            Ordering::Greater
        }
    }
}

} // verus!
