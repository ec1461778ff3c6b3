//! A strict total order on element types, stated so that proofs about the
//! tree can rely on its laws.

use vstd::prelude::*;

verus! {

/// A strict total order: the comparison every tree element type must carry.
///
/// `lt_spec` is the mathematical "comes strictly before" relation; the three
/// lemmas are the laws of a strict total order (asymmetry, transitivity, and
/// connectedness of distinct values), and `lt` is the executable comparison
/// that implementors must prove agrees with `lt_spec`.
pub trait StrictTotalOrder: Sized {
    /// `self` comes strictly before `other`.
    spec fn lt_spec(self, other: Self) -> bool;

    /// No two values each come strictly before the other.
    proof fn lemma_asymmetric(a: Self, b: Self)
        requires
            a.lt_spec(b),
        ensures
            !b.lt_spec(a),
    ;

    /// The order composes along chains.
    proof fn lemma_transitive(a: Self, b: Self, c: Self)
        requires
            a.lt_spec(b),
            b.lt_spec(c),
        ensures
            a.lt_spec(c),
    ;

    /// Distinct values are always comparable.
    proof fn lemma_connected(a: Self, b: Self)
        requires
            a != b,
        ensures
            a.lt_spec(b) || b.lt_spec(a),
    ;

    /// Executable comparison, which must agree with `lt_spec`.
    fn lt(&self, other: &Self) -> (r: bool)
        ensures
            r == self.lt_spec(*other),
    ;
}

impl StrictTotalOrder for i32 {
    open spec fn lt_spec(self, other: i32) -> bool {
        self < other
    }

    proof fn lemma_asymmetric(a: i32, b: i32) {
    }

    proof fn lemma_transitive(a: i32, b: i32, c: i32) {
    }

    proof fn lemma_connected(a: i32, b: i32) {
    }

    fn lt(&self, other: &i32) -> (r: bool) {
        *self < *other
    }
}

impl StrictTotalOrder for i64 {
    open spec fn lt_spec(self, other: i64) -> bool {
        self < other
    }

    proof fn lemma_asymmetric(a: i64, b: i64) {
    }

    proof fn lemma_transitive(a: i64, b: i64, c: i64) {
    }

    proof fn lemma_connected(a: i64, b: i64) {
    }

    fn lt(&self, other: &i64) -> (r: bool) {
        *self < *other
    }
}

impl StrictTotalOrder for u64 {
    open spec fn lt_spec(self, other: u64) -> bool {
        self < other
    }

    proof fn lemma_asymmetric(a: u64, b: u64) {
    }

    proof fn lemma_transitive(a: u64, b: u64, c: u64) {
    }

    proof fn lemma_connected(a: u64, b: u64) {
    }

    fn lt(&self, other: &u64) -> (r: bool) {
        *self < *other
    }
}

} // verus!
