//! The comparison interface the sort works against: a total preorder,
//! supplied as a trait so that elements may be ordered by only part of
//! their data (a key) while carrying the rest along.

use vstd::prelude::*;

verus! {

/// An element type the sort can arrange.
///
/// `le` is a total preorder: every two elements compare one way or the
/// other, and the relation carries over chains. It need not be
/// antisymmetric, so a type may compare by a key alone and keep
/// distinct elements that the order cannot tell apart; the sort then
/// keeps their original left-to-right order.
pub trait Sortable: Sized + Copy {
    /// The ordering the sort establishes: `a.le(b)` means `a` may
    /// stand no later than `b` in the sorted result.
    spec fn le(self, other: Self) -> bool;

    /// Every two elements are comparable.
    proof fn lemma_total(a: Self, b: Self)
        ensures
            a.le(b) || b.le(a),
    ;

    /// The order carries over chains.
    proof fn lemma_transitive(a: Self, b: Self, c: Self)
        requires
            a.le(b),
            b.le(c),
        ensures
            a.le(c),
    ;

    /// Executable comparison, agreeing exactly with `le`.
    fn leq(&self, other: &Self) -> (r: bool)
        ensures
            r == self.le(*other),
    ;
}

impl Sortable for i64 {
    open spec fn le(self, other: Self) -> bool {
        self <= other
    }

    proof fn lemma_total(a: Self, b: Self) {
    }

    proof fn lemma_transitive(a: Self, b: Self, c: Self) {
    }

    fn leq(&self, other: &Self) -> (r: bool) {
        *self <= *other
    }
}

impl Sortable for u64 {
    open spec fn le(self, other: Self) -> bool {
        self <= other
    }

    proof fn lemma_total(a: Self, b: Self) {
    }

    proof fn lemma_transitive(a: Self, b: Self, c: Self) {
    }

    fn leq(&self, other: &Self) -> (r: bool) {
        *self <= *other
    }
}

/// A record ordered by `key` alone; `tag` rides along untouched by the
/// comparison, which makes the sort's stability observable.
#[derive(Clone, Copy, Debug, PartialEq, Eq, Structural)]
pub struct Keyed {
    pub key: i64,
    pub tag: char,
}

impl Sortable for Keyed {
    open spec fn le(self, other: Self) -> bool {
        self.key <= other.key
    }

    proof fn lemma_total(a: Self, b: Self) {
    }

    proof fn lemma_transitive(a: Self, b: Self, c: Self) {
    }

    fn leq(&self, other: &Self) -> (r: bool) {
        self.key <= other.key
    }
}

} // verus!
