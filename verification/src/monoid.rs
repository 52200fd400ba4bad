//! The [`Monoid`] trait and the [`Sum`] monoid.
use std::ops::Deref;
use vstd::prelude::*;

verus! {

/// A monoid: a set of values with an associative binary operation, `join`,
/// and an identity element for it, `unit`.
///
/// The operation and the identity are given twice: as specification
/// functions, which the contracts of the tree speak of, and as executable
/// functions that compute them. The three laws are proof obligations of
/// every implementation.
pub trait Monoid: Sized {
    /// The identity element.
    spec fn spec_unit() -> Self;

    /// The binary operation.
    spec fn spec_join(&self, other: &Self) -> Self;

    /// `unit` is a left identity of `join`.
    proof fn lemma_unit_left(a: Self)
        ensures
            Self::spec_unit().spec_join(&a) == a,
    ;

    /// `unit` is a right identity of `join`.
    proof fn lemma_unit_right(a: Self)
        ensures
            a.spec_join(&Self::spec_unit()) == a,
    ;

    /// `join` is associative.
    proof fn lemma_assoc(a: Self, b: Self, c: Self)
        ensures
            a.spec_join(&b).spec_join(&c) == a.spec_join(&b.spec_join(&c)),
    ;

    /// `unit` or `identity` element of the monoid.
    fn unit() -> (r: Self)
        ensures
            r == Self::spec_unit(),
    ;

    /// `join` operation of the monoid.
    fn join(&self, other: &Self) -> (r: Self)
        ensures
            r == self.spec_join(other),
    ;
}

/// Monoid formed by addition, with zero as its identity element.
///
/// On `usize` the addition wraps around at `usize::MAX + 1`: the machine
/// integers form a monoid under modular addition, not under an addition
/// that can fail.
#[derive(Debug, PartialEq, Eq, PartialOrd, Ord)]
pub struct Sum<T>(pub T);

impl<T: Clone> Clone for Sum<T> {
    fn clone(&self) -> (r: Self)
        ensures
            cloned(self.0, r.0),
    {
        Sum(self.0.clone())
    }
}

impl<T: Copy> Copy for Sum<T> {

}

impl<T> Deref for Sum<T> {
    type Target = T;

    fn deref(&self) -> (r: &T)
        ensures
            *r == self.0,
    {
        &self.0
    }
}

/// A clone of a `Sum<usize>` is equal to it.
pub proof fn lemma_sum_clone(a: Sum<usize>, b: Sum<usize>)
    requires
        cloned(a, b),
    ensures
        a == b,
{
}

/// The sum of `a` and `b` modulo `usize::MAX + 1`.
pub open spec fn wrapping_sum(a: usize, b: usize) -> usize {
    if a + b > usize::MAX {
        (a + b - usize::MAX - 1) as usize
    } else {
        (a + b) as usize
    }
}

impl Monoid for Sum<usize> {
    open spec fn spec_unit() -> Self {
        Sum(0)
    }

    open spec fn spec_join(&self, other: &Self) -> Self {
        Sum(wrapping_sum(self.0, other.0))
    }

    proof fn lemma_unit_left(a: Self) {
    }

    proof fn lemma_unit_right(a: Self) {
    }

    proof fn lemma_assoc(a: Self, b: Self, c: Self) {
    }

    fn unit() -> (r: Self) {
        Sum(0)
    }

    fn join(&self, other: &Self) -> (r: Self) {
        Sum(self.0.wrapping_add(other.0))
    }
}

} // verus!
