//! The traits that name the operations on trees and stamps. Each trait
//! says on which values its operation is defined; what the operation returns
//! is stated where the trait is implemented.

use vstd::prelude::*;

verus! {

/// The least count that a value holds.
pub trait Min<T> {
    /// The values of which `min` can be taken.
    spec fn min_requires(&self) -> bool;

    fn min(&self) -> T
        requires
            self.min_requires(),
    ;
}

/// The greatest count that a value holds.
pub trait Max<T> {
    /// The values of which `max` can be taken.
    spec fn max_requires(&self) -> bool;

    fn max(&self) -> T
        requires
            self.max_requires(),
    ;
}

/// Values that have a canonical form.
pub trait Normalisable: Sized {
    /// The values that can be brought into canonical form.
    spec fn norm_requires(&self) -> bool;

    fn norm(self) -> Self
        requires
            self.norm_requires(),
    ;
}

/// The causal order.
pub trait LessThanOrEqual {
    /// The pairs that can be compared.
    spec fn leq_requires(&self, other: &Self) -> bool;

    fn leq(&self, other: &Self) -> bool
        requires
            self.leq_requires(other),
    ;
}

/// Division of a value into two shares, returned as the two children of one
/// node.
pub trait Split: Sized {
    fn split(&self) -> Self;
}

/// Reunion of two shares.
pub trait Sum: Sized {
    /// The pairs that can be put together.
    spec fn sum_requires(&self, other: &Self) -> bool;

    fn sum(&self, other: &Self) -> Self
        requires
            self.sum_requires(other),
    ;
}

/// The operations of an interval tree clock.
pub trait IntervalTreeClock: Sized {
    /// The pairs that can be joined.
    spec fn join_requires(&self, other: &Self) -> bool;

    /// The values in which an event can be recorded.
    spec fn event_requires(&self) -> bool;

    /// The pairs of which the first can receive the second.
    spec fn receive_requires(&self, other: &Self) -> bool;

    fn fork(&self) -> (Self, Self);

    fn peek(&self) -> (Self, Self);

    fn join(&self, other: &Self) -> Self
        requires
            self.join_requires(other),
    ;

    fn event(&self) -> Self
        requires
            self.event_requires(),
    ;

    fn send(&self) -> (Self, Self)
        requires
            self.event_requires(),
    ;

    fn receive(&self, other: &Self) -> Self
        requires
            self.receive_requires(other),
    ;

    fn sync(&self, other: &Self) -> (Self, Self)
        requires
            self.join_requires(other),
    ;
}

} // verus!
