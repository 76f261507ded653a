//! Time coordinates: totally ordered, copyable values that intervals range over.

use vstd::prelude::*;

verus! {

/// A totally ordered, copyable time coordinate.
///
/// The order is given by an embedding into the integers: `a` comes before `b`
/// exactly when `a.position() < b.position()`.
pub trait TimeCoordinate: Copy {
    /// Where the coordinate lies on the integer line.
    spec fn position(self) -> int;

    /// Two coordinates at the same position are the same coordinate.
    proof fn position_is_injective(a: Self, b: Self)
        requires
            a.position() == b.position(),
        ensures
            a == b,
    ;

    /// Whether `self` lies strictly before `other`.
    fn before(&self, other: &Self) -> (r: bool)
        ensures
            r == (self.position() < other.position()),
    ;
}

impl TimeCoordinate for u32 {
    open spec fn position(self) -> int {
        self as int
    }

    proof fn position_is_injective(a: Self, b: Self) {
    }

    fn before(&self, other: &Self) -> (r: bool) {
        *self < *other
    }
}

impl TimeCoordinate for u64 {
    open spec fn position(self) -> int {
        self as int
    }

    proof fn position_is_injective(a: Self, b: Self) {
    }

    fn before(&self, other: &Self) -> (r: bool) {
        *self < *other
    }
}

impl TimeCoordinate for i32 {
    open spec fn position(self) -> int {
        self as int
    }

    proof fn position_is_injective(a: Self, b: Self) {
    }

    fn before(&self, other: &Self) -> (r: bool) {
        *self < *other
    }
}

impl TimeCoordinate for i64 {
    open spec fn position(self) -> int {
        self as int
    }

    proof fn position_is_injective(a: Self, b: Self) {
    }

    fn before(&self, other: &Self) -> (r: bool) {
        *self < *other
    }
}

} // verus!
