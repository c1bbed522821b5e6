use vstd::prelude::*;

verus! {

/// A distance measure: a copyable value with a zero element, a total order,
/// and an addition, all reflected into a mathematical integer model through
/// `value`. Edge costs and accumulated path costs are values of such a type.
///
/// `fits` says which mathematical sums are representable; `try_plus` succeeds
/// exactly on those, so verified code never overflows and never panics.
pub trait Measure: Sized + Copy {
    /// The mathematical value this measure stands for.
    spec fn value(self) -> int;

    /// Whether the mathematical value `x` is representable in this type.
    spec fn fits(x: int) -> bool;

    /// The zero/identity element.
    fn zero() -> (r: Self)
        ensures
            r.value() == 0,
    ;

    /// Total order on measures, by their mathematical values.
    fn le(&self, other: &Self) -> (r: bool)
        ensures
            r == (self.value() <= other.value()),
    ;

    /// Checked addition: returns the sum exactly when it is representable.
    fn try_plus(&self, other: &Self) -> (r: Option<Self>)
        ensures
            r is Some <==> Self::fits(self.value() + other.value()),
            r matches Some(s) ==> s.value() == self.value() + other.value(),
    ;

    /// Representability is downward closed toward zero: whatever lies
    /// between zero and a representable value is representable itself.
    proof fn fits_monotone(x: int, y: int)
        requires
            Self::fits(x),
            0 <= y <= x,
        ensures
            Self::fits(y),
    ;
}

impl Measure for usize {
    open spec fn value(self) -> int {
        self as int
    }

    open spec fn fits(x: int) -> bool {
        0 <= x <= usize::MAX as int
    }

    fn zero() -> (r: Self) {
        0
    }

    fn le(&self, other: &Self) -> (r: bool) {
        *self <= *other
    }

    fn try_plus(&self, other: &Self) -> (r: Option<Self>) {
        self.checked_add(*other)
    }

    proof fn fits_monotone(x: int, y: int) {
    }
}

impl Measure for i32 {
    open spec fn value(self) -> int {
        self as int
    }

    open spec fn fits(x: int) -> bool {
        i32::MIN as int <= x <= i32::MAX as int
    }

    fn zero() -> (r: Self) {
        0
    }

    fn le(&self, other: &Self) -> (r: bool) {
        *self <= *other
    }

    fn try_plus(&self, other: &Self) -> (r: Option<Self>) {
        self.checked_add(*other)
    }

    proof fn fits_monotone(x: int, y: int) {
    }
}

} // verus!
