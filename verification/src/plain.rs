//! Types whose values are known by their views.
use vstd::prelude::*;

verus! {

/// A type in which values with equal views are equal.
pub trait Plain: View + Sized {
    /// Equal views are equal values.
    proof fn same_view(a: Self, b: Self)
        requires
            a@ == b@,
        ensures
            a == b,
    ;
}

impl Plain for u8 {
    proof fn same_view(a: Self, b: Self) {
    }
}

impl Plain for u16 {
    proof fn same_view(a: Self, b: Self) {
    }
}

impl Plain for u32 {
    proof fn same_view(a: Self, b: Self) {
    }
}

impl Plain for u64 {
    proof fn same_view(a: Self, b: Self) {
    }
}

impl Plain for u128 {
    proof fn same_view(a: Self, b: Self) {
    }
}

impl Plain for usize {
    proof fn same_view(a: Self, b: Self) {
    }
}

impl Plain for i8 {
    proof fn same_view(a: Self, b: Self) {
    }
}

impl Plain for i16 {
    proof fn same_view(a: Self, b: Self) {
    }
}

impl Plain for i32 {
    proof fn same_view(a: Self, b: Self) {
    }
}

impl Plain for i64 {
    proof fn same_view(a: Self, b: Self) {
    }
}

impl Plain for i128 {
    proof fn same_view(a: Self, b: Self) {
    }
}

impl Plain for isize {
    proof fn same_view(a: Self, b: Self) {
    }
}

impl Plain for bool {
    proof fn same_view(a: Self, b: Self) {
    }
}

impl Plain for char {
    proof fn same_view(a: Self, b: Self) {
    }
}

impl Plain for () {
    proof fn same_view(a: Self, b: Self) {
    }
}

impl<T> Plain for Option<T> {
    proof fn same_view(a: Self, b: Self) {
    }
}

impl<A: Plain, B: Plain> Plain for (A, B) {
    proof fn same_view(a: Self, b: Self) {
        A::same_view(a.0, b.0);
        B::same_view(a.1, b.1);
    }
}

impl<A: Plain, B: Plain, C: Plain> Plain for (A, B, C) {
    proof fn same_view(a: Self, b: Self) {
        A::same_view(a.0, b.0);
        B::same_view(a.1, b.1);
        C::same_view(a.2, b.2);
    }
}

impl<A: Plain, B: Plain, C: Plain, D: Plain> Plain for (A, B, C, D) {
    proof fn same_view(a: Self, b: Self) {
        A::same_view(a.0, b.0);
        B::same_view(a.1, b.1);
        C::same_view(a.2, b.2);
        D::same_view(a.3, b.3);
    }
}

impl<A: Plain, B: Plain, C: Plain, D: Plain, E: Plain> Plain for (A, B, C, D, E) {
    proof fn same_view(a: Self, b: Self) {
        A::same_view(a.0, b.0);
        B::same_view(a.1, b.1);
        C::same_view(a.2, b.2);
        D::same_view(a.3, b.3);
        E::same_view(a.4, b.4);
    }
}

impl<A: Plain, B: Plain, C: Plain, D: Plain, E: Plain, F: Plain> Plain for (A, B, C, D, E, F) {
    proof fn same_view(a: Self, b: Self) {
        A::same_view(a.0, b.0);
        B::same_view(a.1, b.1);
        C::same_view(a.2, b.2);
        D::same_view(a.3, b.3);
        E::same_view(a.4, b.4);
        F::same_view(a.5, b.5);
    }
}

} // verus!
