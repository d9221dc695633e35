//! The numeric type that flows through a network.

use vstd::prelude::*;

verus! {

/// A sample value. The engine moves samples around and needs to know
/// only which value means silence.
pub trait Sample: Copy + Sized {
    /// The value of silence. A type declared without a model leaves it
    /// open.
    open spec fn zero_spec() -> Self {
        arbitrary()
    }

    /// Returns the value of silence.
    fn zero() -> (z: Self)
        ensures
            z == Self::zero_spec(),
    ;
}

impl Sample for i16 {
    open spec fn zero_spec() -> Self {
        0i16
    }

    fn zero() -> (z: Self) {
        0i16
    }
}

impl Sample for i32 {
    open spec fn zero_spec() -> Self {
        0i32
    }

    fn zero() -> (z: Self) {
        0i32
    }
}

impl Sample for i64 {
    open spec fn zero_spec() -> Self {
        0i64
    }

    fn zero() -> (z: Self) {
        0i64
    }
}

} // verus!
