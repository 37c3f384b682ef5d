use vstd::prelude::*;

use crate::compat::CgcCompat;

verus! {

/// A type whose values can stand for every value of type `T`. A heap whose boxes hold such a type
/// can be given values of type `T`; an enumeration lets values of several types share one heap.
pub trait Holds<T: CgcCompat>: CgcCompat {
    /// The value that this stands for, if it stands for one of type `T`. Unless a type says
    /// otherwise, it does not.
    open spec fn project(&self) -> Option<T> {
        None
    }

    /// Makes what stands for the value. It holds the same handles.
    fn wrap(value: T) -> (wrapped: Self)
        ensures
            wrapped.project() == Some(value),
            wrapped.refs() == value.refs(),
            forall|rooted: bool| #[trigger] wrapped.flagged(rooted) == value.flagged(rooted),
    ;

    /// The value that this stands for, if it stands for one of type `T`.
    fn get(&self) -> (value: Option<&T>)
        ensures
            value is Some <==> self.project() is Some,
            value matches Some(inner) ==> self.project() == Some(*inner),
    ;
}

impl<T: CgcCompat> Holds<T> for T {
    open spec fn project(&self) -> Option<T> {
        Some(*self)
    }

    fn wrap(value: T) -> T {
        value
    }

    fn get(&self) -> Option<&T> {
        Some(self)
    }
}

} // verus!
