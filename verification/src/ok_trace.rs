//! Turning a fallible result into an optional value.
use vstd::prelude::*;

verus! {

/// Keeps the success value of a result and discards its error.
pub trait OkTraceExt<T>: Sized {
    /// The success value, if there is one.
    spec fn ok_value(self) -> Option<T>;

    /// The success value, if there is one; an error gives `None`.
    fn ok_trace(self) -> (r: Option<T>)
        ensures
            r == self.ok_value(),
    ;
}

impl<T, E> OkTraceExt<T> for Result<T, E> {
    open spec fn ok_value(self) -> Option<T> {
        match self {
            Ok(v) => Some(v),
            Err(_) => None,
        }
    }

    fn ok_trace(self) -> (r: Option<T>) {
        match self {
            Ok(v) => Some(v),
            Err(_) => None,
        }
    }
}

} // verus!
