//! Request and response bodies.
use vstd::prelude::*;

verus! {

/// The raw bytes of a request body.
#[derive(Debug, Clone, PartialEq, Eq, Hash)]
pub struct BodyRaw(pub Vec<u8>);

impl BodyRaw {
    /// The bytes of the body.
    pub fn bytes(&self) -> (r: &[u8])
        ensures
            r@ == self.0@,
    {
        self.0.as_slice()
    }
}

/// A request or response body as text.
#[derive(Debug, Clone, PartialEq, Eq, Hash)]
pub struct BodyString(pub String);

impl BodyString {
    /// Moves the text out of the wrapper.
    pub fn into_inner(self) -> (r: String)
        ensures
            r == self.0,
    {
        self.0
    }
}

/// A request or response body as a JSON value of type `T`.
#[derive(Debug, Clone, Copy, PartialEq, Eq, Hash)]
pub struct Json<T>(pub T);

impl<T> Json<T> {
    /// Moves the value out of the wrapper.
    pub fn into_inner(self) -> (r: T)
        ensures
            r == self.0,
    {
        self.0
    }
}

} // verus!
