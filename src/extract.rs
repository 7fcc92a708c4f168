//! Typed extractors: values that a handler asks of its request, already
//! read and parsed.
use vstd::prelude::*;

verus! {

/// A value kept in the application's shared state.
#[derive(Debug, Clone)]
pub struct State<T>(pub T);

impl<T> State<T> {
    /// Moves the value out of the wrapper.
    pub fn into_inner(self) -> (r: T)
        ensures
            r == self.0,
    {
        self.0
    }
}

/// A required path parameter, read as a `T`.
#[derive(Debug, Clone, PartialEq, Eq)]
pub struct PathParam<T>(pub T);

impl<T> PathParam<T> {
    /// Moves the value out of the wrapper.
    pub fn into_inner(self) -> (r: T)
        ensures
            r == self.0,
    {
        self.0
    }
}

/// A required query parameter, read as a `T`.
#[derive(Debug, Clone, PartialEq, Eq)]
pub struct QueryParam<T>(pub T);

impl<T> QueryParam<T> {
    /// Moves the value out of the wrapper.
    pub fn into_inner(self) -> (r: T)
        ensures
            r == self.0,
    {
        self.0
    }
}

/// An optional query parameter, read as a `T`.
#[derive(Debug, Clone, PartialEq, Eq)]
pub struct QueryParamOptional<T>(pub Option<T>);

impl<T> QueryParamOptional<T> {
    /// Moves the value out of the wrapper.
    pub fn into_inner(self) -> (r: Option<T>)
        ensures
            r == self.0,
    {
        self.0
    }
}

/// Whether a query parameter is present at all.
#[derive(Debug, Clone, Copy, PartialEq, Eq)]
pub struct QueryParamBool(pub bool);

impl QueryParamBool {
    /// Moves the flag out of the wrapper.
    pub fn into_inner(self) -> (r: bool)
        ensures
            r == self.0,
    {
        self.0
    }
}

/// The values of a required header, each read as a `T`.
#[derive(Debug, Clone, PartialEq, Eq)]
pub struct Header<T>(pub Vec<T>);

impl<T> Header<T> {
    /// Moves the values out of the wrapper.
    pub fn into_inner(self) -> (r: Vec<T>)
        ensures
            r == self.0,
    {
        self.0
    }
}

/// The values of an optional header, each read as a `T`.
#[derive(Debug, Clone, PartialEq, Eq)]
pub struct HeaderOptional<T>(pub Option<Vec<T>>);

impl<T> HeaderOptional<T> {
    /// Moves the values out of the wrapper.
    pub fn into_inner(self) -> (r: Option<Vec<T>>)
        ensures
            r == self.0,
    {
        self.0
    }
}

/// A required cookie, read as a `T`.
#[derive(Debug, Clone, PartialEq, Eq)]
pub struct Cookie<T>(pub T);

impl<T> Cookie<T> {
    /// Moves the value out of the wrapper.
    pub fn into_inner(self) -> (r: T)
        ensures
            r == self.0,
    {
        self.0
    }
}

/// An optional cookie, read as a `T`.
#[derive(Debug, Clone, PartialEq, Eq)]
pub struct CookieOptional<T>(pub Option<T>);

impl<T> CookieOptional<T> {
    /// Moves the value out of the wrapper.
    pub fn into_inner(self) -> (r: Option<T>)
        ensures
            r == self.0,
    {
        self.0
    }
}

} // verus!
