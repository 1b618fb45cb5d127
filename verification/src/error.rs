//! Error values of the resolver engine, cloneable so the cache can hand
//! the same failure to every waiter.

use vstd::prelude::*;

verus! {

broadcast use vstd::string::group_string_axioms;

/// An out-of-bounds read of the image's virtual address space: the range
/// `start .. start + len` is not covered by any memory section.
#[derive(Debug, Clone, Copy, PartialEq, Eq, Structural)]
pub struct MemoryAccessError {
    pub start: usize,
    pub len: usize,
}

/// Why a resolution failed.
///
/// Errors are cloneable values carrying a human-readable message: the
/// resolver cache may deliver the same error to several waiters.
#[derive(Debug, PartialEq)]
pub enum ResolveError {
    /// A domain assertion failed inside resolver logic.
    Msg(String),
    /// A resolution primitive read past the end of the image's memory.
    MemoryAccessOutOfBounds(MemoryAccessError),
}

/// The mathematical content of a `ResolveError`.
pub enum ResolveErrorModel {
    Msg(Seq<char>),
    MemoryAccessOutOfBounds(MemoryAccessError),
}

impl View for ResolveError {
    type V = ResolveErrorModel;

    open spec fn view(&self) -> ResolveErrorModel {
        match self {
            ResolveError::Msg(m) => ResolveErrorModel::Msg(m@),
            ResolveError::MemoryAccessOutOfBounds(e) => ResolveErrorModel::MemoryAccessOutOfBounds(
                *e,
            ),
        }
    }
}

impl ResolveError {
    /// Holds when this error is a `Msg` carrying exactly the text `s`.
    pub open spec fn is_msg(self, s: Seq<char>) -> bool {
        self@ matches ResolveErrorModel::Msg(m) && m == s
    }
}

impl Clone for ResolveError {
    /// A clone carries the same message or the same failed access.
    fn clone(&self) -> (r: Self)
        ensures
            r@ == self@,
    {
        match self {
            ResolveError::Msg(m) => ResolveError::Msg(m.clone()),
            ResolveError::MemoryAccessOutOfBounds(e) => ResolveError::MemoryAccessOutOfBounds(*e),
        }
    }
}

impl From<MemoryAccessError> for ResolveError {
    fn from(value: MemoryAccessError) -> Self {
        ResolveError::MemoryAccessOutOfBounds(value)
    }
}

impl vstd::std_specs::convert::FromSpecImpl<MemoryAccessError> for ResolveError {
    open spec fn obeys_from_spec() -> bool {
        true
    }

    open spec fn from_spec(value: MemoryAccessError) -> ResolveError {
        ResolveError::MemoryAccessOutOfBounds(value)
    }
}

/// Builds the `Msg` error used by a missing value.
pub fn msg_error(msg: &str) -> (r: ResolveError)
    ensures
        r.is_msg(msg@),
{
    ResolveError::Msg(msg.to_string())
}

/// Lifts an `Option` into the engine's error type, as resolver bodies do
/// when a value they expected is absent.
pub trait Context<T>: Sized {
    /// The optional value this carrier holds.
    spec fn carried_value(self) -> Option<T>;

    /// Returns the carried value, or a `Msg` error holding `msg`.
    fn context(self, msg: &str) -> (r: Result<T, ResolveError>)
        ensures
            self.carried_value() matches Some(v) ==> r == Ok::<T, ResolveError>(v),
            self.carried_value() is None ==> (r matches Err(e) && e.is_msg(msg@)),
    ;
}

impl<T> Context<T> for Option<T> {
    open spec fn carried_value(self) -> Option<T> {
        self
    }

    fn context(self, msg: &str) -> (r: Result<T, ResolveError>) {
        match self {
            Some(value) => Ok(value),
            None => Err(msg_error(msg)),
        }
    }
}

} // verus!
