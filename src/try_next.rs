//! Fallible iteration: "the next item, or an error that says why there is none".

use vstd::prelude::*;

verus! {

/// A search that can return its next item or an error explaining why it has none.
pub trait TryNext: Sized {
    /// Item type.
    type Item;

    /// Error type.
    type Error;

    /// What one step of the search does: from `s0` to `s1`, yielding `r`.
    spec fn step(s0: Self, s1: Self, r: Option<Self::Item>) -> bool;

    /// Whether `e` describes why the search in state `s` found nothing.
    spec fn failure(s: Self, e: Self::Error) -> bool;

    /// The next item, or, where the search has none, an error that describes
    /// the search as it stands.
    fn try_next(&mut self) -> (r: Result<Self::Item, Self::Error>)
        ensures
            match r {
                Ok(x) => Self::step(*old(self), *final(self), Some(x)),
                Err(e) => Self::step(*old(self), *final(self), None) && Self::failure(*final(self), e),
            },
    ;
}

/// A search that can describe, at any point, why it found nothing more.
pub trait TryNextError: Sized {
    /// Error type.
    type Error;

    /// Whether `e` describes why the search in state `s` found nothing.
    spec fn describes(s: Self, e: Self::Error) -> bool;

    /// The error to report when no further item is found; the search is left
    /// as it was.
    fn try_next_err(&mut self) -> (e: Self::Error)
        ensures
            *final(self) == *old(self),
            Self::describes(*old(self), e),
    ;
}

} // verus!
