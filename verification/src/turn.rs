//! What one frame led to.

use vstd::prelude::*;

use crate::error::{Error, ErrorView};

verus! {

/// What one frame led to.
#[derive(Clone, Debug, PartialEq, Eq)]
pub enum Turn<T> {
    /// This is what was waited for.
    Took(T),
    /// The other side has gone.
    Closed,
    /// Read another frame.
    Again,
}

impl<T: View> View for Turn<T> {
    type V = Turn<T::V>;

    open spec fn view(&self) -> Turn<T::V> {
        match *self {
            Turn::Took(what) => Turn::Took(what@),
            Turn::Closed => Turn::Closed,
            Turn::Again => Turn::Again,
        }
    }
}

/// A turn or an error, by what it says.
pub open spec fn turn_result<T: View>(result: Result<Turn<T>, Error>) -> Result<
    Turn<T::V>,
    ErrorView,
> {
    match result {
        Ok(turn) => Ok(turn@),
        Err(error) => Err(error@),
    }
}

} // verus!
