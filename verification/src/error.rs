//! The library's error type.

use vstd::prelude::*;

verus! {

/// What an operation can fail with.
#[derive(Debug)]
pub enum Error {
    /// Operand shapes do not fit together.
    ShapeMismatch(String),
    /// An operation could not be carried out.
    ExecutionError(String),
    /// A frame's time budget ran out.
    BudgetExceeded,
}

/// An [`Error`] with its message as a sequence of characters.
pub enum ErrorView {
    ShapeMismatch(Seq<char>),
    ExecutionError(Seq<char>),
    BudgetExceeded,
}

impl View for Error {
    type V = ErrorView;

    open spec fn view(&self) -> ErrorView {
        match self {
            Error::ShapeMismatch(m) => ErrorView::ShapeMismatch(m@),
            Error::ExecutionError(m) => ErrorView::ExecutionError(m@),
            Error::BudgetExceeded => ErrorView::BudgetExceeded,
        }
    }
}

/// An execution error with the given message.
pub fn execution_error(message: &str) -> (e: Error)
    ensures
        e@ == ErrorView::ExecutionError(message@),
{
    Error::ExecutionError(message.to_owned())
}

} // verus!
