//! What the planner and the kernels report when they refuse an input.

use vstd::prelude::*;

verus! {

/// A refusal.
#[derive(Debug, PartialEq, Eq)]
pub enum FastNoiseError {
    /// A graph, a query or a kernel payload is not valid; the text says why.
    InvalidSpec(String),
    /// No kernel of this kind exists.
    BackendRejectedKernel(u32),
    /// The batch was cancelled while a kernel ran.
    Cancelled,
    /// The buffers of a finished batch do not fit together; the text says how.
    Other(String),
}

/// The value of a [`FastNoiseError`], with its text as a sequence of characters.
pub enum ErrorView {
    InvalidSpec(Seq<char>),
    BackendRejectedKernel(u32),
    Cancelled,
    Other(Seq<char>),
}

impl View for FastNoiseError {
    type V = ErrorView;

    open spec fn view(&self) -> ErrorView {
        match *self {
            FastNoiseError::InvalidSpec(text) => ErrorView::InvalidSpec(text@),
            FastNoiseError::BackendRejectedKernel(kind) => ErrorView::BackendRejectedKernel(kind),
            FastNoiseError::Cancelled => ErrorView::Cancelled,
            FastNoiseError::Other(text) => ErrorView::Other(text@),
        }
    }
}

pub type FastNoiseResult<T> = Result<T, FastNoiseError>;

/// The outcome of an operation, with the value and the error each by its view.
pub open spec fn outcome<T: View>(result: FastNoiseResult<T>) -> Result<T::V, ErrorView> {
    match result {
        Ok(value) => Ok(value@),
        Err(error) => Err(error@),
    }
}

/// An [`FastNoiseError::InvalidSpec`] with the given text.
pub fn invalid_spec(text: &str) -> (error: FastNoiseError)
    ensures
        error@ == ErrorView::InvalidSpec(text@),
{
    FastNoiseError::InvalidSpec(text.to_owned())
}

/// The value of a refusal holds what it says, and an outcome is a value or a refusal
/// just as the result is.
pub proof fn law_outcomes_hold_the_result<T: View>(result: FastNoiseResult<T>)
    ensures
        match result {
            Ok(value) => outcome(result) == Ok::<T::V, ErrorView>(value@),
            Err(FastNoiseError::InvalidSpec(text)) => outcome(result) == Err::<T::V, ErrorView>(
                ErrorView::InvalidSpec(text@),
            ),
            Err(FastNoiseError::BackendRejectedKernel(kind)) => outcome(result) == Err::<
                T::V,
                ErrorView,
            >(ErrorView::BackendRejectedKernel(kind)),
            Err(FastNoiseError::Cancelled) => outcome(result) == Err::<T::V, ErrorView>(
                ErrorView::Cancelled,
            ),
            Err(FastNoiseError::Other(text)) => outcome(result) == Err::<T::V, ErrorView>(
                ErrorView::Other(text@),
            ),
        },
{
}

} // verus!
