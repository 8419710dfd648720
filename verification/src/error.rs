//! The errors that the library reports.

use crate::text::{join2, owned};
use vstd::prelude::*;

verus! {

/// What went wrong, with a text for the reader.
#[derive(Clone, Debug, PartialEq, Eq)]
pub enum RustySatError {
    /// A value that the operation does not accept.
    InvalidInput { message: String },
    /// A request that the library knows of and does not serve.
    Unsupported { feature: String },
    /// Something that was asked for and does not exist.
    NotFound { what: String },
}

pub type Result<T> = std::result::Result<T, RustySatError>;

/// An error as a mathematical value.
pub enum ErrorView {
    InvalidInput(Seq<char>),
    Unsupported(Seq<char>),
    NotFound(Seq<char>),
}

impl View for RustySatError {
    type V = ErrorView;

    open spec fn view(&self) -> ErrorView {
        match self {
            RustySatError::InvalidInput { message } => ErrorView::InvalidInput(message@),
            RustySatError::Unsupported { feature } => ErrorView::Unsupported(feature@),
            RustySatError::NotFound { what } => ErrorView::NotFound(what@),
        }
    }
}

impl ErrorView {
    /// The text of the error, with its kind before it.
    pub open spec fn text(self) -> Seq<char> {
        match self {
            ErrorView::InvalidInput(t) => "invalid input: "@ + t,
            ErrorView::Unsupported(t) => "unsupported feature: "@ + t,
            ErrorView::NotFound(t) => "not found: "@ + t,
        }
    }
}

/// Whether `r` is the error `e`.
pub open spec fn fails_with<T>(r: Result<T>, e: ErrorView) -> bool {
    r is Err && r->Err_0@ == e
}

/// Whether a result is the one that is wanted, or fails with the error that is wanted.
pub open spec fn agrees<T>(r: Result<T>, wanted: core::result::Result<T, ErrorView>) -> bool {
    match wanted {
        Ok(v) => r is Ok && r->Ok_0 == v,
        Err(e) => fails_with(r, e),
    }
}

/// Whether a result, seen as a mathematical value, is the one that is wanted, or fails with
/// the error that is wanted.
pub open spec fn shows<T: View>(r: Result<T>, wanted: core::result::Result<T::V, ErrorView>) -> bool {
    match wanted {
        Ok(v) => r is Ok && r->Ok_0@ == v,
        Err(e) => fails_with(r, e),
    }
}

/// Whether two results are the same value or the same error.
pub open spec fn same_result<T>(a: Result<T>, b: Result<T>) -> bool {
    match (a, b) {
        (Ok(x), Ok(y)) => x == y,
        (Err(e), Err(f)) => e@ == f@,
        _ => false,
    }
}

/// Whether two results, seen as mathematical values, are the same value or the same error.
pub open spec fn same_shown<T: View>(a: Result<T>, b: Result<T>) -> bool {
    match (a, b) {
        (Ok(x), Ok(y)) => x@ == y@,
        (Err(e), Err(f)) => e@ == f@,
        _ => false,
    }
}

/// Whether `r` says that the input is not accepted, with the text `message`.
pub open spec fn is_invalid<T>(r: Result<T>, message: Seq<char>) -> bool {
    fails_with(r, ErrorView::InvalidInput(message))
}

/// Whether `r` says that the request is not served, with the text `feature`.
pub open spec fn is_unsupported<T>(r: Result<T>, feature: Seq<char>) -> bool {
    fails_with(r, ErrorView::Unsupported(feature))
}

/// Whether `r` says that something does not exist, with the text `what`.
pub open spec fn is_missing<T>(r: Result<T>, what: Seq<char>) -> bool {
    fails_with(r, ErrorView::NotFound(what))
}

impl RustySatError {
    pub fn invalid_input(message: &str) -> (e: Self)
        ensures
            e@ == ErrorView::InvalidInput(message@),
    {
        RustySatError::InvalidInput { message: owned(message) }
    }

    pub fn unsupported(feature: &str) -> (e: Self)
        ensures
            e@ == ErrorView::Unsupported(feature@),
    {
        RustySatError::Unsupported { feature: owned(feature) }
    }

    pub fn not_found(what: &str) -> (e: Self)
        ensures
            e@ == ErrorView::NotFound(what@),
    {
        RustySatError::NotFound { what: owned(what) }
    }

    /// The text of the error, with its kind before it.
    pub fn message(&self) -> (r: String)
        ensures
            r@ == self@.text(),
    {
        match self {
            RustySatError::InvalidInput { message } => join2("invalid input: ", message.as_str()),
            RustySatError::Unsupported { feature } => join2(
                "unsupported feature: ",
                feature.as_str(),
            ),
            RustySatError::NotFound { what } => join2("not found: ", what.as_str()),
        }
    }
}

} // verus!
