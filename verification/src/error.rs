//! Errors that schema updates report.

use vstd::prelude::*;

verus! {

/// What kind of problem an [`Error`] reports.
#[derive(Debug, Clone, Copy, PartialEq, Eq, Structural)]
pub enum ErrorKind {
    /// The requested change does not fit the schema it is applied to.
    PreconditionFailed,
    /// A value or a type is malformed.
    DataInvalid,
    /// The state that an update works on is inconsistent.
    Unexpected,
}

/// What lies beneath an error.
#[derive(Debug, PartialEq, Eq)]
pub enum ErrorSource {
    /// Another error of this library.
    Inner(Box<Error>),
    /// An error of another library, by its text.
    Outside(String),
}

/// An error with its message and, where it wraps another one, what lies beneath it.
#[derive(Debug, PartialEq, Eq)]
pub struct Error {
    pub kind: ErrorKind,
    pub message: String,
    pub source: Option<ErrorSource>,
}

/// The mathematical value of an [`ErrorSource`].
pub enum SourceView {
    Inner(Box<ErrorView>),
    Outside(Seq<char>),
}

/// The mathematical value of an [`Error`].
pub struct ErrorView {
    pub kind: ErrorKind,
    pub message: Seq<char>,
    pub source: Option<SourceView>,
}

/// The value of an error, its sources included.
pub open spec fn error_view(e: Error) -> ErrorView
    decreases e,
{
    ErrorView {
        kind: e.kind,
        message: e.message@,
        source: match e.source {
            Some(ErrorSource::Inner(inner)) => Some(
                SourceView::Inner(Box::new(error_view(*inner))),
            ),
            Some(ErrorSource::Outside(text)) => Some(SourceView::Outside(text@)),
            None => None,
        },
    }
}

impl View for Error {
    type V = ErrorView;

    open spec fn view(&self) -> ErrorView {
        error_view(*self)
    }
}

/// An error without a source.
pub open spec fn plain_error(kind: ErrorKind, message: Seq<char>) -> ErrorView {
    ErrorView { kind, message, source: None }
}

/// A failed precondition without a source.
pub open spec fn precondition_error(message: Seq<char>) -> ErrorView {
    plain_error(ErrorKind::PreconditionFailed, message)
}

/// A failed precondition that wraps `source`.
pub open spec fn precondition_over(message: Seq<char>, source: ErrorView) -> ErrorView {
    ErrorView {
        kind: ErrorKind::PreconditionFailed,
        message,
        source: Some(SourceView::Inner(Box::new(source))),
    }
}

/// Malformed data, without a source.
pub open spec fn data_error(message: Seq<char>) -> ErrorView {
    plain_error(ErrorKind::DataInvalid, message)
}

/// Malformed data that another library turned down, with the text of its error.
pub open spec fn data_error_over(message: Seq<char>, text: Seq<char>) -> ErrorView {
    ErrorView {
        kind: ErrorKind::DataInvalid,
        message,
        source: Some(SourceView::Outside(text)),
    }
}

/// An inconsistent state, without a source.
pub open spec fn unexpected_error(message: Seq<char>) -> ErrorView {
    plain_error(ErrorKind::Unexpected, message)
}

/// A result with its payload and its error taken by their views.
pub open spec fn outcome<T: View>(result: core::result::Result<T, Error>) -> core::result::Result<
    T::V,
    ErrorView,
> {
    match result {
        Ok(value) => Ok(value@),
        Err(error) => Err(error@),
    }
}

/// An optional error by its view.
pub open spec fn opt_error(error: Option<Error>) -> Option<ErrorView> {
    match error {
        Some(e) => Some(e@),
        None => None,
    }
}

impl Error {
    /// Creates an error without a source.
    pub fn new(kind: ErrorKind, message: String) -> (error: Error)
        ensures
            error@ == plain_error(kind, message@),
    {
        Error { kind, message, source: None }
    }

    /// Puts `source` beneath this error.
    pub fn with_source(self, source: Error) -> (error: Error)
        ensures
            error@ == (ErrorView { source: Some(SourceView::Inner(Box::new(source@))), ..self@ }),
    {
        Error {
            kind: self.kind,
            message: self.message,
            source: Some(ErrorSource::Inner(Box::new(source))),
        }
    }

    /// Puts an error of another library, by its text, beneath this error.
    pub fn with_outside_source(self, text: String) -> (error: Error)
        ensures
            error@ == (ErrorView { source: Some(SourceView::Outside(text@)), ..self@ }),
    {
        Error {
            kind: self.kind,
            message: self.message,
            source: Some(ErrorSource::Outside(text)),
        }
    }

    /// The kind of the problem.
    pub fn kind(&self) -> (kind: ErrorKind)
        ensures
            kind == self@.kind,
    {
        self.kind
    }

    /// The message, without those of the sources.
    pub fn message(&self) -> (message: &str)
        ensures
            message@ == self@.message,
    {
        self.message.as_str()
    }
}

/// A failed precondition with the given message.
pub fn precondition(message: String) -> (error: Error)
    ensures
        error@ == precondition_error(message@),
{
    Error::new(ErrorKind::PreconditionFailed, message)
}

/// Malformed data, described by `message`.
pub fn data_invalid(message: &str) -> (error: Error)
    ensures
        error@ == data_error(message@),
{
    Error::new(ErrorKind::DataInvalid, message.to_owned())
}

/// An inconsistent state, described by `message`.
pub fn unexpected(message: String) -> (error: Error)
    ensures
        error@ == unexpected_error(message@),
{
    Error::new(ErrorKind::Unexpected, message)
}

} // verus!
