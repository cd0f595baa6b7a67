use std::fmt::Display;

use vstd::prelude::*;
use vstd::std_specs::convert::FromSpecImpl;
use vstd::string::to_string_from_display_ensures;

use crate::state_tracker::{Latch, StructureError, StructureErrorView};

verus! {

/// An enumeration of potential errors that appear during bencode encoding.
#[derive(Debug)]
#[non_exhaustive]
#[allow(inconsistent_fields)]
pub enum Error {
    /// Error that occurs if the serialized structure contains invalid semantics.
    /// It holds the message of the failure that was found.
    MalformedContent { source: String },
    /// Error in the bencode structure (e.g. a missing field end separator).
    StructureError { source: StructureError },
}

/// What an [`Error`] says.
#[allow(inconsistent_fields)]
pub enum ErrorView {
    MalformedContent { source: Seq<char> },
    StructureError { source: StructureErrorView },
}

impl View for Error {
    type V = ErrorView;

    open spec fn view(&self) -> ErrorView {
        match self {
            Error::MalformedContent { source } => ErrorView::MalformedContent { source: source@ },
            Error::StructureError { source } => ErrorView::StructureError { source: source@ },
        }
    }
}

impl ErrorView {
    /// The message shown for the error.
    pub open spec fn message(self) -> Seq<char> {
        match self {
            ErrorView::MalformedContent { source } => "malformed content discovered: "@ + source,
            ErrorView::StructureError { source } => "bencode encoding corrupted"@,
        }
    }
}

impl Clone for Error {
    fn clone(&self) -> (r: Self)
        ensures
            r == *self,
    {
        match self {
            Error::MalformedContent { source } => Error::MalformedContent {
                source: source.clone(),
            },
            Error::StructureError { source } => Error::StructureError { source: source.clone() },
        }
    }
}

impl Error {
    /// Raised when there is a general error while deserializing a type.
    /// The message should not be capitalized and should not end with a period.
    pub fn malformed_content<SourceT: Display>(source: SourceT) -> (r: Self)
        ensures
            r matches Error::MalformedContent { source: message }
                && to_string_from_display_ensures::<SourceT>(&source, message),
    {
        Error::MalformedContent { source: source.to_string() }
    }

    /// The message shown for the error.
    pub fn to_string(&self) -> (r: String)
        ensures
            r@ == self@.message(),
    {
        match self {
            Error::MalformedContent { source } => {
                let mut text = "malformed content discovered: ".to_owned();
                text.append(source.as_str());
                text
            },
            Error::StructureError { source } => "bencode encoding corrupted".to_owned(),
        }
    }
}

impl From<StructureError> for Error {
    fn from(error: StructureError) -> (r: Self) {
        Error::StructureError { source: error }
    }
}

impl FromSpecImpl<StructureError> for Error {
    open spec fn obeys_from_spec() -> bool {
        true
    }

    open spec fn from_spec(error: StructureError) -> Self {
        Error::StructureError { source: error }
    }
}

impl Latch for Error {
    open spec fn reports(&self, violation: StructureErrorView) -> bool {
        self@ == (ErrorView::StructureError { source: violation })
    }

    fn raise(error: StructureError) -> (r: Self) {
        Error::StructureError { source: error }
    }

    fn copy(&self) -> (r: Self) {
        self.clone()
    }
}

} // verus!
