use std::fmt::Display;
use std::num::ParseIntError;
use std::str::Utf8Error;
use std::string::FromUtf8Error;

use vstd::prelude::*;
use vstd::std_specs::convert::FromSpecImpl;
use vstd::string::to_string_from_display_ensures;

use crate::state_tracker::{Latch, StructureError, StructureErrorView};

verus! {

/// The error of `core::str::from_utf8`.
#[verifier::external_type_specification]
#[verifier::external_body]
pub struct ExUtf8Error(Utf8Error);

/// The error of `String::from_utf8`.
#[verifier::external_type_specification]
#[verifier::external_body]
pub struct ExFromUtf8Error(FromUtf8Error);

/// The error of parsing an integer with `str::parse`.
#[verifier::external_type_specification]
#[verifier::external_body]
pub struct ExParseIntError(ParseIntError);

/// A decoding error: what went wrong, and the path of the field in which
/// it did.
#[derive(Debug)]
pub struct Error {
    context: Option<String>,
    source: ErrorKind,
}

/// An enumeration of potential errors that appear during bencode deserialization.
#[derive(Debug)]
#[non_exhaustive]
#[allow(inconsistent_fields)]
pub enum ErrorKind {
    /// Error that occurs if the serialized structure contains invalid semantics.
    /// It holds the message of the failure that was found.
    MalformedContent { source: String },
    /// Error that occurs if the serialized structure is incomplete.
    MissingField { field: String },
    /// Error in the bencode structure (e.g. a missing field and seperator).
    StructureError { source: StructureError },
    /// Error that occurs if the serialized structure contains an unexpected field.
    UnexpectedField { field: String },
    /// Error through an unexpected bencode token during deserialization.
    UnexpectedToken { expected: String, discovered: String },
}

/// What an [`ErrorKind`] says.
#[allow(inconsistent_fields)]
pub enum ErrorKindView {
    MalformedContent { source: Seq<char> },
    MissingField { field: Seq<char> },
    StructureError { source: StructureErrorView },
    UnexpectedField { field: Seq<char> },
    UnexpectedToken { expected: Seq<char>, discovered: Seq<char> },
}

/// What an [`Error`] says.
pub struct ErrorView {
    pub context: Option<Seq<char>>,
    pub kind: ErrorKindView,
}

impl View for ErrorKind {
    type V = ErrorKindView;

    open spec fn view(&self) -> ErrorKindView {
        match self {
            ErrorKind::MalformedContent { source } => ErrorKindView::MalformedContent {
                source: source@,
            },
            ErrorKind::MissingField { field } => ErrorKindView::MissingField { field: field@ },
            ErrorKind::StructureError { source } => ErrorKindView::StructureError {
                source: source@,
            },
            ErrorKind::UnexpectedField { field } => ErrorKindView::UnexpectedField {
                field: field@,
            },
            ErrorKind::UnexpectedToken { expected, discovered } => ErrorKindView::UnexpectedToken {
                expected: expected@,
                discovered: discovered@,
            },
        }
    }
}

impl ErrorKindView {
    /// The message shown for the error.
    pub open spec fn message(self) -> Seq<char> {
        match self {
            ErrorKindView::MalformedContent { source } => "malformed content discovered: "@
                + source,
            ErrorKindView::MissingField { field } => "missing field: "@ + field,
            ErrorKindView::StructureError { source } => "bencode encoding corrupted ("@
                + source.message() + ")"@,
            ErrorKindView::UnexpectedField { field } => "unexpected field: "@ + field,
            ErrorKindView::UnexpectedToken { expected, discovered } => "discovered "@ + discovered
                + " but expected "@ + expected,
        }
    }
}

impl ErrorView {
    /// An error of kind `kind` that names no field.
    pub open spec fn plain(kind: ErrorKindView) -> ErrorView {
        ErrorView { context: None, kind }
    }

    /// The error that reports the grammar violation `source`.
    pub open spec fn structure(source: StructureErrorView) -> ErrorView {
        ErrorView::plain(ErrorKindView::StructureError { source })
    }

    /// The error with `context` put before the path it names already.
    pub open spec fn within(self, context: Seq<char>) -> ErrorView {
        ErrorView {
            context: Some(
                match self.context {
                    Some(current) => context + "."@ + current,
                    None => context,
                },
            ),
            kind: self.kind,
        }
    }

    /// The message shown for the error: that of its kind, and the field where
    /// one is named.
    pub open spec fn message(self) -> Seq<char> {
        match self.context {
            Some(context) => "Error: "@ + self.kind.message() + " in "@ + context,
            None => self.kind.message(),
        }
    }
}

impl View for Error {
    type V = ErrorView;

    closed spec fn view(&self) -> ErrorView {
        ErrorView {
            context: match self.context {
                Some(context) => Some(context@),
                None => None,
            },
            kind: self.source@,
        }
    }
}

impl Clone for ErrorKind {
    fn clone(&self) -> (r: Self)
        ensures
            r == *self,
    {
        match self {
            ErrorKind::MalformedContent { source } => ErrorKind::MalformedContent {
                source: source.clone(),
            },
            ErrorKind::MissingField { field } => ErrorKind::MissingField { field: field.clone() },
            ErrorKind::StructureError { source } => ErrorKind::StructureError {
                source: source.clone(),
            },
            ErrorKind::UnexpectedField { field } => ErrorKind::UnexpectedField {
                field: field.clone(),
            },
            ErrorKind::UnexpectedToken { expected, discovered } => ErrorKind::UnexpectedToken {
                expected: expected.clone(),
                discovered: discovered.clone(),
            },
        }
    }
}

impl Clone for Error {
    fn clone(&self) -> (r: Self)
        ensures
            r == *self,
    {
        Error {
            context: match &self.context {
                Some(context) => Some(context.clone()),
                None => None,
            },
            source: self.source.clone(),
        }
    }
}

impl ErrorKind {
    /// The message shown for the error.
    pub fn to_string(&self) -> (r: String)
        ensures
            r@ == self@.message(),
    {
        match self {
            ErrorKind::MalformedContent { source } => {
                let mut text = "malformed content discovered: ".to_owned();
                text.append(source.as_str());
                text
            },
            ErrorKind::MissingField { field } => {
                let mut text = "missing field: ".to_owned();
                text.append(field.as_str());
                text
            },
            ErrorKind::StructureError { source } => {
                let mut text = "bencode encoding corrupted (".to_owned();
                let inner = source.to_string();
                text.append(inner.as_str());
                text.append(")");
                text
            },
            ErrorKind::UnexpectedField { field } => {
                let mut text = "unexpected field: ".to_owned();
                text.append(field.as_str());
                text
            },
            ErrorKind::UnexpectedToken { expected, discovered } => {
                let mut text = "discovered ".to_owned();
                text.append(discovered.as_str());
                text.append(" but expected ");
                text.append(expected.as_str());
                text
            },
        }
    }
}

/// Naming the field in which a decoding error was found.
pub trait ResultExt {
    /// The same result; an error in it names `context` before the path
    /// it named already.
    fn context<C: Display>(self, context: C) -> Self;
}

impl Error {
    /// The kind of the error.
    pub closed spec fn kind(&self) -> ErrorKind {
        self.source
    }

    /// The path of the field in which the error was found, if one was named.
    pub closed spec fn path(&self) -> Option<String> {
        self.context
    }

    /// What `kind()` and `path()` say is what the view says.
    pub proof fn view_is_kind_and_path(&self)
        ensures
            self@.kind == self.kind()@,
            self@.context == match self.path() {
                Some(context) => Some(context@),
                None => None,
            },
    {
    }

    /// The kind of the error.
    pub fn source(&self) -> (r: &ErrorKind)
        ensures
            *r == self.kind(),
    {
        &self.source
    }

    /// The path of the field in which the error was found, if one was
    /// named.
    pub fn named_field(&self) -> (r: Option<&String>)
        ensures
            match self.path() {
                Some(path) => r == Some(&path),
                None => r is None,
            },
    {
        match &self.context {
            Some(context) => Some(context),
            None => None,
        }
    }

    /// The same error, found in the field `context`: the name is put before
    /// the path that the error names already, with a dot between them.
    pub fn context<C: Display>(self, context: C) -> (r: Self)
        ensures
            r.kind() == self.kind(),
            exists|name: String| #[trigger]
                to_string_from_display_ensures::<C>(&context, name) && r@ == self@.within(name@),
    {
        let name = context.to_string();
        let ghost shown = name;
        let Error { context: current, source } = self;
        let path = match current {
            Some(current) => {
                let mut path = name;
                path.append(".");
                path.append(current.as_str());
                path
            },
            None => name,
        };
        let r = Error { context: Some(path), source };
        proof {
            assert(to_string_from_display_ensures::<C>(&context, shown) && r@ == self@.within(
                shown@,
            ));
        }
        r
    }

    /// Raised when there is a general error while deserializing a type.
    /// The message should not be capitalized and should not end with a period.
    pub fn malformed_content<SourceT: Display>(source: SourceT) -> (r: Self)
        ensures
            r.path() is None,
            r.kind() matches ErrorKind::MalformedContent { source: message }
                && to_string_from_display_ensures::<SourceT>(&source, message),
    {
        Error { context: None, source: ErrorKind::MalformedContent { source: source.to_string() } }
    }

    /// Returns a `Error::MissingField` which contains the name of the field.
    pub fn missing_field<N: Display>(field_name: N) -> (r: Self)
        ensures
            r.path() is None,
            r.kind() matches ErrorKind::MissingField { field } && to_string_from_display_ensures::<
                N,
            >(&field_name, field),
    {
        Error { context: None, source: ErrorKind::MissingField { field: field_name.to_string() } }
    }

    /// Returns a `Error::UnexpectedField` which contains the name of the field.
    pub fn unexpected_field<N: Display>(field_name: N) -> (r: Self)
        ensures
            r.path() is None,
            r.kind() matches ErrorKind::UnexpectedField { field }
                && to_string_from_display_ensures::<N>(&field_name, field),
    {
        Error {
            context: None,
            source: ErrorKind::UnexpectedField { field: field_name.to_string() },
        }
    }

    /// Returns a `Error::UnexpectedElement` which contains a custom error message.
    pub fn unexpected_token<X: Display, D: Display>(expected: X, discovered: D) -> (r: Self)
        ensures
            r.path() is None,
            r.kind() matches ErrorKind::UnexpectedToken { expected: e, discovered: d }
                && to_string_from_display_ensures::<X>(&expected, e)
                && to_string_from_display_ensures::<D>(&discovered, d),
    {
        Error {
            context: None,
            source: ErrorKind::UnexpectedToken {
                expected: expected.to_string(),
                discovered: discovered.to_string(),
            },
        }
    }

    /// The error for content that is malformed as `message` says.
    pub(crate) fn malformed(message: String) -> (r: Self)
        ensures
            r@ == ErrorView::plain(ErrorKindView::MalformedContent { source: message@ }),
    {
        Error { context: None, source: ErrorKind::MalformedContent { source: message } }
    }

    /// The error for a token of the kind `discovered` where one of the kind
    /// `expected` was asked for.
    pub(crate) fn wrong_token(expected: &str, discovered: &str) -> (r: Self)
        ensures
            r@ == ErrorView::plain(
                ErrorKindView::UnexpectedToken { expected: expected@, discovered: discovered@ },
            ),
    {
        Error {
            context: None,
            source: ErrorKind::UnexpectedToken {
                expected: expected.to_owned(),
                discovered: discovered.to_owned(),
            },
        }
    }

    /// The message shown for the error.
    pub fn to_string(&self) -> (r: String)
        ensures
            r@ == self@.message(),
    {
        let kind = self.source.to_string();
        match &self.context {
            Some(context) => {
                let mut text = "Error: ".to_owned();
                text.append(kind.as_str());
                text.append(" in ");
                text.append(context.as_str());
                text
            },
            None => kind,
        }
    }
}

impl From<ErrorKind> for Error {
    fn from(kind: ErrorKind) -> (r: Self) {
        Error { context: None, source: kind }
    }
}

impl FromSpecImpl<ErrorKind> for Error {
    open spec fn obeys_from_spec() -> bool {
        true
    }

    closed spec fn from_spec(kind: ErrorKind) -> Self {
        Error { context: None, source: kind }
    }
}

impl From<StructureError> for Error {
    fn from(error: StructureError) -> (r: Self) {
        Error { context: None, source: ErrorKind::StructureError { source: error } }
    }
}

impl FromSpecImpl<StructureError> for Error {
    open spec fn obeys_from_spec() -> bool {
        true
    }

    closed spec fn from_spec(error: StructureError) -> Self {
        Error { context: None, source: ErrorKind::StructureError { source: error } }
    }
}

impl Error {
    /// What the conversions from an [`ErrorKind`] and from a
    /// [`StructureError`] give.
    pub proof fn from_spec_says(kind: ErrorKind, error: StructureError)
        ensures
            <Error as vstd::std_specs::convert::FromSpec<ErrorKind>>::from_spec(kind)@
                == ErrorView::plain(kind@),
            <Error as vstd::std_specs::convert::FromSpec<StructureError>>::from_spec(error)@
                == ErrorView::structure(error@),
    {
    }
}

impl From<FromUtf8Error> for Error {
    fn from(err: FromUtf8Error) -> (r: Self)
        ensures
            r.path() is None,
            r.kind() matches ErrorKind::MalformedContent { source: message }
                && to_string_from_display_ensures::<FromUtf8Error>(&err, message),
    {
        Error::malformed_content(err)
    }
}

impl FromSpecImpl<FromUtf8Error> for Error {
    open spec fn obeys_from_spec() -> bool {
        false
    }

    open spec fn from_spec(err: FromUtf8Error) -> Self {
        arbitrary()
    }
}

impl From<Utf8Error> for Error {
    fn from(err: Utf8Error) -> (r: Self)
        ensures
            r.path() is None,
            r.kind() matches ErrorKind::MalformedContent { source: message }
                && to_string_from_display_ensures::<Utf8Error>(&err, message),
    {
        Error::malformed_content(err)
    }
}

impl FromSpecImpl<Utf8Error> for Error {
    open spec fn obeys_from_spec() -> bool {
        false
    }

    open spec fn from_spec(err: Utf8Error) -> Self {
        arbitrary()
    }
}

impl From<ParseIntError> for Error {
    fn from(err: ParseIntError) -> (r: Self)
        ensures
            r.path() is None,
            r.kind() matches ErrorKind::MalformedContent { source: message }
                && to_string_from_display_ensures::<ParseIntError>(&err, message),
    {
        Error::malformed_content(err)
    }
}

impl FromSpecImpl<ParseIntError> for Error {
    open spec fn obeys_from_spec() -> bool {
        false
    }

    open spec fn from_spec(err: ParseIntError) -> Self {
        arbitrary()
    }
}

impl<T> ResultExt for Result<T, Error> {
    fn context<C: Display>(self, context: C) -> (r: Self)
        ensures
            self is Ok ==> r == self,
            self matches Err(error) ==> r matches Err(named) && named.kind() == error.kind()
                && exists|name: String| #[trigger]
                to_string_from_display_ensures::<C>(&context, name) && named@ == error@.within(
                    name@,
                ),
    {
        match self {
            Ok(value) => Ok(value),
            Err(error) => Err(error.context(context)),
        }
    }
}

impl Latch for Error {
    open spec fn reports(&self, violation: StructureErrorView) -> bool {
        self@ == ErrorView::structure(violation)
    }

    fn raise(error: StructureError) -> (r: Self) {
        Error { context: None, source: ErrorKind::StructureError { source: error } }
    }

    fn copy(&self) -> (r: Self) {
        self.clone()
    }
}

} // verus!
