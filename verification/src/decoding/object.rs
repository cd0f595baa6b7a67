use vstd::prelude::*;

use crate::decoding::decoder::{
    next_item, skip_to, skipped, Decoder, DictDecoder, ListDecoder, Reading,
};
use crate::decoding::error::Error;
use crate::state_tracker::{Token, TokenView};

verus! {

/// An object read from a decoder
pub enum Object<'obj, 'ser: 'obj> {
    /// A list of arbitrary objects
    List(ListDecoder<'obj, 'ser>),
    /// A map of string-valued keys to arbitrary objects
    Dict(DictDecoder<'obj, 'ser>),
    /// An unparsed integer
    Integer(&'ser str),
    /// A byte string
    Bytes(&'ser [u8]),
}

impl<'obj, 'ser: 'obj> Object<'obj, 'ser> {
    /// The token with which the object begins.
    pub open spec fn token(self) -> TokenView {
        match self {
            Object::List(_) => TokenView::List,
            Object::Dict(_) => TokenView::Dict,
            Object::Bytes(bytes) => TokenView::String(bytes@),
            Object::Integer(num) => TokenView::Num(num@),
        }
    }

    /// A list or a dictionary in the object is a view as the decoder makes
    /// them.
    pub open spec fn wf(self) -> bool {
        match self {
            Object::List(list) => list.wf(),
            Object::Dict(dict) => dict.wf(),
            _ => true,
        }
    }

    /// A list or a dictionary in the object is a view as the decoder makes
    /// it for a container that opens at `start`.
    pub open spec fn opened(self, start: int) -> bool {
        match self {
            Object::List(list) => list.fresh(start),
            Object::Dict(dict) => dict.fresh(start),
            _ => true,
        }
    }

    /// The decoder as it stands behind the object: the one that a list or a
    /// dictionary holds, else `otherwise`.
    pub open spec fn decoder_or(self, otherwise: Decoder<'ser>) -> Decoder<'ser> {
        match self {
            Object::List(list) => list.decoder(),
            Object::Dict(dict) => dict.decoder(),
            _ => otherwise,
        }
    }

    /// An object that is not used any more leaves the decoder behind it as
    /// it stands.
    pub proof fn gives_back(self)
        requires
            has_resolved(self),
        ensures
            self matches Object::List(list) ==> *final(list.parent()) == list.decoder(),
            self matches Object::Dict(dict) ==> *final(dict.parent()) == dict.decoder(),
    {
        match self {
            Object::List(list) => list.gives_back(),
            Object::Dict(dict) => dict.gives_back(),
            _ => {},
        }
    }

    /// The token with which the object begins. The contents of a list or a
    /// dictionary are given up.
    pub fn into_token(self) -> (r: Token<'ser>)
        ensures
            self matches Object::List(list) ==> *final(list.parent()) == list.decoder(),
            self matches Object::Dict(dict) ==> *final(dict.parent()) == dict.decoder(),
            r@ == self.token(),
    {
        match self {
            Object::List(list) => {
                proof {
                    list.gives_back();
                }
                Token::List
            },
            Object::Dict(dict) => {
                proof {
                    dict.gives_back();
                }
                Token::Dict
            },
            Object::Bytes(bytes) => Token::String(bytes),
            Object::Integer(num) => Token::Num(num),
        }
    }

    /// Try to treat the object as a byte string, mapping [`Object::Bytes(v)`] into
    /// [`Ok(v)`]. Any other variant returns the given default value.
    pub fn bytes_or<ErrorT>(self, default: Result<&'ser [u8], ErrorT>) -> (r: Result<
        &'ser [u8],
        ErrorT,
    >)
        ensures
            self matches Object::List(list) ==> *final(list.parent()) == list.decoder(),
            self matches Object::Dict(dict) ==> *final(dict.parent()) == dict.decoder(),
            r == match self {
                Object::Bytes(content) => Ok(content),
                _ => default,
            },
    {
        match self {
            Object::Bytes(content) => Ok(content),
            other => {
                proof {
                    other.gives_back();
                }
                default
            },
        }
    }

    /// Try to treat the object as a byte string, mapping [`Object::Bytes(v)`] into
    /// [`Ok(v)`]. Any other variant is passed into the given fallback method.
    pub fn bytes_or_else<ErrorT, F>(self, op: F) -> (r: Result<&'ser [u8], ErrorT>) where
        F: FnOnce(Self) -> Result<&'ser [u8], ErrorT>,

        requires
            !(self is Bytes) ==> op.requires((self,)),
        ensures
            self matches Object::Bytes(content) ==> r == Ok::<&'ser [u8], ErrorT>(content),
            !(self is Bytes) ==> op.ensures((self,), r),
    {
        match self {
            Object::Bytes(content) => Ok(content),
            other => op(other),
        }
    }

    /// Try to treat the object as a byte string, mapping [`Object::Bytes(v)`] into
    /// [`Ok(v)`]. Any other variant results in an [`Error::UnexpectedElement`].
    pub fn try_into_bytes(self) -> (r: Result<&'ser [u8], Error>)
        ensures
            self matches Object::List(list) ==> *final(list.parent()) == list.decoder(),
            self matches Object::Dict(dict) ==> *final(dict.parent()) == dict.decoder(),
            self matches Object::Bytes(content) ==> r == Ok::<&'ser [u8], Error>(content),
            !(self is Bytes) ==> (r matches Err(error) && error@ == unexpected("String"@, self)),
    {
        match self {
            Object::Bytes(content) => Ok(content),
            other => Err(mismatch("String", other)),
        }
    }

    /// Try to treat the object as an integer, mapping [`Object::Integer(v)`] into
    /// [`Ok(v)`]. Any other variant returns the given default value.
    pub fn integer_or<ErrorT>(self, default: Result<&'ser str, ErrorT>) -> (r: Result<
        &'ser str,
        ErrorT,
    >)
        ensures
            self matches Object::List(list) ==> *final(list.parent()) == list.decoder(),
            self matches Object::Dict(dict) ==> *final(dict.parent()) == dict.decoder(),
            r == match self {
                Object::Integer(content) => Ok(content),
                _ => default,
            },
    {
        match self {
            Object::Integer(content) => Ok(content),
            other => {
                proof {
                    other.gives_back();
                }
                default
            },
        }
    }

    /// Try to treat the object as an integer, mapping [`Object::Integer(v)`] into
    /// [`Ok(v)`]. Any other variant is passed into the given fallback method.
    pub fn integer_or_else<ErrorT, F>(self, op: F) -> (r: Result<&'ser str, ErrorT>) where
        F: FnOnce(Self) -> Result<&'ser str, ErrorT>,

        requires
            !(self is Integer) ==> op.requires((self,)),
        ensures
            self matches Object::Integer(content) ==> r == Ok::<&'ser str, ErrorT>(content),
            !(self is Integer) ==> op.ensures((self,), r),
    {
        match self {
            Object::Integer(content) => Ok(content),
            other => op(other),
        }
    }

    /// Try to treat the object as an integer, mapping [`Object::Integer(v)`] into
    /// [`Ok(v)`]. Any other variant results in an [`Error::UnexpectedElement`].
    pub fn try_into_integer(self) -> (r: Result<&'ser str, Error>)
        ensures
            self matches Object::List(list) ==> *final(list.parent()) == list.decoder(),
            self matches Object::Dict(dict) ==> *final(dict.parent()) == dict.decoder(),
            self matches Object::Integer(content) ==> r == Ok::<&'ser str, Error>(content),
            !(self is Integer) ==> (r matches Err(error) && error@ == unexpected("Num"@, self)),
    {
        match self {
            Object::Integer(content) => Ok(content),
            other => Err(mismatch("Num", other)),
        }
    }

    /// Try to treat the object as a list, mapping [`Object::List(v)`] into
    /// [`Ok(v)`]. Any other variant returns the given default value.
    pub fn list_or<ErrorT>(self, default: Result<ListDecoder<'obj, 'ser>, ErrorT>) -> (r: Result<
        ListDecoder<'obj, 'ser>,
        ErrorT,
    >)
        ensures
            self matches Object::Dict(dict) ==> *final(dict.parent()) == dict.decoder(),
            r == match self {
                Object::List(content) => Ok(content),
                _ => default,
            },
    {
        match self {
            Object::List(content) => Ok(content),
            other => {
                proof {
                    other.gives_back();
                }
                default
            },
        }
    }

    /// Try to treat the object as a list, mapping [`Object::List(v)`] into
    /// [`Ok(v)`]. Any other variant is passed into the given fallback method.
    pub fn list_or_else<ErrorT, F>(self, op: F) -> (r: Result<ListDecoder<'obj, 'ser>, ErrorT>) where
        F: FnOnce(Self) -> Result<ListDecoder<'obj, 'ser>, ErrorT>,

        requires
            !(self is List) ==> op.requires((self,)),
        ensures
            self matches Object::List(content) ==> r == Ok::<ListDecoder<'obj, 'ser>, ErrorT>(
                content,
            ),
            !(self is List) ==> op.ensures((self,), r),
    {
        match self {
            Object::List(content) => Ok(content),
            other => op(other),
        }
    }

    /// Try to treat the object as a list, mapping [`Object::List(v)`] into
    /// [`Ok(v)`]. Any other variant results in an [`Error::UnexpectedElement`].
    pub fn try_into_list(self) -> (r: Result<ListDecoder<'obj, 'ser>, Error>)
        ensures
            self matches Object::Dict(dict) ==> *final(dict.parent()) == dict.decoder(),
            self matches Object::List(content) ==> r == Ok::<ListDecoder<'obj, 'ser>, Error>(
                content,
            ),
            !(self is List) ==> (r matches Err(error) && error@ == unexpected("List"@, self)),
    {
        match self {
            Object::List(content) => Ok(content),
            other => Err(mismatch("List", other)),
        }
    }

    /// Try to treat the object as a dictionary, mapping [`Object::Dict(v)`] into
    /// [`Ok(v)`]. Any other variant returns the given default value.
    pub fn dictionary_or<ErrorT>(self, default: Result<DictDecoder<'obj, 'ser>, ErrorT>) -> (r:
        Result<DictDecoder<'obj, 'ser>, ErrorT>)
        ensures
            self matches Object::List(list) ==> *final(list.parent()) == list.decoder(),
            r == match self {
                Object::Dict(content) => Ok(content),
                _ => default,
            },
    {
        match self {
            Object::Dict(content) => Ok(content),
            other => {
                proof {
                    other.gives_back();
                }
                default
            },
        }
    }

    /// Try to treat the object as a dictionary, mapping [`Object::Dict(v)`] into
    /// [`Ok(v)`]. Any other variant is passed into the given fallback method.
    pub fn dictionary_or_else<ErrorT, F>(self, op: F) -> (r: Result<
        DictDecoder<'obj, 'ser>,
        ErrorT,
    >) where F: FnOnce(Self) -> Result<DictDecoder<'obj, 'ser>, ErrorT>
        requires
            !(self is Dict) ==> op.requires((self,)),
        ensures
            self matches Object::Dict(content) ==> r == Ok::<DictDecoder<'obj, 'ser>, ErrorT>(
                content,
            ),
            !(self is Dict) ==> op.ensures((self,), r),
    {
        match self {
            Object::Dict(content) => Ok(content),
            other => op(other),
        }
    }

    /// Try to treat the object as a dictionary, mapping [`Object::Dict(v)`] into
    /// [`Ok(v)`]. Any other variant results in an [`Error::UnexpectedElement`].
    pub fn try_into_dictionary(self) -> (r: Result<DictDecoder<'obj, 'ser>, Error>)
        ensures
            self matches Object::List(list) ==> *final(list.parent()) == list.decoder(),
            self matches Object::Dict(content) ==> r == Ok::<DictDecoder<'obj, 'ser>, Error>(
                content,
            ),
            !(self is Dict) ==> (r matches Err(error) && error@ == unexpected("Dict"@, self)),
    {
        match self {
            Object::Dict(content) => Ok(content),
            other => Err(mismatch("Dict", other)),
        }
    }

    /// Try to treat the object as a byte string, mapping [`Object::Bytes(v)`] into
    /// [`Ok(v)`] and any other variant to [`Err(error)`].
    pub fn bytes_or_err<ErrorT>(self, error: ErrorT) -> (r: Result<&'ser [u8], ErrorT>)
        ensures
            self matches Object::List(list) ==> *final(list.parent()) == list.decoder(),
            self matches Object::Dict(dict) ==> *final(dict.parent()) == dict.decoder(),
            r == match self {
                Object::Bytes(content) => Ok(content),
                _ => Err(error),
            },
    {
        match self {
            Object::Bytes(content) => Ok(content),
            other => {
                proof {
                    other.gives_back();
                }
                Err(error)
            },
        }
    }

    /// Try to treat the object as a byte string, mapping [`Object::Bytes(v)`] into
    /// [`Ok(v)`] and any other variant to [`Err(error())`].
    pub fn bytes_or_else_err<ErrorT, FunctionT>(self, error: FunctionT) -> (r: Result<
        &'ser [u8],
        ErrorT,
    >) where FunctionT: FnOnce() -> ErrorT
        requires
            !(self is Bytes) ==> error.requires(()),
        ensures
            self matches Object::List(list) ==> *final(list.parent()) == list.decoder(),
            self matches Object::Dict(dict) ==> *final(dict.parent()) == dict.decoder(),
            self matches Object::Bytes(content) ==> r == Ok::<&'ser [u8], ErrorT>(content),
            !(self is Bytes) ==> (r matches Err(made) && error.ensures((), made)),
    {
        match self {
            Object::Bytes(content) => Ok(content),
            other => {
                proof {
                    other.gives_back();
                }
                Err(error())
            },
        }
    }

    /// Try to treat the object as an integer, mapping [`Object::Integer(v)`] into
    /// [`Ok(v)`] and any other variant to [`Err(error)`].
    pub fn integer_str_or_err<ErrorT>(self, error: ErrorT) -> (r: Result<&'ser str, ErrorT>)
        ensures
            self matches Object::List(list) ==> *final(list.parent()) == list.decoder(),
            self matches Object::Dict(dict) ==> *final(dict.parent()) == dict.decoder(),
            r == match self {
                Object::Integer(content) => Ok(content),
                _ => Err(error),
            },
    {
        match self {
            Object::Integer(content) => Ok(content),
            other => {
                proof {
                    other.gives_back();
                }
                Err(error)
            },
        }
    }

    /// Try to treat the object as an integer, mapping [`Object::Integer(v)`] into
    /// [`Ok(v)`] and any other variant to [`Err(error())`].
    pub fn integer_str_or_else_err<ErrorT, FunctionT>(self, error: FunctionT) -> (r: Result<
        &'ser str,
        ErrorT,
    >) where FunctionT: FnOnce() -> ErrorT
        requires
            !(self is Integer) ==> error.requires(()),
        ensures
            self matches Object::List(list) ==> *final(list.parent()) == list.decoder(),
            self matches Object::Dict(dict) ==> *final(dict.parent()) == dict.decoder(),
            self matches Object::Integer(content) ==> r == Ok::<&'ser str, ErrorT>(content),
            !(self is Integer) ==> (r matches Err(made) && error.ensures((), made)),
    {
        match self {
            Object::Integer(content) => Ok(content),
            other => {
                proof {
                    other.gives_back();
                }
                Err(error())
            },
        }
    }

    /// Try to treat the object as a list, mapping [`Object::List(v)`] into
    /// [`Ok(v)`] and any other variant to [`Err(error)`].
    pub fn list_or_err<ErrorT>(self, error: ErrorT) -> (r: Result<ListDecoder<'obj, 'ser>, ErrorT>)
        ensures
            self matches Object::Dict(dict) ==> *final(dict.parent()) == dict.decoder(),
            r == match self {
                Object::List(content) => Ok(content),
                _ => Err(error),
            },
    {
        match self {
            Object::List(content) => Ok(content),
            other => {
                proof {
                    other.gives_back();
                }
                Err(error)
            },
        }
    }

    /// Try to treat the object as a list, mapping [`Object::List(v)`] into
    /// [`Ok(v)`] and any other variant to [`Err(error())`].
    pub fn list_or_else_err<ErrorT, FunctionT>(self, error: FunctionT) -> (r: Result<
        ListDecoder<'obj, 'ser>,
        ErrorT,
    >) where FunctionT: FnOnce() -> ErrorT
        requires
            !(self is List) ==> error.requires(()),
        ensures
            self matches Object::Dict(dict) ==> *final(dict.parent()) == dict.decoder(),
            self matches Object::List(content) ==> r == Ok::<ListDecoder<'obj, 'ser>, ErrorT>(
                content,
            ),
            !(self is List) ==> (r matches Err(made) && error.ensures((), made)),
    {
        match self {
            Object::List(content) => Ok(content),
            other => {
                proof {
                    other.gives_back();
                }
                Err(error())
            },
        }
    }

    /// Try to treat the object as a dictionary, mapping [`Object::Dict(v)`] into
    /// [`Ok(v)`] and any other variant to [`Err(error)`].
    pub fn dictionary_or_err<ErrorT>(self, error: ErrorT) -> (r: Result<
        DictDecoder<'obj, 'ser>,
        ErrorT,
    >)
        ensures
            self matches Object::List(list) ==> *final(list.parent()) == list.decoder(),
            r == match self {
                Object::Dict(content) => Ok(content),
                _ => Err(error),
            },
    {
        match self {
            Object::Dict(content) => Ok(content),
            other => {
                proof {
                    other.gives_back();
                }
                Err(error)
            },
        }
    }

    /// Try to treat the object as a dictionary, mapping [`Object::Dict(v)`] into
    /// [`Ok(v)`] and any other variant to [`Err(error())`].
    pub fn dictionary_or_else_err<ErrorT, FunctionT>(self, error: FunctionT) -> (r: Result<
        DictDecoder<'obj, 'ser>,
        ErrorT,
    >) where FunctionT: FnOnce() -> ErrorT
        requires
            !(self is Dict) ==> error.requires(()),
        ensures
            self matches Object::List(list) ==> *final(list.parent()) == list.decoder(),
            self matches Object::Dict(content) ==> r == Ok::<DictDecoder<'obj, 'ser>, ErrorT>(
                content,
            ),
            !(self is Dict) ==> (r matches Err(made) && error.ensures((), made)),
    {
        match self {
            Object::Dict(content) => Ok(content),
            other => {
                proof {
                    other.gives_back();
                }
                Err(error())
            },
        }
    }
}

/// What the error says that is made when `found` is not what was expected.
pub open spec fn unexpected(expected: Seq<char>, found: Object<'_, '_>) -> crate::decoding::error::ErrorView {
    crate::decoding::error::ErrorView::plain(
        crate::decoding::error::ErrorKindView::UnexpectedToken {
            expected,
            discovered: found.token().name(),
        },
    )
}

/// The error for an object that is not of the kind `expected`.
fn mismatch(expected: &str, found: Object<'_, '_>) -> (r: Error)
    ensures
        found matches Object::List(list) ==> *final(list.parent()) == list.decoder(),
        found matches Object::Dict(dict) ==> *final(dict.parent()) == dict.decoder(),
        r@ == unexpected(expected@, found),
{
    let token = found.into_token();
    Error::wrong_token(expected, token.name())
}

/// What is left to read of the input behind a list or a dictionary.
pub open spec fn left_to_read(object: Object<'_, '_>) -> int {
    match object {
        Object::List(list) => list.decoder().input().len() - list.decoder().reading().at,
        Object::Dict(dict) => dict.decoder().input().len() - dict.decoder().reading().at,
        _ => 0,
    }
}

/// The list or the dictionary in `object` can be read to its end: nothing
/// of it is read yet, and skipping it finds no violation.
pub open spec fn can_be_read(object: Object<'_, '_>) -> bool {
    match object {
        Object::List(list) => !list.is_finished() && list.decoder().latched() is None && skip_to(
            list.decoder().input(),
            list.decoder().depth_limit(),
            list.decoder().reading(),
            (list.level() - 1) as nat,
        ) is Ok,
        Object::Dict(dict) => !dict.is_finished() && dict.decoder().latched() is None && skip_to(
            dict.decoder().input(),
            dict.decoder().depth_limit(),
            dict.decoder().reading(),
            (dict.level() - 1) as nat,
        ) is Ok,
        _ => true,
    }
}

/// The level of the list or the dictionary in `object`.
pub open spec fn left_level(object: Object<'_, '_>) -> nat {
    match object {
        Object::List(list) => list.level(),
        Object::Dict(dict) => dict.level(),
        _ => 1,
    }
}

/// The tokens of the object as the decoder reads them: of a list or a
/// dictionary the opener, and what is skipped on the way out of it.
pub open spec fn object_tokens(object: Object<'_, '_>) -> Seq<TokenView> {
    match object {
        Object::List(list) => seq![TokenView::List] + skipped(
            list.decoder().input(),
            list.decoder().depth_limit(),
            list.decoder().reading(),
            (list.level() - 1) as nat,
        ),
        Object::Dict(dict) => seq![TokenView::Dict] + skipped(
            dict.decoder().input(),
            dict.decoder().depth_limit(),
            dict.decoder().reading(),
            (dict.level() - 1) as nat,
        ),
        _ => seq![object.token()],
    }
}

/// The object is unread: of a list or a dictionary nothing is read yet,
/// and no error is latched behind it.
pub open spec fn unread(object: Object<'_, '_>) -> bool {
    match object {
        Object::List(list) => !list.is_finished() && list.decoder().latched() is None
            && list.level() == list.decoder().reading().frames.len(),
        Object::Dict(dict) => !dict.is_finished() && dict.decoder().latched() is None
            && dict.level() == dict.decoder().reading().frames.len(),
        _ => true,
    }
}

/// Where the first object of `src` ends: behind its token, or behind what
/// is skipped on the way out of a list or a dictionary.
pub open spec fn first_object_end(src: Seq<u8>, max_depth: nat) -> int {
    match next_item(src, max_depth, Reading { at: 0, frames: Seq::empty() }, 0) {
        Ok((Some(_), opened)) => match skip_to(src, max_depth, opened, 0) {
            Ok(behind) => behind.at,
            Err(_) => opened.at,
        },
        _ => 0,
    }
}

} // verus!
