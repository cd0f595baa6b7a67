use vstd::prelude::*;

use crate::text::{char_debug, debug_text, decimal, push_decimal};

verus! {

/// An encoding or decoding error
#[derive(Debug, Eq, PartialEq, Ord, PartialOrd)]
pub enum StructureError {
    /// Wrong type of token detected.
    InvalidState(String),
    /// Keys were not sorted.
    UnsortedKeys,
    /// EOF reached to early.
    UnexpectedEof,
    /// Unexpected characters detected.
    SyntaxError(String),
    /// Exceeded the recursion limit.
    NestingTooDeep,
}

/// What a [`StructureError`] says: its kind and the text it carries.
pub enum StructureErrorView {
    InvalidState(Seq<char>),
    UnsortedKeys,
    UnexpectedEof,
    SyntaxError(Seq<char>),
    NestingTooDeep,
}

impl View for StructureError {
    type V = StructureErrorView;

    open spec fn view(&self) -> StructureErrorView {
        match self {
            StructureError::InvalidState(state) => StructureErrorView::InvalidState(state@),
            StructureError::UnsortedKeys => StructureErrorView::UnsortedKeys,
            StructureError::UnexpectedEof => StructureErrorView::UnexpectedEof,
            StructureError::SyntaxError(unexpected) => StructureErrorView::SyntaxError(
                unexpected@,
            ),
            StructureError::NestingTooDeep => StructureErrorView::NestingTooDeep,
        }
    }
}

impl StructureErrorView {
    /// The report of a character that the grammar does not allow at `offset`.
    pub open spec fn unexpected(expected: Seq<char>, got: char, offset: nat) -> StructureErrorView {
        StructureErrorView::SyntaxError(
            "Expected "@ + expected + ", got "@ + debug_text(got) + " at offset "@ + decimal(
                offset,
            ),
        )
    }

    /// The message shown for the error.
    pub open spec fn message(self) -> Seq<char> {
        match self {
            StructureErrorView::InvalidState(state) => "Saw the wrong type of token: "@ + state,
            StructureErrorView::UnsortedKeys => "Keys were not sorted"@,
            StructureErrorView::UnexpectedEof => "Reached EOF in the middle of a message"@,
            StructureErrorView::SyntaxError(unexpected) =>
                "Malformed number of unexpected character: "@ + unexpected,
            StructureErrorView::NestingTooDeep => "Maximum nesting depth exceeded"@,
        }
    }
}

impl Clone for StructureError {
    fn clone(&self) -> (r: Self)
        ensures
            r == *self,
    {
        match self {
            StructureError::InvalidState(state) => StructureError::InvalidState(state.clone()),
            StructureError::UnsortedKeys => StructureError::UnsortedKeys,
            StructureError::UnexpectedEof => StructureError::UnexpectedEof,
            StructureError::SyntaxError(unexpected) => StructureError::SyntaxError(
                unexpected.clone(),
            ),
            StructureError::NestingTooDeep => StructureError::NestingTooDeep,
        }
    }
}

impl StructureError {
    /// The error for a character that the grammar does not allow at `offset`.
    pub fn unexpected(expected: &str, got: char, offset: usize) -> (r: Self)
        ensures
            r@ == StructureErrorView::unexpected(expected@, got, offset as nat),
    {
        let mut text = "Expected ".to_owned();
        text.append(expected);
        text.append(", got ");
        let shown = char_debug(got);
        text.append(shown.as_str());
        text.append(" at offset ");
        push_decimal(&mut text, offset as u128);
        StructureError::SyntaxError(text)
    }

    /// The error for a token that may not stand where it was seen.
    pub fn invalid_state(expected: &str) -> (r: Self)
        ensures
            r@ == StructureErrorView::InvalidState(expected@),
    {
        StructureError::InvalidState(expected.to_owned())
    }

    /// The message shown for the error.
    pub fn to_string(&self) -> (r: String)
        ensures
            r@ == self@.message(),
    {
        match self {
            StructureError::InvalidState(state) => {
                let mut text = "Saw the wrong type of token: ".to_owned();
                text.append(state.as_str());
                text
            },
            StructureError::UnsortedKeys => "Keys were not sorted".to_owned(),
            StructureError::UnexpectedEof => "Reached EOF in the middle of a message".to_owned(),
            StructureError::SyntaxError(unexpected) => {
                let mut text = "Malformed number of unexpected character: ".to_owned();
                text.append(unexpected.as_str());
                text
            },
            StructureError::NestingTooDeep => "Maximum nesting depth exceeded".to_owned(),
        }
    }
}

} // verus!
