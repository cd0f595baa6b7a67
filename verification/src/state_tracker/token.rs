use vstd::prelude::*;

verus! {

/// A raw bencode token
#[derive(Copy, Clone, Eq, PartialEq, Ord, PartialOrd, Debug)]
pub enum Token<'a> {
    /// The beginning of a list
    List,
    /// The beginning of a dictionary
    Dict,
    /// A byte string; may not be UTF-8
    String(&'a [u8]),
    /// A number; it is not parsed here, as it could be signed, unsigned, or a bignum
    Num(&'a str),
    /// The end of a list or dictionary
    End,
}

/// What a token stands for: its kind and, for the atoms, its content.
pub enum TokenView {
    List,
    Dict,
    String(Seq<u8>),
    Num(Seq<char>),
    End,
}

impl TokenView {
    /// The token opens a list or a dictionary.
    pub open spec fn opens(self) -> bool {
        self is List || self is Dict
    }

    /// The name under which the token is reported.
    pub open spec fn name(self) -> Seq<char> {
        match self {
            TokenView::Dict => "Dict"@,
            TokenView::End => "End"@,
            TokenView::List => "List"@,
            TokenView::Num(_) => "Num"@,
            TokenView::String(_) => "String"@,
        }
    }
}

impl<'a> View for Token<'a> {
    type V = TokenView;

    open spec fn view(&self) -> TokenView {
        match *self {
            Token::List => TokenView::List,
            Token::Dict => TokenView::Dict,
            Token::String(s) => TokenView::String(s@),
            Token::Num(s) => TokenView::Num(s@),
            Token::End => TokenView::End,
        }
    }
}

impl<'a> Token<'a> {
    /// The name of the token's kind.
    pub fn name(&self) -> (r: &'static str)
        ensures
            r@ == self@.name(),
    {
        match *self {
            Token::Dict => "Dict",
            Token::End => "End",
            Token::List => "List",
            Token::Num(_) => "Num",
            Token::String(_) => "String",
        }
    }
}

} // verus!
