use vstd::prelude::*;

use crate::state_tracker::structure_error::{StructureError, StructureErrorView};
use crate::state_tracker::token::{Token, TokenView};
use crate::text::{bytes_lt, lex_lt};

verus! {

/// Bytes that a tracker can keep as the last key of a dictionary.
pub trait Label: Sized {
    /// The bytes kept.
    spec fn label(&self) -> Seq<u8>;

    /// The bytes kept.
    fn bytes(&self) -> (r: &[u8])
        ensures
            r@ == self.label(),
    ;
}

/// A [`Label`] that can be made from bytes that live for `'a`.
pub trait LabelFrom<'a>: Label {
    /// Keeps `bytes`.
    fn keep(bytes: &'a [u8]) -> (r: Self)
        ensures
            r.label() == bytes@,
    ;
}

impl<'a> Label for &'a [u8] {
    open spec fn label(&self) -> Seq<u8> {
        self@
    }

    fn bytes(&self) -> (r: &[u8]) {
        *self
    }
}

impl<'a> LabelFrom<'a> for &'a [u8] {
    fn keep(bytes: &'a [u8]) -> (r: Self) {
        bytes
    }
}

impl Label for Vec<u8> {
    open spec fn label(&self) -> Seq<u8> {
        self@
    }

    fn bytes(&self) -> (r: &[u8]) {
        self.as_slice()
    }
}

impl<'a> LabelFrom<'a> for Vec<u8> {
    fn keep(bytes: &'a [u8]) -> (r: Self) {
        vstd::slice::slice_to_vec(bytes)
    }
}

impl Label for String {
    open spec fn label(&self) -> Seq<u8> {
        vstd::utf8::encode_utf8(self@)
    }

    fn bytes(&self) -> (r: &[u8]) {
        self.as_str().as_bytes()
    }
}

impl<'a> Label for &'a str {
    open spec fn label(&self) -> Seq<u8> {
        vstd::utf8::encode_utf8(self@)
    }

    fn bytes(&self) -> (r: &[u8]) {
        self.as_bytes()
    }
}

impl<const N: usize> Label for [u8; N] {
    open spec fn label(&self) -> Seq<u8> {
        self@
    }

    fn bytes(&self) -> (r: &[u8]) {
        self.as_slice()
    }
}

impl<'a, T: Label> Label for &'a T {
    open spec fn label(&self) -> Seq<u8> {
        (**self).label()
    }

    fn bytes(&self) -> (r: &[u8]) {
        (**self).bytes()
    }
}

/// An error that a tracker can latch: it can report a grammar violation, and
/// it can be copied.
pub trait Latch: Sized {
    /// The error is the one that is raised for the grammar violation
    /// `violation`: it says that, and nothing more.
    spec fn reports(&self, violation: StructureErrorView) -> bool;

    /// The error that reports `error`.
    fn raise(error: StructureError) -> (r: Self)
        ensures
            r.reports(error@),
    ;

    /// A copy of the error.
    fn copy(&self) -> (r: Self)
        ensures
            r == *self,
    ;
}

impl Latch for StructureError {
    open spec fn reports(&self, violation: StructureErrorView) -> bool {
        self@ == violation
    }

    fn raise(error: StructureError) -> (r: Self) {
        error
    }

    fn copy(&self) -> (r: Self) {
        self.clone()
    }
}

/// One level of the structure that is open, as the grammar sees it.
pub enum FrameView {
    /// Inside a list: any token may follow.
    InSeq,
    /// Inside a dictionary, before a key; holds the key read last, if any.
    ExpectingKey(Option<Seq<u8>>),
    /// Inside a dictionary, before the value of the key it holds.
    ExpectingValue(Seq<u8>),
}

/// The stack with one more level, unless `max_depth` levels are open already.
pub open spec fn open_level(stack: Seq<FrameView>, max_depth: nat, frame: FrameView) -> Result<
    Seq<FrameView>,
    StructureErrorView,
> {
    if stack.len() >= max_depth {
        Err(StructureErrorView::NestingTooDeep)
    } else {
        Ok(stack.push(frame))
    }
}

/// The frame that `token` opens.
pub open spec fn opened_by(token: TokenView) -> FrameView {
    if token is List {
        FrameView::InSeq
    } else {
        FrameView::ExpectingKey(None)
    }
}

/// The grammar: the stack after `token`, or the violation that `token` is.
pub open spec fn step(stack: Seq<FrameView>, max_depth: nat, token: TokenView) -> Result<
    Seq<FrameView>,
    StructureErrorView,
> {
    if stack.len() == 0 {
        if token is End {
            Err(StructureErrorView::InvalidState("End not allowed at top level"@))
        } else if token.opens() {
            open_level(stack, max_depth, opened_by(token))
        } else {
            Ok(stack)
        }
    } else {
        let below = stack.drop_last();
        match stack.last() {
            FrameView::InSeq => {
                if token is End {
                    Ok(below)
                } else if token.opens() {
                    open_level(stack, max_depth, opened_by(token))
                } else {
                    Ok(stack)
                }
            },
            FrameView::ExpectingKey(last_key) => {
                match token {
                    TokenView::End => Ok(below),
                    TokenView::String(key) => {
                        if last_key matches Some(prev) && !lex_lt(prev, key) {
                            Err(StructureErrorView::UnsortedKeys)
                        } else {
                            Ok(below.push(FrameView::ExpectingValue(key)))
                        }
                    },
                    _ => Err(StructureErrorView::InvalidState("Map keys must be strings"@)),
                }
            },
            FrameView::ExpectingValue(key) => {
                let closed = below.push(FrameView::ExpectingKey(Some(key)));
                if token is End {
                    Err(StructureErrorView::InvalidState("Missing map value"@))
                } else if token.opens() {
                    open_level(closed, max_depth, opened_by(token))
                } else {
                    Ok(closed)
                }
            },
        }
    }
}

/// The grammar over a run of tokens: the stack after all of them, or the
/// first violation.
pub open spec fn run(stack: Seq<FrameView>, max_depth: nat, tokens: Seq<TokenView>) -> Result<
    Seq<FrameView>,
    StructureErrorView,
>
    decreases tokens.len(),
{
    if tokens.len() == 0 {
        Ok(stack)
    } else {
        match step(stack, max_depth, tokens[0]) {
            Ok(next) => run(next, max_depth, tokens.drop_first()),
            Err(error) => Err(error),
        }
    }
}

enum Frame<S> {
    InSeq,
    ExpectingKey(Option<S>),
    ExpectingValue(S),
}

impl<S: Label> Frame<S> {
    spec fn model(self) -> FrameView {
        match self {
            Frame::InSeq => FrameView::InSeq,
            Frame::ExpectingKey(None) => FrameView::ExpectingKey(None),
            Frame::ExpectingKey(Some(key)) => FrameView::ExpectingKey(Some(key.label())),
            Frame::ExpectingValue(key) => FrameView::ExpectingValue(key.label()),
        }
    }
}

/// Validates a stream of tokens against the grammar of bencode and a bound
/// on the nesting depth. The first violation is latched: every later
/// observation returns it again.
pub struct StateTracker<S, E = StructureError> {
    state: Vec<Frame<S>>,
    max_depth: usize,
    failed: Option<E>,
}

impl<S: Label, E: Latch> Default for StateTracker<S, E> {
    /// A tracker with nothing open, nothing latched and a depth bound of 2048.
    fn default() -> (r: Self)
        ensures
            r.frames() == Seq::<FrameView>::empty(),
            r.depth_limit() == 2048,
            r.latched() is None,
    {
        StateTracker::new()
    }
}

impl<S: Label, E: Latch> StateTracker<S, E> {
    /// The levels that are open, outermost first.
    pub closed spec fn frames(&self) -> Seq<FrameView> {
        self.state@.map_values(|f: Frame<S>| f.model())
    }

    /// The bound on the number of open levels.
    pub closed spec fn depth_limit(&self) -> nat {
        self.max_depth as nat
    }

    /// The error that was latched, if any.
    pub closed spec fn latched(&self) -> Option<E> {
        self.failed
    }

    /// How often `rest` does not change.
    pub open spec fn same(self, post: Self) -> bool {
        &&& post.frames() == self.frames()
        &&& post.depth_limit() == self.depth_limit()
        &&& post.latched() == self.latched()
    }

    /// `post` and `r` are what observing `token` in `self` gives.
    pub open spec fn observes(self, token: TokenView, post: Self, r: Result<(), E>) -> bool {
        &&& post.depth_limit() == self.depth_limit()
        &&& match self.latched() {
            Some(error) => r == Err::<(), E>(error) && self.same(post),
            None => match step(self.frames(), self.depth_limit(), token) {
                Ok(frames) => r is Ok && post.frames() == frames && post.latched() is None,
                Err(violation) => {
                    &&& r matches Err(error)
                    &&& error.reports(violation)
                    &&& post.latched() == Some(error)
                    &&& post.frames() == self.frames()
                },
            },
        }
    }

    /// `post` and `r` are what observing the end of the input in `self` gives.
    pub open spec fn observes_eof(self, post: Self, r: Result<(), E>) -> bool {
        &&& post.depth_limit() == self.depth_limit()
        &&& post.frames() == self.frames()
        &&& match self.latched() {
            Some(error) => r == Err::<(), E>(error) && post.latched() == self.latched(),
            None => if self.frames().len() == 0 {
                r is Ok && post.latched() is None
            } else {
                &&& r matches Err(error)
                &&& error.reports(StructureErrorView::UnexpectedEof)
                &&& post.latched() == Some(error)
            },
        }
    }

    /// `post` and `r` are what latching `result` in `self` gives.
    pub open spec fn latches<T>(self, result: Result<T, E>, post: Self, r: Result<T, E>) -> bool {
        &&& post.depth_limit() == self.depth_limit()
        &&& post.frames() == self.frames()
        &&& match self.latched() {
            Some(error) => r == Err::<T, E>(error) && post.latched() == self.latched(),
            None => r == result && post.latched() == match result {
                Ok(_) => None,
                Err(error) => Some(error),
            },
        }
    }

    /// A tracker with nothing open, nothing latched and a depth bound of 2048.
    pub fn new() -> (r: Self)
        ensures
            r.frames() == Seq::<FrameView>::empty(),
            r.depth_limit() == 2048,
            r.latched() is None,
    {
        StateTracker { state: Vec::new(), max_depth: 2048, failed: None }
    }

    /// Sets the bound on the number of open levels.
    pub fn set_max_depth(&mut self, new_max_depth: usize)
        ensures
            final(self).depth_limit() == new_max_depth,
            final(self).frames() == old(self).frames(),
            final(self).latched() == old(self).latched(),
    {
        self.max_depth = new_max_depth
    }

    /// The number of levels that can still be opened.
    pub fn remaining_depth(&self) -> (r: usize)
        requires
            self.frames().len() <= self.depth_limit(),
        ensures
            r == self.depth_limit() - self.frames().len(),
    {
        self.max_depth - self.state.len()
    }

    /// The number of levels that are open.
    pub fn depth(&self) -> (r: usize)
        ensures
            r == self.frames().len(),
    {
        self.state.len()
    }

    /// Observe that an EOF was seen. This function is idempotent.
    pub fn observe_eof(&mut self) -> (r: Result<(), E>)
        ensures
            old(self).observes_eof(*final(self), r),
    {
        self.check_error()?;
        if self.state.len() == 0 {
            Ok(())
        } else {
            self.fail(StructureError::UnexpectedEof)
        }
    }

    /// Observe one token: accept it, or latch and return the violation.
    pub fn observe_token<'a>(&mut self, token: &Token<'a>) -> (r: Result<(), E>) where
        S: LabelFrom<'a>,

        ensures
            old(self).observes(token@, *final(self), r),
    {
        self.check_error()?;
        let len = self.state.len();
        let ghost before = self.state@;
        let verdict: Result<(), StructureError> = if len == 0 {
            match *token {
                Token::End => Err(StructureError::invalid_state("End not allowed at top level")),
                _ => Ok(()),
            }
        } else {
            match &self.state[len - 1] {
                Frame::InSeq => Ok(()),
                Frame::ExpectingKey(last_key) => match *token {
                    Token::End => Ok(()),
                    Token::String(key) => match last_key {
                        None => Ok(()),
                        Some(prev) => if bytes_lt(prev.bytes(), key) {
                            Ok(())
                        } else {
                            Err(StructureError::UnsortedKeys)
                        },
                    },
                    _ => Err(StructureError::invalid_state("Map keys must be strings")),
                },
                Frame::ExpectingValue(_) => match *token {
                    Token::End => Err(StructureError::invalid_state("Missing map value")),
                    _ => Ok(()),
                },
            }
        };
        let opens = match *token {
            Token::List => true,
            Token::Dict => true,
            _ => false,
        };
        let verdict = match verdict {
            Ok(()) => if opens && len >= self.max_depth {
                Err(StructureError::NestingTooDeep)
            } else {
                Ok(())
            },
            Err(error) => Err(error),
        };
        match verdict {
            Err(error) => self.fail(error),
            Ok(()) => {
                if len > 0 {
                    let top = self.state.pop().unwrap();
                    assert(self.state@ == before.drop_last());
                    assert(top == before.last());
                    match top {
                        Frame::InSeq => match *token {
                            Token::End => {},
                            _ => self.state.push(Frame::InSeq),
                        },
                        Frame::ExpectingKey(last_key) => match *token {
                            Token::String(key) => self.state.push(Frame::ExpectingValue(S::keep(key))),
                            _ => {},
                        },
                        Frame::ExpectingValue(key) => self.state.push(Frame::ExpectingKey(Some(key))),
                    }
                }
                match *token {
                    Token::List => self.state.push(Frame::InSeq),
                    Token::Dict => self.state.push(Frame::ExpectingKey(None)),
                    _ => {},
                }
                proof {
                    let model = |f: Frame<S>| f.model();
                    let ghost frames = before.map_values(model);
                    if len > 0 {
                        assert(frames.drop_last() =~= before.drop_last().map_values(model));
                        assert(frames.last() == before.last().model());
                    }
                    assert(self.state@.map_values(model) =~= step(
                        frames,
                        self.max_depth as nat,
                        token@,
                    )->Ok_0);
                }
                Ok(())
            },
        }
    }

    /// Latches the error of `result`, if it is one and none is latched yet;
    /// returns the latched error, or `result` where there is none.
    pub fn latch_err<T>(&mut self, result: Result<T, E>) -> (r: Result<T, E>)
        ensures
            old(self).latches(result, *final(self), r),
    {
        match &self.failed {
            Some(error) => return Err(error.copy()),
            None => {},
        }
        match &result {
            Err(error) => {
                self.failed = Some(error.copy());
            },
            Ok(_) => {},
        }
        result
    }

    /// The latched error, if there is one.
    pub fn check_error(&self) -> (r: Result<(), E>)
        ensures
            r == match self.latched() {
                Some(error) => Err::<(), E>(error),
                None => Ok(()),
            },
    {
        match &self.failed {
            Some(error) => Err(error.copy()),
            None => Ok(()),
        }
    }

    fn fail(&mut self, violation: StructureError) -> (r: Result<(), E>)
        requires
            old(self).failed is None,
        ensures
            r matches Err(error) && error.reports(violation@) && final(self).failed
                == Some(error),
            final(self).state == old(self).state,
            final(self).max_depth == old(self).max_depth,
    {
        let error = E::raise(violation);
        self.failed = Some(error.copy());
        Err(error)
    }
}

} // verus!
