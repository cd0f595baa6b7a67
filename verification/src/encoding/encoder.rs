use vstd::prelude::*;
use vstd::std_specs::iter::IteratorSpec;
use vstd::string::StringSliceAdditionalSpecFns;
use vstd::utf8::encode_utf8;

use crate::encoding::error::Error;
use crate::encoding::printable_integer::PrintableInteger;
use crate::encoding::to_bencode::ToBencode;
use crate::round_trip::{
    accepted, emission_keeps_sound, integer_keeps_sound, new_encoder_is_sound, readable,
    settling_keeps_sound, sound, sound_output_is_accepted,
};
use crate::state_tracker::{
    step, FrameView, Latch, StateTracker, StructureError, StructureErrorView, Token, TokenView,
};
use crate::text::{bytes_lt, decimal_bytes, decimal_int_bytes, lex_lt, push_decimal_bytes};

verus! {

/// The bytes that a token is written as.
pub open spec fn token_bytes(token: TokenView) -> Seq<u8> {
    match token {
        TokenView::List => seq![108u8],
        TokenView::Dict => seq![100u8],
        TokenView::End => seq![101u8],
        TokenView::String(content) => decimal_bytes(content.len()) + seq![58u8] + content,
        TokenView::Num(text) => seq![105u8] + encode_utf8(text) + seq![101u8],
    }
}

/// The bytes that the integer `number` is written as.
pub open spec fn integer_bytes(number: int) -> Seq<u8> {
    seq![105u8] + decimal_int_bytes(number) + seq![101u8]
}

/// The text that `String::from_utf8_lossy` makes of `bytes`.
pub uninterp spec fn lossy_text(bytes: Seq<u8>) -> Seq<char>;

/// The text of `bytes` as `String::from_utf8_lossy` gives it: what is not
/// UTF-8 in the bytes is replaced. Nothing of the text is proved here: it
/// is only given its name.
#[verifier::external_body]
fn utf8_lossy(bytes: &[u8]) -> (r: String)
    ensures
        r@ == lossy_text(bytes@),
{
    String::from_utf8_lossy(bytes).into_owned()
}

/// What comes of a run of tokens: the levels that are open after those that
/// the grammar accepted, the bytes that they are written as, and the
/// violation of the first that it refused.
pub struct Passage {
    pub frames: Seq<FrameView>,
    pub bytes: Seq<u8>,
    pub violation: Option<StructureErrorView>,
}

/// What comes of `tokens`, one after the other, where `frames` are open:
/// the tokens are written until the grammar refuses one.
pub open spec fn passage(frames: Seq<FrameView>, max_depth: nat, tokens: Seq<TokenView>) -> Passage
    decreases tokens.len(),
{
    if tokens.len() == 0 {
        Passage { frames, bytes: Seq::empty(), violation: None }
    } else {
        match step(frames, max_depth, tokens[0]) {
            Ok(next) => {
                let rest = passage(next, max_depth, tokens.drop_first());
                Passage {
                    frames: rest.frames,
                    bytes: token_bytes(tokens[0]) + rest.bytes,
                    violation: rest.violation,
                }
            },
            Err(violation) => Passage { frames, bytes: Seq::empty(), violation: Some(violation) },
        }
    }
}

/// The passage of two runs of tokens, one after the other: that of the
/// first, and from where it ends that of the second, unless the first was
/// refused.
pub proof fn passage_of_both(
    frames: Seq<FrameView>,
    max_depth: nat,
    a: Seq<TokenView>,
    b: Seq<TokenView>,
)
    ensures
        passage(frames, max_depth, a + b) == ({
            let first = passage(frames, max_depth, a);
            if first.violation is Some {
                first
            } else {
                let second = passage(first.frames, max_depth, b);
                Passage {
                    frames: second.frames,
                    bytes: first.bytes + second.bytes,
                    violation: second.violation,
                }
            }
        }),
    decreases a.len(),
{
    if a.len() == 0 {
        assert(a + b =~= b);
        assert(Seq::<u8>::empty() + passage(frames, max_depth, b).bytes =~= passage(
            frames,
            max_depth,
            b,
        ).bytes);
    } else {
        assert((a + b)[0] == a[0]);
        assert((a + b).drop_first() =~= a.drop_first() + b);
        match step(frames, max_depth, a[0]) {
            Ok(next) => {
                passage_of_both(next, max_depth, a.drop_first(), b);
                let rest = passage(next, max_depth, a.drop_first());
                if rest.violation is None {
                    let second = passage(rest.frames, max_depth, b);
                    assert(token_bytes(a[0]) + (rest.bytes + second.bytes) =~= (token_bytes(a[0])
                        + rest.bytes) + second.bytes);
                }
            },
            Err(_) => {},
        }
    }
}

/// The passage of one token.
pub proof fn passage_of_one(frames: Seq<FrameView>, max_depth: nat, token: TokenView)
    ensures
        passage(frames, max_depth, seq![token]) == match step(frames, max_depth, token) {
            Ok(next) => Passage { frames: next, bytes: token_bytes(token), violation: None },
            Err(violation) => Passage { frames, bytes: Seq::empty(), violation: Some(violation) },
        },
{
    let tokens = seq![token];
    assert(tokens.drop_first() =~= Seq::<TokenView>::empty());
    assert(tokens[0] == token);
    match step(frames, max_depth, token) {
        Ok(next) => {
            assert(passage(next, max_depth, tokens.drop_first()) == Passage {
                frames: next,
                bytes: Seq::empty(),
                violation: None,
            });
            assert(token_bytes(token) + Seq::<u8>::empty() =~= token_bytes(token));
        },
        Err(_) => {},
    }
}

/// Emitting one run of tokens and then another is emitting both: where the
/// first run fails, nothing of the second is emitted.
pub proof fn emits_both(
    before: Encoder,
    a: Seq<TokenView>,
    between: Encoder,
    first: Result<(), Error>,
    b: Seq<TokenView>,
    after: Encoder,
    r: Result<(), Error>,
)
    requires
        before.emits_all(a, between, first),
    ensures
        first is Err ==> before.emits_all(a + b, between, first),
        first is Ok && between.emits_all(b, after, r) ==> before.emits_all(a + b, after, r),
{
    passage_of_both(before.frames(), before.depth_limit(), a, b);
    if first is Ok && between.emits_all(b, after, r) {
        let x = passage(before.frames(), before.depth_limit(), a);
        let y = passage(between.frames(), between.depth_limit(), b);
        assert(before.written() + (x.bytes + y.bytes) =~= (before.written() + x.bytes) + y.bytes);
    }
}

/// Emitting one token is emitting the run of that token.
pub proof fn emits_one(before: Encoder, token: TokenView, after: Encoder, r: Result<(), Error>)
    requires
        before.emits(token, after, r),
    ensures
        before.emits_all(seq![token], after, r),
{
    passage_of_one(before.frames(), before.depth_limit(), token);
    assert(before.written() + Seq::<u8>::empty() =~= before.written());
}

/// The keys of the pairs.
pub open spec fn pair_keys<V>(pairs: Seq<(&[u8], &V)>) -> Seq<Seq<u8>> {
    pairs.map_values(|pair: (&[u8], &V)| pair.0@)
}

/// Items that are encoded one after the other from `pre` to `post`:
/// `states` are the encoders before, between and after them, `handed` the
/// encoders of a single item that they were told to encode themselves to,
/// `told` what they returned and `outcomes` what that was settled as. All
/// but the last succeeded; `r` is the error of the last, or success where
/// all `count` were encoded and none failed.
pub open spec fn in_turn(
    pre: Encoder,
    states: Seq<Encoder>,
    handed: Seq<SingleItemEncoder>,
    told: Seq<Result<(), Error>>,
    outcomes: Seq<Result<(), Error>>,
    count: nat,
    post: Encoder,
    r: Result<(), Error>,
) -> bool {
    &&& states.len() == outcomes.len() + 1
    &&& handed.len() == outcomes.len()
    &&& told.len() == outcomes.len()
    &&& outcomes.len() <= count
    &&& states[0] == pre
    &&& states.last() == post
    &&& forall|i: int|
        0 <= i < outcomes.len() ==> (#[trigger] handed[i]).encoder() == states[i]
            && !handed[i].value_written()
    &&& forall|i: int| 0 <= i < outcomes.len() - 1 ==> (#[trigger] outcomes[i]) is Ok
    &&& if outcomes.len() > 0 && outcomes.last() is Err {
        r == outcomes.last()
    } else {
        outcomes.len() == count && r is Ok
    }
}

/// Pairs that are written one after the other from `pre` to `post`: of
/// each first its key, then its value. `states` are the encoders before,
/// between and after the pairs, `named` what the emission of each key
/// returned and `keyed` the encoder after it. Where the key was emitted,
/// `handed` is the encoder of a single item that the value was told to
/// encode itself to, `told` what it returned and `outcomes` what that was
/// settled as; where it was not, the pair ends with the error of the key.
/// All pairs but the last succeeded; `r` is the error of the last, or
/// success where all `keys` were written and none failed.
pub open spec fn pairs_in_turn(
    pre: Encoder,
    keys: Seq<Seq<u8>>,
    states: Seq<Encoder>,
    named: Seq<Result<(), Error>>,
    keyed: Seq<Encoder>,
    handed: Seq<SingleItemEncoder>,
    told: Seq<Result<(), Error>>,
    outcomes: Seq<Result<(), Error>>,
    post: Encoder,
    r: Result<(), Error>,
) -> bool {
    &&& states.len() == outcomes.len() + 1
    &&& named.len() == outcomes.len()
    &&& keyed.len() == outcomes.len()
    &&& handed.len() == outcomes.len()
    &&& told.len() == outcomes.len()
    &&& outcomes.len() <= keys.len()
    &&& states[0] == pre
    &&& states.last() == post
    &&& forall|i: int|
        0 <= i < outcomes.len() ==> {
            &&& states[i].emits(TokenView::String(keys[i]), #[trigger] keyed[i], named[i])
            &&& match named[i] {
                Ok(_) => handed[i].encoder() == keyed[i] && !handed[i].value_written(),
                Err(_) => states[i + 1] == keyed[i] && outcomes[i] == named[i],
            }
        }
    &&& forall|i: int| 0 <= i < outcomes.len() - 1 ==> (#[trigger] outcomes[i]) is Ok
    &&& if outcomes.len() > 0 && outcomes.last() is Err {
        r == outcomes.last()
    } else {
        outcomes.len() == keys.len() && r is Ok
    }
}

/// The actual encoder. Unlike the decoder, this is not zero-copy, as that would
/// result in a horrible interface
pub struct Encoder {
    state: StateTracker<Vec<u8>, Error>,
    output: Vec<u8>,
}

impl Default for Encoder {
    /// A new encoder.
    fn default() -> (r: Self)
        ensures
            r.written() == Seq::<u8>::empty(),
            r.frames() == Seq::<FrameView>::empty(),
            r.depth_limit() == 2048,
            r.latched() is None,
            sound(r),
    {
        Encoder::new()
    }
}

impl Encoder {
    /// The bytes written so far.
    pub closed spec fn written(&self) -> Seq<u8> {
        self.output@
    }

    /// The levels that are open, outermost first.
    pub closed spec fn frames(&self) -> Seq<FrameView> {
        self.state.frames()
    }

    /// The bound on the nesting depth.
    pub closed spec fn depth_limit(&self) -> nat {
        self.state.depth_limit()
    }

    /// The error that was latched, if any.
    pub closed spec fn latched(&self) -> Option<Error> {
        self.state.latched()
    }

    /// `post` is this encoder, unchanged.
    pub open spec fn same(self, post: Self) -> bool {
        &&& post.written() == self.written()
        &&& post.frames() == self.frames()
        &&& post.depth_limit() == self.depth_limit()
        &&& post.latched() == self.latched()
    }

    /// `post` and `r` are what the grammar makes of `token` in `self`, where
    /// an accepted token is written as `bytes`. A latched error is returned
    /// again; a token that the grammar refuses is not written, and its
    /// violation is latched.
    pub open spec fn writes(
        self,
        token: TokenView,
        bytes: Seq<u8>,
        post: Self,
        r: Result<(), Error>,
    ) -> bool {
        &&& post.depth_limit() == self.depth_limit()
        &&& match self.latched() {
            Some(error) => r == Err::<(), Error>(error) && self.same(post),
            None => match step(self.frames(), self.depth_limit(), token) {
                Ok(frames) => {
                    &&& r is Ok
                    &&& post.frames() == frames
                    &&& post.latched() is None
                    &&& post.written() == self.written() + bytes
                },
                Err(violation) => {
                    &&& r matches Err(error)
                    &&& error.reports(violation)
                    &&& post.latched() == Some(error)
                    &&& post.frames() == self.frames()
                    &&& post.written() == self.written()
                },
            },
        }
    }

    /// `post` and `r` are what emitting `token` in `self` gives.
    pub open spec fn emits(self, token: TokenView, post: Self, r: Result<(), Error>) -> bool {
        self.writes(token, token_bytes(token), post, r)
    }

    /// `post` and `r` are what emitting `tokens` one after the other gives,
    /// up to the first of them that fails.
    pub open spec fn emits_all(
        self,
        tokens: Seq<TokenView>,
        post: Self,
        r: Result<(), Error>,
    ) -> bool {
        &&& post.depth_limit() == self.depth_limit()
        &&& match self.latched() {
            Some(error) => r == Err::<(), Error>(error) && self.same(post),
            None => {
                let made = passage(self.frames(), self.depth_limit(), tokens);
                &&& post.frames() == made.frames
                &&& post.written() == self.written() + made.bytes
                &&& match made.violation {
                    None => r is Ok && post.latched() is None,
                    Some(violation) => {
                        &&& r matches Err(error)
                        &&& error.reports(violation)
                        &&& post.latched() == Some(error)
                    },
                }
            },
        }
    }

    /// `post` and `r` are what latching `error` in `self` gives.
    pub open spec fn fails(self, error: Error, post: Self, r: Result<(), Error>) -> bool {
        &&& post.depth_limit() == self.depth_limit()
        &&& post.frames() == self.frames()
        &&& post.written() == self.written()
        &&& match self.latched() {
            Some(latched) => r == Err::<(), Error>(latched) && post.latched() == self.latched(),
            None => r == Err::<(), Error>(error) && post.latched() == Some(error),
        }
    }

    /// What an operation that returns `r` leaves latched in `self`: the
    /// error that it returns, or nothing where it succeeds.
    pub open spec fn settled(self, r: Result<(), Error>) -> bool {
        match r {
            Ok(_) => self.latched() is None,
            Err(error) => self.latched() == Some(error),
        }
    }

    /// `self` is a new encoder with the depth `max_depth`: nothing is
    /// written, nothing is open and nothing is latched.
    pub open spec fn is_new(self, max_depth: nat) -> bool {
        &&& self.written().len() == 0
        &&& self.frames().len() == 0
        &&& self.latched() is None
        &&& self.depth_limit() == max_depth
    }

    /// `r` is what comes of `self` after an item was encoded to it, with
    /// the outcome `outcome`: the bytes that were written, where the outcome
    /// is settled with success and nothing is left open.
    pub open spec fn yields(
        self,
        outcome: Result<(), Error>,
        value_written: bool,
        r: Result<Vec<u8>, Error>,
    ) -> bool {
        match self.latched() {
            Some(latched) => r == Err::<Vec<u8>, Error>(latched),
            None => match outcome {
                Err(error) => r == Err::<Vec<u8>, Error>(error),
                Ok(_) => if !value_written {
                    r matches Err(error) && error.reports(
                        StructureErrorView::InvalidState("No value was emitted"@),
                    )
                } else if self.frames().len() > 0 {
                    r matches Err(error) && error.reports(StructureErrorView::UnexpectedEof)
                } else {
                    r matches Ok(bytes) && bytes@ == self.written()
                },
            },
        }
    }

    /// Create a new encoder
    pub fn new() -> (r: Self)
        ensures
            r.written() == Seq::<u8>::empty(),
            r.frames() == Seq::<FrameView>::empty(),
            r.depth_limit() == 2048,
            r.latched() is None,
            sound(r),
    {
        let r = Encoder { state: StateTracker::new(), output: Vec::new() };
        proof {
            new_encoder_is_sound(r);
        }
        r
    }

    /// Set the max depth of the encoded object
    #[must_use]
    pub fn with_max_depth(self, max_depth: usize) -> (r: Self)
        ensures
            r.written() == self.written(),
            r.frames() == self.frames(),
            r.latched() == self.latched(),
            r.depth_limit() == max_depth,
    {
        let mut encoder = self;
        encoder.state.set_max_depth(max_depth);
        encoder
    }

    /// Emit a single token to the encoder
    pub fn emit_token(&mut self, token: Token) -> (r: Result<(), Error>)
        ensures
            old(self).emits(token@, *final(self), r),
            sound(*old(self)) && readable(token@) ==> sound(*final(self)),
    {
        match self.state.check_error() {
            Err(error) => {
                proof {
                    if sound(*old(self)) && readable(token@) {
                        emission_keeps_sound(*old(self), token@, *self, Err(error));
                    }
                }
                return Err(error);
            },
            Ok(()) => {},
        }
        match self.state.observe_token(&token) {
            Err(error) => {
                proof {
                    if sound(*old(self)) && readable(token@) {
                        emission_keeps_sound(*old(self), token@, *self, Err(error));
                    }
                }
                return Err(error);
            },
            Ok(()) => {},
        }
        match token {
            Token::List => self.output.push(108),
            Token::Dict => self.output.push(100),
            Token::String(s) => {
                // Writing to a vec can't fail
                push_decimal_bytes(&mut self.output, s.len() as u128);
                self.output.push(58);
                self.output.extend_from_slice(s);
            },
            Token::Num(num) => {
                // Alas, this doesn't verify that the given number is valid
                self.output.push(105);
                self.output.extend_from_slice(num.as_bytes());
                self.output.push(101);
            },
            Token::End => self.output.push(101),
        }
        proof {
            assert(self.output@ =~= old(self).output@ + token_bytes(token@));
            if sound(*old(self)) && readable(token@) {
                emission_keeps_sound(*old(self), token@, *self, Ok(()));
            }
        }
        Ok(())
    }

    /// Emit an arbitrary encodable object
    ///
    /// The object is told to encode itself to this encoder; then the outcome
    /// is settled as [`Encoder::finish_item`] says.
    pub fn emit<E: ToBencode>(&mut self, value: E) -> (r: Result<(), Error>)
        ensures
            final(self).settled(r),
            exists|item: SingleItemEncoder, outcome: Result<(), Error>|
                {
                    &&& item.encoder() == *old(self)
                    &&& !item.value_written()
                    &&& #[trigger] call_ensures(E::encode, (&value, item), outcome)
                    &&& final(item.target()).finishes(outcome, *final(item.mark()), *final(self), r)
                },
    {
        let mut value_written = false;
        let item = SingleItemEncoder { encoder: self, value_written: &mut value_written };
        let ghost handed = item;
        let ret = value.encode(item);
        let r = self.finish_item(ret, value_written);
        proof {
            assert(call_ensures(E::encode, (&value, handed), ret));
            assert(final(handed.target()).finishes(ret, *final(handed.mark()), *self, r));
        }
        r
    }

    /// Emits the items one after the other, up to the first that fails:
    /// each is told to encode itself to the encoder that the one before it
    /// left, and its outcome is settled as [`Encoder::finish_item`] says.
    pub fn emit_each<T: ToBencode>(&mut self, items: &[T]) -> (r: Result<(), Error>)
        ensures
            exists|
                states: Seq<Encoder>,
                handed: Seq<SingleItemEncoder>,
                told: Seq<Result<(), Error>>,
                outcomes: Seq<Result<(), Error>>,
            |
                {
                    &&& #[trigger] in_turn(
                        *old(self),
                        states,
                        handed,
                        told,
                        outcomes,
                        items@.len(),
                        *final(self),
                        r,
                    )
                    &&& forall|i: int|
                        0 <= i < outcomes.len() ==> {
                            &&& call_ensures(T::encode, (&items@[i], #[trigger] handed[i]), told[i])
                            &&& final(handed[i].target()).finishes(
                                told[i],
                                *final(handed[i].mark()),
                                states[i + 1],
                                outcomes[i],
                            )
                        }
                },
    {
        let ghost mut states: Seq<Encoder> = seq![*self];
        let ghost mut outcomes: Seq<Result<(), Error>> = Seq::empty();
        let ghost mut handed: Seq<SingleItemEncoder> = Seq::empty();
        let ghost mut told: Seq<Result<(), Error>> = Seq::empty();
        let mut n: usize = 0;
        while n < items.len()
            invariant
                n <= items.len(),
                outcomes.len() == n,
                in_turn(*old(self), states, handed, told, outcomes, n as nat, *self, Ok(())),
                forall|i: int|
                    0 <= i < outcomes.len() ==> {
                        &&& call_ensures(T::encode, (&items@[i], #[trigger] handed[i]), told[i])
                        &&& final(handed[i].target()).finishes(
                            told[i],
                            *final(handed[i].mark()),
                            states[i + 1],
                            outcomes[i],
                        )
                    },
            decreases items.len() - n,
        {
            let mut value_written = false;
            let item = SingleItemEncoder { encoder: self, value_written: &mut value_written };
            let ghost given = item;
            let ghost known = handed;
            let outcome = items[n].encode(item);
            let settled = self.finish_item(outcome, value_written);
            proof {
                assert(call_ensures(T::encode, (&items@[n as int], given), outcome));
                assert(final(given.target()).finishes(
                    outcome,
                    *final(given.mark()),
                    *self,
                    settled,
                ));
                states = states.push(*self);
                outcomes = outcomes.push(settled);
                handed = handed.push(given);
                told = told.push(outcome);
                assert(handed[n as int] == given);
                assert(forall|i: int| 0 <= i < n ==> handed[i] == known[i]);
            }
            if settled.is_err() {
                proof {
                    assert(in_turn(
                        *old(self),
                        states,
                        handed,
                        told,
                        outcomes,
                        items@.len(),
                        *self,
                        settled,
                    ));
                }
                return settled;
            }
            n = n + 1;
        }
        Ok(())
    }

    /// Emits the pairs one after the other, up to the first that fails: of
    /// each first its key, as a byte string, and then its value, which is
    /// told to encode itself to the encoder that the key left; its outcome
    /// is settled as [`Encoder::finish_item`] says. Where the key is
    /// refused, the value is not encoded.
    pub fn emit_pairs<V: ToBencode>(&mut self, pairs: &[(&[u8], &V)]) -> (r: Result<(), Error>)
        ensures
            exists|
                states: Seq<Encoder>,
                named: Seq<Result<(), Error>>,
                keyed: Seq<Encoder>,
                handed: Seq<SingleItemEncoder>,
                told: Seq<Result<(), Error>>,
                outcomes: Seq<Result<(), Error>>,
            |
                {
                    &&& #[trigger] pairs_in_turn(
                        *old(self),
                        pair_keys(pairs@),
                        states,
                        named,
                        keyed,
                        handed,
                        told,
                        outcomes,
                        *final(self),
                        r,
                    )
                    &&& forall|i: int|
                        0 <= i < outcomes.len() && named[i] is Ok ==> {
                            &&& call_ensures(V::encode, (pairs@[i].1, #[trigger] handed[i]), told[i])
                            &&& final(handed[i].target()).finishes(
                                told[i],
                                *final(handed[i].mark()),
                                states[i + 1],
                                outcomes[i],
                            )
                        }
                },
    {
        let ghost keys = pair_keys(pairs@);
        let ghost mut states: Seq<Encoder> = seq![*self];
        let ghost mut named: Seq<Result<(), Error>> = Seq::empty();
        let ghost mut keyed: Seq<Encoder> = Seq::empty();
        let ghost mut handed: Seq<SingleItemEncoder> = Seq::empty();
        let ghost mut told: Seq<Result<(), Error>> = Seq::empty();
        let ghost mut outcomes: Seq<Result<(), Error>> = Seq::empty();
        let mut n: usize = 0;
        while n < pairs.len()
            invariant
                n <= pairs.len(),
                outcomes.len() == n,
                keys == pair_keys(pairs@),
                keys.len() == pairs@.len(),
                pairs_in_turn(
                    *old(self),
                    keys.take(n as int),
                    states,
                    named,
                    keyed,
                    handed,
                    told,
                    outcomes,
                    *self,
                    Ok(()),
                ),
                forall|i: int|
                    0 <= i < outcomes.len() && named[i] is Ok ==> {
                        &&& call_ensures(V::encode, (pairs@[i].1, #[trigger] handed[i]), told[i])
                        &&& final(handed[i].target()).finishes(
                            told[i],
                            *final(handed[i].mark()),
                            states[i + 1],
                            outcomes[i],
                        )
                    },
            decreases pairs.len() - n,
        {
            let ghost before = *self;
            let ghost known = handed;
            let ghost known_keyed = keyed;
            let key_outcome = self.emit_token(Token::String(pairs[n].0));
            let ghost after_key = *self;
            assert(keys[n as int] == pairs@[n as int].0@);
            if key_outcome.is_err() {
                proof {
                    states = states.push(*self);
                    named = named.push(key_outcome);
                    keyed = keyed.push(after_key);
                    handed = handed.push(arbitrary());
                    told = told.push(key_outcome);
                    outcomes = outcomes.push(key_outcome);
                    assert(forall|i: int| 0 <= i < n ==> handed[i] == known[i]);
                    assert(forall|i: int| 0 <= i < n ==> keyed[i] == known_keyed[i]);
                    assert(keyed[n as int] == after_key);
                    assert(forall|i: int| 0 <= i < n ==> keys.take(n as int)[i] == keys[i]);
                    assert(pairs_in_turn(
                        *old(self),
                        keys,
                        states,
                        named,
                        keyed,
                        handed,
                        told,
                        outcomes,
                        *self,
                        key_outcome,
                    ));
                }
                return key_outcome;
            }
            let mut value_written = false;
            let item = SingleItemEncoder { encoder: self, value_written: &mut value_written };
            let ghost given = item;
            let outcome = pairs[n].1.encode(item);
            let settled = self.finish_item(outcome, value_written);
            proof {
                assert(call_ensures(V::encode, (pairs@[n as int].1, given), outcome));
                assert(final(given.target()).finishes(
                    outcome,
                    *final(given.mark()),
                    *self,
                    settled,
                ));
                states = states.push(*self);
                named = named.push(key_outcome);
                keyed = keyed.push(after_key);
                handed = handed.push(given);
                told = told.push(outcome);
                outcomes = outcomes.push(settled);
                assert(handed[n as int] == given);
                assert(keyed[n as int] == after_key);
                assert(forall|i: int| 0 <= i < n ==> handed[i] == known[i]);
                assert(forall|i: int| 0 <= i < n ==> keyed[i] == known_keyed[i]);
                assert(forall|i: int| 0 <= i < n ==> keys.take(n as int)[i] == keys[i]);
                assert(forall|i: int| 0 <= i <= n ==> keys.take(n + 1)[i] == keys[i]);
            }
            if settled.is_err() {
                proof {
                    assert(pairs_in_turn(
                        *old(self),
                        keys,
                        states,
                        named,
                        keyed,
                        handed,
                        told,
                        outcomes,
                        *self,
                        settled,
                    ));
                }
                return settled;
            }
            n = n + 1;
        }
        proof {
            assert(keys.take(n as int) =~= keys);
        }
        Ok(())
    }

    /// Emit a single object using an encoder
    ///
    /// The callback is handed this encoder as it stands; then its outcome
    /// is settled as [`Encoder::finish_item`] says.
    pub fn emit_with<F>(&mut self, value_cb: F) -> (r: Result<(), Error>) where
        F: FnOnce(SingleItemEncoder) -> Result<(), Error>,

        requires
            forall|item: SingleItemEncoder|
                item.encoder() == *old(self) && !item.value_written() ==> #[trigger] value_cb.requires(
                    (item,),
                ),
        ensures
            final(self).settled(r),
            exists|item: SingleItemEncoder, outcome: Result<(), Error>|
                {
                    &&& item.encoder() == *old(self)
                    &&& !item.value_written()
                    &&& #[trigger] value_cb.ensures((item,), outcome)
                    &&& final(item.target()).finishes(outcome, *final(item.mark()), *final(self), r)
                },
    {
        let mut value_written = false;
        let item = SingleItemEncoder { encoder: self, value_written: &mut value_written };
        let ghost handed = item;
        let ret = value_cb(item);
        let r = self.finish_item(ret, value_written);
        proof {
            assert(value_cb.ensures((handed,), ret));
            assert(final(handed.target()).finishes(ret, *final(handed.mark()), *self, r));
        }
        r
    }

    /// `post` and `r` are what settling the outcome of an item's encoding
    /// in `self` gives.
    pub open spec fn finishes(
        self,
        outcome: Result<(), Error>,
        value_written: bool,
        post: Self,
        r: Result<(), Error>,
    ) -> bool {
        &&& post.depth_limit() == self.depth_limit()
        &&& post.frames() == self.frames()
        &&& post.written() == self.written()
        &&& match self.latched() {
            Some(latched) => r == Err::<(), Error>(latched) && post.latched() == self.latched(),
            None => match outcome {
                Err(error) => r == Err::<(), Error>(error) && post.latched() == Some(error),
                Ok(_) => if value_written {
                    r is Ok && post.latched() is None
                } else {
                    &&& r matches Err(error)
                    &&& error.reports(StructureErrorView::InvalidState("No value was emitted"@))
                    &&& post.latched() == Some(error)
                },
            },
        }
    }

    /// Settles what an item's encoding came to. The error of `outcome` is
    /// latched and returned; an item that was not written is an error as
    /// well; and where an error is latched already, it is that one that is
    /// returned.
    pub fn finish_item(&mut self, outcome: Result<(), Error>, value_written: bool) -> (r: Result<
        (),
        Error,
    >)
        ensures
            old(self).finishes(outcome, value_written, *final(self), r),
            sound(*old(self)) ==> sound(*final(self)),
    {
        let r = match self.state.latch_err(outcome) {
            Err(error) => Err(error),
            Ok(()) => if !value_written {
                self.state.latch_err(
                    Err(Error::raise(StructureError::invalid_state("No value was emitted"))),
                )
            } else {
                Ok(())
            },
        };
        proof {
            if sound(*old(self)) {
                settling_keeps_sound(*old(self), outcome, value_written, *self, r);
            }
        }
        r
    }

    /// Emit an integer
    pub fn emit_int<T: PrintableInteger>(&mut self, value: T) -> (r: Result<(), Error>)
        ensures
            old(self).writes(
                TokenView::Num(Seq::empty()),
                integer_bytes(value.number()),
                *final(self),
                r,
            ),
            sound(*old(self)) ==> sound(*final(self)),
    {
        // This doesn't use emit_token, as that would require that the integer is
        // written to a temporary buffer and then copied to the output
        match self.state.check_error() {
            Err(error) => {
                proof {
                    if sound(*old(self)) {
                        integer_keeps_sound(*old(self), value.number(), *self, Err(error));
                    }
                }
                return Err(error);
            },
            Ok(()) => {},
        }
        // An int is observed here: something that isn't a string (and therefore
        // possibly valid as a key), with as few state transitions as possible
        match self.state.observe_token(&Token::Num("")) {
            Err(error) => {
                proof {
                    if sound(*old(self)) {
                        integer_keeps_sound(*old(self), value.number(), *self, Err(error));
                    }
                }
                return Err(error);
            },
            Ok(()) => {},
        }
        self.output.push(105);
        value.write_to(&mut self.output);
        self.output.push(101);
        proof {
            reveal_strlit("");
            assert(""@ =~= Seq::<char>::empty());
            assert(self.output@ =~= old(self).output@ + integer_bytes(value.number()));
            if sound(*old(self)) {
                integer_keeps_sound(*old(self), value.number(), *self, Ok(()));
            }
        }
        Ok(())
    }

    /// Emit a string
    pub fn emit_str(&mut self, value: &str) -> (r: Result<(), Error>)
        ensures
            old(self).emits(TokenView::String(value.spec_bytes()), *final(self), r),
            sound(*old(self)) ==> sound(*final(self)),
    {
        let bytes = value.as_bytes();
        proof {
            assert(bytes@.len() == bytes.len());
        }
        self.emit_token(Token::String(bytes))
    }

    /// Emit a byte array
    pub fn emit_bytes(&mut self, value: &[u8]) -> (r: Result<(), Error>)
        ensures
            old(self).emits(TokenView::String(value@), *final(self), r),
            sound(*old(self)) ==> sound(*final(self)),
    {
        proof {
            assert(value@.len() == value.len());
        }
        self.emit_token(Token::String(value))
    }

    /// `opened` is this encoder after the opener `token` was emitted with
    /// success.
    pub open spec fn opens(self, token: TokenView, opened: Self) -> bool {
        self.emits(token, opened, Ok(()))
    }

    /// `token` cannot be emitted in `self`: an error is latched, or the
    /// grammar refuses the token.
    pub open spec fn refuses(self, token: TokenView) -> bool {
        self.latched() is Some || step(self.frames(), self.depth_limit(), token) is Err
    }

    /// Emit a dictionary where you know that the keys are already
    /// sorted.  The callback must emit key/value pairs to the given
    /// encoder in sorted order.  If the key/value pairs may not be
    /// sorted, [`emit_unsorted_dict`] should be used instead.
    ///
    /// [`emit_unsorted_dict`]: SingleItemEncoder::emit_unsorted_dict
    ///
    /// Where the dictionary cannot be opened, the callback is not called.
    /// Else it is handed the encoder with the dictionary open, and its
    /// outcome is settled as [`Encoder::close_container`] says.
    pub fn emit_dict<F>(&mut self, content_cb: F) -> (r: Result<(), Error>) where
        F: FnOnce(SortedDictEncoder) -> Result<(), Error>,

        requires
            forall|dict: SortedDictEncoder|
                old(self).opens(TokenView::Dict, dict.encoder()) ==> #[trigger] content_cb.requires(
                    (dict,),
                ),
        ensures
            old(self).refuses(TokenView::Dict) ==> old(self).emits(
                TokenView::Dict,
                *final(self),
                r,
            ),
            !old(self).refuses(TokenView::Dict) ==> exists|
                dict: SortedDictEncoder,
                outcome: Result<(), Error>,
            |
                {
                    &&& old(self).opens(TokenView::Dict, dict.encoder())
                    &&& #[trigger] content_cb.ensures((dict,), outcome)
                    &&& final(dict.target()).closes(outcome, *final(self), r)
                },
    {
        match self.emit_token(Token::Dict) {
            Err(error) => return Err(error),
            Ok(()) => {},
        }
        let dict = SortedDictEncoder { encoder: self };
        let ghost handed = dict;
        let outcome = content_cb(dict);
        let r = self.close_container(outcome);
        proof {
            assert(content_cb.ensures((handed,), outcome));
            assert(final(handed.target()).closes(outcome, *self, r));
        }
        r
    }

    /// Emit an arbitrary list. The callback should emit the contents
    /// of the list to the given encoder.
    ///
    /// Where the list cannot be opened, the callback is not called. Else it
    /// is handed the encoder with the list open, and its outcome is settled
    /// as [`Encoder::close_container`] says.
    pub fn emit_list<F>(&mut self, list_cb: F) -> (r: Result<(), Error>) where
        F: FnOnce(&mut Encoder) -> Result<(), Error>,

        requires
            forall|list: &mut Encoder|
                old(self).opens(TokenView::List, *list) ==> #[trigger] list_cb.requires((list,)),
        ensures
            old(self).refuses(TokenView::List) ==> old(self).emits(
                TokenView::List,
                *final(self),
                r,
            ),
            !old(self).refuses(TokenView::List) ==> exists|
                list: &mut Encoder,
                outcome: Result<(), Error>,
            |
                {
                    &&& old(self).opens(TokenView::List, *list)
                    &&& #[trigger] list_cb.ensures((list,), outcome)
                    &&& final(list).closes(outcome, *final(self), r)
                },
    {
        match self.emit_token(Token::List) {
            Err(error) => return Err(error),
            Ok(()) => {},
        }
        let ghost opened = *self;
        let outcome = list_cb(self);
        let ghost filled = *self;
        let r = self.close_container(outcome);
        proof {
            assert(exists|list: &mut Encoder|
                *list == opened && *final(list) == filled && #[trigger] list_cb.ensures(
                    (list,),
                    outcome,
                ));
            let list = choose|list: &mut Encoder|
                *list == opened && *final(list) == filled && #[trigger] list_cb.ensures(
                    (list,),
                    outcome,
                );
            assert(final(list).closes(outcome, *self, r));
        }
        r
    }

    /// `post` and `r` are what closing a list or a dictionary in `self`
    /// gives, whose contents came to `outcome`.
    pub open spec fn closes(self, outcome: Result<(), Error>, post: Self, r: Result<(), Error>) -> bool {
        match outcome {
            Err(error) => r == Err::<(), Error>(error) && self.same(post),
            Ok(_) => self.emits(TokenView::End, post, r),
        }
    }

    /// Closes the list or the dictionary whose contents came to `outcome`:
    /// an error of the contents is returned as it is, and nothing is
    /// written; else the `End` is emitted.
    pub fn close_container(&mut self, outcome: Result<(), Error>) -> (r: Result<(), Error>)
        ensures
            old(self).closes(outcome, *final(self), r),
            sound(*old(self)) ==> sound(*final(self)),
    {
        match outcome {
            Err(error) => Err(error),
            Ok(()) => self.emit_token(Token::End),
        }
    }

    /// Emit a dictionary that may have keys out of order. This will write the dict
    /// values to temporary memory, then sort them before adding them to the serialized
    /// stream
    ///
    /// Where the dictionary cannot be opened, the callback is not called.
    /// Else it is handed an empty collection of pairs with the depth that
    /// is left inside the dictionary. An error of the callback is returned
    /// as it is; else what was collected is written as
    /// [`Encoder::end_unsorted_dict`] says.
    pub fn emit_and_sort_dict<F>(&mut self, content_cb: F) -> (r: Result<(), Error>) where
        F: FnOnce(&mut UnsortedDictEncoder) -> Result<(), Error>,

        requires
            forall|dict: &mut UnsortedDictEncoder|
                dict.is_new() ==> #[trigger] content_cb.requires((dict,)),
            forall|dict: &mut UnsortedDictEncoder, outcome: Result<(), Error>|
                dict.is_new() && #[trigger] content_cb.ensures((dict,), outcome) ==> final(dict).wf(),
        ensures
            old(self).refuses(TokenView::Dict) ==> old(self).emits(
                TokenView::Dict,
                *final(self),
                r,
            ),
            !old(self).refuses(TokenView::Dict) ==> exists|
                opened: Encoder,
                dict: &mut UnsortedDictEncoder,
                outcome: Result<(), Error>,
            |
                #![trigger old(self).opens(TokenView::Dict, opened), content_cb.ensures((dict,), outcome)]
                {
                    &&& old(self).opens(TokenView::Dict, opened)
                    &&& dict.is_new()
                    &&& dict.depth_left() == opened.depth_limit() - opened.frames().len()
                    &&& content_cb.ensures((dict,), outcome)
                    &&& opened.sorts(outcome, *final(dict), *final(self), r)
                },
    {
        let mut encoder = match self.begin_unsorted_dict() {
            Err(error) => return Err(error),
            Ok(encoder) => encoder,
        };
        let ghost opened = *self;
        let ghost empty = encoder;
        let outcome = content_cb(&mut encoder);
        let ghost collected = encoder;
        proof {
            assert(exists|dict: &mut UnsortedDictEncoder|
                *dict == empty && *final(dict) == collected && #[trigger] content_cb.ensures(
                    (dict,),
                    outcome,
                ));
        }
        let r = match outcome {
            Err(error) => Err(error),
            Ok(()) => self.end_unsorted_dict(encoder),
        };
        proof {
            let dict = choose|dict: &mut UnsortedDictEncoder|
                *dict == empty && *final(dict) == collected && #[trigger] content_cb.ensures(
                    (dict,),
                    outcome,
                );
            assert(opened.sorts(outcome, *final(dict), *self, r));
            assert(old(self).opens(TokenView::Dict, opened));
        }
        r
    }

    /// `post` and `r` are what writing the pairs of `collected` to `self`
    /// gives, where the callback that collected them came to `outcome`.
    pub open spec fn sorts(
        self,
        outcome: Result<(), Error>,
        collected: UnsortedDictEncoder,
        post: Self,
        r: Result<(), Error>,
    ) -> bool {
        match outcome {
            Err(error) => r == Err::<(), Error>(error) && self.same(post),
            Ok(_) => self.writes_sorted(collected, post, r),
        }
    }

    /// `post` and `r` are what writing the pairs of `collected` to `self`
    /// and closing the dictionary gives: the error of the collection, or an
    /// error that is latched, and nothing is written; else what
    /// [`pairs_passage`] says. In a dictionary that was just opened all
    /// pairs are written, and the dictionary is closed.
    pub open spec fn writes_sorted(
        self,
        collected: UnsortedDictEncoder,
        post: Self,
        r: Result<(), Error>,
    ) -> bool {
        &&& post.depth_limit() == self.depth_limit()
        &&& match collected.failure() {
            Some(error) => r == Err::<(), Error>(error) && self.same(post),
            None => {
                &&& self.latched() matches Some(latched) ==> r == Err::<(), Error>(latched)
                    && self.same(post)
                &&& self.latched() is None ==> {
                    let made = pairs_passage(
                        self.frames(),
                        self.depth_limit(),
                        collected.pairs(),
                        0,
                        Seq::empty(),
                    );
                    &&& post.frames() == made.frames
                    &&& post.written() == self.written() + made.bytes
                    &&& match made.violation {
                        None => r is Ok && post.latched() is None,
                        Some(violation) => {
                            &&& r matches Err(error)
                            &&& error.reports(violation)
                            &&& post.latched() == Some(error)
                        },
                    }
                }
                &&& r is Ok ==> post.written() == self.written() + pairs_bytes(collected.pairs())
                    + seq![101u8]
                &&& self.in_new_dict() ==> r is Ok && post.frames() == self.frames().drop_last()
            },
        }
    }

    /// Return the encoded string, if all objects written are complete
    pub fn get_output(self) -> (r: Result<Vec<u8>, Error>)
        ensures
            match self.latched() {
                Some(error) => r == Err::<Vec<u8>, Error>(error),
                None => if self.frames().len() == 0 {
                    r matches Ok(bytes) && bytes@ == self.written()
                } else {
                    r matches Err(error) && error.reports(StructureErrorView::UnexpectedEof)
                },
            },
            sound(self) ==> (r matches Ok(bytes) ==> accepted(bytes@, self.depth_limit())),
    {
        proof {
            if sound(self) && self.latched() is None && self.frames().len() == 0 {
                sound_output_is_accepted(self);
            }
        }
        let mut encoder = self;
        match encoder.state.observe_eof() {
            Err(error) => return Err(error),
            Ok(()) => {},
        }
        Ok(encoder.output)
    }

    /// Opens a dictionary whose pairs are collected before they are
    /// written: the collection is empty, and the depth it has for its values
    /// is what is left inside the dictionary.
    pub fn begin_unsorted_dict(&mut self) -> (r: Result<UnsortedDictEncoder, Error>)
        ensures
            old(self).emits(
                TokenView::Dict,
                *final(self),
                match r {
                    Ok(_) => Ok(()),
                    Err(error) => Err(error),
                },
            ),
            r matches Ok(dict) ==> {
                &&& dict.is_new()
                &&& dict.depth_left() == final(self).depth_limit() - final(self).frames().len()
            },
    {
        // emit the dict token so that a pre-existing state error is reported early
        match self.emit_token(Token::Dict) {
            Err(error) => return Err(error),
            Ok(()) => {},
        }
        Ok(UnsortedDictEncoder::new(self.state.remaining_depth()))
    }

    /// `self` is an encoder in which a dictionary was opened, and nothing
    /// was emitted in it yet.
    pub open spec fn in_new_dict(self) -> bool {
        &&& self.latched() is None
        &&& self.frames().len() > 0
        &&& self.frames().last() == FrameView::ExpectingKey(None)
    }

    /// Writes the pairs that `encoder` collected, in the order of their
    /// keys, and closes the dictionary: each key is emitted as a byte
    /// string, and each value is written as the bytes it was encoded to.
    /// Where the collection failed, its error is returned and nothing is
    /// written. In a dictionary that was just opened the pairs are never
    /// refused: their keys ascend.
    pub fn end_unsorted_dict(&mut self, encoder: UnsortedDictEncoder) -> (r: Result<
        (),
        Error,
    >)
        requires
            encoder.wf(),
        ensures
            old(self).writes_sorted(encoder, *final(self), r),
    {
        let content = match encoder.done() {
            Err(error) => return Err(error),
            Ok(content) => content,
        };
        match self.state.check_error() {
            Err(error) => return Err(error),
            Ok(()) => {},
        }
        let ghost pairs = pairs_of(content@);
        let mut i: usize = 0;
        while i < content.len()
            invariant
                i <= content.len(),
                pairs == pairs_of(content@),
                keys_ascend(pairs),
                encoder.failure() is None,
                pairs == encoder.pairs(),
                self.latched() is None,
                old(self).latched() is None,
                self.depth_limit() == old(self).depth_limit(),
                self.written() == old(self).written() + pairs_bytes(pairs.take(i as int)),
                pairs_passage(
                    self.frames(),
                    self.depth_limit(),
                    pairs,
                    i as int,
                    pairs_bytes(pairs.take(i as int)),
                ) == pairs_passage(
                    old(self).frames(),
                    old(self).depth_limit(),
                    pairs,
                    0,
                    Seq::empty(),
                ),
                old(self).in_new_dict() ==> self.frames() == old(self).frames().drop_last().push(
                    FrameView::ExpectingKey(
                        if i == 0 {
                            None
                        } else {
                            Some(pairs[i - 1].0)
                        },
                    ),
                ),
            decreases content.len() - i,
        {
            proof {
                assert(pairs[i as int] == (content@[i as int].0@, content@[i as int].1@));
                assert(pairs.take(i + 1).drop_last() =~= pairs.take(i as int));
                assert(pairs.take(i + 1).last() == pairs[i as int]);
                if old(self).in_new_dict() {
                    assert(self.frames().drop_last() =~= old(self).frames().drop_last());
                    if i > 0 {
                        assert(lex_lt(pairs[i - 1].0, pairs[i as int].0));
                    }
                }
            }
            let ghost so_far = pairs_bytes(pairs.take(i as int));
            match self.emit_bytes(content[i].0.as_slice()) {
                Err(error) => {
                    proof {
                        assert(old(self).written() + so_far =~= self.written());
                    }
                    return Err(error);
                },
                Ok(()) => {},
            }
            proof {
                if old(self).in_new_dict() {
                    assert(self.frames().drop_last() =~= old(self).frames().drop_last());
                }
            }
            // The value is a single object by construction
            match self.observe_value(content[i].1.as_slice()) {
                Err(error) => {
                    proof {
                        assert(old(self).written() + (so_far + token_bytes(
                            TokenView::String(pairs[i as int].0),
                        )) =~= self.written());
                    }
                    return Err(error);
                },
                Ok(()) => {},
            }
            proof {
                assert(self.written() =~= old(self).written() + pairs_bytes(pairs.take(i + 1)));
                assert(so_far + token_bytes(TokenView::String(pairs[i as int].0))
                    + pairs[i as int].1 =~= pairs_bytes(pairs.take(i + 1)));
            }
            i = i + 1;
        }
        proof {
            assert(pairs.take(i as int) =~= pairs);
            if old(self).in_new_dict() {
                assert(self.frames().drop_last() =~= old(self).frames().drop_last());
            }
        }
        let ghost filled = *self;
        let r = self.emit_token(Token::End);
        proof {
            assert(old(self).written() + pairs_bytes(pairs) + seq![101u8] =~= (old(self).written()
                + pairs_bytes(pairs)) + token_bytes(TokenView::End));
            assert(old(self).written() + (pairs_bytes(pairs) + seq![101u8]) =~= (
            old(self).written() + pairs_bytes(pairs)) + token_bytes(TokenView::End));
            assert(old(self).written() + pairs_bytes(pairs) =~= filled.written());
        }
        r
    }

    /// Writes `encoded`, the bytes of one encoded object, where the grammar
    /// takes one item.
    fn observe_value(&mut self, encoded: &[u8]) -> (r: Result<(), Error>)
        ensures
            old(self).writes(TokenView::Num(Seq::empty()), encoded@, *final(self), r),
    {
        match self.state.check_error() {
            Err(error) => return Err(error),
            Ok(()) => {},
        }
        match self.state.observe_token(&Token::Num("")) {
            Err(error) => return Err(error),
            Ok(()) => {},
        }
        self.output.extend_from_slice(encoded);
        proof {
            reveal_strlit("");
            assert(""@ =~= Seq::<char>::empty());
            assert(self.output@ =~= old(self).output@ + encoded@);
        }
        Ok(())
    }
}

/// What comes of the pairs from the one at `from` on, and of the `End`
/// after them, where `frames` are open and `so_far` is written: each key
/// is passed to the grammar as a byte string and its value as one item,
/// and they are written as the bytes of the key and the bytes of the value,
/// until the grammar refuses one.
pub open spec fn pairs_passage(
    frames: Seq<FrameView>,
    max_depth: nat,
    pairs: Seq<(Seq<u8>, Seq<u8>)>,
    from: int,
    so_far: Seq<u8>,
) -> Passage
    decreases pairs.len() - from,
{
    if from < 0 || from >= pairs.len() {
        match step(frames, max_depth, TokenView::End) {
            Ok(closed) => Passage { frames: closed, bytes: so_far + seq![101u8], violation: None },
            Err(violation) => Passage { frames, bytes: so_far, violation: Some(violation) },
        }
    } else {
        match step(frames, max_depth, TokenView::String(pairs[from].0)) {
            Err(violation) => Passage { frames, bytes: so_far, violation: Some(violation) },
            Ok(keyed) => match step(keyed, max_depth, TokenView::Num(Seq::empty())) {
                Err(violation) => Passage {
                    frames: keyed,
                    bytes: so_far + token_bytes(TokenView::String(pairs[from].0)),
                    violation: Some(violation),
                },
                Ok(next) => pairs_passage(
                    next,
                    max_depth,
                    pairs,
                    from + 1,
                    so_far + token_bytes(TokenView::String(pairs[from].0)) + pairs[from].1,
                ),
            },
        }
    }
}

/// The bytes that the pairs are written as: each key as a byte string, and
/// after it the bytes of its value.
pub open spec fn pairs_bytes(pairs: Seq<(Seq<u8>, Seq<u8>)>) -> Seq<u8>
    decreases pairs.len(),
{
    if pairs.len() == 0 {
        Seq::empty()
    } else {
        pairs_bytes(pairs.drop_last()) + token_bytes(TokenView::String(pairs.last().0))
            + pairs.last().1
    }
}

/// An error that an encoder has latched is what every further emission
/// returns, and it stays latched: nothing more is written.
pub proof fn latched_error_repeats(
    before: Encoder,
    error: Error,
    token: TokenView,
    bytes: Seq<u8>,
    outcome: Result<(), Error>,
    value_written: bool,
    after: Encoder,
    r: Result<(), Error>,
    output: Result<Vec<u8>, Error>,
)
    requires
        before.latched() == Some(error),
    ensures
        before.writes(token, bytes, after, r) ==> r == Err::<(), Error>(error) && before.same(
            after,
        ),
        before.finishes(outcome, value_written, after, r) ==> r == Err::<(), Error>(error)
            && before.same(after),
        before.yields(outcome, value_written, output) ==> output == Err::<Vec<u8>, Error>(error),
{
}

/// The error that an emission returns is latched by it.
pub proof fn returned_error_is_latched(
    before: Encoder,
    token: TokenView,
    bytes: Seq<u8>,
    outcome: Result<(), Error>,
    value_written: bool,
    after: Encoder,
    r: Result<(), Error>,
)
    ensures
        before.writes(token, bytes, after, r) && r is Err ==> after.latched() == Some(
            r->Err_0,
        ),
        before.finishes(outcome, value_written, after, r) && r is Err ==> after.latched()
            == Some(r->Err_0),
{
}

/// The pairs as byte sequences.
pub open spec fn pairs_of(content: Seq<(Vec<u8>, Vec<u8>)>) -> Seq<(Seq<u8>, Seq<u8>)> {
    content.map_values(|pair: (Vec<u8>, Vec<u8>)| (pair.0@, pair.1@))
}

/// An encoder that can only encode a single item. See [`Encoder`]
/// for usage examples; the only difference between these classes is
/// that `SingleItemEncoder` can only be used once.
pub struct SingleItemEncoder<'a> {
    encoder: &'a mut Encoder,
    /// Whether we attempted to write a value to the encoder. The value
    /// of the referent of this field is meaningless if the encode method
    /// failed.
    value_written: &'a mut bool,
}

impl<'a> SingleItemEncoder<'a> {
    /// The encoder that the item is written to, as borrowed.
    pub closed spec fn target(&self) -> &'a mut Encoder {
        self.encoder
    }

    /// The encoder that the item is written to, as it stands.
    pub closed spec fn encoder(&self) -> Encoder {
        *self.encoder
    }

    /// The mark that a value was written, as borrowed.
    pub closed spec fn mark(&self) -> &'a mut bool {
        self.value_written
    }

    /// Whether a value was written.
    pub closed spec fn value_written(&self) -> bool {
        *self.value_written
    }

    /// An encoder of a single item that is not used any more leaves the
    /// encoder behind it, and the mark, as they stand.
    pub proof fn gives_back(self)
        requires
            has_resolved(self),
        ensures
            *final(self.target()) == self.encoder(),
            *final(self.mark()) == self.value_written(),
    {
    }

    /// Hands out the encoder for an item that is written token by token;
    /// the item counts as written.
    pub(crate) fn begin(self) -> (r: &'a mut Encoder)
        ensures
            *final(self.mark()),
            *r == self.encoder(),
            *final(r) == *final(self.target()),
    {
        *self.value_written = true;
        self.encoder
    }

    /// Emit an arbitrary encodable object
    pub fn emit<E: ToBencode + ?Sized>(self, value: &E) -> (r: Result<(), Error>)
        ensures
            call_ensures(E::encode, (value, self), r),
    {
        value.encode(self)
    }

    /// Emit a single object using an encoder
    pub fn emit_with<F>(self, value_cb: F) -> (r: Result<(), Error>) where
        F: FnOnce(SingleItemEncoder) -> Result<(), Error>,

        requires
            value_cb.requires((self,)),
        ensures
            value_cb.ensures((self,), r),
    {
        value_cb(self)
    }

    /// Emit an integer
    pub fn emit_int<T: PrintableInteger>(self, value: T) -> (r: Result<(), Error>)
        ensures
            *final(self.mark()),
            self.encoder().writes(
                TokenView::Num(Seq::empty()),
                integer_bytes(value.number()),
                *final(self.target()),
                r,
            ),
    {
        *self.value_written = true;
        self.encoder.emit_int(value)
    }

    /// Emit a string
    pub fn emit_str(self, value: &str) -> (r: Result<(), Error>)
        ensures
            *final(self.mark()),
            self.encoder().emits(
                TokenView::String(value.spec_bytes()),
                *final(self.target()),
                r,
            ),
    {
        *self.value_written = true;
        self.encoder.emit_str(value)
    }

    /// Emit a byte array
    pub fn emit_bytes(self, value: &[u8]) -> (r: Result<(), Error>)
        ensures
            *final(self.mark()),
            self.encoder().emits(TokenView::String(value@), *final(self.target()), r),
    {
        *self.value_written = true;
        self.encoder.emit_bytes(value)
    }

    /// Emit an arbitrary list
    pub fn emit_list<F>(self, list_cb: F) -> (r: Result<(), Error>) where
        F: FnOnce(&mut Encoder) -> Result<(), Error>,

        requires
            forall|list: &mut Encoder|
                self.encoder().opens(TokenView::List, *list) ==> #[trigger] list_cb.requires(
                    (list,),
                ),
        ensures
            *final(self.mark()),
            self.encoder().refuses(TokenView::List) ==> self.encoder().emits(
                TokenView::List,
                *final(self.target()),
                r,
            ),
            !self.encoder().refuses(TokenView::List) ==> exists|
                list: &mut Encoder,
                outcome: Result<(), Error>,
            |
                {
                    &&& self.encoder().opens(TokenView::List, *list)
                    &&& #[trigger] list_cb.ensures((list,), outcome)
                    &&& final(list).closes(outcome, *final(self.target()), r)
                },
    {
        *self.value_written = true;
        self.encoder.emit_list(list_cb)
    }

    /// Emit an arbitrary list.
    ///
    /// Attention: If this method is used while canonical output is required
    /// the caller needs to ensure that the iterator has a defined order.
    ///
    /// A list is opened, unless the encoder refuses it; what the iterator
    /// hands out is encoded item by item, up to the first that fails; and
    /// the list is closed, as [`Encoder::close_container`] says. The
    /// iterator has to come to an end.
    pub fn emit_unchecked_list<I, T>(self, iterable: I) -> (r: Result<(), Error>) where
        I: Iterator<Item = T>,
        T: ToBencode,

        requires
            iterable.obeys_prophetic_iter_laws(),
            iterable.decrease() is Some,
        ensures
            *final(self.mark()),
            self.encoder().refuses(TokenView::List) ==> self.encoder().emits(
                TokenView::List,
                *final(self.target()),
                r,
            ),
            !self.encoder().refuses(TokenView::List) ==> exists|
                opened: Encoder,
                states: Seq<Encoder>,
                handed: Seq<SingleItemEncoder>,
                told: Seq<Result<(), Error>>,
                outcomes: Seq<Result<(), Error>>,
                filled: Encoder,
                outcome: Result<(), Error>,
            |
                {
                    &&& self.encoder().opens(TokenView::List, opened)
                    &&& #[trigger] in_turn(
                        opened,
                        states,
                        handed,
                        told,
                        outcomes,
                        iterable.remaining().len(),
                        filled,
                        outcome,
                    )
                    &&& forall|i: int|
                        0 <= i < outcomes.len() ==> {
                            &&& call_ensures(
                                T::encode,
                                (&iterable.remaining()[i], #[trigger] handed[i]),
                                told[i],
                            )
                            &&& final(handed[i].target()).finishes(
                                told[i],
                                *final(handed[i].mark()),
                                states[i + 1],
                                outcomes[i],
                            )
                        }
                    &&& filled.closes(outcome, *final(self.target()), r)
                },
    {
        let ghost given = self;
        let SingleItemEncoder { encoder, value_written } = self;
        *value_written = true;
        match encoder.emit_token(Token::List) {
            Err(error) => return Err(error),
            Ok(()) => {},
        }
        let ghost opened = *encoder;
        let ghost all = iterable.remaining();
        let ghost mut states: Seq<Encoder> = seq![*encoder];
        let ghost mut outcomes: Seq<Result<(), Error>> = Seq::empty();
        let ghost mut handed: Seq<SingleItemEncoder> = Seq::empty();
        let ghost mut told: Seq<Result<(), Error>> = Seq::empty();
        let ghost mut n: int = 0;
        let mut items = iterable;
        loop
            invariant
                items.obeys_prophetic_iter_laws(),
                items.decrease() is Some,
                0 <= n <= all.len(),
                items.remaining() == all.skip(n),
                outcomes.len() == n,
                given == self,
                *final(encoder) == *final(given.target()),
                *final(value_written) == *final(given.mark()),
                *value_written,
                all == iterable.remaining(),
                !given.encoder().refuses(TokenView::List),
                given.encoder().opens(TokenView::List, opened),
                in_turn(opened, states, handed, told, outcomes, n as nat, *encoder, Ok(())),
                forall|i: int|
                    0 <= i < outcomes.len() ==> {
                        &&& call_ensures(T::encode, (&all[i], #[trigger] handed[i]), told[i])
                        &&& final(handed[i].target()).finishes(
                            told[i],
                            *final(handed[i].mark()),
                            states[i + 1],
                            outcomes[i],
                        )
                    },
            decreases items.decrease()->0,
        {
            let item = match items.next() {
                None => {
                    let ghost filled = *encoder;
                    let r = encoder.close_container(Ok(()));
                    proof {
                        assert(n == all.len());
                        assert(in_turn(
                            opened,
                            states,
                            handed,
                            told,
                            outcomes,
                            all.len(),
                            filled,
                            Ok(()),
                        ));
                    }
                    return r;
                },
                Some(item) => item,
            };
            proof {
                assert(all.skip(n)[0] == all[n]);
                assert(all.skip(n).drop_first() =~= all.skip(n + 1));
            }
            let mut written = false;
            let single = SingleItemEncoder { encoder: encoder, value_written: &mut written };
            let ghost given = single;
            let ghost known = handed;
            let outcome = item.encode(single);
            let settled = encoder.finish_item(outcome, written);
            proof {
                assert(call_ensures(T::encode, (&all[n], given), outcome));
                assert(final(given.target()).finishes(
                    outcome,
                    *final(given.mark()),
                    *encoder,
                    settled,
                ));
                states = states.push(*encoder);
                outcomes = outcomes.push(settled);
                handed = handed.push(given);
                told = told.push(outcome);
                assert(handed[n] == given);
                assert(forall|i: int| 0 <= i < n ==> handed[i] == known[i]);
            }
            if settled.is_err() {
                let ghost filled = *encoder;
                let r = encoder.close_container(settled);
                proof {
                    assert(in_turn(
                        opened,
                        states,
                        handed,
                        told,
                        outcomes,
                        all.len(),
                        filled,
                        settled,
                    ));
                }
                return r;
            }
            proof {
                n = n + 1;
            }
        }
    }

    /// Emit a sorted dictionary. If the input dictionary is unsorted, this will return an error.
    pub fn emit_dict<F>(self, content_cb: F) -> (r: Result<(), Error>) where
        F: FnOnce(SortedDictEncoder) -> Result<(), Error>,

        requires
            forall|dict: SortedDictEncoder|
                self.encoder().opens(TokenView::Dict, dict.encoder()) ==> #[trigger] content_cb.requires(
                    (dict,),
                ),
        ensures
            *final(self.mark()),
            self.encoder().refuses(TokenView::Dict) ==> self.encoder().emits(
                TokenView::Dict,
                *final(self.target()),
                r,
            ),
            !self.encoder().refuses(TokenView::Dict) ==> exists|
                dict: SortedDictEncoder,
                outcome: Result<(), Error>,
            |
                {
                    &&& self.encoder().opens(TokenView::Dict, dict.encoder())
                    &&& #[trigger] content_cb.ensures((dict,), outcome)
                    &&& final(dict.target()).closes(outcome, *final(self.target()), r)
                },
    {
        *self.value_written = true;
        self.encoder.emit_dict(content_cb)
    }

    /// Emit a dictionary that may have keys out of order. This will write the dict
    /// values to temporary memory, then sort them before adding them to the serialized
    /// stream
    pub fn emit_unsorted_dict<F>(self, content_cb: F) -> (r: Result<(), Error>) where
        F: FnOnce(&mut UnsortedDictEncoder) -> Result<(), Error>,

        requires
            forall|dict: &mut UnsortedDictEncoder|
                dict.is_new() ==> #[trigger] content_cb.requires((dict,)),
            forall|dict: &mut UnsortedDictEncoder, outcome: Result<(), Error>|
                dict.is_new() && #[trigger] content_cb.ensures((dict,), outcome) ==> final(dict).wf(),
        ensures
            *final(self.mark()),
            self.encoder().refuses(TokenView::Dict) ==> self.encoder().emits(
                TokenView::Dict,
                *final(self.target()),
                r,
            ),
            !self.encoder().refuses(TokenView::Dict) ==> exists|
                opened: Encoder,
                dict: &mut UnsortedDictEncoder,
                outcome: Result<(), Error>,
            |
                #![trigger self.encoder().opens(TokenView::Dict, opened), content_cb.ensures((dict,), outcome)]
                {
                    &&& self.encoder().opens(TokenView::Dict, opened)
                    &&& dict.is_new()
                    &&& dict.depth_left() == opened.depth_limit() - opened.frames().len()
                    &&& content_cb.ensures((dict,), outcome)
                    &&& opened.sorts(outcome, *final(dict), *final(self.target()), r)
                },
    {
        *self.value_written = true;
        self.encoder.emit_and_sort_dict(content_cb)
    }
}

/// Encodes a map with pre-sorted keys
pub struct SortedDictEncoder<'a> {
    encoder: &'a mut Encoder,
}

impl<'a> SortedDictEncoder<'a> {
    /// The encoder that the dictionary is written to, as borrowed.
    pub closed spec fn target(&self) -> &'a mut Encoder {
        self.encoder
    }

    /// The encoder that the dictionary is written to, as it stands.
    pub closed spec fn encoder(&self) -> Encoder {
        *self.encoder
    }

    /// An encoder of a dictionary that is not used any more leaves the
    /// encoder behind it as it stands.
    pub proof fn gives_back(self)
        requires
            has_resolved(self),
        ensures
            *final(self.target()) == self.encoder(),
    {
    }

    /// Emit a key/value pair
    ///
    /// Where the key cannot be emitted, the value is not encoded. Else the
    /// value is emitted as [`Encoder::emit`] does it.
    pub fn emit_pair<E>(&mut self, key: &[u8], value: E) -> (r: Result<(), Error>) where
        E: ToBencode,

        ensures
            *final(final(self).target()) == *final(old(self).target()),
            final(self).encoder().settled(r),
            old(self).encoder().refuses(TokenView::String(key@)) ==> old(self).encoder().emits(
                TokenView::String(key@),
                final(self).encoder(),
                r,
            ),
            !old(self).encoder().refuses(TokenView::String(key@)) ==> exists|
                item: SingleItemEncoder,
                outcome: Result<(), Error>,
            |
                {
                    &&& old(self).encoder().opens(TokenView::String(key@), item.encoder())
                    &&& !item.value_written()
                    &&& #[trigger] call_ensures(E::encode, (&value, item), outcome)
                    &&& final(item.target()).finishes(
                        outcome,
                        *final(item.mark()),
                        final(self).encoder(),
                        r,
                    )
                },
    {
        match self.encoder.emit_token(Token::String(key)) {
            Err(error) => return Err(error),
            Ok(()) => {},
        }
        self.encoder.emit(value)
    }

    /// Equivalent to [`SortedDictEncoder::emit_pair()`], but forces the type of the value
    /// to be a callback
    pub fn emit_pair_with<F>(&mut self, key: &[u8], value_cb: F) -> (r: Result<(), Error>) where
        F: FnOnce(SingleItemEncoder) -> Result<(), Error>,

        requires
            forall|item: SingleItemEncoder|
                old(self).encoder().opens(TokenView::String(key@), item.encoder())
                    && !item.value_written() ==> #[trigger] value_cb.requires((item,)),
        ensures
            *final(final(self).target()) == *final(old(self).target()),
            final(self).encoder().settled(r),
            old(self).encoder().refuses(TokenView::String(key@)) ==> old(self).encoder().emits(
                TokenView::String(key@),
                final(self).encoder(),
                r,
            ),
            !old(self).encoder().refuses(TokenView::String(key@)) ==> exists|
                item: SingleItemEncoder,
                outcome: Result<(), Error>,
            |
                {
                    &&& old(self).encoder().opens(TokenView::String(key@), item.encoder())
                    &&& !item.value_written()
                    &&& #[trigger] value_cb.ensures((item,), outcome)
                    &&& final(item.target()).finishes(
                        outcome,
                        *final(item.mark()),
                        final(self).encoder(),
                        r,
                    )
                },
    {
        match self.encoder.emit_token(Token::String(key)) {
            Err(error) => return Err(error),
            Ok(()) => {},
        }
        self.encoder.emit_with(value_cb)
    }
}

/// `pairs` are in the strictly ascending order of their keys.
pub open spec fn keys_ascend(pairs: Seq<(Seq<u8>, Seq<u8>)>) -> bool {
    forall|i: int, j: int| 0 <= i < j < pairs.len() ==> lex_lt(#[trigger] pairs[i].0, #[trigger] pairs[j].0)
}

/// Helper to write a dictionary that may have keys out of order. This will buffer the
/// dict values in temporary memory, then sort them before adding them to the serialized
/// stream
///
/// The pairs are kept in a vector, in the order of their keys. An ordered
/// map of the standard library would do the same work, but what such a
/// map holds is specified only for keys whose order is known to obey the
/// laws of comparison, and of byte strings that is not known.
pub struct UnsortedDictEncoder {
    content: Vec<(Vec<u8>, Vec<u8>)>,
    error: Result<(), Error>,
    remaining_depth: usize,
}

impl UnsortedDictEncoder {
    /// The pairs collected so far: each key with the bytes that its value
    /// was encoded to, in the order of the keys.
    pub closed spec fn pairs(&self) -> Seq<(Seq<u8>, Seq<u8>)> {
        pairs_of(self.content@)
    }

    /// The error with which the collection failed, if it did.
    pub closed spec fn failure(&self) -> Option<Error> {
        match self.error {
            Ok(_) => None,
            Err(error) => Some(error),
        }
    }

    /// The nesting depth that a value may have.
    pub closed spec fn depth_left(&self) -> nat {
        self.remaining_depth as nat
    }

    /// The keys are in strictly ascending order: no key occurs twice.
    pub open spec fn wf(&self) -> bool {
        keys_ascend(self.pairs())
    }

    /// Nothing was collected yet, and nothing failed.
    pub open spec fn is_new(&self) -> bool {
        &&& self.wf()
        &&& self.pairs().len() == 0
        &&& self.failure() is None
    }

    /// A collection of no pairs, whose values may have the depth
    /// `remaining_depth`.
    pub fn new(remaining_depth: usize) -> (r: Self)
        ensures
            r.is_new(),
            r.depth_left() == remaining_depth,
    {
        UnsortedDictEncoder { content: Vec::new(), error: Ok(()), remaining_depth }
    }

    /// `item` is an encoder for one item that is handed out to encode a
    /// value: nothing is written to it, and it has the depth that is left.
    pub open spec fn hands_out(self, item: SingleItemEncoder) -> bool {
        &&& item.encoder().written().len() == 0
        &&& item.encoder().frames().len() == 0
        &&& item.encoder().latched() is None
        &&& item.encoder().depth_limit() == self.depth_left()
        &&& !item.value_written()
    }

    /// Emit a key/value pair
    ///
    /// The value is told to encode itself to an encoder of its own, with
    /// the depth that is left; then the outcome is settled as
    /// [`UnsortedDictEncoder::finish_pair`] says.
    pub fn emit_pair<E>(&mut self, key: &[u8], value: E) -> (r: Result<(), Error>) where
        E: ToBencode,

        requires
            old(self).wf(),
        ensures
            final(self).wf(),
            exists|item: SingleItemEncoder, outcome: Result<(), Error>|
                {
                    &&& old(self).hands_out(item)
                    &&& #[trigger] call_ensures(E::encode, (&value, item), outcome)
                    &&& old(self).settles_pair(
                        key@,
                        *final(item.target()),
                        outcome,
                        *final(item.mark()),
                        *final(self),
                        r,
                    )
                },
    {
        let mut value_written = false;
        let mut encoder = Encoder::new().with_max_depth(self.remaining_depth);
        let item = SingleItemEncoder { encoder: &mut encoder, value_written: &mut value_written };
        let ghost handed = item;
        let ret = value.encode(item);
        let ghost filled = encoder;
        let r = self.finish_pair(key, encoder, ret, value_written);
        proof {
            assert(call_ensures(E::encode, (&value, handed), ret));
            assert(old(self).settles_pair(
                key@,
                *final(handed.target()),
                ret,
                *final(handed.mark()),
                *self,
                r,
            ));
        }
        r
    }

    /// Emit a key/value pair where the value is produced by a callback
    ///
    /// The callback is handed an encoder of its own, with the depth that is
    /// left; then its outcome is settled as
    /// [`UnsortedDictEncoder::finish_pair`] says.
    pub fn emit_pair_with<F>(&mut self, key: &[u8], value_cb: F) -> (r: Result<(), Error>) where
        F: FnOnce(SingleItemEncoder) -> Result<(), Error>,

        requires
            old(self).wf(),
            forall|item: SingleItemEncoder|
                old(self).hands_out(item) ==> #[trigger] value_cb.requires((item,)),
        ensures
            final(self).wf(),
            exists|item: SingleItemEncoder, outcome: Result<(), Error>|
                {
                    &&& old(self).hands_out(item)
                    &&& #[trigger] value_cb.ensures((item,), outcome)
                    &&& old(self).settles_pair(
                        key@,
                        *final(item.target()),
                        outcome,
                        *final(item.mark()),
                        *final(self),
                        r,
                    )
                },
    {
        let mut value_written = false;
        let mut encoder = Encoder::new().with_max_depth(self.remaining_depth);
        let item = SingleItemEncoder { encoder: &mut encoder, value_written: &mut value_written };
        let ghost handed = item;
        let ret = value_cb(item);
        let r = self.finish_pair(key, encoder, ret, value_written);
        proof {
            assert(value_cb.ensures((handed,), ret));
            assert(old(self).settles_pair(
                key@,
                *final(handed.target()),
                ret,
                *final(handed.mark()),
                *self,
                r,
            ));
        }
        r
    }

    /// `post` and `r` are what settling the encoding of the value of `key`
    /// gives, which came to `outcome` in `encoder`.
    pub open spec fn settles_pair(
        self,
        key: Seq<u8>,
        encoder: Encoder,
        outcome: Result<(), Error>,
        value_written: bool,
        post: Self,
        r: Result<(), Error>,
    ) -> bool {
        &&& post.depth_left() == self.depth_left()
        &&& match self.failure() {
            Some(failure) => {
                &&& r == Err::<(), Error>(failure)
                &&& post.failure() == self.failure()
                &&& post.pairs() == self.pairs()
            },
            None => match outcome {
                Err(error) => {
                    &&& r == Err::<(), Error>(error)
                    &&& post.failure() == Some(error)
                    &&& post.pairs() == self.pairs()
                },
                Ok(_) => if !value_written {
                    &&& r matches Err(error)
                    &&& error.reports(StructureErrorView::InvalidState("No value was emitted"@))
                    &&& post.failure() == Some(error)
                    &&& post.pairs() == self.pairs()
                } else {
                    match encoder.latched() {
                        Some(error) => {
                            &&& r == Err::<(), Error>(error)
                            &&& post.failure() == Some(error)
                            &&& post.pairs() == self.pairs()
                        },
                        None => if encoder.frames().len() > 0 {
                            &&& r matches Err(error)
                            &&& error.reports(StructureErrorView::UnexpectedEof)
                            &&& post.failure() == Some(error)
                            &&& post.pairs() == self.pairs()
                        } else {
                            self.saves(key, encoder.written(), post, r)
                        },
                    }
                },
            },
        }
    }

    /// Settles what the encoding of the value of `key` came to, in an
    /// encoder of its own. A collection that failed before stays as it is
    /// and returns its error, whatever the encoding came to. Else the error
    /// of `outcome` fails the collection, and so does a value that was not
    /// written or that is not complete; and a value that is complete is
    /// saved with its key as [`UnsortedDictEncoder::save_pair`] says.
    pub fn finish_pair(
        &mut self,
        key: &[u8],
        encoder: Encoder,
        outcome: Result<(), Error>,
        value_written: bool,
    ) -> (r: Result<(), Error>)
        requires
            old(self).wf(),
        ensures
            final(self).wf(),
            old(self).settles_pair(key@, encoder, outcome, value_written, *final(self), r),
    {
        let mut encoder = encoder;
        match &self.error {
            Err(failure) => return Err(failure.clone()),
            Ok(()) => {},
        }
        match outcome {
            Err(error) => {
                self.error = Err(error.clone());
                return Err(error);
            },
            Ok(()) => {},
        }
        if !value_written {
            self.error = Err(Error::raise(StructureError::invalid_state("No value was emitted")));
        } else {
            self.error = encoder.state.observe_eof();
        }
        match &self.error {
            Err(error) => return Err(error.clone()),
            Ok(()) => {},
        }
        let encoded_object = match encoder.get_output() {
            Ok(encoded_object) => encoded_object,
            Err(error) => return Err(error),
        };
        self.save_pair(key, encoded_object)
    }

    /// `post` and `r` are what saving the pair of `key` and `value` in
    /// `self` gives. A collection that failed stays as it is and returns its
    /// error. A key that was saved before fails the collection. Else the
    /// pair is put where its key belongs.
    pub open spec fn saves(self, key: Seq<u8>, value: Seq<u8>, post: Self, r: Result<(), Error>) -> bool {
        &&& post.depth_left() == self.depth_left()
        &&& match self.failure() {
            Some(error) => {
                &&& r == Err::<(), Error>(error)
                &&& post.failure() == self.failure()
                &&& post.pairs() == self.pairs()
            },
            None => if exists|i: int| 0 <= i < self.pairs().len() && self.pairs()[i].0 == key {
                &&& r matches Err(error)
                &&& error.reports(
                    StructureErrorView::InvalidState("Duplicate key "@ + lossy_text(key)),
                )
                &&& post.failure() == Some(error)
                &&& post.pairs() == self.pairs()
            } else {
                &&& r is Ok
                &&& post.failure() is None
                &&& exists|at: int|
                    0 <= at <= self.pairs().len() && #[trigger] post.pairs() == self.pairs().insert(
                        at,
                        (key, value),
                    )
            },
        }
    }

    /// The nesting depth that a value may have.
    pub fn remaining_depth(&self) -> (r: usize)
        ensures
            r == self.depth_left(),
    {
        self.remaining_depth
    }

    /// Saves the pair of a key and the bytes that its value was encoded to.
    pub fn save_pair(&mut self, unencoded_key: &[u8], encoded_value: Vec<u8>) -> (r: Result<
        (),
        Error,
    >)
        requires
            old(self).wf(),
        ensures
            final(self).wf(),
            old(self).saves(unencoded_key@, encoded_value@, *final(self), r),
    {
        match &self.error {
            Err(error) => return Err(error.clone()),
            Ok(()) => {},
        }
        let ghost before = self.pairs();
        let mut at: usize = 0;
        while at < self.content.len() && bytes_lt(self.content[at].0.as_slice(), unencoded_key)
            invariant
                at <= self.content.len(),
                *self == *old(self),
                self.pairs() == before,
                keys_ascend(before),
                forall|i: int| 0 <= i < at ==> lex_lt(#[trigger] before[i].0, unencoded_key@),
            decreases self.content.len() - at,
        {
            proof {
                assert(before[at as int].0 == self.content@[at as int].0@);
            }
            at = at + 1;
        }
        proof {
            if at < self.content.len() {
                assert(before[at as int].0 == self.content@[at as int].0@);
            }
        }
        if at < self.content.len() && !bytes_lt(unencoded_key, self.content[at].0.as_slice()) {
            proof {
                crate::text::lex_lt_is_total(before[at as int].0, unencoded_key@);
            }
            let mut text = "Duplicate key ".to_owned();
            let shown = utf8_lossy(self.content[at].0.as_slice());
            text.append(shown.as_str());
            let error = Error::raise(StructureError::InvalidState(text));
            self.error = Err(error.clone());
            return Err(error);
        }
        proof {
            assert forall|i: int| 0 <= i < before.len() implies before[i].0 != unencoded_key@ by {
                crate::text::lex_lt_is_strict(before[i].0, unencoded_key@);
                crate::text::lex_lt_is_strict(unencoded_key@, before[i].0);
                if i < at {
                } else if i > at {
                    crate::text::lex_lt_is_transitive(
                        unencoded_key@,
                        before[at as int].0,
                        before[i].0,
                    );
                }
            }
        }
        self.content.insert(at, (vstd::slice::slice_to_vec(unencoded_key), encoded_value));
        proof {
            let after = self.pairs();
            assert(after =~= before.insert(at as int, (unencoded_key@, encoded_value@)));
            assert forall|i: int, j: int| 0 <= i < j < after.len() implies lex_lt(
                #[trigger] after[i].0,
                #[trigger] after[j].0,
            ) by {
                if j == at {
                } else if i == at {
                    if j - 1 > at {
                        crate::text::lex_lt_is_transitive(
                            unencoded_key@,
                            before[at as int].0,
                            before[j - 1].0,
                        );
                    }
                } else {
                    let a = if i < at {
                        i
                    } else {
                        i - 1
                    };
                    let b = if j < at {
                        j
                    } else {
                        j - 1
                    };
                    assert(lex_lt(before[a].0, before[b].0));
                }
            }
        }
        Ok(())
    }

    /// The pairs that were collected, in the order of their keys; or the
    /// error with which the collection failed.
    pub fn done(self) -> (r: Result<Vec<(Vec<u8>, Vec<u8>)>, Error>)
        ensures
            match self.failure() {
                Some(error) => r == Err::<Vec<(Vec<u8>, Vec<u8>)>, Error>(error),
                None => r matches Ok(content) && pairs_of(content@) == self.pairs(),
            },
    {
        match self.error {
            Err(error) => Err(error),
            Ok(()) => Ok(self.content),
        }
    }
}

} // verus!
