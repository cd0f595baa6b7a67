use vstd::prelude::*;

use crate::decoding::error::Error;
use crate::decoding::object::Object;
use crate::decoding::syntax::{
    decimal_value, digits_end, digits_end_bounds, is_digit, is_nonzero_digit, scan_int, scan_token,
};
use crate::state_tracker::{
    step, FrameView, Latch, StateTracker, StructureError, StructureErrorView, Token, TokenView,
};
use crate::text::{ascii_str, ascii_text, char_debug, push_decimal};

verus! {

/// Where a decoder is in its input: the index of the next byte, and the
/// levels that are open there.
pub struct Reading {
    pub at: int,
    pub frames: Seq<FrameView>,
}

/// One read: the token at `from`, checked against the grammar, and where the
/// decoder is after it; no token at the end of the input, if nothing is open
/// there.
pub open spec fn read_token(src: Seq<u8>, max_depth: nat, from: Reading) -> Result<
    (Option<TokenView>, Reading),
    StructureErrorView,
> {
    if from.at >= src.len() {
        if from.frames.len() == 0 {
            Ok((None, from))
        } else {
            Err(StructureErrorView::UnexpectedEof)
        }
    } else {
        match scan_token(src, from.at) {
            Ok((token, next)) => match step(from.frames, max_depth, token) {
                Ok(frames) => Ok((Some(token), Reading { at: next, frames })),
                Err(violation) => Err(violation),
            },
            Err(violation) => Err(violation),
        }
    }
}

/// Reading on from `from` until at most `depth` levels are open: where the
/// decoder is then, or the first violation on the way. Where more than
/// `depth` levels are open, this reads through the `End` that closes the
/// level `depth + 1`, and stops right after it.
pub open spec fn skip_to(src: Seq<u8>, max_depth: nat, from: Reading, depth: nat) -> Result<
    Reading,
    StructureErrorView,
>
    decreases src.len() - from.at,
{
    if from.frames.len() <= depth {
        Ok(from)
    } else {
        match read_token(src, max_depth, from) {
            Ok((_, next)) => {
                if from.at < next.at {
                    skip_to(src, max_depth, next, depth)
                } else {
                    Ok(next)
                }
            },
            Err(violation) => Err(violation),
        }
    }
}

/// The tokens that are read on the way on which [`skip_to`] reads from
/// `from` until at most `depth` levels are open, up to the first
/// violation.
pub open spec fn skipped(src: Seq<u8>, max_depth: nat, from: Reading, depth: nat) -> Seq<
    TokenView,
>
    decreases src.len() - from.at,
{
    if from.frames.len() <= depth {
        Seq::empty()
    } else {
        match read_token(src, max_depth, from) {
            Ok((Some(token), next)) => {
                if from.at < next.at {
                    seq![token] + skipped(src, max_depth, next, depth)
                } else {
                    Seq::empty()
                }
            },
            _ => Seq::empty(),
        }
    }
}

/// The next item of the container at level `depth`: what is still open
/// inside the container is skipped, then one token is read. There is no
/// item where that token is the `End` of the container, or where the input
/// ends with nothing open.
pub open spec fn next_item(src: Seq<u8>, max_depth: nat, from: Reading, depth: nat) -> Result<
    (Option<TokenView>, Reading),
    StructureErrorView,
> {
    match skip_to(src, max_depth, from, depth) {
        Ok(start) => match read_token(src, max_depth, start) {
            Ok((token, next)) => Ok(
                (
                    if token == Some(TokenView::End) {
                        None
                    } else {
                        token
                    },
                    next,
                ),
            ),
            Err(violation) => Err(violation),
        },
        Err(violation) => Err(violation),
    }
}

/// Where the items of the container at level `depth` begin to be read from
/// `from`: after what was still open inside the container.
pub open spec fn item_start(src: Seq<u8>, max_depth: nat, from: Reading, depth: nat) -> int {
    match skip_to(src, max_depth, from, depth) {
        Ok(start) => start.at,
        Err(_) => from.at,
    }
}

/// The next pair of the dictionary at level `depth`: the key, the token
/// with which the value begins and the index of that token. There is no pair
/// where the next item is no byte string, or where no item follows the key.
pub open spec fn next_pair(src: Seq<u8>, max_depth: nat, from: Reading, depth: nat) -> Result<
    (Option<(Seq<u8>, TokenView, int)>, Reading),
    StructureErrorView,
> {
    match next_item(src, max_depth, from, depth) {
        Ok((Some(TokenView::String(key)), between)) => match next_item(
            src,
            max_depth,
            between,
            depth,
        ) {
            Ok((Some(token), next)) => Ok(
                (Some((key, token, item_start(src, max_depth, between, depth))), next),
            ),
            Ok((None, next)) => Ok((None, next)),
            Err(violation) => Err(violation),
        },
        Ok((_, next)) => Ok((None, next)),
        Err(violation) => Err(violation),
    }
}

/// One token changes the number of open levels by one at most: an opener
/// adds a level, an `End` takes one away, an atom leaves the number.
pub proof fn step_moves_one_level(frames: Seq<FrameView>, max_depth: nat, token: TokenView)
    ensures
        step(frames, max_depth, token) matches Ok(next) ==> next.len() == frames.len() + (if token.opens() {
            1int
        } else if token is End {
            -1int
        } else {
            0int
        }),
{
}

/// A read that gives a token ends after where it began, and in the input.
pub proof fn read_token_advances(src: Seq<u8>, max_depth: nat, from: Reading)
    ensures
        read_token(src, max_depth, from) matches Ok((token, next)) ==> {
            &&& token is Some ==> from.at < next.at <= src.len()
            &&& token is None ==> next == from && from.frames.len() == 0
        },
{
    scan_token_advances(src, from.at);
}

/// Skipping from at least `depth` open levels stops with exactly `depth`
/// of them open, not before where it began, and in the input.
pub proof fn skip_to_lands(src: Seq<u8>, max_depth: nat, from: Reading, depth: nat)
    requires
        from.frames.len() >= depth,
        from.at <= src.len(),
    ensures
        skip_to(src, max_depth, from, depth) matches Ok(to) ==> {
            &&& to.frames.len() == depth
            &&& from.at <= to.at <= src.len()
        },
    decreases src.len() - from.at,
{
    if from.frames.len() > depth {
        read_token_advances(src, max_depth, from);
        if let Ok((token, next)) = read_token(src, max_depth, from) {
            step_moves_one_level(from.frames, max_depth, token->Some_0);
            skip_to_lands(src, max_depth, next, depth);
        }
    }
}

/// Skipping to `shallow` levels is skipping to `deep` levels first and on
/// from there.
pub proof fn skip_to_composes(
    src: Seq<u8>,
    max_depth: nat,
    from: Reading,
    deep: nat,
    shallow: nat,
)
    requires
        shallow <= deep,
    ensures
        skip_to(src, max_depth, from, shallow) == match skip_to(src, max_depth, from, deep) {
            Ok(between) => skip_to(src, max_depth, between, shallow),
            Err(violation) => Err(violation),
        },
    decreases src.len() - from.at,
{
    if from.frames.len() > deep {
        read_token_advances(src, max_depth, from);
        if let Ok((_, next)) = read_token(src, max_depth, from) {
            skip_to_composes(src, max_depth, next, deep, shallow);
        }
    }
}

/// The tokens that are skipped on the way to `shallow` levels are those on
/// the way to `deep` levels, and then those from there on.
pub proof fn skipped_composes(
    src: Seq<u8>,
    max_depth: nat,
    from: Reading,
    deep: nat,
    shallow: nat,
)
    requires
        shallow <= deep,
    ensures
        skipped(src, max_depth, from, shallow) == skipped(src, max_depth, from, deep) + (
        match skip_to(src, max_depth, from, deep) {
            Ok(between) => skipped(src, max_depth, between, shallow),
            Err(_) => Seq::empty(),
        }),
    decreases src.len() - from.at,
{
    if from.frames.len() > deep {
        read_token_advances(src, max_depth, from);
        match read_token(src, max_depth, from) {
            Ok((Some(token), next)) => {
                skipped_composes(src, max_depth, next, deep, shallow);
                let rest = match skip_to(src, max_depth, next, deep) {
                    Ok(between) => skipped(src, max_depth, between, shallow),
                    Err(_) => Seq::empty(),
                };
                assert(seq![token] + (skipped(src, max_depth, next, deep) + rest) =~= (seq![token]
                    + skipped(src, max_depth, next, deep)) + rest);
            },
            _ => {
                assert(Seq::<TokenView>::empty() + Seq::<TokenView>::empty() =~= Seq::<
                    TokenView,
                >::empty());
            },
        }
    } else {
        assert(Seq::<TokenView>::empty() + skipped(src, max_depth, from, shallow) =~= skipped(
            src,
            max_depth,
            from,
            shallow,
        ));
    }
}

/// Reading the items of the container at level `depth` one by one comes to
/// the same place as skipping the container: after an item, what is left to
/// skip is what was left before; and the read that finds no item has
/// skipped the container.
pub proof fn items_lead_out(src: Seq<u8>, max_depth: nat, from: Reading, depth: nat)
    requires
        1 <= depth <= from.frames.len(),
        from.at <= src.len(),
    ensures
        skip_to(src, max_depth, from, (depth - 1) as nat) == match next_item(
            src,
            max_depth,
            from,
            depth,
        ) {
            Ok((Some(_), next)) => skip_to(src, max_depth, next, (depth - 1) as nat),
            Ok((None, next)) => Ok(next),
            Err(violation) => Err(violation),
        },
        next_item(src, max_depth, from, depth) matches Ok((token, next)) ==> {
            &&& from.at <= item_start(src, max_depth, from, depth) < next.at <= src.len()
            &&& match token {
                Some(token) => next.frames.len() == depth + (if token.opens() {
                    1int
                } else {
                    0int
                }),
                None => next.frames.len() == depth - 1,
            }
        },
{
    skip_to_composes(src, max_depth, from, depth, (depth - 1) as nat);
    skip_to_lands(src, max_depth, from, depth);
    if let Ok(start) = skip_to(src, max_depth, from, depth) {
        read_token_advances(src, max_depth, start);
        if let Ok((token, next)) = read_token(src, max_depth, start) {
            step_moves_one_level(start.frames, max_depth, token->Some_0);
        }
    }
}

/// Of a container at level `depth`: in `after`, the levels around the
/// container are open as they are in `before`.
pub open spec fn below_kept(before: Seq<FrameView>, after: Seq<FrameView>, depth: nat) -> bool {
    &&& depth >= 1
    &&& before.len() + 1 >= depth
    &&& after.len() + 1 >= depth
    &&& after.take(depth - 1) == before.take(depth - 1)
}

/// Reading an item of the container at level `depth` leaves the levels
/// around the container as they were.
pub proof fn item_keeps_below(src: Seq<u8>, max_depth: nat, from: Reading, depth: nat)
    requires
        1 <= depth <= from.frames.len(),
        from.at <= src.len(),
    ensures
        next_item(src, max_depth, from, depth) matches Ok((_, next)) ==> below_kept(
            from.frames,
            next.frames,
            depth,
        ),
{
    skip_to_lands(src, max_depth, from, depth);
    skip_to_keeps_below(src, max_depth, from, depth);
    if let Ok(start) = skip_to(src, max_depth, from, depth) {
        read_token_advances(src, max_depth, start);
        if let Ok((token, next)) = read_token(src, max_depth, start) {
            step_moves_one_level(start.frames, max_depth, token->Some_0);
            assert(next.frames.take(depth - 1) =~= start.frames.take(depth - 1));
            assert(start.frames.take(depth - 1) =~= from.frames.take(depth - 1));
        }
    }
}

/// What is kept from `a` to `b` and from `b` to `c` is kept from `a` to
/// `c`; and what is kept around a container is kept around the container
/// that holds it.
pub proof fn below_kept_chains(a: Seq<FrameView>, b: Seq<FrameView>, c: Seq<FrameView>, depth: nat)
    requires
        below_kept(a, b, depth),
    ensures
        below_kept(b, c, depth) ==> below_kept(a, c, depth),
        below_kept(b, c, depth + 1) ==> below_kept(a, c, depth),
{
    if below_kept(b, c, depth + 1) {
        assert(c.take(depth - 1) =~= c.take(depth as int).take(depth - 1));
        assert(b.take(depth - 1) =~= b.take(depth as int).take(depth - 1));
    }
}

/// The level `depth` is open, and it is that of a dictionary in which a key
/// comes next.
pub open spec fn awaits_key(frames: Seq<FrameView>, depth: nat) -> bool {
    1 <= depth <= frames.len() && frames[depth - 1] is ExpectingKey
}

/// Skipping from at least `depth` open levels leaves the first `depth`
/// levels open, as they were.
pub proof fn skip_to_keeps_below(src: Seq<u8>, max_depth: nat, from: Reading, depth: nat)
    requires
        from.frames.len() >= depth,
        from.at <= src.len(),
    ensures
        skip_to(src, max_depth, from, depth) matches Ok(to) ==> to.frames == from.frames.take(
            depth as int,
        ),
    decreases src.len() - from.at,
{
    if from.frames.len() > depth {
        read_token_advances(src, max_depth, from);
        if let Ok((token, next)) = read_token(src, max_depth, from) {
            step_moves_one_level(from.frames, max_depth, token->Some_0);
            assert(next.frames.take(depth as int) =~= from.frames.take(depth as int));
            skip_to_keeps_below(src, max_depth, next, depth);
        }
    } else {
        assert(from.frames.take(depth as int) =~= from.frames);
    }
}

/// In a dictionary, the item at which a key is due is a byte string, or
/// there is none because the dictionary ends. After a key an item follows,
/// and after that item a key is due again.
pub proof fn keys_and_values_alternate(src: Seq<u8>, max_depth: nat, from: Reading, depth: nat)
    requires
        awaits_key(from.frames, depth),
        from.at <= src.len(),
    ensures
        match next_item(src, max_depth, from, depth) {
            Ok((Some(key), between)) => {
                &&& key is String
                &&& between.frames.len() == depth
                &&& from.at < between.at <= src.len()
                &&& match next_item(src, max_depth, between, depth) {
                    Ok((Some(_), next)) => awaits_key(next.frames, depth),
                    Ok((None, _)) => false,
                    Err(_) => true,
                }
            },
            _ => true,
        },
{
    skip_to_lands(src, max_depth, from, depth);
    skip_to_keeps_below(src, max_depth, from, depth);
    if let Ok(start) = skip_to(src, max_depth, from, depth) {
        assert(start.frames.last() == from.frames[depth - 1]);
        read_token_advances(src, max_depth, start);
        if let Ok((Some(key), between)) = read_token(src, max_depth, start) {
            if key is String {
                assert(between.frames.last() is ExpectingValue);
                assert(skip_to(src, max_depth, between, depth) == Ok::<
                    Reading,
                    StructureErrorView,
                >(between));
                read_token_advances(src, max_depth, between);
                if let Ok((Some(token), next)) = read_token(src, max_depth, between) {
                    let closed = between.frames.drop_last().push(
                        FrameView::ExpectingKey(Some(between.frames.last()->ExpectingValue_0)),
                    );
                    assert(closed[depth - 1] is ExpectingKey);
                    if token.opens() {
                        assert(next.frames[depth - 1] == closed[depth - 1]);
                    }
                }
            }
        }
    }
}

/// Reading the pairs of a dictionary one by one comes to the same place as
/// skipping the dictionary: after a pair, what is left to skip is what was
/// left before; the read that finds no pair has skipped the dictionary; and
/// a violation that a read finds is the one that skipping finds.
pub proof fn pairs_lead_out(src: Seq<u8>, max_depth: nat, from: Reading, depth: nat)
    requires
        awaits_key(from.frames, depth),
        from.at <= src.len(),
    ensures
        match next_pair(src, max_depth, from, depth) {
            Ok((Some(_), next)) => {
                &&& from.at < next.at <= src.len()
                &&& awaits_key(next.frames, depth)
                &&& skip_to(src, max_depth, next, (depth - 1) as nat) == skip_to(
                    src,
                    max_depth,
                    from,
                    (depth - 1) as nat,
                )
            },
            Ok((None, next)) => {
                &&& from.at < next.at <= src.len()
                &&& next.frames.len() == depth - 1
                &&& skip_to(src, max_depth, from, (depth - 1) as nat) == Ok::<
                    Reading,
                    StructureErrorView,
                >(next)
            },
            Err(violation) => skip_to(src, max_depth, from, (depth - 1) as nat) == Err::<
                Reading,
                StructureErrorView,
            >(violation),
        },
{
    items_lead_out(src, max_depth, from, depth);
    keys_and_values_alternate(src, max_depth, from, depth);
    if let Ok((Some(_), between)) = next_item(src, max_depth, from, depth) {
        items_lead_out(src, max_depth, between, depth);
    }
}

/// In a container at level `depth` in which nothing else is open, the next
/// item begins where the decoder is, and it is the next token that is
/// skipped on the way out of the container: the `End` of the container is
/// the last.
pub proof fn item_is_skipped(src: Seq<u8>, max_depth: nat, from: Reading, depth: nat)
    requires
        1 <= depth == from.frames.len(),
        0 <= from.at <= src.len(),
    ensures
        match next_item(src, max_depth, from, depth) {
            Ok((Some(token), next)) => {
                &&& item_start(src, max_depth, from, depth) == from.at
                &&& scan_token(src, from.at) == Ok::<(TokenView, int), StructureErrorView>(
                    (token, next.at),
                )
                &&& skipped(src, max_depth, from, (depth - 1) as nat) == seq![token] + skipped(
                    src,
                    max_depth,
                    next,
                    (depth - 1) as nat,
                )
            },
            Ok((None, next)) => skipped(src, max_depth, from, (depth - 1) as nat) == seq![
                TokenView::End,
            ],
            Err(_) => true,
        },
{
    read_token_advances(src, max_depth, from);
    assert(skip_to(src, max_depth, from, depth) == Ok::<Reading, StructureErrorView>(from));
    if let Ok((Some(token), next)) = read_token(src, max_depth, from) {
        step_moves_one_level(from.frames, max_depth, token);
        assert(skipped(src, max_depth, from, (depth - 1) as nat) == seq![token] + skipped(
            src,
            max_depth,
            next,
            (depth - 1) as nat,
        ));
        if token is End {
            assert(skipped(src, max_depth, next, (depth - 1) as nat) =~= Seq::<
                TokenView,
            >::empty());
            assert(seq![token] + Seq::<TokenView>::empty() =~= seq![TokenView::End]);
        }
    }
}

/// In a dictionary at level `depth` in which nothing else is open, the
/// next pair is the next two tokens that are skipped on the way out of
/// the dictionary: the key, and the token with which its value begins.
pub proof fn pair_is_skipped(src: Seq<u8>, max_depth: nat, from: Reading, depth: nat)
    requires
        awaits_key(from.frames, depth),
        depth == from.frames.len(),
        0 <= from.at <= src.len(),
    ensures
        match next_pair(src, max_depth, from, depth) {
            Ok((Some((key, token, start)), next)) => {
                &&& from.at < start < next.at
                &&& scan_token(src, from.at) == Ok::<(TokenView, int), StructureErrorView>(
                    (TokenView::String(key), start),
                )
                &&& scan_token(src, start) == Ok::<(TokenView, int), StructureErrorView>(
                    (token, next.at),
                )
                &&& skipped(src, max_depth, from, (depth - 1) as nat) == seq![
                    TokenView::String(key),
                    token,
                ] + skipped(src, max_depth, next, (depth - 1) as nat)
            },
            Ok((None, next)) => skipped(src, max_depth, from, (depth - 1) as nat) == seq![
                TokenView::End,
            ],
            Err(_) => true,
        },
{
    item_is_skipped(src, max_depth, from, depth);
    keys_and_values_alternate(src, max_depth, from, depth);
    items_lead_out(src, max_depth, from, depth);
    if let Ok((Some(key), between)) = next_item(src, max_depth, from, depth) {
        item_is_skipped(src, max_depth, between, depth);
        items_lead_out(src, max_depth, between, depth);
        if let Ok((Some(token), next)) = next_item(src, max_depth, between, depth) {
            assert(seq![key] + (seq![token] + skipped(
                src,
                max_depth,
                next,
                (depth - 1) as nat,
            )) =~= seq![key, token] + skipped(src, max_depth, next, (depth - 1) as nat));
        }
    }
}

/// In a dictionary at level `depth` in which nothing else is open, the key
/// of the next pair comes strictly after the key before it, and after the
/// pair it is the key that the dictionary keeps as its last.
pub proof fn pair_orders_keys(src: Seq<u8>, max_depth: nat, from: Reading, depth: nat)
    requires
        awaits_key(from.frames, depth),
        depth == from.frames.len(),
        0 <= from.at <= src.len(),
    ensures
        next_pair(src, max_depth, from, depth) matches Ok((Some((key, _, _)), next)) ==> {
            &&& next.frames.len() >= depth
            &&& next.frames[depth - 1] == FrameView::ExpectingKey(Some(key))
            &&& from.frames[depth - 1] matches FrameView::ExpectingKey(Some(prev)) ==> crate::text::lex_lt(
                prev,
                key,
            )
        },
{
    assert(skip_to(src, max_depth, from, depth) == Ok::<Reading, StructureErrorView>(from));
    read_token_advances(src, max_depth, from);
    if let Ok((Some(key), between)) = read_token(src, max_depth, from) {
        if key is String {
            assert(from.frames.last() == from.frames[depth - 1]);
            assert(between.frames =~= from.frames.drop_last().push(
                FrameView::ExpectingValue(key->String_0),
            ));
            assert(skip_to(src, max_depth, between, depth) == Ok::<Reading, StructureErrorView>(
                between,
            ));
            read_token_advances(src, max_depth, between);
            if let Ok((Some(token), next)) = read_token(src, max_depth, between) {
                let closed = between.frames.drop_last().push(
                    FrameView::ExpectingKey(Some(key->String_0)),
                );
                assert(closed[depth - 1] == FrameView::ExpectingKey(Some(key->String_0)));
                if token.opens() {
                    assert(next.frames[depth - 1] == closed[depth - 1]);
                } else if !(token is End) {
                    assert(next.frames =~= closed);
                }
            }
        }
    }
}

/// A token that was scanned ends after where it began, and in the input.
pub proof fn scan_token_advances(src: Seq<u8>, at: int)
    ensures
        scan_token(src, at) matches Ok((_, next)) ==> at < next <= src.len(),
{
    if 0 <= at < src.len() {
        if src[at] == 105 {
            crate::decoding::syntax::scan_int_finds_canonical(src, at + 1, 101);
        } else if is_digit(src[at]) {
            crate::decoding::syntax::scan_int_finds_canonical(src, at, 58);
        }
    }
}

/// The states of the automaton that scans an integer.
enum IntState {
    Start,
    Sign,
    Zero,
    Digits,
}

/// The number that the decimal digits `digits` write, if a `usize` holds it.
fn parse_length(digits: &[u8]) -> (r: Option<usize>)
    requires
        forall|i: int| 0 <= i < digits@.len() ==> is_digit(#[trigger] digits@[i]),
    ensures
        r matches Some(n) ==> n == decimal_value(digits@),
        r is None ==> decimal_value(digits@) > usize::MAX,
{
    let mut value: usize = 0;
    let mut i: usize = 0;
    while i < digits.len()
        invariant
            i <= digits.len(),
            value == decimal_value(digits@.take(i as int)),
            forall|k: int| 0 <= k < digits@.len() ==> is_digit(#[trigger] digits@[k]),
        decreases digits.len() - i,
    {
        let digit: usize = (digits[i] - 48) as usize;
        proof {
            assert(digits@.take(i + 1).drop_last() =~= digits@.take(i as int));
            assert(digits@.take(i + 1).last() == digits@[i as int]);
            decimal_value_grows(digits@, i + 1);
        }
        if value > (usize::MAX - digit) / 10 {
            return None;
        }
        value = value * 10 + digit;
        i = i + 1;
    }
    proof {
        assert(digits@.take(i as int) =~= digits@);
    }
    Some(value)
}

/// The number that a prefix of the digits writes is at most the number that
/// all of them write.
proof fn decimal_value_grows(digits: Seq<u8>, n: int)
    requires
        0 <= n <= digits.len(),
        forall|k: int| 0 <= k < digits.len() ==> is_digit(#[trigger] digits[k]),
    ensures
        decimal_value(digits.take(n)) <= decimal_value(digits),
    decreases digits.len() - n,
{
    if n == digits.len() {
        assert(digits.take(n) =~= digits);
    } else {
        assert(digits.take(n + 1).drop_last() =~= digits.take(n));
        assert(is_digit(digits[n]));
        decimal_value_grows(digits, n + 1);
    }
}

/// The input of a decoder and the place in it that the decoder has reached.
struct Input<'a> {
    source: &'a [u8],
    offset: usize,
}

/// A bencode decoder
///
/// This can be used to either get a stream of tokens (using the [`Decoder::tokens()`] method) or to
/// read a complete object at a time (using the [`Decoder::next_object()`]) method.
pub struct Decoder<'a> {
    input: Input<'a>,
    state: StateTracker<&'a [u8], Error>,
}

impl<'ser> Input<'ser> {
    #[verifier::type_invariant]
    spec fn within_source(&self) -> bool {
        self.offset <= self.source@.len()
    }

    /// The next byte, if there is one; the decoder then stands after it.
    fn take_byte(&mut self) -> (r: Option<u8>)
        ensures
            final(self).source == old(self).source,
            old(self).offset < old(self).source@.len() ==> r == Some(
                old(self).source@[old(self).offset as int],
            ) && final(self).offset == old(self).offset + 1,
            old(self).offset >= old(self).source@.len() ==> r is None && final(self).offset
                == old(self).offset,
    {
        proof {
            use_type_invariant(&*self);
        }
        if self.offset < self.source.len() {
            let ret = Some(self.source[self.offset]);
            self.offset += 1;
            ret
        } else {
            None
        }
    }

    /// The next `count` bytes, if there are that many; the decoder then
    /// stands after them.
    fn take_chunk(&mut self, count: usize) -> (r: Option<&'ser [u8]>)
        ensures
            final(self).source == old(self).source,
            old(self).offset + count <= old(self).source@.len() ==> {
                &&& r matches Some(chunk)
                &&& chunk@ == old(self).source@.subrange(
                    old(self).offset as int,
                    old(self).offset + count,
                )
                &&& final(self).offset == old(self).offset + count
            },
            old(self).offset + count > old(self).source@.len() ==> r is None && final(self).offset
                == old(self).offset,
    {
        proof {
            use_type_invariant(&*self);
        }
        let source: &'ser [u8] = self.source;
        let available = source.len();
        match self.offset.checked_add(count) {
            Some(end_pos) => {
                if end_pos <= available {
                    let ret = &source[self.offset..end_pos];
                    self.offset = end_pos;
                    Some(ret)
                } else {
                    None
                }
            },
            None => None,
        }
    }

    /// Scans an integer in canonical form that ends in `expected_terminator`.
    /// The text is what stands before the terminator; the decoder then
    /// stands after the terminator.
    fn take_int(&mut self, expected_terminator: u8) -> (r: Result<&'ser str, StructureError>)
        requires
            !is_digit(expected_terminator),
            expected_terminator != 45,
        ensures
            final(self).source == old(self).source,
            match scan_int(old(self).source@, old(self).offset as int, expected_terminator) {
                Ok(end) => {
                    &&& r matches Ok(text)
                    &&& text@ == ascii_text(
                        old(self).source@.subrange(old(self).offset as int, end),
                    )
                    &&& final(self).offset == end + 1
                },
                Err(violation) => {
                    &&& r matches Err(error)
                    &&& error@ == violation
                    &&& final(self).offset == old(self).offset
                },
            },
    {
        proof {
            use_type_invariant(&*self);
        }
        let source: &'ser [u8] = self.source;
        let start = self.offset;
        let ghost src = source@;
        let mut curpos = self.offset;
        let mut state = IntState::Start;
        let mut success = false;
        let available = source.len();
        while curpos < available
            invariant_except_break
                !success,
            invariant
                available == src.len(),
                *self == *old(self),
                self.source == source,
                self.offset == start,
                source@ == src,
                start <= curpos <= src.len(),
                !is_digit(expected_terminator),
                expected_terminator != 45,
                match state {
                    IntState::Start => curpos == start,
                    IntState::Sign => curpos == start + 1 && src[start as int] == 45,
                    IntState::Zero => curpos == start + 1 && src[start as int] == 48,
                    IntState::Digits => {
                        &&& curpos > start
                        &&& (if src[start as int] == 45 {
                            &&& curpos > start + 1
                            &&& is_nonzero_digit(src[start + 1])
                            &&& digits_end(src, start + 1) == digits_end(src, curpos as int)
                        } else {
                            &&& is_nonzero_digit(src[start as int])
                            &&& digits_end(src, start as int) == digits_end(src, curpos as int)
                        })
                    },
                },
                success ==> curpos < src.len() && scan_int(src, start as int, expected_terminator)
                    == Ok::<int, StructureErrorView>(curpos as int),
            ensures
                !success ==> curpos == src.len(),
            decreases available - curpos,
        {
            let byte = source[curpos];
            let c = byte as char;
            match state {
                IntState::Start => {
                    if byte == 45 {
                        state = IntState::Sign;
                    } else if byte == 48 {
                        state = IntState::Zero;
                    } else if byte >= 49 && byte <= 57 {
                        state = IntState::Digits;
                    } else {
                        return Err(StructureError::unexpected("'-' or '0'..'9'", c, curpos));
                    }
                },
                IntState::Zero => {
                    if byte == expected_terminator {
                        success = true;
                        break ;
                    } else {
                        let expected = char_debug(expected_terminator as char);
                        return Err(StructureError::unexpected(expected.as_str(), c, curpos));
                    }
                },
                IntState::Sign => {
                    if byte >= 49 && byte <= 57 {
                        state = IntState::Digits;
                    } else {
                        return Err(StructureError::unexpected("'1'..'9'", c, curpos));
                    }
                },
                IntState::Digits => {
                    if byte >= 48 && byte <= 57 {
                        // do nothing, this is ok
                    } else if byte == expected_terminator {
                        success = true;
                        break ;
                    } else {
                        let mut expected = char_debug(expected_terminator as char);
                        expected.append(" or '0'..'9'");
                        return Err(StructureError::unexpected(expected.as_str(), c, curpos));
                    }
                },
            }
            curpos += 1;
        }

        if !success {
            proof {
                match state {
                    IntState::Digits => {
                        if src[start as int] == 45 {
                            digits_end_bounds(src, start + 1);
                        } else {
                            digits_end_bounds(src, start as int);
                        }
                    },
                    _ => {},
                }
            }
            return Err(StructureError::UnexpectedEof);
        }
        let slice = &source[start..curpos];
        proof {
            if src[start as int] == 45 {
                digits_end_bounds(src, start + 1);
            } else if src[start as int] != 48 {
                digits_end_bounds(src, start as int);
            }
            assert forall|i: int| 0 <= i < slice@.len() implies #[trigger] slice@[i] < 128 by {
                assert(slice@[i] == src[start + i]);
            }
        }
        self.offset = curpos + 1;
        Ok(ascii_str(slice))
    }

    /// Scans one token. The grammar does not see it yet.
    fn raw_next_token(&mut self) -> (r: Result<Token<'ser>, Error>)
        ensures
            final(self).source == old(self).source,
            match scan_token(old(self).source@, old(self).offset as int) {
                Ok((token, next)) => {
                    &&& r matches Ok(found)
                    &&& found@ == token
                    &&& final(self).offset == next
                },
                Err(violation) => r matches Err(error) && error.reports(violation)
                    && old(self).offset <= final(self).offset,
            },
    {
        proof {
            use_type_invariant(&*self);
        }
        let ghost src = self.source@;
        let at = self.offset;
        let byte = match self.take_byte() {
            Some(byte) => byte,
            None => return Err(Error::raise(StructureError::UnexpectedEof)),
        };
        if byte == 101 {
            Ok(Token::End)
        } else if byte == 108 {
            Ok(Token::List)
        } else if byte == 100 {
            Ok(Token::Dict)
        } else if byte == 105 {
            match self.take_int(101) {
                Ok(text) => Ok(Token::Num(text)),
                Err(error) => Err(Error::raise(error)),
            }
        } else if byte >= 48 && byte <= 57 {
            self.offset -= 1;
            let curpos = self.offset;
            match self.take_int(58) {
                Ok(_) => {},
                Err(error) => return Err(Error::raise(error)),
            }
            proof {
                crate::decoding::syntax::scan_int_finds_canonical(src, curpos as int, 58);
                if src[curpos as int] != 48 {
                    digits_end_bounds(src, curpos as int);
                }
            }
            let source: &'ser [u8] = self.source;
            let digits = &source[curpos..self.offset - 1];
            assert forall|i: int| 0 <= i < digits@.len() implies is_digit(#[trigger] digits@[i]) by {
                assert(digits@[i] == src[curpos + i]);
            }
            let len = match parse_length(digits) {
                Some(len) => len,
                None => {
                    let mut text = "Invalid integer at offset ".to_owned();
                    push_decimal(&mut text, curpos as u128);
                    return Err(Error::raise(StructureError::SyntaxError(text)));
                },
            };
            match self.take_chunk(len) {
                Some(chunk) => Ok(Token::String(chunk)),
                None => Err(Error::raise(StructureError::UnexpectedEof)),
            }
        } else {
            let mut text = "Invalid token starting with ".to_owned();
            let shown = char_debug(byte as char);
            text.append(shown.as_str());
            text.append(" at offset ");
            push_decimal(&mut text, at as u128);
            Err(Error::raise(StructureError::SyntaxError(text)))
        }
    }

    /// Whether nothing is left to read.
    fn at_end(&self) -> (r: bool)
        ensures
            r == (self.offset >= self.source@.len()),
            self.offset <= self.source@.len(),
    {
        proof {
            use_type_invariant(self);
        }
        self.offset >= self.source.len()
    }

    /// The bytes from `start` up to where the input has been read, where
    /// `start` is not beyond that.
    fn read_since(&self, start: usize) -> (r: &'ser [u8])
        ensures
            start <= self.offset ==> r@ == self.source@.subrange(start as int, self.offset as int),
    {
        proof {
            use_type_invariant(self);
        }
        let source: &'ser [u8] = self.source;
        if start <= self.offset {
            &source[start..self.offset]
        } else {
            &source[self.offset..self.offset]
        }
    }
}

impl<'ser> Decoder<'ser> {
    /// The bytes that are decoded.
    pub closed spec fn input(&self) -> Seq<u8> {
        self.input.source@
    }

    /// Where the decoder is in its input.
    pub closed spec fn reading(&self) -> Reading {
        Reading { at: self.input.offset as int, frames: self.state.frames() }
    }

    /// The bound on the nesting depth.
    pub closed spec fn depth_limit(&self) -> nat {
        self.state.depth_limit()
    }

    /// The error that was latched, if any.
    pub closed spec fn latched(&self) -> Option<Error> {
        self.state.latched()
    }

    /// `post` is this decoder before or after a read: the same input, the
    /// same bound.
    pub open spec fn same_input(self, post: Self) -> bool {
        &&& post.input() == self.input()
        &&& post.depth_limit() == self.depth_limit()
    }

    /// `post` is this decoder after some reads: the same input, the same
    /// bound, and a place in the input that is not before this one.
    pub open spec fn read_on(self, post: Self) -> bool {
        &&& self.same_input(post)
        &&& 0 <= self.reading().at <= post.reading().at <= post.input().len()
    }

    /// `post` and `r` are what one read of a token from `self` gives.
    pub open spec fn reads(self, post: Self, r: Result<Option<Token<'ser>>, Error>) -> bool {
        &&& self.read_on(post)
        &&& match self.latched() {
            Some(error) => {
                &&& r == Err::<Option<Token<'ser>>, Error>(error)
                &&& post.reading() == self.reading()
                &&& post.latched() == self.latched()
            },
            None => match read_token(self.input(), self.depth_limit(), self.reading()) {
                Ok((token, next)) => {
                    &&& r matches Ok(found)
                    &&& token_view(found) == token
                    &&& post.reading() == next
                    &&& post.latched() is None
                },
                Err(violation) => {
                    &&& r matches Err(error)
                    &&& error.reports(violation)
                    &&& post.latched() == Some(error)
                    &&& post.reading().frames == self.reading().frames
                },
            },
        }
    }

    /// Create a new decoder from the given byte array
    pub fn new(buffer: &'ser [u8]) -> (r: Self)
        ensures
            r.input() == buffer@,
            r.reading() == (Reading { at: 0, frames: Seq::empty() }),
            r.depth_limit() == 2048,
            r.latched() is None,
    {
        Decoder { input: Input { source: buffer, offset: 0 }, state: StateTracker::new() }
    }

    /// Set the maximum nesting depth of the decoder. An unlimited-depth decoder may be
    /// created using `with_max_depth(<usize>::max_value())`, but be warned that this will likely
    /// exhaust memory if the nesting depth is too deep (even when reading raw tokens)
    pub fn with_max_depth(self, new_max_depth: usize) -> (r: Self)
        ensures
            r.input() == self.input(),
            r.reading() == self.reading(),
            r.latched() == self.latched(),
            r.depth_limit() == new_max_depth,
    {
        let mut decoder = self;
        decoder.state.set_max_depth(new_max_depth);
        decoder
    }

    /// Read the next token. Returns Ok(Some(token)) if a token was successfully read,
    fn next_token(&mut self) -> (r: Result<Option<Token<'ser>>, Error>)
        ensures
            old(self).reads(*final(self), r),
    {
        let at_end = self.input.at_end();
        match self.state.check_error() {
            Err(error) => return Err(error),
            Ok(()) => {},
        }
        if at_end {
            match self.state.observe_eof() {
                Err(error) => return Err(error),
                Ok(()) => {},
            }
            return Ok(None);
        }
        proof {
            scan_token_advances(self.input.source@, self.input.offset as int);
        }
        let tok_result = self.input.raw_next_token();
        proof {
            use_type_invariant(&self.input);
        }
        let tok = match self.state.latch_err(tok_result) {
            Ok(tok) => tok,
            Err(error) => return Err(error),
        };
        match self.state.observe_token(&tok) {
            Err(error) => return Err(error),
            Ok(()) => {},
        }
        Ok(Some(tok))
    }

    /// `post` and `r` are what reading on from `self` gives, until at most
    /// `depth` levels are open.
    pub open spec fn skips(self, depth: nat, post: Self, r: Result<(), Error>) -> bool {
        &&& self.read_on(post)
        &&& match self.latched() {
            Some(error) => {
                &&& r == Err::<(), Error>(error)
                &&& post.reading() == self.reading()
                &&& post.latched() == self.latched()
            },
            None => match skip_to(self.input(), self.depth_limit(), self.reading(), depth) {
                Ok(to) => r is Ok && post.reading() == to && post.latched() is None,
                Err(violation) => {
                    &&& r matches Err(error)
                    &&& error.reports(violation)
                    &&& post.latched() == Some(error)
                },
            },
        }
    }

    /// `now` and `r` are what reading the next item of the container at
    /// level `depth` from `self` gives: `now` is the decoder right after
    /// the read. A list or a dictionary in `r` is a view that holds the
    /// decoder as it is then, and that has read nothing of its contents.
    pub open spec fn finds<'obj>(
        self,
        depth: nat,
        now: Self,
        r: Result<Option<Object<'obj, 'ser>>, Error>,
    ) -> bool {
        &&& self.read_on(now)
        &&& match self.latched() {
            Some(error) => {
                &&& r matches Err(same)
                &&& same == error
                &&& now.reading() == self.reading()
                &&& now.latched() == self.latched()
            },
            None => match next_item(self.input(), self.depth_limit(), self.reading(), depth) {
                Ok((token, next)) => {
                    &&& now.reading() == next
                    &&& now.latched() is None
                    &&& match token {
                        Some(token) => {
                            &&& r matches Ok(Some(object))
                            &&& object.token() == token
                            &&& object.decoder_or(now) == now
                            &&& object.opened(
                                item_start(
                                    self.input(),
                                    self.depth_limit(),
                                    self.reading(),
                                    depth,
                                ),
                            )
                        },
                        None => r matches Ok(None),
                    }
                },
                Err(violation) => {
                    &&& r matches Err(error)
                    &&& error.reports(violation)
                    &&& now.latched() == Some(error)
                },
            },
        }
    }

    /// `now` and `r` are what reading the next pair of the dictionary at
    /// level `depth` from `self` gives: the key is read as an item, and if
    /// it is a byte string, the value is read as the item after it. `now` is
    /// the decoder right after the reads. There is no pair where there is no
    /// key, or no value.
    pub open spec fn finds_pair<'obj>(
        self,
        depth: nat,
        now: Self,
        r: Result<Option<(&'ser [u8], Object<'obj, 'ser>)>, Error>,
    ) -> bool {
        &&& self.read_on(now)
        &&& match self.latched() {
            Some(error) => {
                &&& r matches Err(same)
                &&& same == error
                &&& now.reading() == self.reading()
                &&& now.latched() == self.latched()
            },
            None => match next_pair(self.input(), self.depth_limit(), self.reading(), depth) {
                Ok((pair, next)) => {
                    &&& now.reading() == next
                    &&& now.latched() is None
                    &&& match pair {
                        Some((key, token, start)) => {
                            &&& r matches Ok(Some((found, object)))
                            &&& found@ == key
                            &&& object.token() == token
                            &&& object.decoder_or(now) == now
                            &&& object.opened(start)
                        },
                        None => r matches Ok(None),
                    }
                },
                Err(violation) => {
                    &&& r matches Err(error)
                    &&& error.reports(violation)
                    &&& now.latched() == Some(error)
                },
            },
        }
    }

    /// Reads on until at most `depth` levels are open.
    fn drain(&mut self, depth: usize) -> (r: Result<(), Error>)
        ensures
            old(self).skips(depth as nat, *final(self), r),
    {
        proof {
            use_type_invariant(&self.input);
        }
        match self.state.check_error() {
            Err(error) => return Err(error),
            Ok(()) => {},
        }
        while self.state.depth() > depth
            invariant
                old(self).read_on(*self),
                old(self).latched() is None,
                self.latched() is None,
                0 <= self.reading().at <= self.input().len(),
                skip_to(self.input(), self.depth_limit(), self.reading(), depth as nat) == skip_to(
                    old(self).input(),
                    old(self).depth_limit(),
                    old(self).reading(),
                    depth as nat,
                ),
            decreases self.input().len() - self.reading().at,
        {
            proof {
                read_token_advances(self.input(), self.depth_limit(), self.reading());
            }
            match self.next_token() {
                Err(error) => return Err(error),
                Ok(_) => {},
            }
        }
        Ok(())
    }

    /// `post` and `r` are what reading the next item of the container at
    /// level `depth` from `self` gives: `r` holds the token with which the
    /// item begins, and the index of that token.
    pub open spec fn finds_token(
        self,
        depth: nat,
        post: Self,
        r: Result<(usize, Option<Token<'ser>>), Error>,
    ) -> bool {
        &&& self.read_on(post)
        &&& match self.latched() {
            Some(error) => {
                &&& r matches Err(same)
                &&& same == error
                &&& post.reading() == self.reading()
                &&& post.latched() == self.latched()
            },
            None => match next_item(self.input(), self.depth_limit(), self.reading(), depth) {
                Ok((token, next)) => {
                    &&& post.reading() == next
                    &&& post.latched() is None
                    &&& r matches Ok((start, found))
                    &&& token_view(found) == token
                    &&& start == item_start(
                        self.input(),
                        self.depth_limit(),
                        self.reading(),
                        depth,
                    )
                },
                Err(violation) => {
                    &&& r matches Err(error)
                    &&& error.reports(violation)
                    &&& post.latched() == Some(error)
                },
            },
        }
    }

    /// Reads the token with which the next item of the container at level
    /// `depth` begins. There is none where the container ends.
    fn item_at(&mut self, depth: usize) -> (r: Result<(usize, Option<Token<'ser>>), Error>)
        ensures
            old(self).finds_token(depth as nat, *final(self), r),
    {
        match self.drain(depth) {
            Err(error) => return Err(error),
            Ok(()) => {},
        }
        let start = self.input.offset;
        match self.next_token() {
            Err(error) => Err(error),
            Ok(None) => Ok((start, None)),
            Ok(Some(token)) => match token {
                Token::End => Ok((start, None)),
                other => Ok((start, Some(other))),
            },
        }
    }

    /// The object that begins with `token`, which was read last and stands
    /// at `start`: for a list or a dictionary, the view of its contents.
    fn object_of<'obj>(&'obj mut self, token: Token<'ser>, start: usize) -> (r: Object<'obj, 'ser>)
        requires
            !(token is End),
            token@.opens() ==> {
                &&& old(self).reading().frames.len() >= 1
                &&& start <= old(self).reading().at <= old(self).input().len()
                &&& old(self).latched() is None
            },
            token is Dict ==> old(self).reading().frames.last() is ExpectingKey,
        ensures
            r.token() == token@,
            r.decoder_or(*old(self)) == *old(self),
            r.opened(start as int),
            r matches Object::List(list) ==> *final(list.parent()) == *final(self),
            r matches Object::Dict(dict) ==> *final(dict.parent()) == *final(self),
            !token@.opens() ==> *final(self) == *old(self),
    {
        match token {
            Token::List => {
                let level = self.state.depth();
                Object::List(
                    ListDecoder { decoder: self, finished: false, start_point: start, depth: level },
                )
            },
            Token::Dict => {
                let level = self.state.depth();
                Object::Dict(
                    DictDecoder { decoder: self, finished: false, start_point: start, depth: level },
                )
            },
            Token::String(s) => Object::Bytes(s),
            Token::Num(s) => Object::Integer(s),
            Token::End => Object::Bytes(self.input.read_since(start)),
        }
    }

    /// What one read of an item says of the place it began at, and of the
    /// levels that are open after it.
    proof fn item_read_facts(self, depth: nat)
        requires
            self.latched() is None,
            0 <= self.reading().at <= self.input().len(),
        ensures
            next_item(self.input(), self.depth_limit(), self.reading(), depth) matches Ok(
                (Some(token), next),
            ) ==> {
                &&& item_start(self.input(), self.depth_limit(), self.reading(), depth) < next.at
                &&& token.opens() ==> next.frames.len() >= 1
                &&& token is Dict ==> next.frames.last() is ExpectingKey
            },
    {
        if let Ok(start) = skip_to(self.input(), self.depth_limit(), self.reading(), depth) {
            read_token_advances(self.input(), self.depth_limit(), start);
            if let Ok((Some(token), _)) = read_token(self.input(), self.depth_limit(), start) {
                step_moves_one_level(start.frames, self.depth_limit(), token);
            }
        }
    }

    /// Iterate over the tokens in the input stream. This guarantees that the resulting stream
    /// of tokens constitutes a valid bencoded structure.
    ///
    /// A list or a dictionary that was read in part only is read to its end
    /// first; an error in it ends the stream before its first token.
    pub fn tokens(self) -> (r: Tokens<'ser>)
        ensures
            self.skips(
                0,
                r.decoder(),
                match r.decoder().latched() {
                    Some(error) => Err(error),
                    None => Ok(()),
                },
            ),
    {
        let mut decoder = self;
        let _ = decoder.drain(0);
        Tokens(decoder)
    }

    /// Read the next object from the encoded stream
    ///
    /// If the beginning of an object was successfully read, returns `Ok(Some(object))`.
    /// At the end of the input stream, this will return `Ok(None)`; otherwise, returns
    /// `Err(some_error)`.
    ///
    /// Note that complex objects (lists and dicts) are not fully validated before being
    /// returned from this method, so you may still get an error while decoding the contents
    /// of the object
    ///
    /// A list or a dictionary that was read in part only is read to its end
    /// first: the object that is returned is the one that follows it.
    pub fn next_object<'obj>(&'obj mut self) -> (r: Result<Option<Object<'obj, 'ser>>, Error>)
        ensures
            old(self).finds(
                0,
                match r {
                    Ok(Some(object)) => object.decoder_or(*final(self)),
                    _ => *final(self),
                },
                r,
            ),
            r matches Ok(Some(Object::List(list))) ==> *final(list.parent()) == *final(self),
            r matches Ok(Some(Object::Dict(dict))) ==> *final(dict.parent()) == *final(self),
    {
        proof {
            use_type_invariant(&self.input);
        }
        proof {
            if self.latched() is None {
                self.item_read_facts(0);
            }
        }
        let (start, token) = match self.item_at(0) {
            Err(error) => return Err(error),
            Ok(found) => found,
        };
        match token {
            None => Ok(None),
            Some(token) => Ok(Some(self.object_of(token, start))),
        }
    }
}

/// A dictionary read from the input stream
pub struct DictDecoder<'obj, 'ser: 'obj> {
    decoder: &'obj mut Decoder<'ser>,
    finished: bool,
    start_point: usize,
    depth: usize,
}

/// A list read from the input stream
pub struct ListDecoder<'obj, 'ser: 'obj> {
    decoder: &'obj mut Decoder<'ser>,
    finished: bool,
    start_point: usize,
    depth: usize,
}

impl<'obj, 'ser: 'obj> ListDecoder<'obj, 'ser> {
    /// The decoder that the list is read from, as borrowed by the view.
    pub closed spec fn parent(&self) -> &'obj mut Decoder<'ser> {
        self.decoder
    }

    /// The decoder that the list is read from, as it stands.
    pub closed spec fn decoder(&self) -> Decoder<'ser> {
        *self.decoder
    }

    /// The `End` of the list was read.
    pub closed spec fn is_finished(&self) -> bool {
        self.finished
    }

    /// The number of levels open inside the list, before its `End`.
    pub closed spec fn level(&self) -> nat {
        self.depth as nat
    }

    /// The index of the token that opens the list.
    pub closed spec fn start(&self) -> int {
        self.start_point as int
    }

    /// A view that is not used any more leaves the decoder as it stands.
    pub proof fn gives_back(self)
        requires
            has_resolved(self),
        ensures
            *final(self.parent()) == self.decoder(),
    {
    }

    /// The view can leave the decoder as `end`: in the same input and not
    /// before where it is; and, unless an error is latched, with all that
    /// was open where the list began still open, as it was.
    pub open spec fn leaves(&self, end: Decoder<'ser>) -> bool {
        &&& self.decoder().read_on(end)
        &&& (end.latched() is Some || below_kept(
            self.decoder().reading().frames,
            end.reading().frames,
            self.level(),
        ))
    }

    /// The view is one that the decoder made, or what became of it: while
    /// the list is not finished and no error is latched, at least the list's
    /// own level is open.
    pub open spec fn wf(&self) -> bool {
        &&& self.level() >= 1
        &&& self.start() <= self.decoder().reading().at
        &&& self.leaves(self.decoder())
        &&& (self.is_finished() || self.decoder().latched() is Some
            || self.decoder().reading().frames.len() >= self.level())
    }

    /// The view is as the decoder makes it: nothing of the list is read, and
    /// the list opens at `start`.
    pub open spec fn fresh(&self, start: int) -> bool {
        &&& self.wf()
        &&& !self.is_finished()
        &&& self.start() == start
        &&& self.level() == self.decoder().reading().frames.len()
        &&& self.decoder().latched() is None
    }

    /// `post` is this view later on: of the same list.
    pub open spec fn same_list(self, post: Self) -> bool {
        &&& post.level() == self.level()
        &&& post.start() == self.start()
    }

    /// `post` and `r` are what reading the next item of the list gives,
    /// where `post` is the view when the item that was found is given up.
    /// A view that is finished finds nothing; else the item is found as
    /// [`Decoder::finds`] says.
    pub open spec fn reads_item<'item>(
        self,
        post: Self,
        r: Result<Option<Object<'item, 'ser>>, Error>,
    ) -> bool {
        &&& self.same_list(post)
        &&& self.is_finished() ==> (r matches Ok(None)) && post.is_finished() && post.decoder()
            == self.decoder()
        &&& !self.is_finished() ==> {
            &&& post.is_finished() == (r matches Ok(None))
            &&& self.decoder().finds(
                self.level(),
                match r {
                    Ok(Some(object)) => object.decoder_or(post.decoder()),
                    _ => post.decoder(),
                },
                r,
            )
        }
        &&& match r {
            Ok(Some(Object::List(list))) => self.leaves(list.decoder()) && list.level()
                == self.level() + 1,
            Ok(Some(Object::Dict(dict))) => self.leaves(dict.decoder()) && dict.level()
                == self.level() + 1,
            _ => post.wf() && self.leaves(post.decoder()),
        }
    }

    /// Get the next item from the list. Returns `Ok(None)` at the end of the list
    ///
    /// An item that is a list or a dictionary, and that was read in part
    /// only, is read to its end first.
    pub fn next_object<'item>(&'item mut self) -> (r: Result<Option<Object<'item, 'ser>>, Error>)
        requires
            old(self).wf(),
        ensures
            old(self).reads_item(*final(self), r),
            *final(final(self).parent()) == *final(old(self).parent()),
            match r {
                Ok(Some(Object::List(list))) => *final(list.parent()) == final(self).decoder(),
                Ok(Some(Object::Dict(dict))) => *final(dict.parent()) == final(self).decoder(),
                _ => true,
            },
    {
        if self.finished {
            return Ok(None);
        }
        proof {
            if self.decoder().latched() is None {
                items_lead_out(
                    self.decoder().input(),
                    self.decoder().depth_limit(),
                    self.decoder().reading(),
                    self.level(),
                );
            }
        }
        proof {
            if self.decoder().latched() is None {
                self.decoder().item_read_facts(self.level());
                item_keeps_below(
                    self.decoder().input(),
                    self.decoder().depth_limit(),
                    self.decoder().reading(),
                    self.level(),
                );
            }
        }
        let (start, token) = match self.decoder.item_at(self.depth) {
            Err(error) => return Err(error),
            Ok(found) => found,
        };
        match token {
            None => {
                self.finished = true;
                Ok(None)
            },
            Some(token) => Ok(Some(self.decoder.object_of(token, start))),
        }
    }

    /// Consume (and validate the structure of) the rest of the items from the
    /// list. This method should be used to check for encoding errors if
    /// [`ListDecoder::next_object`] is not called until it returns [`Ok(())`].
    ///
    /// [`Ok(())`]: https://doc.rust-lang.org/std/result/enum.Result.html#variant.Ok
    #[verifier::rlimit(60)]
    pub fn consume_all(&mut self) -> (r: Result<(), Error>)
        requires
            old(self).wf(),
        ensures
            old(self).same_list(*final(self)),
            final(self).wf(),
            *final(final(self).parent()) == *final(old(self).parent()),
            old(self).leaves(final(self).decoder()),
            r is Ok ==> final(self).is_finished(),
            old(self).is_finished() ==> r is Ok && final(self).decoder() == old(self).decoder(),
            !old(self).is_finished() ==> old(self).decoder().skips(
                (old(self).level() - 1) as nat,
                final(self).decoder(),
                r,
            ),
    {
        if self.finished {
            return Ok(());
        }
        match self.decoder.state.check_error() {
            Err(error) => return Err(error),
            Ok(()) => {},
        }
        loop
            invariant
                old(self).same_list(*self),
                self.wf(),
                old(self).decoder().read_on(self.decoder()),
                old(self).leaves(self.decoder()),
                !self.is_finished(),
                !old(self).is_finished(),
                old(self).decoder().latched() is None,
                self.decoder().latched() is None,
                *final(self.parent()) == *final(old(self).parent()),
                skip_to(
                    self.decoder().input(),
                    self.decoder().depth_limit(),
                    self.decoder().reading(),
                    (self.level() - 1) as nat,
                ) == skip_to(
                    old(self).decoder().input(),
                    old(self).decoder().depth_limit(),
                    old(self).decoder().reading(),
                    (old(self).level() - 1) as nat,
                ),
            decreases self.decoder().input().len() - self.decoder().reading().at,
        {
            proof {
                items_lead_out(
                    self.decoder().input(),
                    self.decoder().depth_limit(),
                    self.decoder().reading(),
                    self.level(),
                );
            }
            let ghost before = self.decoder().reading().frames;
            match self.next_object() {
                Err(error) => return Err(error),
                Ok(None) => return Ok(()),
                Ok(Some(_)) => {},
            }
            proof {
                below_kept_chains(
                    old(self).decoder().reading().frames,
                    before,
                    self.decoder().reading().frames,
                    self.level(),
                );
            }
        }
    }

    /// Get the raw bytes that made up this list
    pub fn into_raw(self) -> (r: Result<&'ser [u8], Error>)
        requires
            self.wf(),
        ensures
            self.decoder().read_on(*final(self.parent())),
            self.leaves(*final(self.parent())),
            self.is_finished() ==> *final(self.parent()) == self.decoder(),
            !self.is_finished() ==> self.decoder().skips(
                (self.level() - 1) as nat,
                *final(self.parent()),
                match r {
                    Ok(_) => Ok(()),
                    Err(error) => Err(error),
                },
            ),
            r matches Ok(raw) ==> raw@ == self.decoder().input().subrange(
                self.start(),
                final(self.parent()).reading().at,
            ),
    {
        let mut list = self;
        match list.consume_all() {
            Err(error) => return Err(error),
            Ok(()) => {},
        }
        Ok(list.decoder.input.read_since(list.start_point))
    }
}

impl<'obj, 'ser: 'obj> DictDecoder<'obj, 'ser> {
    /// The decoder that the dictionary is read from, as borrowed by the view.
    pub closed spec fn parent(&self) -> &'obj mut Decoder<'ser> {
        self.decoder
    }

    /// The decoder that the dictionary is read from, as it stands.
    pub closed spec fn decoder(&self) -> Decoder<'ser> {
        *self.decoder
    }

    /// The `End` of the dictionary was read.
    pub closed spec fn is_finished(&self) -> bool {
        self.finished
    }

    /// The number of levels open inside the dictionary, before its `End`.
    pub closed spec fn level(&self) -> nat {
        self.depth as nat
    }

    /// The index of the token that opens the dictionary.
    pub closed spec fn start(&self) -> int {
        self.start_point as int
    }

    /// A view that is not used any more leaves the decoder as it stands.
    pub proof fn gives_back(self)
        requires
            has_resolved(self),
        ensures
            *final(self.parent()) == self.decoder(),
    {
    }

    /// The view can leave the decoder as `end`: in the same input and not
    /// before where it is; and, unless an error is latched, with all that
    /// was open where the dictionary began still open, as it was.
    pub open spec fn leaves(&self, end: Decoder<'ser>) -> bool {
        &&& self.decoder().read_on(end)
        &&& (end.latched() is Some || below_kept(
            self.decoder().reading().frames,
            end.reading().frames,
            self.level(),
        ))
    }

    /// The view is one that the decoder made, or what became of it: while
    /// the dictionary is not finished and no error is latched, the
    /// dictionary's own level is open, and a key comes next in it.
    pub open spec fn wf(&self) -> bool {
        &&& self.level() >= 1
        &&& self.start() <= self.decoder().reading().at
        &&& self.leaves(self.decoder())
        &&& (self.is_finished() || self.decoder().latched() is Some || awaits_key(
            self.decoder().reading().frames,
            self.level(),
        ))
    }

    /// The view is as the decoder makes it: nothing of the dictionary is
    /// read, and the dictionary opens at `start`.
    pub open spec fn fresh(&self, start: int) -> bool {
        &&& self.wf()
        &&& !self.is_finished()
        &&& self.start() == start
        &&& self.level() == self.decoder().reading().frames.len()
        &&& self.decoder().latched() is None
    }

    /// `post` is this view later on: of the same dictionary.
    pub open spec fn same_dict(self, post: Self) -> bool {
        &&& post.level() == self.level()
        &&& post.start() == self.start()
    }

    /// `post` and `r` are what reading the next pair of the dictionary
    /// gives, where `post` is the view when the value that was found is
    /// given up. A view that is finished finds nothing; else the pair is
    /// found as [`Decoder::finds_pair`] says.
    pub open spec fn reads_pair<'item>(
        self,
        post: Self,
        r: Result<Option<(&'ser [u8], Object<'item, 'ser>)>, Error>,
    ) -> bool {
        &&& self.same_dict(post)
        &&& self.is_finished() ==> (r matches Ok(None)) && post.is_finished() && post.decoder()
            == self.decoder()
        &&& !self.is_finished() ==> {
            &&& post.is_finished() == (r matches Ok(None))
            &&& self.decoder().finds_pair(
                self.level(),
                match r {
                    Ok(Some((_, object))) => object.decoder_or(post.decoder()),
                    _ => post.decoder(),
                },
                r,
            )
        }
        &&& match r {
            Ok(Some((_, Object::List(list)))) => self.leaves(list.decoder()) && list.level()
                == self.level() + 1,
            Ok(Some((_, Object::Dict(dict)))) => self.leaves(dict.decoder()) && dict.level()
                == self.level() + 1,
            _ => post.wf() && self.leaves(post.decoder()),
        }
    }

    /// Parse the next key/value pair from the dictionary. Returns `Ok(None)`
    /// at the end of the dictionary
    ///
    /// A value that is a list or a dictionary, and that was read in part
    /// only, is read to its end first.
    pub fn next_pair<'item>(&'item mut self) -> (r: Result<
        Option<(&'ser [u8], Object<'item, 'ser>)>,
        Error,
    >)
        requires
            old(self).wf(),
        ensures
            old(self).reads_pair(*final(self), r),
            *final(final(self).parent()) == *final(old(self).parent()),
            match r {
                Ok(Some((_, Object::List(list)))) => *final(list.parent()) == final(self).decoder(),
                Ok(Some((_, Object::Dict(dict)))) => *final(dict.parent()) == final(self).decoder(),
                _ => true,
            },
    {
        if self.finished {
            return Ok(None);
        }
        proof {
            if self.decoder().latched() is None {
                items_lead_out(
                    self.decoder().input(),
                    self.decoder().depth_limit(),
                    self.decoder().reading(),
                    self.level(),
                );
                keys_and_values_alternate(
                    self.decoder().input(),
                    self.decoder().depth_limit(),
                    self.decoder().reading(),
                    self.level(),
                );
                item_keeps_below(
                    self.decoder().input(),
                    self.decoder().depth_limit(),
                    self.decoder().reading(),
                    self.level(),
                );
            }
        }
        let ghost before = self.decoder().reading().frames;
        let key = match self.decoder.item_at(self.depth) {
            Err(error) => return Err(error),
            Ok((_, key)) => key,
        };
        let k = match key {
            Some(Token::String(k)) => k,
            _ => {
                // Nothing but a string can have come: anything else is a state error
                self.finished = true;
                return Ok(None);
            },
        };
        proof {
            items_lead_out(
                self.decoder().input(),
                self.decoder().depth_limit(),
                self.decoder().reading(),
                self.level(),
            );
            self.decoder().item_read_facts(self.level());
            item_keeps_below(
                self.decoder().input(),
                self.decoder().depth_limit(),
                self.decoder().reading(),
                self.level(),
            );
            if let Ok((_, next)) = next_item(
                self.decoder().input(),
                self.decoder().depth_limit(),
                self.decoder().reading(),
                self.level(),
            ) {
                below_kept_chains(
                    before,
                    self.decoder().reading().frames,
                    next.frames,
                    self.level(),
                );
            }
        }
        let (start, value) = match self.decoder.item_at(self.depth) {
            Err(error) => return Err(error),
            Ok(found) => found,
        };
        // After a key the grammar asks for a value: no value is an error, caught above
        let value = value.unwrap();
        Ok(Some((k, self.decoder.object_of(value, start))))
    }

    /// Consume (and validate the structure of) the rest of the items from the
    /// dictionary. This method should be used to check for encoding errors if
    /// [`DictDecoder::next_pair`] is not called until it returns `Ok(None)`.
    #[verifier::rlimit(60)]
    pub fn consume_all(&mut self) -> (r: Result<(), Error>)
        requires
            old(self).wf(),
        ensures
            old(self).same_dict(*final(self)),
            final(self).wf(),
            *final(final(self).parent()) == *final(old(self).parent()),
            old(self).leaves(final(self).decoder()),
            r is Ok ==> final(self).is_finished(),
            old(self).is_finished() ==> r is Ok && final(self).decoder() == old(self).decoder(),
            !old(self).is_finished() ==> old(self).decoder().skips(
                (old(self).level() - 1) as nat,
                final(self).decoder(),
                r,
            ),
    {
        if self.finished {
            return Ok(());
        }
        match self.decoder.state.check_error() {
            Err(error) => return Err(error),
            Ok(()) => {},
        }
        loop
            invariant
                old(self).same_dict(*self),
                self.wf(),
                old(self).decoder().read_on(self.decoder()),
                old(self).leaves(self.decoder()),
                !self.is_finished(),
                !old(self).is_finished(),
                old(self).decoder().latched() is None,
                self.decoder().latched() is None,
                *final(self.parent()) == *final(old(self).parent()),
                skip_to(
                    self.decoder().input(),
                    self.decoder().depth_limit(),
                    self.decoder().reading(),
                    (self.level() - 1) as nat,
                ) == skip_to(
                    old(self).decoder().input(),
                    old(self).decoder().depth_limit(),
                    old(self).decoder().reading(),
                    (old(self).level() - 1) as nat,
                ),
            decreases self.decoder().input().len() - self.decoder().reading().at,
        {
            proof {
                pairs_lead_out(
                    self.decoder().input(),
                    self.decoder().depth_limit(),
                    self.decoder().reading(),
                    self.level(),
                );
            }
            let ghost before = self.decoder().reading().frames;
            match self.next_pair() {
                Err(error) => return Err(error),
                Ok(None) => return Ok(()),
                Ok(Some(_)) => {},
            }
            proof {
                below_kept_chains(
                    old(self).decoder().reading().frames,
                    before,
                    self.decoder().reading().frames,
                    self.level(),
                );
            }
        }
    }

    /// Get the raw bytes that made up this dictionary
    pub fn into_raw(self) -> (r: Result<&'ser [u8], Error>)
        requires
            self.wf(),
        ensures
            self.decoder().read_on(*final(self.parent())),
            self.leaves(*final(self.parent())),
            self.is_finished() ==> *final(self.parent()) == self.decoder(),
            !self.is_finished() ==> self.decoder().skips(
                (self.level() - 1) as nat,
                *final(self.parent()),
                match r {
                    Ok(_) => Ok(()),
                    Err(error) => Err(error),
                },
            ),
            r matches Ok(raw) ==> raw@ == self.decoder().input().subrange(
                self.start(),
                final(self.parent()).reading().at,
            ),
    {
        let mut dict = self;
        match dict.consume_all() {
            Err(error) => return Err(error),
            Ok(()) => {},
        }
        Ok(dict.decoder.input.read_since(dict.start_point))
    }
}

/// An error that a decoder has latched is what every further read returns,
/// and it stays latched.
pub proof fn latched_error_repeats<'obj, 'ser>(
    before: Decoder<'ser>,
    error: Error,
    depth: nat,
    after: Decoder<'ser>,
    token: Result<Option<Token<'ser>>, Error>,
    skipped: Result<(), Error>,
    object: Result<Option<Object<'obj, 'ser>>, Error>,
    pair: Result<Option<(&'ser [u8], Object<'obj, 'ser>)>, Error>,
)
    requires
        before.latched() == Some(error),
    ensures
        before.reads(after, token) ==> token == Err::<Option<Token<'ser>>, Error>(error)
            && after.latched() == Some(error),
        before.skips(depth, after, skipped) ==> skipped == Err::<(), Error>(error)
            && after.latched() == Some(error),
        before.finds(depth, after, object) ==> object is Err && object->Err_0 == error
            && after.latched() == Some(error),
        before.finds_pair(depth, after, pair) ==> pair is Err && pair->Err_0 == error
            && after.latched() == Some(error),
{
}

/// The error that a read returns is latched by it.
pub proof fn returned_error_is_latched<'obj, 'ser>(
    before: Decoder<'ser>,
    depth: nat,
    after: Decoder<'ser>,
    token: Result<Option<Token<'ser>>, Error>,
    skipped: Result<(), Error>,
    object: Result<Option<Object<'obj, 'ser>>, Error>,
    pair: Result<Option<(&'ser [u8], Object<'obj, 'ser>)>, Error>,
)
    ensures
        before.reads(after, token) && token is Err ==> after.latched() == Some(token->Err_0),
        before.skips(depth, after, skipped) && skipped is Err ==> after.latched() == Some(
            skipped->Err_0,
        ),
        before.finds(depth, after, object) && object is Err ==> after.latched() == Some(
            object->Err_0,
        ),
        before.finds_pair(depth, after, pair) && pair is Err ==> after.latched() == Some(
            pair->Err_0,
        ),
{
}

/// What an optional token stands for.
pub open spec fn token_view(token: Option<Token<'_>>) -> Option<TokenView> {
    match token {
        Some(token) => Some(token@),
        None => None,
    }
}

/// The tokens of the input stream, one after the other. This guarantees that
/// the resulting stream of tokens constitutes a valid bencoded structure.
pub struct Tokens<'a>(Decoder<'a>);

impl<'a> Tokens<'a> {
    /// The decoder that reads the tokens.
    pub closed spec fn decoder(&self) -> Decoder<'a> {
        self.0
    }

    /// The next token, or the error that ends the stream. An error is
    /// reported once: after it, and after the end of the input, there is
    /// nothing more.
    pub fn next(&mut self) -> (r: Option<Result<Token<'a>, Error>>)
        ensures
            old(self).decoder().latched() is Some ==> r is None && final(self).decoder()
                == old(self).decoder(),
            old(self).decoder().latched() is None ==> old(self).decoder().reads(
                final(self).decoder(),
                match r {
                    Some(Ok(token)) => Ok(Some(token)),
                    Some(Err(error)) => Err(error),
                    None => Ok(None),
                },
            ),
    {
        // Only report an error once
        if self.0.state.check_error().is_err() {
            return None;
        }
        match self.0.next_token() {
            Ok(Some(token)) => Some(Ok(token)),
            Ok(None) => None,
            Err(err) => Some(Err(err)),
        }
    }
}

} // verus!
