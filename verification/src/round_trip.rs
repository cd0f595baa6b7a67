//! What is written is what is read: a token that the decoder scans is the
//! bytes that the encoder writes for it, and the other way round. From
//! that follows what holds of whole streams: the decoder accepts what a
//! sound encoder has finished, and what it reads is written again as the
//! bytes that it read.
use vstd::prelude::*;
use vstd::utf8::{encode_utf8, encode_utf8_decode_utf8};

use crate::decoding::decoder::{
    item_is_skipped, items_lead_out, next_item, read_token, skip_to, skip_to_composes,
    skip_to_lands, skipped, skipped_composes, step_moves_one_level, Decoder, Reading,
};
use crate::decoding::object::{unread, Object};
use crate::decoding::syntax::{
    decimal_value, digits_end, digits_end_bounds, is_canonical_int, is_canonical_length, is_digit,
    is_nonzero_digit, scan_int, scan_int_finds_canonical, scan_token,
};
use crate::encoding::encoder::{
    integer_bytes, pairs_passage, passage, token_bytes, Encoder, Passage,
};
use crate::state_tracker::state::opened_by;
use crate::state_tracker::{run, step, FrameView, StructureErrorView, TokenView};
use crate::text::{
    ascii_bytes_are_utf8, ascii_text, decimal_bytes, decimal_int_bytes, is_ascii_bytes, magnitude,
    numeral_value, NumeralError,
};

verus! {

/// The decimal numeral of a number is made of digits, and it begins with
/// `0` only where the number is 0.
pub proof fn decimal_bytes_are_canonical(n: nat)
    ensures
        decimal_bytes(n).len() >= 1,
        forall|i: int| 0 <= i < decimal_bytes(n).len() ==> is_digit(#[trigger] decimal_bytes(n)[i]),
        n == 0 ==> decimal_bytes(n) == seq![48u8],
        n > 0 ==> is_nonzero_digit(decimal_bytes(n)[0]),
        is_canonical_length(decimal_bytes(n)),
    decreases n,
{
    if n >= 10 {
        decimal_bytes_are_canonical(n / 10);
    }
    let d = decimal_bytes(n);
    all_digits_end(d, 0);
}

/// Where everything from `from` on is a digit, the digits end where the
/// bytes end.
pub proof fn all_digits_end(bytes: Seq<u8>, from: int)
    requires
        0 <= from <= bytes.len(),
        forall|i: int| from <= i < bytes.len() ==> is_digit(#[trigger] bytes[i]),
    ensures
        digits_end(bytes, from) == bytes.len(),
    decreases bytes.len() - from,
{
    if from < bytes.len() {
        assert(is_digit(bytes[from]));
        all_digits_end(bytes, from + 1);
    }
}

/// Where the bytes from `from` up to `end` are digits and the byte at
/// `end`, if there is one, is none, the digits that begin at `from` end at
/// `end`.
pub proof fn digits_end_at(src: Seq<u8>, from: int, end: int)
    requires
        0 <= from <= end <= src.len(),
        forall|i: int| from <= i < end ==> is_digit(#[trigger] src[i]),
        end < src.len() ==> !is_digit(src[end]),
    ensures
        digits_end(src, from) == end,
    decreases end - from,
{
    if from < end {
        assert(is_digit(src[from]));
        digits_end_at(src, from + 1, end);
    }
}

/// The numeral of a number writes that number.
pub proof fn decimal_value_of_decimal_bytes(n: nat)
    ensures
        decimal_value(decimal_bytes(n)) == n,
    decreases n,
{
    let d = decimal_bytes(n);
    if n < 10 {
        assert(d.drop_last() =~= Seq::<u8>::empty());
        assert(decimal_value(d.drop_last()) == 0);
        assert(d.last() == 48 + n);
    } else {
        decimal_value_of_decimal_bytes(n / 10);
        assert(d.drop_last() =~= decimal_bytes(n / 10));
        assert(d.last() == 48 + n % 10);
        assert(decimal_value(d) == decimal_value(d.drop_last()) * 10 + (d.last() - 48));
    }
}

/// Digits of which the first is not `0` write a number that is not 0.
proof fn nonzero_digits_write_nonzero(digits: Seq<u8>)
    requires
        digits.len() >= 1,
        is_nonzero_digit(digits[0]),
        forall|i: int| 0 <= i < digits.len() ==> is_digit(#[trigger] digits[i]),
    ensures
        decimal_value(digits) >= 1,
    decreases digits.len(),
{
    if digits.len() == 1 {
        assert(digits.drop_last() =~= Seq::<u8>::empty());
    } else {
        nonzero_digits_write_nonzero(digits.drop_last());
    }
}

/// A length in canonical form is the numeral of the number it writes.
pub proof fn decimal_bytes_of_decimal_value(digits: Seq<u8>)
    requires
        is_canonical_length(digits),
    ensures
        decimal_bytes(decimal_value(digits)) == digits,
    decreases digits.len(),
{
    let front = digits.drop_last();
    assert(digits.len() >= 1 && is_digit(digits.last())) by {
        if digits == seq![48u8] {
            assert(digits.len() == 1);
            assert(digits[0] == 48);
        } else {
            digits_end_bounds(digits, 0);
        }
    }
    assert(decimal_value(digits) == decimal_value(front) * 10 + (digits.last() - 48));
    if digits == seq![48u8] {
        assert(front =~= Seq::<u8>::empty());
        assert(decimal_value(front) == 0);
        assert(decimal_bytes(0) =~= digits);
    } else {
        digits_end_bounds(digits, 0);
        if digits.len() == 1 {
            assert(front =~= Seq::<u8>::empty());
            assert(decimal_value(front) == 0);
            assert(is_digit(digits[0]));
            assert(decimal_bytes(decimal_value(digits)) =~= digits);
        } else {
            assert(is_digit(digits.last()));
            assert(front[0] == digits[0]);
            all_digits_end(front, 0);
            nonzero_digits_write_nonzero(front);
            decimal_bytes_of_decimal_value(front);
            let n = decimal_value(digits);
            assert(n / 10 == decimal_value(front));
            assert(n % 10 == digits.last() - 48);
            assert(decimal_bytes(n) =~= digits);
        }
    }
}

/// An integer in canonical form that stands at `start` before its
/// terminator is scanned up to the terminator.
pub proof fn canonical_is_scanned(src: Seq<u8>, start: int, body: Seq<u8>, terminator: u8)
    requires
        0 <= start,
        start + body.len() < src.len(),
        src.subrange(start, start + body.len()) == body,
        is_canonical_int(body),
        src[start + body.len()] == terminator,
        !is_digit(terminator),
        terminator != 45,
    ensures
        scan_int(src, start, terminator) == Ok::<int, StructureErrorView>(start + body.len()),
{
    let end = start + body.len();
    assert forall|i: int| 0 <= i < body.len() implies src[start + i] == #[trigger] body[i] by {
        assert(src.subrange(start, end)[i] == src[start + i]);
    }
    assert(src[start] == body[0]);
    if body == seq![48u8] {
    } else if is_nonzero_digit(body[0]) {
        digits_end_bounds(body, 0);
        assert forall|i: int| start <= i < end implies is_digit(#[trigger] src[i]) by {
            assert(src[i] == body[i - start]);
        }
        digits_end_at(src, start, end);
    } else {
        digits_end_bounds(body, 1);
        assert(src[start + 1] == body[1]);
        assert forall|i: int| start + 1 <= i < end implies is_digit(#[trigger] src[i]) by {
            assert(src[i] == body[i - start]);
        }
        digits_end_at(src, start + 1, end);
    }
}

/// The token can be written and read again: the text of a number is an
/// integer in canonical form, and the length of a byte string is one that
/// a `usize` holds.
pub open spec fn readable(token: TokenView) -> bool {
    match token {
        TokenView::Num(text) => is_canonical_int(encode_utf8(text)),
        TokenView::String(content) => content.len() <= usize::MAX,
        _ => true,
    }
}

/// A number's text in canonical form is the text of its bytes.
pub proof fn canonical_text_is_ascii(text: Seq<char>)
    requires
        is_canonical_int(encode_utf8(text)),
    ensures
        is_ascii_bytes(encode_utf8(text)),
        ascii_text(encode_utf8(text)) == text,
{
    let body = encode_utf8(text);
    if body == seq![48u8] {
    } else if is_nonzero_digit(body[0]) {
        digits_end_bounds(body, 0);
    } else {
        digits_end_bounds(body, 1);
    }
    assert(is_ascii_bytes(body)) by {
        assert forall|i: int| 0 <= i < body.len() implies #[trigger] body[i] < 128 by {
            if body != seq![48u8] {
                if i == 0 {
                } else {
                    assert(is_digit(body[i]));
                }
            }
        }
    }
    ascii_bytes_are_utf8(body);
    encode_utf8_decode_utf8(text);
}

/// A token that is written is read again: where the bytes of a readable
/// token stand at `at`, scanning there gives the token, and ends right
/// after its bytes.
pub proof fn written_token_is_scanned(src: Seq<u8>, at: int, token: TokenView)
    requires
        readable(token),
        0 <= at,
        at + token_bytes(token).len() <= src.len(),
        src.subrange(at, at + token_bytes(token).len()) == token_bytes(token),
    ensures
        scan_token(src, at) == Ok::<(TokenView, int), StructureErrorView>(
            (token, at + token_bytes(token).len()),
        ),
{
    let bytes = token_bytes(token);
    let end = at + bytes.len();
    assert forall|i: int| 0 <= i < bytes.len() implies src[at + i] == #[trigger] bytes[i] by {
        assert(src.subrange(at, end)[i] == src[at + i]);
    }
    match token {
        TokenView::Num(text) => {
            let body = encode_utf8(text);
            assert(src[at] == bytes[0]);
            assert(src[end - 1] == bytes[bytes.len() - 1]);
            assert(src.subrange(at + 1, at + 1 + body.len()) =~= body) by {
                assert forall|i: int| 0 <= i < body.len() implies src[at + 1 + i] == body[i] by {
                    assert(bytes[1 + i] == body[i]);
                }
            }
            canonical_is_scanned(src, at + 1, body, 101);
            canonical_text_is_ascii(text);
        },
        TokenView::String(content) => {
            let digits = decimal_bytes(content.len());
            decimal_bytes_are_canonical(content.len());
            decimal_value_of_decimal_bytes(content.len());
            assert(src[at] == bytes[0]);
            assert(bytes[0] == digits[0]);
            assert(src.subrange(at, at + digits.len()) =~= digits) by {
                assert forall|i: int| 0 <= i < digits.len() implies src[at + i] == digits[i] by {
                    assert(bytes[i] == digits[i]);
                }
            }
            assert(src[at + digits.len()] == bytes[digits.len() as int]);
            canonical_is_scanned(src, at, digits, 58);
            let colon = at + digits.len();
            assert(src.subrange(colon + 1, colon + 1 + content.len()) =~= content) by {
                assert forall|i: int| 0 <= i < content.len() implies src[colon + 1 + i]
                    == content[i] by {
                    assert(bytes[digits.len() + 1 + i] == content[i]);
                }
            }
        },
        _ => {
            assert(src[at] == bytes[0]);
        },
    }
}

/// A token that is read is written again as it stood: the bytes that the
/// encoder writes for a token that the decoder scanned are the bytes that
/// the decoder scanned it from.
pub proof fn scanned_token_is_written(src: Seq<u8>, at: int)
    ensures
        scan_token(src, at) matches Ok((token, next)) ==> {
            &&& readable(token)
            &&& 0 <= at < next <= src.len()
            &&& token_bytes(token) == src.subrange(at, next)
        },
{
    if let Ok((token, next)) = scan_token(src, at) {
        match token {
            TokenView::Num(text) => {
                scan_int_finds_canonical(src, at + 1, 101);
                let end = next - 1;
                let body = src.subrange(at + 1, end);
                if body == seq![48u8] {
                } else if is_nonzero_digit(body[0]) {
                    digits_end_bounds(body, 0);
                } else {
                    digits_end_bounds(body, 1);
                }
                assert(is_ascii_bytes(body)) by {
                    assert forall|i: int| 0 <= i < body.len() implies #[trigger] body[i]
                        < 128 by {
                        if body != seq![48u8] {
                            if i == 0 {
                            } else {
                                assert(is_digit(body[i]));
                            }
                        }
                    }
                }
                ascii_bytes_are_utf8(body);
                assert(token_bytes(token) =~= src.subrange(at, next));
            },
            TokenView::String(content) => {
                scan_int_finds_canonical(src, at, 58);
                let colon = next - content.len() - 1;
                let digits = src.subrange(at, colon);
                decimal_bytes_of_decimal_value(digits);
                assert(token_bytes(token) =~= src.subrange(at, next));
            },
            _ => {
                assert(token_bytes(token) =~= src.subrange(at, next));
            },
        }
    }
}

/// The bytes that an integer is written as are those of a number token in
/// canonical form.
pub proof fn integer_is_written_canonically(number: int)
    ensures
        is_canonical_int(decimal_int_bytes(number)),
        integer_bytes(number) == token_bytes(
            TokenView::Num(ascii_text(decimal_int_bytes(number))),
        ),
        readable(TokenView::Num(ascii_text(decimal_int_bytes(number)))),
{
    let body = decimal_int_bytes(number);
    if number < 0 {
        let digits = decimal_bytes((-number) as nat);
        decimal_bytes_are_canonical((-number) as nat);
        assert forall|i: int| 1 <= i < body.len() implies is_digit(#[trigger] body[i]) by {
            assert(body[i] == digits[i - 1]);
        }
        assert(body[1] == digits[0]);
        all_digits_end(body, 1);
    } else {
        decimal_bytes_are_canonical(number as nat);
    }
    assert(is_ascii_bytes(body)) by {
        if body == seq![48u8] {
        } else if is_nonzero_digit(body[0]) {
            digits_end_bounds(body, 0);
        } else {
            digits_end_bounds(body, 1);
        }
        assert forall|i: int| 0 <= i < body.len() implies #[trigger] body[i] < 128 by {
            if body != seq![48u8] {
                if i == 0 {
                } else {
                    assert(is_digit(body[i]));
                }
            }
        }
    }
    ascii_bytes_are_utf8(body);
}

/// Reading digits with one digit more behind them: the number read so far
/// takes the digit in, unless something was wrong before, or the number
/// passes the limit with it.
proof fn magnitude_with_one_more(digits: Seq<u8>, digit: u8, limit: nat, so_far: nat)
    requires
        is_digit(digit),
    ensures
        magnitude(digits.push(digit), limit, so_far) == match magnitude(digits, limit, so_far) {
            Some(Some(value)) => if value * 10 + (digit - 48) > limit {
                None
            } else {
                Some(Some((value * 10 + (digit - 48)) as nat))
            },
            other => other,
        },
    decreases digits.len(),
{
    let more = digits.push(digit);
    if digits.len() == 0 {
        assert(more.drop_first() =~= Seq::<u8>::empty());
        assert(more[0] == digit);
        let next = so_far * 10 + (digit - 48) as nat;
        if next <= limit {
            assert(magnitude(more.drop_first(), limit, next) == Some(Some(next)));
        }
    } else {
        assert(more[0] == digits[0]);
        assert(more.drop_first() =~= digits.drop_first().push(digit));
        if 48 <= digits[0] <= 57 {
            let next = so_far * 10 + (digits[0] - 48) as nat;
            if next <= limit {
                magnitude_with_one_more(digits.drop_first(), digit, limit, next);
            }
        }
    }
}

/// The numeral of a number up to the limit is read as that number.
proof fn magnitude_of_decimal_bytes(n: nat, limit: nat)
    requires
        n <= limit,
    ensures
        magnitude(decimal_bytes(n), limit, 0) == Some(Some(n)),
    decreases n,
{
    if n < 10 {
        let d = decimal_bytes(n);
        assert(d.drop_first() =~= Seq::<u8>::empty());
        assert(d[0] == 48 + n);
        assert(magnitude(d.drop_first(), limit, n) == Some(Some(n)));
    } else {
        magnitude_of_decimal_bytes(n / 10, limit);
        magnitude_with_one_more(decimal_bytes(n / 10), (48 + n % 10) as u8, limit, 0);
    }
}

/// Digits within a limit write the number that they are read as.
proof fn magnitude_is_decimal_value(digits: Seq<u8>, limit: nat)
    requires
        forall|i: int| 0 <= i < digits.len() ==> is_digit(#[trigger] digits[i]),
    ensures
        magnitude(digits, limit, 0) matches Some(Some(value)) ==> value == decimal_value(digits),
    decreases digits.len(),
{
    if digits.len() > 0 {
        let init = digits.drop_last();
        assert(init.push(digits.last()) =~= digits);
        magnitude_with_one_more(init, digits.last(), limit, 0);
        magnitude_is_decimal_value(init, limit);
    }
}

/// A number that was read from canonical form is written as what it was
/// read from.
pub proof fn read_integer_is_written(text: Seq<u8>, signed: bool, min: int, max: int)
    requires
        is_canonical_int(text),
        min <= 0 <= max,
    ensures
        numeral_value(text, signed, min, max) matches Ok(number) ==> decimal_int_bytes(number)
            == text,
{
    if text == seq![48u8] {
        magnitude_is_decimal_value(text, max as nat);
        assert(text.len() == 1 && text[0] == 48);
        assert(text.drop_last() =~= Seq::<u8>::empty());
        assert(decimal_value(text.drop_last()) == 0);
        assert(text.last() == 48);
        assert(decimal_value(text) == 0);
    } else if is_nonzero_digit(text[0]) {
        digits_end_bounds(text, 0);
        magnitude_is_decimal_value(text, max as nat);
        nonzero_digits_write_nonzero(text);
        decimal_bytes_of_decimal_value(text);
    } else {
        let digits = text.drop_first();
        digits_end_bounds(text, 1);
        assert forall|i: int| 0 <= i < digits.len() implies is_digit(#[trigger] digits[i]) by {
            assert(digits[i] == text[i + 1]);
        }
        if signed {
            magnitude_is_decimal_value(digits, (-min) as nat);
            nonzero_digits_write_nonzero(digits);
            all_digits_end(digits, 0);
            decimal_bytes_of_decimal_value(digits);
            assert(seq![45u8] + digits =~= text);
        }
    }
}

/// An integer that is written and read again is the same: the numeral
/// that is written for an integer of a type is read as that integer.
pub proof fn written_integer_is_read(number: int, signed: bool, min: int, max: int)
    requires
        min <= number <= max,
        min <= 0 <= max,
        number < 0 ==> signed,
    ensures
        numeral_value(decimal_int_bytes(number), signed, min, max) == Ok::<int, NumeralError>(
            number,
        ),
{
    let text = decimal_int_bytes(number);
    if number < 0 {
        let digits = decimal_bytes((-number) as nat);
        decimal_bytes_are_canonical((-number) as nat);
        assert(text.drop_first() =~= digits);
        assert(text[0] == 45);
        magnitude_of_decimal_bytes((-number) as nat, (-min) as nat);
    } else {
        decimal_bytes_are_canonical(number as nat);
        assert(is_digit(text[0]));
        magnitude_of_decimal_bytes(number as nat, max as nat);
    }
}

/// The grammar does not look at the text of a number.
pub proof fn grammar_ignores_number_text(
    frames: Seq<FrameView>,
    max_depth: nat,
    a: Seq<char>,
    b: Seq<char>,
)
    ensures
        step(frames, max_depth, TokenView::Num(a)) == step(frames, max_depth, TokenView::Num(b)),
{
}

/// The bytes that the tokens are written as, one after the other.
pub open spec fn written(tokens: Seq<TokenView>) -> Seq<u8>
    decreases tokens.len(),
{
    if tokens.len() == 0 {
        Seq::empty()
    } else {
        written(tokens.drop_last()) + token_bytes(tokens.last())
    }
}

/// Every token of `tokens` is readable.
pub open spec fn all_readable(tokens: Seq<TokenView>) -> bool {
    forall|i: int| 0 <= i < tokens.len() ==> readable(#[trigger] tokens[i])
}

/// Where the decoder is after it has read the first `count` tokens of
/// `tokens` from what they are written as: behind their bytes, with the
/// levels open that the grammar has open after them.
pub open spec fn after(tokens: Seq<TokenView>, max_depth: nat, count: int) -> Result<
    Reading,
    StructureErrorView,
> {
    match run(Seq::empty(), max_depth, tokens.take(count)) {
        Ok(frames) => Ok(Reading { at: written(tokens.take(count)).len() as int, frames }),
        Err(violation) => Err(violation),
    }
}

/// What is written for a part of the tokens is the beginning of what is
/// written for all of them.
pub proof fn written_grows(tokens: Seq<TokenView>, count: int)
    requires
        0 <= count <= tokens.len(),
    ensures
        written(tokens.take(count)).len() <= written(tokens).len(),
        written(tokens).subrange(0, written(tokens.take(count)).len() as int) == written(
            tokens.take(count),
        ),
        count < tokens.len() ==> written(tokens.take(count + 1)) == written(tokens.take(count))
            + token_bytes(tokens[count]),
    decreases tokens.len() - count,
{
    if count == tokens.len() {
        assert(tokens.take(count) =~= tokens);
        assert(written(tokens).subrange(0, written(tokens).len() as int) =~= written(tokens));
    } else {
        assert(tokens.take(count + 1).drop_last() =~= tokens.take(count));
        assert(tokens.take(count + 1).last() == tokens[count]);
        written_grows(tokens, count + 1);
        let more = written(tokens.take(count + 1));
        let less = written(tokens.take(count));
        assert(written(tokens).subrange(0, less.len() as int) =~= written(tokens).subrange(
            0,
            more.len() as int,
        ).subrange(0, less.len() as int));
        assert(more.subrange(0, less.len() as int) =~= less);
    }
}

/// The grammar run over a part of the tokens and one token more.
pub proof fn run_one_more(tokens: Seq<TokenView>, max_depth: nat, count: int)
    requires
        0 <= count < tokens.len(),
    ensures
        run(Seq::empty(), max_depth, tokens.take(count + 1)) == match run(
            Seq::empty(),
            max_depth,
            tokens.take(count),
        ) {
            Ok(frames) => step(frames, max_depth, tokens[count]),
            Err(violation) => Err(violation),
        },
{
    crate::state_tracker::lemmas::run_concat(
        Seq::empty(),
        max_depth,
        tokens.take(count),
        seq![tokens[count]],
    );
    assert(tokens.take(count + 1) =~= tokens.take(count) + seq![tokens[count]]);
    if let Ok(frames) = run(Seq::empty(), max_depth, tokens.take(count)) {
        let one = seq![tokens[count]];
        assert(one.drop_first() =~= Seq::<TokenView>::empty());
        assert(run(frames, max_depth, one) == step(frames, max_depth, tokens[count])) by {
            match step(frames, max_depth, one[0]) {
                Ok(next) => {
                    assert(run(next, max_depth, one.drop_first()) == Ok::<
                        Seq<FrameView>,
                        StructureErrorView,
                    >(next));
                },
                Err(_) => {},
            }
        }
    }
}

/// What the encoder writes, the decoder reads: from behind the first
/// `count` of the tokens, one read gives the next token and leads behind
/// it, or it finds the violation that the grammar finds in that token.
pub proof fn written_tokens_are_read(tokens: Seq<TokenView>, max_depth: nat, count: int)
    requires
        all_readable(tokens),
        0 <= count < tokens.len(),
    ensures
        after(tokens, max_depth, count) matches Ok(from) ==> read_token(
            written(tokens),
            max_depth,
            from,
        ) == match after(tokens, max_depth, count + 1) {
            Ok(next) => Ok::<(Option<TokenView>, Reading), StructureErrorView>(
                (Some(tokens[count]), next),
            ),
            Err(violation) => Err(violation),
        },
{
    if let Ok(from) = after(tokens, max_depth, count) {
        let src = written(tokens);
        let token = tokens[count];
        written_grows(tokens, count);
        written_grows(tokens, count + 1);
        run_one_more(tokens, max_depth, count);
        let less = written(tokens.take(count));
        let more = written(tokens.take(count + 1));
        assert(src.subrange(less.len() as int, more.len() as int) =~= token_bytes(token)) by {
            assert(src.subrange(0, more.len() as int) == more);
            assert forall|i: int| 0 <= i < token_bytes(token).len() implies src[less.len() + i]
                == token_bytes(token)[i] by {
                assert(src.subrange(0, more.len() as int)[less.len() + i] == src[less.len() + i]);
            }
        }
        assert(token_bytes(token).len() >= 1) by {
            crate::round_trip::token_bytes_are_not_empty(token);
        }
        written_token_is_scanned(src, less.len() as int, token);
    }
}

/// Every token is written as one byte at least.
pub proof fn token_bytes_are_not_empty(token: TokenView)
    ensures
        token_bytes(token).len() >= 1,
{
    match token {
        TokenView::String(content) => {
            decimal_bytes_are_canonical(content.len());
        },
        _ => {},
    }
}

/// Where the encoder has written the tokens and closed all that it opened,
/// the decoder reads what was written to its end, and finds that nothing
/// follows: it accepts the bytes.
pub proof fn finished_output_is_accepted(tokens: Seq<TokenView>, max_depth: nat)
    requires
        all_readable(tokens),
        run(Seq::empty(), max_depth, tokens) == Ok::<Seq<FrameView>, StructureErrorView>(
            Seq::empty(),
        ),
    ensures
        after(tokens, max_depth, tokens.len() as int) == Ok::<Reading, StructureErrorView>(
            Reading { at: written(tokens).len() as int, frames: Seq::empty() },
        ),
        forall|count: int|
            0 <= count < tokens.len() ==> #[trigger] after(tokens, max_depth, count) is Ok,
        read_token(
            written(tokens),
            max_depth,
            Reading { at: written(tokens).len() as int, frames: Seq::empty() },
        ) == Ok::<(Option<TokenView>, Reading), StructureErrorView>(
            (None, Reading { at: written(tokens).len() as int, frames: Seq::empty() }),
        ),
{
    assert(tokens.take(tokens.len() as int) =~= tokens);
    assert forall|count: int| 0 <= count < tokens.len() implies #[trigger] after(
        tokens,
        max_depth,
        count,
    ) is Ok by {
        prefix_runs(tokens, max_depth, count);
    }
}

/// Where the grammar accepts the tokens, it accepts every beginning of
/// them.
pub proof fn prefix_runs(tokens: Seq<TokenView>, max_depth: nat, count: int)
    requires
        0 <= count <= tokens.len(),
        run(Seq::empty(), max_depth, tokens) is Ok,
    ensures
        run(Seq::empty(), max_depth, tokens.take(count)) is Ok,
{
    crate::state_tracker::lemmas::run_concat(
        Seq::empty(),
        max_depth,
        tokens.take(count),
        tokens.skip(count),
    );
    assert(tokens.take(count) + tokens.skip(count) =~= tokens);
}

/// The tokens are those of one object: there is one at least, and from
/// the first to the last something is open.
pub open spec fn one_object(tokens: Seq<TokenView>, max_depth: nat) -> bool {
    &&& tokens.len() >= 1
    &&& run(Seq::empty(), max_depth, tokens) == Ok::<Seq<FrameView>, StructureErrorView>(
        Seq::empty(),
    )
    &&& forall|count: int|
        0 < count < tokens.len() ==> (#[trigger] run(
            Seq::empty(),
            max_depth,
            tokens.take(count),
        ) matches Ok(frames) && frames.len() > 0)
}

/// The first `boundary` of the tokens are those of one object.
pub open spec fn first_object(tokens: Seq<TokenView>, max_depth: nat, boundary: int) -> bool {
    &&& 1 <= boundary <= tokens.len()
    &&& one_object(tokens.take(boundary), max_depth)
}

/// From behind `count` of the tokens of the first object, skipping what is
/// open leads behind the object.
proof fn rest_is_skipped(tokens: Seq<TokenView>, max_depth: nat, count: int, boundary: int)
    requires
        all_readable(tokens),
        first_object(tokens, max_depth, boundary),
        0 < count <= boundary,
    ensures
        after(tokens, max_depth, count) matches Ok(from) && skip_to(
            written(tokens),
            max_depth,
            from,
            0,
        ) == after(tokens, max_depth, boundary),
        after(tokens, max_depth, boundary) matches Ok(end) && end.frames.len() == 0,
    decreases boundary - count,
{
    let object = tokens.take(boundary);
    assert(object.take(boundary) =~= object);
    assert(tokens.take(boundary) == object);
    assert(object.take(count) =~= tokens.take(count));
    prefix_runs(object, max_depth, count);
    if count < boundary {
        written_tokens_are_read(tokens, max_depth, count);
        assert(object.take(count + 1) =~= tokens.take(count + 1));
        prefix_runs(object, max_depth, count + 1);
        written_grows(tokens, count);
        written_grows(tokens, count + 1);
        token_bytes_are_not_empty(tokens[count]);
        rest_is_skipped(tokens, max_depth, count + 1, boundary);
    }
}

/// A list or a dictionary that is left before it was read to its end is
/// skipped: where the tokens begin with those of one object, the read
/// after the first token of that object finds what follows the object,
/// which is the first token of the next object.
pub proof fn abandoned_object_is_skipped(tokens: Seq<TokenView>, max_depth: nat, boundary: int)
    requires
        all_readable(tokens),
        first_object(tokens, max_depth, boundary),
        boundary < tokens.len(),
        !(tokens[boundary] is End),
        step(Seq::empty(), max_depth, tokens[boundary]) is Ok,
    ensures
        after(tokens, max_depth, 1) matches Ok(opened) && next_item(
            written(tokens),
            max_depth,
            opened,
            0,
        ) == match after(tokens, max_depth, boundary + 1) {
            Ok(next) => Ok::<(Option<TokenView>, Reading), StructureErrorView>(
                (Some(tokens[boundary]), next),
            ),
            Err(violation) => Err(violation),
        },
{
    rest_is_skipped(tokens, max_depth, 1, boundary);
    written_tokens_are_read(tokens, max_depth, boundary);
    run_one_more(tokens, max_depth, boundary);
}

/// The output of an encoder that wrote one object is one object to the
/// decoder: the first read finds the object; what is open in it is skipped
/// up to the end of the bytes; and the read after that finds nothing more.
pub proof fn one_object_is_decoded(tokens: Seq<TokenView>, max_depth: nat)
    requires
        all_readable(tokens),
        one_object(tokens, max_depth),
    ensures
        ({
            let src = written(tokens);
            let start = Reading { at: 0, frames: Seq::empty() };
            let end = Reading { at: src.len() as int, frames: Seq::empty() };
            &&& next_item(src, max_depth, start, 0) matches Ok((Some(first), opened))
            &&& first == tokens[0]
            &&& skip_to(src, max_depth, opened, 0) == Ok::<Reading, StructureErrorView>(end)
            &&& next_item(src, max_depth, end, 0) == Ok::<
                (Option<TokenView>, Reading),
                StructureErrorView,
            >((None, end))
        }),
{
    let src = written(tokens);
    let start = Reading { at: 0, frames: Seq::<FrameView>::empty() };
    assert(tokens.take(0) =~= Seq::<TokenView>::empty());
    assert(after(tokens, max_depth, 0) == Ok::<Reading, StructureErrorView>(start));
    written_tokens_are_read(tokens, max_depth, 0);
    prefix_runs(tokens, max_depth, 1);
    assert(tokens.take(tokens.len() as int) =~= tokens);
    rest_is_skipped(tokens, max_depth, 1, tokens.len() as int);
    finished_output_is_accepted(tokens, max_depth);
    run_one_more(tokens, max_depth, 0);
    assert(!(tokens[0] is End));
}

/// What is written for a token and for those that follow it: the bytes of
/// the token, and after them what is written for the others.
pub proof fn written_from_the_first(token: TokenView, rest: Seq<TokenView>)
    ensures
        written(seq![token] + rest) == token_bytes(token) + written(rest),
    decreases rest.len(),
{
    let all = seq![token] + rest;
    if rest.len() == 0 {
        assert(all.drop_last() =~= Seq::<TokenView>::empty());
        assert(all.last() == token);
        assert(written(all.drop_last()) =~= Seq::<u8>::empty());
        assert(written(all) =~= token_bytes(token) + written(rest));
    } else {
        assert(all.drop_last() =~= seq![token] + rest.drop_last());
        assert(all.last() == rest.last());
        written_from_the_first(token, rest.drop_last());
        assert(written(all) =~= token_bytes(token) + written(rest));
    }
}

/// The passage of tokens through an encoder is the run of the grammar over
/// them: where the grammar accepts them all, all are written; where it
/// refuses one, that is the violation of the passage.
pub proof fn passage_is_run(frames: Seq<FrameView>, max_depth: nat, tokens: Seq<TokenView>)
    ensures
        match run(frames, max_depth, tokens) {
            Ok(after) => passage(frames, max_depth, tokens) == (Passage {
                frames: after,
                bytes: written(tokens),
                violation: None,
            }),
            Err(violation) => passage(frames, max_depth, tokens).violation == Some(violation),
        },
    decreases tokens.len(),
{
    if tokens.len() == 0 {
        assert(written(tokens) =~= Seq::<u8>::empty());
    } else {
        match step(frames, max_depth, tokens[0]) {
            Ok(next) => {
                passage_is_run(next, max_depth, tokens.drop_first());
                written_from_the_first(tokens[0], tokens.drop_first());
                assert(seq![tokens[0]] + tokens.drop_first() =~= tokens);
            },
            Err(_) => {},
        }
    }
}

/// What a new encoder has written when it was given `tokens`, accepted
/// them all and has nothing open is read back by a decoder with the same
/// depth: token by token the tokens that were given, and nothing after
/// them.
pub proof fn finished_encoder_is_read_back(
    new: Encoder,
    tokens: Seq<TokenView>,
    done: Encoder,
    r: Result<(), crate::encoding::error::Error>,
)
    requires
        new.is_new(new.depth_limit()),
        new.emits_all(tokens, done, r),
        r is Ok,
        done.frames().len() == 0,
        all_readable(tokens),
    ensures
        done.written() == written(tokens),
        run(Seq::empty(), new.depth_limit(), tokens) == Ok::<Seq<FrameView>, StructureErrorView>(
            Seq::empty(),
        ),
        forall|count: int|
            0 <= count < tokens.len() ==> (#[trigger] after(tokens, new.depth_limit(), count)
                matches Ok(from) && after(tokens, new.depth_limit(), count + 1) matches Ok(next)
                && read_token(done.written(), new.depth_limit(), from) == Ok::<
                (Option<TokenView>, Reading),
                StructureErrorView,
            >((Some(tokens[count]), next))),
        read_token(
            done.written(),
            new.depth_limit(),
            Reading { at: done.written().len() as int, frames: Seq::empty() },
        ) == Ok::<(Option<TokenView>, Reading), StructureErrorView>(
            (None, Reading { at: done.written().len() as int, frames: Seq::empty() }),
        ),
{
    let limit = new.depth_limit();
    assert(new.frames() =~= Seq::<FrameView>::empty());
    passage_is_run(Seq::empty(), limit, tokens);
    assert(new.written() =~= Seq::<u8>::empty());
    assert(done.written() =~= written(tokens));
    assert(done.frames() =~= Seq::<FrameView>::empty());
    finished_output_is_accepted(tokens, limit);
    assert forall|count: int| 0 <= count < tokens.len() implies (#[trigger] after(
        tokens,
        limit,
        count,
    ) matches Ok(from) && after(tokens, limit, count + 1) matches Ok(next) && read_token(
        done.written(),
        limit,
        from,
    ) == Ok::<(Option<TokenView>, Reading), StructureErrorView>((Some(tokens[count]), next))) by {
        prefix_runs(tokens, limit, count);
        prefix_runs(tokens, limit, count + 1);
        written_tokens_are_read(tokens, limit, count);
    }
}

/// The output of an encoder that was given the tokens of one object is one
/// object to the decoder: the first read finds the object; what is open in
/// it is skipped up to the end of the bytes; and the read after that finds
/// nothing more.
pub proof fn encoded_object_is_decoded(
    new: Encoder,
    tokens: Seq<TokenView>,
    done: Encoder,
    r: Result<(), crate::encoding::error::Error>,
)
    requires
        new.is_new(new.depth_limit()),
        new.emits_all(tokens, done, r),
        r is Ok,
        all_readable(tokens),
        one_object(tokens, new.depth_limit()),
    ensures
        ({
            let src = done.written();
            let start = Reading { at: 0, frames: Seq::empty() };
            let end = Reading { at: src.len() as int, frames: Seq::empty() };
            &&& done.frames().len() == 0
            &&& next_item(src, new.depth_limit(), start, 0) matches Ok((Some(first), opened))
            &&& first == tokens[0]
            &&& skip_to(src, new.depth_limit(), opened, 0) == Ok::<Reading, StructureErrorView>(
                end,
            )
            &&& next_item(src, new.depth_limit(), end, 0) == Ok::<
                (Option<TokenView>, Reading),
                StructureErrorView,
            >((None, end))
        }),
{
    let limit = new.depth_limit();
    assert(new.frames() =~= Seq::<FrameView>::empty());
    passage_is_run(Seq::empty(), limit, tokens);
    assert(new.written() =~= Seq::<u8>::empty());
    assert(done.written() =~= written(tokens));
    one_object_is_decoded(tokens, limit);
}

/// The encoder has written what `tokens` are written as: every one of
/// them is readable, the grammar accepts them, and what they leave open
/// is what is open in the encoder.
pub open spec fn made_of(encoder: Encoder, tokens: Seq<TokenView>) -> bool {
    &&& all_readable(tokens)
    &&& run(Seq::empty(), encoder.depth_limit(), tokens) == Ok::<
        Seq<FrameView>,
        StructureErrorView,
    >(encoder.frames())
    &&& encoder.written() == written(tokens)
}

/// What the encoder has written so far is what readable tokens are
/// written as, which the grammar accepts.
pub open spec fn sound(encoder: Encoder) -> bool {
    exists|tokens: Seq<TokenView>| #[trigger] made_of(encoder, tokens)
}

/// The decoder reads `src` from `from` to its end and finds no violation.
pub open spec fn reads_through(src: Seq<u8>, max_depth: nat, from: Reading) -> bool
    decreases src.len() - from.at,
{
    match read_token(src, max_depth, from) {
        Ok((None, _)) => true,
        Ok((Some(_), next)) => from.at < next.at && reads_through(src, max_depth, next),
        Err(_) => false,
    }
}

/// A decoder with the depth `max_depth` accepts `src`: it reads the bytes
/// from the first to the last and finds no violation.
pub open spec fn accepted(src: Seq<u8>, max_depth: nat) -> bool {
    reads_through(src, max_depth, Reading { at: 0, frames: Seq::empty() })
}

/// A new encoder is sound.
pub proof fn new_encoder_is_sound(encoder: Encoder)
    requires
        encoder.is_new(encoder.depth_limit()),
    ensures
        sound(encoder),
{
    let none = Seq::<TokenView>::empty();
    assert(encoder.frames() =~= Seq::<FrameView>::empty());
    assert(encoder.written() =~= written(none));
    assert(made_of(encoder, none));
}

/// One more token, written as `bytes`, leaves the encoder made of tokens.
proof fn one_more_token(
    before: Encoder,
    tokens: Seq<TokenView>,
    token: TokenView,
    stands_for: TokenView,
    bytes: Seq<u8>,
    after: Encoder,
    r: Result<(), crate::encoding::error::Error>,
)
    requires
        made_of(before, tokens),
        before.writes(stands_for, bytes, after, r),
        readable(token),
        bytes == token_bytes(token),
        step(before.frames(), before.depth_limit(), stands_for) == step(
            before.frames(),
            before.depth_limit(),
            token,
        ),
    ensures
        sound(after),
{
    if r is Ok {
        let more = tokens.push(token);
        assert(more.drop_last() =~= tokens);
        assert(more.last() == token);
        crate::state_tracker::lemmas::run_concat(
            Seq::empty(),
            before.depth_limit(),
            tokens,
            seq![token],
        );
        assert(tokens + seq![token] =~= more);
        let one = seq![token];
        assert(one[0] == token);
        assert(one.drop_first() =~= Seq::<TokenView>::empty());
        assert(run(before.frames(), before.depth_limit(), one) == step(
            before.frames(),
            before.depth_limit(),
            token,
        )) by {
            match step(before.frames(), before.depth_limit(), token) {
                Ok(next) => {
                    assert(run(next, before.depth_limit(), one.drop_first()) == Ok::<
                        Seq<FrameView>,
                        StructureErrorView,
                    >(next));
                },
                Err(_) => {},
            }
        }
        assert forall|i: int| 0 <= i < more.len() implies readable(#[trigger] more[i]) by {
            if i < tokens.len() {
                assert(more[i] == tokens[i]);
            }
        }
        assert(written(more) == written(tokens) + token_bytes(token));
        assert(made_of(after, more));
    } else {
        assert(made_of(after, tokens));
    }
}

/// A readable token that is emitted leaves a sound encoder sound.
pub proof fn emission_keeps_sound(
    before: Encoder,
    token: TokenView,
    after: Encoder,
    r: Result<(), crate::encoding::error::Error>,
)
    requires
        sound(before),
        readable(token),
        before.emits(token, after, r),
    ensures
        sound(after),
{
    let tokens = choose|tokens: Seq<TokenView>| #[trigger] made_of(before, tokens);
    one_more_token(before, tokens, token, token, token_bytes(token), after, r);
}

/// An integer that is emitted leaves a sound encoder sound.
pub proof fn integer_keeps_sound(
    before: Encoder,
    number: int,
    after: Encoder,
    r: Result<(), crate::encoding::error::Error>,
)
    requires
        sound(before),
        before.writes(TokenView::Num(Seq::empty()), integer_bytes(number), after, r),
    ensures
        sound(after),
{
    let tokens = choose|tokens: Seq<TokenView>| #[trigger] made_of(before, tokens);
    let token = TokenView::Num(ascii_text(decimal_int_bytes(number)));
    integer_is_written_canonically(number);
    grammar_ignores_number_text(
        before.frames(),
        before.depth_limit(),
        Seq::empty(),
        ascii_text(decimal_int_bytes(number)),
    );
    one_more_token(
        before,
        tokens,
        token,
        TokenView::Num(Seq::empty()),
        integer_bytes(number),
        after,
        r,
    );
}

/// Settling the outcome of an item, and closing a list or a dictionary,
/// leave a sound encoder sound.
pub proof fn settling_keeps_sound(
    before: Encoder,
    outcome: Result<(), crate::encoding::error::Error>,
    value_written: bool,
    after: Encoder,
    r: Result<(), crate::encoding::error::Error>,
)
    requires
        sound(before),
    ensures
        before.finishes(outcome, value_written, after, r) ==> sound(after),
        before.closes(outcome, after, r) ==> sound(after),
{
    let tokens = choose|tokens: Seq<TokenView>| #[trigger] made_of(before, tokens);
    if before.finishes(outcome, value_written, after, r) {
        assert(made_of(after, tokens));
    }
    if before.closes(outcome, after, r) {
        if outcome is Ok {
            emission_keeps_sound(before, TokenView::End, after, r);
        } else {
            assert(made_of(after, tokens));
        }
    }
}

/// From behind any number of the tokens, the decoder reads what they are
/// written as to its end.
proof fn rest_is_read(tokens: Seq<TokenView>, max_depth: nat, count: int)
    requires
        all_readable(tokens),
        run(Seq::empty(), max_depth, tokens) == Ok::<Seq<FrameView>, StructureErrorView>(
            Seq::empty(),
        ),
        0 <= count <= tokens.len(),
    ensures
        after(tokens, max_depth, count) matches Ok(from) && reads_through(
            written(tokens),
            max_depth,
            from,
        ),
    decreases tokens.len() - count,
{
    finished_output_is_accepted(tokens, max_depth);
    prefix_runs(tokens, max_depth, count);
    if count < tokens.len() {
        prefix_runs(tokens, max_depth, count + 1);
        written_tokens_are_read(tokens, max_depth, count);
        written_grows(tokens, count);
        token_bytes_are_not_empty(tokens[count]);
        rest_is_read(tokens, max_depth, count + 1);
    } else {
        assert(tokens.take(count) =~= tokens);
    }
}

/// What a sound encoder has written when nothing is open in it is accepted
/// by a decoder with the same depth. This is what the encoder returns as
/// its output then.
pub proof fn sound_output_is_accepted(encoder: Encoder)
    requires
        sound(encoder),
        encoder.frames().len() == 0,
    ensures
        accepted(encoder.written(), encoder.depth_limit()),
{
    let tokens = choose|tokens: Seq<TokenView>| #[trigger] made_of(encoder, tokens);
    assert(encoder.frames() =~= Seq::<FrameView>::empty());
    rest_is_read(tokens, encoder.depth_limit(), 0);
    assert(tokens.take(0) =~= Seq::<TokenView>::empty());
    assert(written(tokens.take(0)) =~= Seq::<u8>::empty());
}

/// Where `known` were written and `tokens` are passed on from there, what
/// is written then is what `known` and the tokens that the grammar
/// accepted are written as.
proof fn passage_is_made(
    known: Seq<TokenView>,
    frames: Seq<FrameView>,
    max_depth: nat,
    tokens: Seq<TokenView>,
) -> (all: Seq<TokenView>)
    requires
        all_readable(known),
        all_readable(tokens),
        run(Seq::empty(), max_depth, known) == Ok::<Seq<FrameView>, StructureErrorView>(frames),
    ensures
        all_readable(all),
        run(Seq::empty(), max_depth, all) == Ok::<Seq<FrameView>, StructureErrorView>(
            passage(frames, max_depth, tokens).frames,
        ),
        written(all) == written(known) + passage(frames, max_depth, tokens).bytes,
        passage(frames, max_depth, tokens).violation is None ==> all == known + tokens,
    decreases tokens.len(),
{
    if tokens.len() == 0 {
        assert(written(known) + Seq::<u8>::empty() =~= written(known));
        assert(known + tokens =~= known);
        known
    } else {
        match step(frames, max_depth, tokens[0]) {
            Err(_) => {
                assert(written(known) + Seq::<u8>::empty() =~= written(known));
                known
            },
            Ok(next) => {
                let more = known.push(tokens[0]);
                let one = seq![tokens[0]];
                assert(more.drop_last() =~= known);
                assert(known + one =~= more);
                assert(one.drop_first() =~= Seq::<TokenView>::empty());
                assert(run(next, max_depth, one.drop_first()) == Ok::<
                    Seq<FrameView>,
                    StructureErrorView,
                >(next));
                crate::state_tracker::lemmas::run_concat(Seq::empty(), max_depth, known, one);
                assert forall|i: int| 0 <= i < more.len() implies readable(
                    #[trigger] more[i],
                ) by {
                    if i < known.len() {
                        assert(more[i] == known[i]);
                    } else {
                        assert(more[i] == tokens[0]);
                    }
                }
                assert forall|i: int| 0 <= i < tokens.drop_first().len() implies readable(
                    #[trigger] tokens.drop_first()[i],
                ) by {
                    assert(tokens.drop_first()[i] == tokens[i + 1]);
                }
                let all = passage_is_made(more, next, max_depth, tokens.drop_first());
                let rest = passage(next, max_depth, tokens.drop_first());
                assert(written(more) == written(known) + token_bytes(tokens[0]));
                assert((written(known) + token_bytes(tokens[0])) + rest.bytes =~= written(known)
                    + (token_bytes(tokens[0]) + rest.bytes));
                if rest.violation is None {
                    assert(more + tokens.drop_first() =~= known + tokens);
                }
                all
            },
        }
    }
}

/// Readable tokens that are emitted one after the other leave a sound
/// encoder sound; and where a new encoder accepted them all, what it has
/// written is what the tokens are written as.
pub proof fn emissions_keep_sound(
    before: Encoder,
    tokens: Seq<TokenView>,
    after: Encoder,
    r: Result<(), crate::encoding::error::Error>,
)
    requires
        sound(before),
        all_readable(tokens),
        before.emits_all(tokens, after, r),
    ensures
        sound(after),
        before.is_new(before.depth_limit()) && r is Ok ==> made_of(after, tokens),
{
    let known = choose|known: Seq<TokenView>| #[trigger] made_of(before, known);
    if before.latched() is Some {
        assert(made_of(after, known));
    } else {
        let all = passage_is_made(known, before.frames(), before.depth_limit(), tokens);
        assert(made_of(after, all));
        if before.is_new(before.depth_limit()) && r is Ok {
            let none = Seq::<TokenView>::empty();
            assert(before.frames() =~= Seq::<FrameView>::empty());
            let whole = passage_is_made(none, before.frames(), before.depth_limit(), tokens);
            assert(none + tokens =~= tokens);
            assert(before.written() =~= written(none));
            assert(made_of(after, tokens));
        }
    }
}

/// The tokens that the decoder reads from `from` to the end of `src`, up
/// to the first violation.
pub open spec fn tokens_from(src: Seq<u8>, max_depth: nat, from: Reading) -> Seq<TokenView>
    decreases src.len() - from.at,
{
    match read_token(src, max_depth, from) {
        Ok((Some(token), next)) => if from.at < next.at {
            seq![token] + tokens_from(src, max_depth, next)
        } else {
            Seq::empty()
        },
        _ => Seq::empty(),
    }
}

/// What the decoder reads to the end is what was there: where it reads
/// `src` from `from` to the end and finds no violation, the tokens that it
/// finds are readable, they are written as the bytes that it read, and
/// the grammar accepts them and ends with nothing open.
pub proof fn read_tokens_are_written(src: Seq<u8>, max_depth: nat, from: Reading)
    requires
        0 <= from.at <= src.len(),
        reads_through(src, max_depth, from),
    ensures
        all_readable(tokens_from(src, max_depth, from)),
        written(tokens_from(src, max_depth, from)) == src.subrange(from.at, src.len() as int),
        run(from.frames, max_depth, tokens_from(src, max_depth, from)) == Ok::<
            Seq<FrameView>,
            StructureErrorView,
        >(Seq::empty()),
    decreases src.len() - from.at,
{
    let tokens = tokens_from(src, max_depth, from);
    match read_token(src, max_depth, from) {
        Ok((Some(token), next)) => {
            scanned_token_is_written(src, from.at);
            read_tokens_are_written(src, max_depth, next);
            let rest = tokens_from(src, max_depth, next);
            written_from_the_first(token, rest);
            assert(src.subrange(from.at, next.at) + src.subrange(next.at, src.len() as int)
                =~= src.subrange(from.at, src.len() as int));
            assert(tokens[0] == token);
            assert(tokens.drop_first() =~= rest);
            assert forall|i: int| 0 <= i < tokens.len() implies readable(#[trigger] tokens[i]) by {
                if i > 0 {
                    assert(tokens[i] == rest[i - 1]);
                }
            }
        },
        Ok((None, _)) => {
            assert(from.at >= src.len());
            assert(from.frames =~= Seq::<FrameView>::empty());
            assert(written(tokens) =~= src.subrange(from.at, src.len() as int));
        },
        Err(_) => {},
    }
}

/// Emitting again what was read gives what was there: where a decoder
/// accepts `src`, an encoder with the same depth that is new accepts the
/// tokens that the decoder found, one after the other, and has written
/// `src` then, with nothing open.
pub proof fn reread_is_rewritten(
    src: Seq<u8>,
    new: Encoder,
    done: Encoder,
    r: Result<(), crate::encoding::error::Error>,
)
    requires
        accepted(src, new.depth_limit()),
        new.is_new(new.depth_limit()),
        new.emits_all(
            tokens_from(src, new.depth_limit(), Reading { at: 0, frames: Seq::empty() }),
            done,
            r,
        ),
    ensures
        r is Ok,
        done.latched() is None,
        done.frames().len() == 0,
        done.written() == src,
{
    let start = Reading { at: 0, frames: Seq::<FrameView>::empty() };
    read_tokens_are_written(src, new.depth_limit(), start);
    assert(new.frames() =~= Seq::<FrameView>::empty());
    passage_is_run(new.frames(), new.depth_limit(), tokens_from(src, new.depth_limit(), start));
    assert(src.subrange(0, src.len() as int) =~= src);
    assert(new.written() + src =~= src);
}

/// What is skipped is what was there: where the decoder skips from `from`
/// to `to`, the tokens that it reads on the way are readable, they are
/// written as the bytes between the two, and the grammar accepts them
/// and leaves open what is open at `to`.
pub proof fn skipped_tokens_are_written(
    src: Seq<u8>,
    max_depth: nat,
    from: Reading,
    depth: nat,
)
    requires
        0 <= from.at <= src.len(),
    ensures
        skip_to(src, max_depth, from, depth) matches Ok(to) ==> {
            &&& from.at <= to.at <= src.len()
            &&& all_readable(skipped(src, max_depth, from, depth))
            &&& written(skipped(src, max_depth, from, depth)) == src.subrange(from.at, to.at)
            &&& run(from.frames, max_depth, skipped(src, max_depth, from, depth)) == Ok::<
                Seq<FrameView>,
                StructureErrorView,
            >(to.frames)
        },
    decreases src.len() - from.at,
{
    let tokens = skipped(src, max_depth, from, depth);
    if from.frames.len() <= depth {
        assert(written(tokens) =~= src.subrange(from.at, from.at));
    } else {
        crate::decoding::decoder::read_token_advances(src, max_depth, from);
        match read_token(src, max_depth, from) {
            Ok((Some(token), next)) => {
                if skip_to(src, max_depth, from, depth) is Ok {
                    let to = skip_to(src, max_depth, from, depth)->Ok_0;
                    scanned_token_is_written(src, from.at);
                    skipped_tokens_are_written(src, max_depth, next, depth);
                    let rest = skipped(src, max_depth, next, depth);
                    written_from_the_first(token, rest);
                    assert(src.subrange(from.at, next.at) + src.subrange(next.at, to.at)
                        =~= src.subrange(from.at, to.at));
                    assert(tokens[0] == token);
                    assert(tokens.drop_first() =~= rest);
                    assert forall|i: int| 0 <= i < tokens.len() implies readable(
                        #[trigger] tokens[i],
                    ) by {
                        if i > 0 {
                            assert(tokens[i] == rest[i - 1]);
                        }
                    }
                }
            },
            _ => {},
        }
    }
}

/// What follows from an item that was found in a container at level
/// `depth` in which nothing else was open: the item is unread, its token
/// is readable, and what is skipped on the way out of the container is
/// the token of the item and what is skipped behind it.
pub proof fn found_item_is_unread(
    src: Seq<u8>,
    max_depth: nat,
    from: Reading,
    depth: nat,
    item: Object<'_, '_>,
    at: Decoder<'_>,
)
    requires
        1 <= depth == from.frames.len(),
        0 <= from.at <= src.len(),
        next_item(src, max_depth, from, depth) matches Ok((Some(token), next)) && item.token()
            == token && at.reading() == next,
        item.decoder_or(at) == at,
        at.input() == src,
        at.depth_limit() == max_depth,
        at.latched() is None,
        item matches Object::List(list) ==> !list.is_finished() && list.level()
            == at.reading().frames.len(),
        item matches Object::Dict(dict) ==> !dict.is_finished() && dict.level()
            == at.reading().frames.len(),
    ensures
        unread(item),
        readable(item.token()),
        from.at < at.reading().at <= src.len(),
        at.reading().frames.len() == depth + (if item is List || item is Dict {
            1int
        } else {
            0int
        }),
        skip_to(src, max_depth, from, (depth - 1) as nat) == skip_to(
            src,
            max_depth,
            at.reading(),
            (depth - 1) as nat,
        ),
        skipped(src, max_depth, from, (depth - 1) as nat) == seq![item.token()] + skipped(
            src,
            max_depth,
            at.reading(),
            (depth - 1) as nat,
        ),
{
    items_lead_out(src, max_depth, from, depth);
    item_is_skipped(src, max_depth, from, depth);
    scanned_token_is_written(src, from.at);
}

/// What follows where the decoder has skipped from `from` to `behind`,
/// where `depth` levels are open: skipping on from `from` is skipping on
/// from `behind`.
pub proof fn left_behind(src: Seq<u8>, max_depth: nat, from: Reading, depth: nat, behind: Reading)
    requires
        1 <= depth <= from.frames.len(),
        0 <= from.at <= src.len(),
        skip_to(src, max_depth, from, depth) == Ok::<Reading, StructureErrorView>(behind),
    ensures
        behind.frames.len() == depth,
        from.at <= behind.at <= src.len(),
        skip_to(src, max_depth, from, (depth - 1) as nat) == skip_to(
            src,
            max_depth,
            behind,
            (depth - 1) as nat,
        ),
        skipped(src, max_depth, from, (depth - 1) as nat) == skipped(src, max_depth, from, depth)
            + skipped(src, max_depth, behind, (depth - 1) as nat),
{
    let shallow = (depth - 1) as nat;
    skip_to_composes(src, max_depth, from, depth, shallow);
    skipped_composes(src, max_depth, from, depth, shallow);
    skip_to_lands(src, max_depth, from, depth);
}

/// What is written for tokens after tokens: what is written for the
/// first, and after it what is written for the others.
pub proof fn written_of_both(a: Seq<TokenView>, b: Seq<TokenView>)
    ensures
        written(a + b) == written(a) + written(b),
    decreases b.len(),
{
    if b.len() == 0 {
        assert(a + b =~= a);
        assert(written(a) + written(b) =~= written(a));
    } else {
        assert((a + b).drop_last() =~= a + b.drop_last());
        assert((a + b).last() == b.last());
        written_of_both(a, b.drop_last());
        assert((written(a) + written(b.drop_last())) + token_bytes(b.last()) =~= written(a) + (
        written(b.drop_last()) + token_bytes(b.last())));
    }
}

/// The scanner of integers is exact: it finds the terminator at `end`
/// exactly where an integer in canonical form stands before it; and every
/// violation that it finds is a syntax error, or the end of the input.
pub proof fn scan_int_is_exact(src: Seq<u8>, start: int, end: int, terminator: u8)
    requires
        0 <= start,
        !is_digit(terminator),
        terminator != 45,
    ensures
        scan_int(src, start, terminator) == Ok::<int, StructureErrorView>(end) <==> start < end
            < src.len() && src[end] == terminator && is_canonical_int(src.subrange(start, end)),
        scan_int(src, start, terminator) matches Err(violation) ==> violation is SyntaxError
            || violation is UnexpectedEof,
{
    scan_int_finds_canonical(src, start, terminator);
    if start < end < src.len() && src[end] == terminator && is_canonical_int(
        src.subrange(start, end),
    ) {
        canonical_is_scanned(src, start, src.subrange(start, end), terminator);
    }
}

/// An integer that was read is written as it was read: where the text of
/// an integer in canonical form is the number `number` of a type with the
/// bounds `min` and `max`, the encoder writes for that number the token
/// that the decoder scanned.
pub proof fn read_integer_is_written_as_read(text: Seq<char>, signed: bool, min: int, max: int)
    requires
        readable(TokenView::Num(text)),
        min <= 0 <= max,
    ensures
        numeral_value(encode_utf8(text), signed, min, max) matches Ok(number) ==> integer_bytes(
            number,
        ) == token_bytes(TokenView::Num(text)),
{
    read_integer_is_written(encode_utf8(text), signed, min, max);
}

/// A text that was read is written as it was read: the bytes of valid
/// UTF-8 are the bytes of the text that they encode.
pub proof fn read_text_is_written_as_read(bytes: Seq<u8>)
    requires
        vstd::utf8::valid_utf8(bytes),
    ensures
        encode_utf8(vstd::utf8::decode_utf8(bytes)) == bytes,
        token_bytes(TokenView::String(encode_utf8(vstd::utf8::decode_utf8(bytes))))
            == token_bytes(TokenView::String(bytes)),
{
    vstd::utf8::decode_utf8_encode_utf8(bytes);
}

/// The tokens are those of one item of a depth of `depth` at most: where
/// the grammar takes an item and has `depth` levels left, it takes these
/// tokens as it takes one atom.
pub open spec fn one_item(tokens: Seq<TokenView>, depth: nat) -> bool {
    forall|frames: Seq<FrameView>, max_depth: nat|
        frames.len() + depth <= max_depth && step(
            frames,
            max_depth,
            TokenView::Num(Seq::empty()),
        ) is Ok ==> #[trigger] run(frames, max_depth, tokens) == step(
            frames,
            max_depth,
            TokenView::Num(Seq::empty()),
        )
}

/// The bytes are what one item of a depth of `depth` at most is written
/// as, in readable tokens.
pub open spec fn is_item(bytes: Seq<u8>, depth: nat) -> bool {
    exists|tokens: Seq<TokenView>|
        all_readable(tokens) && one_item(tokens, depth) && #[trigger] written(tokens) == bytes
}

/// A byte string or an integer is one item of any depth.
pub proof fn atom_is_one_item(token: TokenView, depth: nat)
    requires
        token is String || token is Num,
    ensures
        one_item(seq![token], depth),
        written(seq![token]) == token_bytes(token),
{
    let one = seq![token];
    assert(one.drop_first() =~= Seq::<TokenView>::empty());
    assert(one.drop_last() =~= Seq::<TokenView>::empty());
    assert(one.last() == token);
    assert(written(one.drop_last()) =~= Seq::<u8>::empty());
    assert(written(one) =~= token_bytes(token));
    assert forall|frames: Seq<FrameView>, max_depth: nat|
        frames.len() + depth <= max_depth && step(
            frames,
            max_depth,
            TokenView::Num(Seq::empty()),
        ) is Ok implies #[trigger] run(frames, max_depth, one) == step(
        frames,
        max_depth,
        TokenView::Num(Seq::empty()),
    ) by {
        let next = step(frames, max_depth, token)->Ok_0;
        assert(step(frames, max_depth, token) == step(
            frames,
            max_depth,
            TokenView::Num(Seq::empty()),
        ));
        assert(run(next, max_depth, one.drop_first()) == Ok::<
            Seq<FrameView>,
            StructureErrorView,
        >(next));
    }
}

/// What an integer is written as is one item of any depth.
pub proof fn integer_is_item(number: int, depth: nat)
    ensures
        is_item(integer_bytes(number), depth),
{
    let token = TokenView::Num(ascii_text(decimal_int_bytes(number)));
    integer_is_written_canonically(number);
    atom_is_one_item(token, depth);
    assert(all_readable(seq![token]));
}

/// What a byte string is written as is one item of any depth.
pub proof fn byte_string_is_item(content: Seq<u8>, depth: nat)
    requires
        content.len() <= usize::MAX,
    ensures
        is_item(token_bytes(TokenView::String(content)), depth),
{
    let token = TokenView::String(content);
    atom_is_one_item(token, depth);
    assert(all_readable(seq![token]));
}

/// One more token that the grammar accepts behind tokens that it
/// accepted.
proof fn token_is_added(
    known: Seq<TokenView>,
    frames: Seq<FrameView>,
    max_depth: nat,
    token: TokenView,
    next: Seq<FrameView>,
)
    requires
        all_readable(known),
        readable(token),
        run(Seq::empty(), max_depth, known) == Ok::<Seq<FrameView>, StructureErrorView>(frames),
        step(frames, max_depth, token) == Ok::<Seq<FrameView>, StructureErrorView>(next),
    ensures
        all_readable(known.push(token)),
        run(Seq::empty(), max_depth, known.push(token)) == Ok::<
            Seq<FrameView>,
            StructureErrorView,
        >(next),
        written(known.push(token)) == written(known) + token_bytes(token),
{
    let more = known.push(token);
    let one = seq![token];
    assert(more.drop_last() =~= known);
    assert(known + one =~= more);
    assert(one.drop_first() =~= Seq::<TokenView>::empty());
    assert(run(next, max_depth, one.drop_first()) == Ok::<Seq<FrameView>, StructureErrorView>(
        next,
    ));
    crate::state_tracker::lemmas::run_concat(Seq::empty(), max_depth, known, one);
    assert forall|i: int| 0 <= i < more.len() implies readable(#[trigger] more[i]) by {
        if i < known.len() {
            assert(more[i] == known[i]);
        }
    }
}

/// Readable tokens behind readable tokens are readable all together.
proof fn readable_both(a: Seq<TokenView>, b: Seq<TokenView>)
    requires
        all_readable(a),
        all_readable(b),
    ensures
        all_readable(a + b),
{
    assert forall|i: int| 0 <= i < (a + b).len() implies readable(#[trigger] (a + b)[i]) by {
        if i < a.len() {
            assert((a + b)[i] == a[i]);
        } else {
            assert((a + b)[i] == b[i - a.len()]);
        }
    }
}

/// Where `known` were written and the pairs from the one at `from` on are
/// passed on from there, each value of them one item, what is written
/// then is what readable tokens are written as that the grammar accepts.
proof fn pairs_passage_is_made(
    known: Seq<TokenView>,
    frames: Seq<FrameView>,
    max_depth: nat,
    pairs: Seq<(Seq<u8>, Seq<u8>)>,
    from: int,
    so_far: Seq<u8>,
    depth: nat,
    base: Seq<u8>,
) -> (all: Seq<TokenView>)
    requires
        0 <= from,
        all_readable(known),
        run(Seq::empty(), max_depth, known) == Ok::<Seq<FrameView>, StructureErrorView>(frames),
        written(known) == base + so_far,
        frames.len() + depth <= max_depth,
        forall|i: int|
            0 <= i < pairs.len() ==> (#[trigger] pairs[i]).0.len() <= usize::MAX && is_item(
                pairs[i].1,
                depth,
            ),
    ensures
        all_readable(all),
        run(Seq::empty(), max_depth, all) == Ok::<Seq<FrameView>, StructureErrorView>(
            pairs_passage(frames, max_depth, pairs, from, so_far).frames,
        ),
        written(all) == base + pairs_passage(frames, max_depth, pairs, from, so_far).bytes,
    decreases pairs.len() - from,
{
    if from >= pairs.len() {
        match step(frames, max_depth, TokenView::End) {
            Ok(closed) => {
                token_is_added(known, frames, max_depth, TokenView::End, closed);
                assert((base + so_far) + seq![101u8] =~= base + (so_far + seq![101u8]));
                known.push(TokenView::End)
            },
            Err(_) => known,
        }
    } else {
        let key = TokenView::String(pairs[from].0);
        match step(frames, max_depth, key) {
            Err(_) => known,
            Ok(keyed) => {
                token_is_added(known, frames, max_depth, key, keyed);
                step_moves_one_level(frames, max_depth, key);
                let named = known.push(key);
                assert((base + so_far) + token_bytes(key) =~= base + (so_far + token_bytes(key)));
                match step(keyed, max_depth, TokenView::Num(Seq::empty())) {
                    Err(_) => named,
                    Ok(next) => {
                        step_moves_one_level(keyed, max_depth, TokenView::Num(Seq::empty()));
                        let value = choose|tokens: Seq<TokenView>|
                            all_readable(tokens) && one_item(tokens, depth) && #[trigger] written(
                                tokens,
                            ) == pairs[from].1;
                        assert(run(keyed, max_depth, value) == Ok::<
                            Seq<FrameView>,
                            StructureErrorView,
                        >(next));
                        crate::state_tracker::lemmas::run_concat(
                            Seq::empty(),
                            max_depth,
                            named,
                            value,
                        );
                        readable_both(named, value);
                        written_of_both(named, value);
                        let more = so_far + token_bytes(key) + pairs[from].1;
                        assert((base + (so_far + token_bytes(key))) + pairs[from].1 =~= base
                            + more);
                        pairs_passage_is_made(
                            named + value,
                            next,
                            max_depth,
                            pairs,
                            from + 1,
                            more,
                            depth,
                            base,
                        )
                    },
                }
            },
        }
    }
}

/// Writing the pairs that were collected leaves a sound encoder sound,
/// where every value that was collected is what one item is written as,
/// of a depth that the encoder has left.
pub proof fn sorting_keeps_sound(
    before: Encoder,
    collected: crate::encoding::encoder::UnsortedDictEncoder,
    after: Encoder,
    r: Result<(), crate::encoding::error::Error>,
)
    requires
        sound(before),
        before.writes_sorted(collected, after, r),
        before.frames().len() + collected.depth_left() <= before.depth_limit(),
        forall|i: int|
            0 <= i < collected.pairs().len() ==> (#[trigger] collected.pairs()[i]).0.len()
                <= usize::MAX && is_item(collected.pairs()[i].1, collected.depth_left()),
    ensures
        sound(after),
{
    let known = choose|known: Seq<TokenView>| #[trigger] made_of(before, known);
    if collected.failure() is Some || before.latched() is Some {
        assert(made_of(after, known));
    } else {
        assert(before.written() + Seq::<u8>::empty() =~= before.written());
        let all = pairs_passage_is_made(
            known,
            before.frames(),
            before.depth_limit(),
            collected.pairs(),
            0,
            Seq::empty(),
            collected.depth_left(),
            before.written(),
        );
        assert(made_of(after, all));
    }
}

/// The grammar over tokens from any stack, and one token more.
proof fn run_and_one_more(
    frames: Seq<FrameView>,
    max_depth: nat,
    tokens: Seq<TokenView>,
    count: int,
)
    requires
        0 <= count < tokens.len(),
    ensures
        run(frames, max_depth, tokens.take(count + 1)) == match run(
            frames,
            max_depth,
            tokens.take(count),
        ) {
            Ok(between) => step(between, max_depth, tokens[count]),
            Err(violation) => Err(violation),
        },
{
    crate::state_tracker::lemmas::run_concat(
        frames,
        max_depth,
        tokens.take(count),
        seq![tokens[count]],
    );
    assert(tokens.take(count + 1) =~= tokens.take(count) + seq![tokens[count]]);
    if let Ok(between) = run(frames, max_depth, tokens.take(count)) {
        let one = seq![tokens[count]];
        assert(one.drop_first() =~= Seq::<TokenView>::empty());
        if let Ok(next) = step(between, max_depth, tokens[count]) {
            assert(run(next, max_depth, one.drop_first()) == Ok::<
                Seq<FrameView>,
                StructureErrorView,
            >(next));
        }
    }
}

/// What a token does to levels that are open, it does to them where they
/// are open above other levels, with as much depth left.
proof fn step_lifts(
    below: Seq<FrameView>,
    open: Seq<FrameView>,
    depth: nat,
    max_depth: nat,
    token: TokenView,
)
    requires
        open.len() > 0,
        step(open, depth, token) is Ok,
        below.len() + depth <= max_depth,
    ensures
        step(below + open, max_depth, token) == Ok::<Seq<FrameView>, StructureErrorView>(
            below + step(open, depth, token)->Ok_0,
        ),
{
    let all = below + open;
    assert(all.last() == open.last());
    assert(all.drop_last() =~= below + open.drop_last());
    let after = step(open, depth, token)->Ok_0;
    match open.last() {
        FrameView::InSeq => {
            if token is End {
            } else if token.opens() {
                assert(all.push(opened_by(token)) =~= below + open.push(opened_by(token)));
            } else {
            }
        },
        FrameView::ExpectingKey(_) => {
            match token {
                TokenView::String(key) => {
                    assert(all.drop_last().push(FrameView::ExpectingValue(key)) =~= below
                        + open.drop_last().push(FrameView::ExpectingValue(key)));
                },
                _ => {},
            }
        },
        FrameView::ExpectingValue(key) => {
            let closed = open.drop_last().push(FrameView::ExpectingKey(Some(key)));
            let lifted = all.drop_last().push(FrameView::ExpectingKey(Some(key)));
            assert(lifted =~= below + closed);
            if token.opens() {
                assert(lifted.push(opened_by(token)) =~= below + closed.push(opened_by(token)));
            }
        },
    }
}

/// The first `count` tokens of one object are taken above any stack that
/// takes an item as they are taken alone: the levels that they open stand
/// above what an atom leaves of the stack.
proof fn object_lifts(
    frames: Seq<FrameView>,
    max_depth: nat,
    tokens: Seq<TokenView>,
    depth: nat,
    count: int,
)
    requires
        one_object(tokens, depth),
        frames.len() + depth <= max_depth,
        step(frames, max_depth, TokenView::Num(Seq::empty())) is Ok,
        1 <= count <= tokens.len(),
    ensures
        run(Seq::empty(), depth, tokens.take(count)) matches Ok(open) && run(
            frames,
            max_depth,
            tokens.take(count),
        ) == Ok::<Seq<FrameView>, StructureErrorView>(
            step(frames, max_depth, TokenView::Num(Seq::empty()))->Ok_0 + open,
        ),
    decreases count,
{
    let taken = step(frames, max_depth, TokenView::Num(Seq::empty()))->Ok_0;
    prefix_runs(tokens, depth, count);
    if count == 1 {
        let first = tokens[0];
        assert(tokens.take(0) =~= Seq::<TokenView>::empty());
        run_one_more(tokens, depth, 0);
        run_and_one_more(frames, max_depth, tokens, 0);
        let open = step(Seq::empty(), depth, first)->Ok_0;
        if first.opens() {
            assert(open =~= seq![opened_by(first)]);
            if frames.len() == 0 {
                assert(frames.push(opened_by(first)) =~= taken + open);
            } else {
                match frames.last() {
                    FrameView::InSeq => {
                        assert(frames.push(opened_by(first)) =~= taken + open);
                    },
                    FrameView::ExpectingValue(key) => {
                        assert(taken.push(opened_by(first)) =~= taken + open);
                    },
                    FrameView::ExpectingKey(_) => {},
                }
            }
        } else {
            assert(taken + open =~= taken);
        }
    } else {
        object_lifts(frames, max_depth, tokens, depth, count - 1);
        run_one_more(tokens, depth, count - 1);
        run_and_one_more(frames, max_depth, tokens, count - 1);
        let open = run(Seq::empty(), depth, tokens.take(count - 1))->Ok_0;
        assert(open.len() > 0);
        step_lifts(taken, open, depth, max_depth, tokens[count - 1]);
        step_moves_one_level(frames, max_depth, TokenView::Num(Seq::empty()));
    }
}

/// The tokens of one object are one item.
pub proof fn object_is_one_item(tokens: Seq<TokenView>, depth: nat)
    requires
        one_object(tokens, depth),
    ensures
        one_item(tokens, depth),
{
    assert forall|frames: Seq<FrameView>, max_depth: nat|
        frames.len() + depth <= max_depth && step(
            frames,
            max_depth,
            TokenView::Num(Seq::empty()),
        ) is Ok implies #[trigger] run(frames, max_depth, tokens) == step(
        frames,
        max_depth,
        TokenView::Num(Seq::empty()),
    ) by {
        object_lifts(frames, max_depth, tokens, depth, tokens.len() as int);
        assert(tokens.take(tokens.len() as int) =~= tokens);
        let taken = step(frames, max_depth, TokenView::Num(Seq::empty()))->Ok_0;
        assert(taken + Seq::<FrameView>::empty() =~= taken);
    }
}

/// What the readable tokens of one object are written as is one item.
pub proof fn object_is_item(tokens: Seq<TokenView>, depth: nat)
    requires
        all_readable(tokens),
        one_object(tokens, depth),
    ensures
        is_item(written(tokens), depth),
{
    object_is_one_item(tokens, depth);
}

/// An atom that is decoded and encoded again is written as it was read.
/// Here `new` is a new decoder, and `object` the first object that it
/// found, a byte string or an integer; `item` is a new encoder, to which
/// the value that was decoded wrote `bytes` as one byte string or
/// integer, with the outcome `outcome`; and `encoded` is what came of it.
/// Where `bytes` is what the token of the object is written as, the bytes
/// that were encoded are the bytes that were decoded. That the integers
/// and the texts write the token that they were read from is what
/// [`read_integer_is_written_as_read`] and
/// [`read_text_is_written_as_read`] say.
pub proof fn atom_is_encoded_as_read(
    new: Decoder,
    now: Decoder,
    object: Object<'_, '_>,
    item: Encoder,
    wrote: TokenView,
    bytes: Seq<u8>,
    done: Encoder,
    outcome: Result<(), crate::encoding::error::Error>,
    encoded: Result<Vec<u8>, crate::encoding::error::Error>,
)
    requires
        new.reading() == (Reading { at: 0, frames: Seq::empty() }),
        new.latched() is None,
        new.finds(0, now, Ok(Some(object))),
        object is Integer || object is Bytes,
        wrote is Num || wrote is String,
        bytes == token_bytes(object.token()),
        item.is_new(item.depth_limit()),
        item.writes(wrote, bytes, done, outcome),
        done.yields(outcome, true, encoded),
    ensures
        encoded matches Ok(out) && out@ == new.input().subrange(
            0,
            crate::decoding::object::first_object_end(new.input(), new.depth_limit()),
        ),
{
    let src = new.input();
    let limit = new.depth_limit();
    let start = Reading { at: 0, frames: Seq::<FrameView>::empty() };
    assert(skip_to(src, limit, start, 0) == Ok::<Reading, StructureErrorView>(start));
    crate::decoding::decoder::read_token_advances(src, limit, start);
    scanned_token_is_written(src, 0);
    step_moves_one_level(start.frames, limit, object.token());
    assert(skip_to(src, limit, now.reading(), 0) == Ok::<Reading, StructureErrorView>(
        now.reading(),
    ));
    assert(item.frames() =~= Seq::<FrameView>::empty());
    assert(item.written() + bytes =~= bytes);
}

} // verus!
