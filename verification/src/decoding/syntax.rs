//! The syntax of bencode: what one token looks like in the input.
use vstd::prelude::*;

use crate::state_tracker::{StructureErrorView, TokenView};
use crate::text::{ascii_text, debug_text, decimal};

verus! {

/// `b` is an ASCII digit.
pub open spec fn is_digit(b: u8) -> bool {
    48 <= b <= 57
}

/// `b` is an ASCII digit other than `0`.
pub open spec fn is_nonzero_digit(b: u8) -> bool {
    49 <= b <= 57
}

/// The first index at or after `from` that holds no digit: the length of
/// `src` where only digits follow.
pub open spec fn digits_end(src: Seq<u8>, from: int) -> int
    decreases src.len() - from,
{
    if 0 <= from < src.len() && is_digit(src[from]) {
        digits_end(src, from + 1)
    } else {
        from
    }
}

/// The number that the decimal digits `digits` write.
pub open spec fn decimal_value(digits: Seq<u8>) -> nat
    decreases digits.len(),
{
    if digits.len() == 0 {
        0
    } else {
        decimal_value(digits.drop_last()) * 10 + (digits.last() - 48) as nat
    }
}

/// `text` is an integer in canonical form: `0`, or an optional `-` and then
/// digits of which the first is not `0`.
pub open spec fn is_canonical_int(text: Seq<u8>) -> bool {
    ||| text == seq![48u8]
    ||| {
        &&& text.len() >= 1
        &&& is_nonzero_digit(text[0])
        &&& digits_end(text, 0) == text.len()
    }
    ||| {
        &&& text.len() >= 2
        &&& text[0] == 45
        &&& is_nonzero_digit(text[1])
        &&& digits_end(text, 1) == text.len()
    }
}

/// `text` is a length in canonical form: as an integer, without a sign.
pub open spec fn is_canonical_length(text: Seq<u8>) -> bool {
    is_canonical_int(text) && text[0] != 45
}

/// Where the digits that begin at `from` end in `terminator`: the index of
/// the terminator, or what is wrong at the first byte that is neither.
pub open spec fn scan_digits(src: Seq<u8>, from: int, terminator: u8) -> Result<
    int,
    StructureErrorView,
> {
    let end = digits_end(src, from);
    if end >= src.len() {
        Err(StructureErrorView::UnexpectedEof)
    } else if src[end] == terminator {
        Ok(end)
    } else {
        Err(
            StructureErrorView::unexpected(
                debug_text(terminator as char) + " or '0'..'9'"@,
                src[end] as char,
                end as nat,
            ),
        )
    }
}

/// An integer in canonical form that begins at `start` and ends in
/// `terminator`: the index of the terminator, or what is wrong at the first
/// byte that does not fit.
pub open spec fn scan_int(src: Seq<u8>, start: int, terminator: u8) -> Result<
    int,
    StructureErrorView,
> {
    if start >= src.len() {
        Err(StructureErrorView::UnexpectedEof)
    } else if src[start] == 45 {
        if start + 1 >= src.len() {
            Err(StructureErrorView::UnexpectedEof)
        } else if is_nonzero_digit(src[start + 1]) {
            scan_digits(src, start + 1, terminator)
        } else {
            Err(
                StructureErrorView::unexpected(
                    "'1'..'9'"@,
                    src[start + 1] as char,
                    (start + 1) as nat,
                ),
            )
        }
    } else if src[start] == 48 {
        if start + 1 >= src.len() {
            Err(StructureErrorView::UnexpectedEof)
        } else if src[start + 1] == terminator {
            Ok(start + 1)
        } else {
            Err(
                StructureErrorView::unexpected(
                    debug_text(terminator as char),
                    src[start + 1] as char,
                    (start + 1) as nat,
                ),
            )
        }
    } else if is_nonzero_digit(src[start]) {
        scan_digits(src, start, terminator)
    } else {
        Err(StructureErrorView::unexpected("'-' or '0'..'9'"@, src[start] as char, start as nat))
    }
}

/// The report of a length that no `usize` holds.
pub open spec fn invalid_length(at: nat) -> StructureErrorView {
    StructureErrorView::SyntaxError("Invalid integer at offset "@ + decimal(at))
}

/// The report of a byte with which no token begins.
pub open spec fn invalid_token(byte: u8, at: nat) -> StructureErrorView {
    StructureErrorView::SyntaxError(
        "Invalid token starting with "@ + debug_text(byte as char) + " at offset "@ + decimal(at),
    )
}

/// The token that begins at `at`, with the index at which the next one
/// begins; or what is wrong with the bytes there.
pub open spec fn scan_token(src: Seq<u8>, at: int) -> Result<(TokenView, int), StructureErrorView> {
    if at < 0 || at >= src.len() {
        Err(StructureErrorView::UnexpectedEof)
    } else if src[at] == 101 {
        Ok((TokenView::End, at + 1))
    } else if src[at] == 108 {
        Ok((TokenView::List, at + 1))
    } else if src[at] == 100 {
        Ok((TokenView::Dict, at + 1))
    } else if src[at] == 105 {
        match scan_int(src, at + 1, 101) {
            Ok(end) => Ok((TokenView::Num(ascii_text(src.subrange(at + 1, end))), end + 1)),
            Err(error) => Err(error),
        }
    } else if is_digit(src[at]) {
        match scan_int(src, at, 58) {
            Ok(colon) => {
                let length = decimal_value(src.subrange(at, colon));
                if length > usize::MAX {
                    Err(invalid_length(at as nat))
                } else if colon + 1 + length > src.len() {
                    Err(StructureErrorView::UnexpectedEof)
                } else {
                    Ok(
                        (
                            TokenView::String(src.subrange(colon + 1, colon + 1 + length)),
                            colon + 1 + length,
                        ),
                    )
                }
            },
            Err(error) => Err(error),
        }
    } else {
        Err(invalid_token(src[at], at as nat))
    }
}

/// The index of the terminator that `scan_int` finds lies after `start`, in
/// `src`; what stands before it is an integer in canonical form.
pub proof fn scan_int_finds_canonical(src: Seq<u8>, start: int, terminator: u8)
    requires
        0 <= start,
        !is_digit(terminator),
        terminator != 45,
    ensures
        scan_int(src, start, terminator) matches Ok(end) ==> {
            &&& start < end < src.len()
            &&& src[end] == terminator
            &&& is_canonical_int(src.subrange(start, end))
            &&& src[start] != 45 ==> is_canonical_length(src.subrange(start, end))
        },
{
    if let Ok(end) = scan_int(src, start, terminator) {
        let body = src.subrange(start, end);
        if src[start] == 45 {
            digits_end_bounds(src, start + 1);
            digits_end_of_part(src, start, start + 1, end);
        } else if src[start] == 48 {
            assert(body =~= seq![48u8]);
        } else {
            digits_end_bounds(src, start);
            digits_end_of_part(src, start, start, end);
        }
    }
}

/// `digits_end` stays in the input, and everything from `from` up to it is
/// a digit.
pub proof fn digits_end_bounds(src: Seq<u8>, from: int)
    requires
        0 <= from <= src.len(),
    ensures
        from <= digits_end(src, from) <= src.len(),
        forall|i: int| from <= i < digits_end(src, from) ==> is_digit(#[trigger] src[i]),
        digits_end(src, from) < src.len() ==> !is_digit(src[digits_end(src, from)]),
    decreases src.len() - from,
{
    if from < src.len() && is_digit(src[from]) {
        digits_end_bounds(src, from + 1);
    }
}

/// In the part of `src` from `start` to the end of the digits that begin
/// at `from`, the digits run to the end.
pub proof fn digits_end_of_part(src: Seq<u8>, start: int, from: int, end: int)
    requires
        0 <= start <= from <= end <= src.len(),
        end == digits_end(src, from),
    ensures
        digits_end(src.subrange(start, end), from - start) == end - start,
    decreases end - from,
{
    let part = src.subrange(start, end);
    if from < end {
        digits_end_bounds(src, from);
        assert(is_digit(src[from]));
        assert(part[from - start] == src[from]);
        digits_end_of_part(src, start, from + 1, end);
    }
}

/// An integer in canonical form holds no `e`.
proof fn canonical_int_holds_no_end(text: Seq<u8>)
    requires
        is_canonical_int(text),
    ensures
        forall|i: int| 0 <= i < text.len() ==> #[trigger] text[i] != 101,
{
    if text == seq![48u8] {
    } else if is_nonzero_digit(text[0]) {
        digits_end_bounds(text, 0);
    } else {
        digits_end_bounds(text, 1);
    }
}

/// An integer that is not written in canonical form is rejected, and so
/// is one that no `e` ends. Where an `i` stands at `at`, and what follows
/// it up to the next `e` is no integer in canonical form, or no `e`
/// follows up to the end of the input, no token is scanned there: the
/// violation is a syntax error, or the end of the input.
pub proof fn non_canonical_integer_is_rejected(src: Seq<u8>, at: int, end: int)
    requires
        0 <= at < end <= src.len(),
        src[at] == 105,
        forall|i: int| at < i < end ==> #[trigger] src[i] != 101,
        end < src.len() ==> src[end] == 101,
        end == src.len() || !is_canonical_int(src.subrange(at + 1, end)),
    ensures
        scan_token(src, at) matches Err(violation) && (violation is SyntaxError
            || violation is UnexpectedEof),
{
    if let Ok(found) = scan_int(src, at + 1, 101) {
        scan_int_finds_canonical(src, at + 1, 101);
        let body = src.subrange(at + 1, found);
        canonical_int_holds_no_end(body);
        if found < end {
            assert(src[found] != 101);
        } else if found > end {
            assert(body[end - (at + 1)] == src[end]);
        } else {
            assert(body == src.subrange(at + 1, end));
        }
    } else {
        let start = at + 1;
        if start < src.len() {
            if src[start] == 45 {
                if start + 1 < src.len() && is_nonzero_digit(src[start + 1]) {
                    digits_end_bounds(src, start + 1);
                }
            } else if is_nonzero_digit(src[start]) {
                digits_end_bounds(src, start);
            }
        }
    }
}

} // verus!
