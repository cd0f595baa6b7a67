//! Decimal text, ASCII text and byte-string comparison.
use std::num::ParseIntError;
use std::str::Utf8Error;

use vstd::prelude::*;
use vstd::string::StringSliceAdditionalSpecFns;
use vstd::utf8::{
    decode_utf8, encode_utf8, encode_utf8_decode_utf8, encode_utf8_valid_utf8, is_ascii_chars,
    is_ascii_chars_encode_utf8, valid_utf8,
};

verus! {

/// The character of the digit `d`.
pub open spec fn digit_char(d: int) -> char
    recommends
        0 <= d <= 9,
{
    if d == 0 {
        '0'
    } else if d == 1 {
        '1'
    } else if d == 2 {
        '2'
    } else if d == 3 {
        '3'
    } else if d == 4 {
        '4'
    } else if d == 5 {
        '5'
    } else if d == 6 {
        '6'
    } else if d == 7 {
        '7'
    } else if d == 8 {
        '8'
    } else {
        '9'
    }
}

/// The decimal numeral of `n`, without leading zeros.
pub open spec fn decimal(n: nat) -> Seq<char>
    decreases n,
{
    if n < 10 {
        seq![digit_char(n as int)]
    } else {
        decimal(n / 10).push(digit_char((n % 10) as int))
    }
}

/// The decimal numeral of `n` as ASCII bytes.
pub open spec fn decimal_bytes(n: nat) -> Seq<u8>
    decreases n,
{
    if n < 10 {
        seq![(48 + n) as u8]
    } else {
        decimal_bytes(n / 10).push((48 + n % 10) as u8)
    }
}

/// The decimal numeral of the integer `i`: a `-` before a negative one.
pub open spec fn decimal_int_bytes(i: int) -> Seq<u8> {
    if i < 0 {
        seq![45u8] + decimal_bytes((-i) as nat)
    } else {
        decimal_bytes(i as nat)
    }
}

/// The text whose characters are the bytes of `bytes`, one for one.
pub open spec fn ascii_text(bytes: Seq<u8>) -> Seq<char> {
    Seq::new(bytes.len(), |i: int| bytes[i] as char)
}

/// Every byte of `bytes` is an ASCII character.
pub open spec fn is_ascii_bytes(bytes: Seq<u8>) -> bool {
    forall|i: int| 0 <= i < bytes.len() ==> #[trigger] bytes[i] < 128
}

/// ASCII bytes are valid UTF-8, and they encode the text that has their own
/// values as characters.
pub proof fn ascii_bytes_are_utf8(bytes: Seq<u8>)
    requires
        is_ascii_bytes(bytes),
    ensures
        valid_utf8(bytes),
        encode_utf8(ascii_text(bytes)) == bytes,
        decode_utf8(bytes) == ascii_text(bytes),
{
    let text = ascii_text(bytes);
    assert(is_ascii_chars(text)) by {
        assert forall|i: int| 0 <= i < text.len() implies '\0' <= #[trigger] text[i]
            <= '\u{7f}' by {
            assert(bytes[i] < 128);
        }
    }
    is_ascii_chars_encode_utf8(text);
    assert(encode_utf8(text) =~= bytes) by {
        assert forall|i: int| 0 <= i < bytes.len() implies encode_utf8(text)[i] == bytes[i] by {
            assert(bytes[i] < 128);
            assert(text[i] as u8 == bytes[i]);
        }
    }
    encode_utf8_valid_utf8(text);
    encode_utf8_decode_utf8(text);
}

/// `core::str::from_utf8` accepts exactly the valid UTF-8, and the text it
/// returns has the bytes it was given.
pub assume_specification<'a>[ core::str::from_utf8 ](v: &'a [u8]) -> (r: Result<&'a str, Utf8Error>)
    ensures
        r is Ok <==> valid_utf8(v@),
        r matches Ok(s) ==> s.spec_bytes() == v@,
;

/// The text of ASCII bytes, without a copy.
pub fn ascii_str<'a>(bytes: &'a [u8]) -> (r: &'a str)
    requires
        is_ascii_bytes(bytes@),
    ensures
        r@ == ascii_text(bytes@),
{
    proof {
        ascii_bytes_are_utf8(bytes@);
    }
    match core::str::from_utf8(bytes) {
        Ok(text) => {
            proof {
                encode_utf8_decode_utf8(text@);
            }
            text
        },
        Err(_) => "",
    }
}

/// How `char`'s `Debug` shows `c`: quoted, with escapes.
pub uninterp spec fn debug_text(c: char) -> Seq<char>;

/// `a` and `b` agree on their first `k` bytes, and there `a` ends while `b`
/// goes on, or `a` has the smaller byte.
pub open spec fn precedes_at(a: Seq<u8>, b: Seq<u8>, k: int) -> bool {
    &&& 0 <= k <= a.len()
    &&& k < b.len()
    &&& a.take(k) == b.take(k)
    &&& k < a.len() ==> a[k] < b[k]
}

/// `a` comes strictly before `b` in byte-wise lexicographic order.
pub open spec fn lex_lt(a: Seq<u8>, b: Seq<u8>) -> bool {
    exists|k: int| precedes_at(a, b, k)
}

/// Why a text is not the decimal numeral of an integer of some type.
#[derive(Clone, Copy, Debug, PartialEq, Eq, Structural)]
pub enum NumeralError {
    /// The text is empty.
    Empty,
    /// The text holds a character that is no digit, or no digit at all.
    InvalidDigit,
    /// The number is too large for the type.
    PosOverflow,
    /// The number is too small for the type.
    NegOverflow,
}

/// The number that the digits `digits` write after the digits that wrote
/// `so_far`, read from the left; `None` at the first digit with which the
/// number passes `limit`, `Some(None)` at the first byte that is no digit,
/// whichever comes first.
pub open spec fn magnitude(digits: Seq<u8>, limit: nat, so_far: nat) -> Option<Option<nat>>
    decreases digits.len(),
{
    if digits.len() == 0 {
        Some(Some(so_far))
    } else if !(48 <= digits[0] <= 57) {
        Some(None)
    } else {
        let next = so_far * 10 + (digits[0] - 48) as nat;
        if next > limit {
            None
        } else {
            magnitude(digits.drop_first(), limit, next)
        }
    }
}

/// The integer between `min` and `max` that `text` is the decimal numeral
/// of: digits after an optional `+`, or after a `-` where the type is
/// signed. Leading zeros are accepted. The error is that of the first byte
/// at which the text cannot be such a numeral any more.
pub open spec fn numeral_value(text: Seq<u8>, signed: bool, min: int, max: int) -> Result<
    int,
    NumeralError,
>
    recommends
        min <= 0 <= max,
{
    if text.len() == 0 {
        Err(NumeralError::Empty)
    } else if text.len() == 1 && (text[0] == 43 || text[0] == 45) {
        Err(NumeralError::InvalidDigit)
    } else if text[0] == 45 && signed {
        match magnitude(text.drop_first(), (-min) as nat, 0) {
            Some(Some(value)) => Ok(-(value as int)),
            Some(None) => Err(NumeralError::InvalidDigit),
            None => Err(NumeralError::NegOverflow),
        }
    } else {
        match magnitude(
            if text[0] == 43 {
                text.drop_first()
            } else {
                text
            },
            max as nat,
            0,
        ) {
            Some(Some(value)) => Ok(value as int),
            Some(None) => Err(NumeralError::InvalidDigit),
            None => Err(NumeralError::PosOverflow),
        }
    }
}

/// `str::parse` for `u8`: it succeeds exactly on the decimal numeral of a
/// number that the type holds, an optional sign before digits, and then
/// gives that number. Of the error it says nothing.
#[verifier::external_body]
pub(crate) fn parse_u8(text: &str) -> (r: Result<u8, ParseIntError>)
    ensures
        (r is Ok <==> numeral_value(text.spec_bytes(), false, u8::MIN as int, u8::MAX as int) is Ok),
        (r matches Ok(number) ==> numeral_value(text.spec_bytes(), false, u8::MIN as int, u8::MAX as int)
            == Ok::<int, NumeralError>(number as int)),
{
    text.parse::<u8>()
}

/// `str::parse` for `u16`: it succeeds exactly on the decimal numeral of a
/// number that the type holds, an optional sign before digits, and then
/// gives that number. Of the error it says nothing.
#[verifier::external_body]
pub(crate) fn parse_u16(text: &str) -> (r: Result<u16, ParseIntError>)
    ensures
        (r is Ok <==> numeral_value(text.spec_bytes(), false, u16::MIN as int, u16::MAX as int) is Ok),
        (r matches Ok(number) ==> numeral_value(text.spec_bytes(), false, u16::MIN as int, u16::MAX as int)
            == Ok::<int, NumeralError>(number as int)),
{
    text.parse::<u16>()
}

/// `str::parse` for `u32`: it succeeds exactly on the decimal numeral of a
/// number that the type holds, an optional sign before digits, and then
/// gives that number. Of the error it says nothing.
#[verifier::external_body]
pub(crate) fn parse_u32(text: &str) -> (r: Result<u32, ParseIntError>)
    ensures
        (r is Ok <==> numeral_value(text.spec_bytes(), false, u32::MIN as int, u32::MAX as int) is Ok),
        (r matches Ok(number) ==> numeral_value(text.spec_bytes(), false, u32::MIN as int, u32::MAX as int)
            == Ok::<int, NumeralError>(number as int)),
{
    text.parse::<u32>()
}

/// `str::parse` for `u64`: it succeeds exactly on the decimal numeral of a
/// number that the type holds, an optional sign before digits, and then
/// gives that number. Of the error it says nothing.
#[verifier::external_body]
pub(crate) fn parse_u64(text: &str) -> (r: Result<u64, ParseIntError>)
    ensures
        (r is Ok <==> numeral_value(text.spec_bytes(), false, u64::MIN as int, u64::MAX as int) is Ok),
        (r matches Ok(number) ==> numeral_value(text.spec_bytes(), false, u64::MIN as int, u64::MAX as int)
            == Ok::<int, NumeralError>(number as int)),
{
    text.parse::<u64>()
}

/// `str::parse` for `u128`: it succeeds exactly on the decimal numeral of a
/// number that the type holds, an optional sign before digits, and then
/// gives that number. Of the error it says nothing.
#[verifier::external_body]
pub(crate) fn parse_u128(text: &str) -> (r: Result<u128, ParseIntError>)
    ensures
        (r is Ok <==> numeral_value(text.spec_bytes(), false, u128::MIN as int, u128::MAX as int) is Ok),
        (r matches Ok(number) ==> numeral_value(text.spec_bytes(), false, u128::MIN as int, u128::MAX as int)
            == Ok::<int, NumeralError>(number as int)),
{
    text.parse::<u128>()
}

/// `str::parse` for `usize`: it succeeds exactly on the decimal numeral of a
/// number that the type holds, an optional sign before digits, and then
/// gives that number. Of the error it says nothing.
#[verifier::external_body]
pub(crate) fn parse_usize(text: &str) -> (r: Result<usize, ParseIntError>)
    ensures
        (r is Ok <==> numeral_value(text.spec_bytes(), false, usize::MIN as int, usize::MAX as int) is Ok),
        (r matches Ok(number) ==> numeral_value(text.spec_bytes(), false, usize::MIN as int, usize::MAX as int)
            == Ok::<int, NumeralError>(number as int)),
{
    text.parse::<usize>()
}

/// `str::parse` for `i8`: it succeeds exactly on the decimal numeral of a
/// number that the type holds, an optional sign before digits, and then
/// gives that number. Of the error it says nothing.
#[verifier::external_body]
pub(crate) fn parse_i8(text: &str) -> (r: Result<i8, ParseIntError>)
    ensures
        (r is Ok <==> numeral_value(text.spec_bytes(), true, i8::MIN as int, i8::MAX as int) is Ok),
        (r matches Ok(number) ==> numeral_value(text.spec_bytes(), true, i8::MIN as int, i8::MAX as int)
            == Ok::<int, NumeralError>(number as int)),
{
    text.parse::<i8>()
}

/// `str::parse` for `i16`: it succeeds exactly on the decimal numeral of a
/// number that the type holds, an optional sign before digits, and then
/// gives that number. Of the error it says nothing.
#[verifier::external_body]
pub(crate) fn parse_i16(text: &str) -> (r: Result<i16, ParseIntError>)
    ensures
        (r is Ok <==> numeral_value(text.spec_bytes(), true, i16::MIN as int, i16::MAX as int) is Ok),
        (r matches Ok(number) ==> numeral_value(text.spec_bytes(), true, i16::MIN as int, i16::MAX as int)
            == Ok::<int, NumeralError>(number as int)),
{
    text.parse::<i16>()
}

/// `str::parse` for `i32`: it succeeds exactly on the decimal numeral of a
/// number that the type holds, an optional sign before digits, and then
/// gives that number. Of the error it says nothing.
#[verifier::external_body]
pub(crate) fn parse_i32(text: &str) -> (r: Result<i32, ParseIntError>)
    ensures
        (r is Ok <==> numeral_value(text.spec_bytes(), true, i32::MIN as int, i32::MAX as int) is Ok),
        (r matches Ok(number) ==> numeral_value(text.spec_bytes(), true, i32::MIN as int, i32::MAX as int)
            == Ok::<int, NumeralError>(number as int)),
{
    text.parse::<i32>()
}

/// `str::parse` for `i64`: it succeeds exactly on the decimal numeral of a
/// number that the type holds, an optional sign before digits, and then
/// gives that number. Of the error it says nothing.
#[verifier::external_body]
pub(crate) fn parse_i64(text: &str) -> (r: Result<i64, ParseIntError>)
    ensures
        (r is Ok <==> numeral_value(text.spec_bytes(), true, i64::MIN as int, i64::MAX as int) is Ok),
        (r matches Ok(number) ==> numeral_value(text.spec_bytes(), true, i64::MIN as int, i64::MAX as int)
            == Ok::<int, NumeralError>(number as int)),
{
    text.parse::<i64>()
}

/// `str::parse` for `i128`: it succeeds exactly on the decimal numeral of a
/// number that the type holds, an optional sign before digits, and then
/// gives that number. Of the error it says nothing.
#[verifier::external_body]
pub(crate) fn parse_i128(text: &str) -> (r: Result<i128, ParseIntError>)
    ensures
        (r is Ok <==> numeral_value(text.spec_bytes(), true, i128::MIN as int, i128::MAX as int) is Ok),
        (r matches Ok(number) ==> numeral_value(text.spec_bytes(), true, i128::MIN as int, i128::MAX as int)
            == Ok::<int, NumeralError>(number as int)),
{
    text.parse::<i128>()
}

/// `str::parse` for `isize`: it succeeds exactly on the decimal numeral of a
/// number that the type holds, an optional sign before digits, and then
/// gives that number. Of the error it says nothing.
#[verifier::external_body]
pub(crate) fn parse_isize(text: &str) -> (r: Result<isize, ParseIntError>)
    ensures
        (r is Ok <==> numeral_value(text.spec_bytes(), true, isize::MIN as int, isize::MAX as int) is Ok),
        (r matches Ok(number) ==> numeral_value(text.spec_bytes(), true, isize::MIN as int, isize::MAX as int)
            == Ok::<int, NumeralError>(number as int)),
{
    text.parse::<isize>()
}

/// No byte string comes before itself, and of two byte strings at most one
/// comes before the other.
pub proof fn lex_lt_is_strict(a: Seq<u8>, b: Seq<u8>)
    ensures
        !lex_lt(a, a),
        !(lex_lt(a, b) && lex_lt(b, a)),
{
    assert forall|k: int| !precedes_at(a, a, k) by {}
    if lex_lt(a, b) && lex_lt(b, a) {
        let i = choose|k: int| precedes_at(a, b, k);
        let j = choose|k: int| precedes_at(b, a, k);
        if i < j {
            assert(b.take(j)[i] == a.take(j)[i]);
        } else if j < i {
            assert(a.take(i)[j] == b.take(i)[j]);
        }
    }
}

/// Of two different byte strings one comes before the other.
pub proof fn lex_lt_is_total(a: Seq<u8>, b: Seq<u8>)
    ensures
        lex_lt(a, b) || lex_lt(b, a) || a == b,
{
    assert(a.take(0) =~= b.take(0));
    first_difference(a, b, 0);
}

/// Two byte strings that agree on their first `k` bytes are equal, or one
/// comes before the other.
proof fn first_difference(a: Seq<u8>, b: Seq<u8>, k: int)
    requires
        0 <= k <= a.len(),
        k <= b.len(),
        a.take(k) == b.take(k),
    ensures
        lex_lt(a, b) || lex_lt(b, a) || a == b,
    decreases a.len() - k,
{
    if k == a.len() {
        if k == b.len() {
            assert(a.take(k) =~= a);
            assert(b.take(k) =~= b);
        } else {
            assert(precedes_at(a, b, k));
        }
    } else if k == b.len() {
        assert(precedes_at(b, a, k));
    } else if a[k] < b[k] {
        assert(precedes_at(a, b, k));
    } else if b[k] < a[k] {
        assert(precedes_at(b, a, k));
    } else {
        assert(a.take(k + 1) =~= a.take(k).push(a[k]));
        assert(b.take(k + 1) =~= b.take(k).push(b[k]));
        first_difference(a, b, k + 1);
    }
}

/// The order of byte strings is transitive.
pub proof fn lex_lt_is_transitive(a: Seq<u8>, b: Seq<u8>, c: Seq<u8>)
    requires
        lex_lt(a, b),
        lex_lt(b, c),
    ensures
        lex_lt(a, c),
{
    let i = choose|k: int| precedes_at(a, b, k);
    let j = choose|k: int| precedes_at(b, c, k);
    let k = if i <= j {
        i
    } else {
        j
    };
    assert(a.take(k) =~= c.take(k)) by {
        assert forall|n: int| 0 <= n < k implies a[n] == c[n] by {
            assert(a.take(i)[n] == b.take(i)[n]);
            assert(b.take(j)[n] == c.take(j)[n]);
        }
    }
    if i < j {
        if i < a.len() {
            assert(b.take(j)[i] == c.take(j)[i]);
        }
    } else if j < i {
        assert(a.take(i)[j] == b.take(i)[j]);
    }
    assert(precedes_at(a, c, k));
}

fn digit_str(d: u8) -> (r: &'static str)
    requires
        d <= 9,
    ensures
        r@ == seq![digit_char(d as int)],
{
    proof {
        reveal_strlit("0");
        reveal_strlit("1");
        reveal_strlit("2");
        reveal_strlit("3");
        reveal_strlit("4");
        reveal_strlit("5");
        reveal_strlit("6");
        reveal_strlit("7");
        reveal_strlit("8");
        reveal_strlit("9");
    }
    if d == 0 {
        "0"
    } else if d == 1 {
        "1"
    } else if d == 2 {
        "2"
    } else if d == 3 {
        "3"
    } else if d == 4 {
        "4"
    } else if d == 5 {
        "5"
    } else if d == 6 {
        "6"
    } else if d == 7 {
        "7"
    } else if d == 8 {
        "8"
    } else {
        "9"
    }
}

/// The text of `c` under `char`'s `Debug` formatting, as `format!("{:?}", c)`
/// gives it. Nothing of the text is proved here: it is only given its name.
#[verifier::external_body]
pub(crate) fn char_debug(c: char) -> (r: String)
    ensures
        r@ == debug_text(c),
{
    format!("{:?}", c)
}

/// Appends the decimal numeral of `n` to `out`.
pub fn push_decimal(out: &mut String, n: u128)
    ensures
        final(out)@ == old(out)@ + decimal(n as nat),
    decreases n,
{
    if n >= 10 {
        push_decimal(out, n / 10);
    }
    let d: u8 = (n % 10) as u8;
    out.append(digit_str(d));
    proof {
        assert(out@ =~= old(out)@ + decimal(n as nat));
    }
}

/// Appends the decimal numeral of `n` to `out`, as ASCII bytes.
pub fn push_decimal_bytes(out: &mut Vec<u8>, n: u128)
    ensures
        final(out)@ == old(out)@ + decimal_bytes(n as nat),
    decreases n,
{
    if n >= 10 {
        push_decimal_bytes(out, n / 10);
    }
    let d: u8 = (n % 10) as u8;
    out.push(48 + d);
    proof {
        assert(final(out)@ == old(out)@ + decimal_bytes(n as nat));
    }
}

/// Whether `a` comes strictly before `b` in byte-wise lexicographic order.
pub fn bytes_lt(a: &[u8], b: &[u8]) -> (r: bool)
    ensures
        r == lex_lt(a@, b@),
{
    let mut i: usize = 0;
    while i < a.len() && i < b.len()
        invariant
            i <= a.len(),
            i <= b.len(),
            a@.take(i as int) == b@.take(i as int),
        decreases a.len() - i,
    {
        if a[i] != b[i] {
            let r = a[i] < b[i];
            proof {
                if r {
                    assert(precedes_at(a@, b@, i as int));
                } else {
                    assert forall|k: int| !precedes_at(a@, b@, k) by {
                        if 0 <= k <= a@.len() && k <= b@.len() && a@.take(k) == b@.take(k) {
                            if k > i {
                                assert(a@.take(k)[i as int] == b@.take(k)[i as int]);
                            } else if k < i {
                                assert(a@.take(i as int)[k] == b@.take(i as int)[k]);
                            }
                        }
                    }
                }
            }
            return r;
        }
        proof {
            assert(a@.take(i + 1) == a@.take(i as int).push(a@[i as int]));
            assert(b@.take(i + 1) == b@.take(i as int).push(b@[i as int]));
        }
        i = i + 1;
    }
    let r = i < b.len();
    proof {
        if r {
            assert(precedes_at(a@, b@, i as int));
        } else {
            assert forall|k: int| !precedes_at(a@, b@, k) by {
                if 0 <= k < i && a@.take(k) == b@.take(k) {
                    assert(a@.take(i as int)[k] == b@.take(i as int)[k]);
                }
            }
        }
    }
    r
}

} // verus!
