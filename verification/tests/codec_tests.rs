//! The decoder and the encoder on given inputs.
use std::collections::{BTreeMap, HashMap, VecDeque};
use std::rc::Rc;
use std::sync::Arc;

use bendy::decoding::{Decoder, Error as DecodingError, FromBencode, Object, Tokens};
use bendy::encoding::{AsString, Encoder, Error as EncodingError, ToBencode};
use bendy::state_tracker::{StructureError, Token};
use bendy::text::bytes_lt;

fn collect<'a>(mut tokens: Tokens<'a>) -> Vec<Result<Token<'a>, DecodingError>> {
    let mut all = Vec::new();
    while let Some(token) = tokens.next() {
        all.push(token);
    }
    all
}

fn first_error(msg: &[u8]) -> String {
    collect(Decoder::new(msg).tokens())
        .pop()
        .unwrap()
        .err()
        .unwrap()
        .to_string()
}

fn tokens_of(msg: &[u8]) -> Vec<Token> {
    collect(Decoder::new(msg).tokens())
        .into_iter()
        .map(Result::unwrap)
        .collect()
}

const CORRUPTED: &str = "bencode encoding corrupted (";

fn syntax_error(detail: &str) -> String {
    format!(
        "{}Malformed number of unexpected character: {})",
        CORRUPTED, detail
    )
}

#[test]
fn non_canonical_integers_are_rejected() {
    assert_eq!(
        first_error(b"i-0e"),
        syntax_error("Expected '1'..'9', got '0' at offset 2")
    );
    assert_eq!(
        first_error(b"i01e"),
        syntax_error("Expected 'e', got '1' at offset 2")
    );
    assert_eq!(
        first_error(b"i-01e"),
        syntax_error("Expected '1'..'9', got '0' at offset 2")
    );
    assert_eq!(
        first_error(b"i00e"),
        syntax_error("Expected 'e', got '0' at offset 2")
    );
    assert_eq!(
        first_error(b"ie"),
        syntax_error("Expected '-' or '0'..'9', got 'e' at offset 1")
    );
    assert_eq!(
        first_error(b"i-e"),
        syntax_error("Expected '1'..'9', got 'e' at offset 2")
    );
    assert_eq!(
        first_error(b"i1"),
        format!("{}Reached EOF in the middle of a message)", CORRUPTED)
    );
    assert_eq!(
        first_error(b"i+1e"),
        syntax_error("Expected '-' or '0'..'9', got '+' at offset 1")
    );
    assert_eq!(
        first_error(b"i1.0e"),
        syntax_error("Expected 'e' or '0'..'9', got '.' at offset 2")
    );
    assert_eq!(
        first_error(b"i"),
        format!("{}Reached EOF in the middle of a message)", CORRUPTED)
    );
    assert_eq!(
        first_error(b"i-"),
        format!("{}Reached EOF in the middle of a message)", CORRUPTED)
    );
    assert_eq!(
        first_error(b"i0"),
        format!("{}Reached EOF in the middle of a message)", CORRUPTED)
    );
}

#[test]
fn lengths_must_be_canonical() {
    assert_eq!(
        first_error(b"01:a"),
        syntax_error("Expected ':', got '1' at offset 1")
    );
    assert_eq!(
        first_error(b"1a:a"),
        syntax_error("Expected ':' or '0'..'9', got 'a' at offset 1")
    );
    assert_eq!(
        first_error(b"5"),
        format!("{}Reached EOF in the middle of a message)", CORRUPTED)
    );
    assert_eq!(
        first_error(b"3:ab"),
        format!("{}Reached EOF in the middle of a message)", CORRUPTED)
    );
    // a length that no usize holds
    assert_eq!(
        first_error(b"li1e99999999999999999999999999999999999999:ae"),
        syntax_error("Invalid integer at offset 4")
    );
    // a length that is one too large
    assert_eq!(
        first_error(b"18446744073709551616:"),
        if usize::MAX as u128 == u64::MAX as u128 {
            syntax_error("Invalid integer at offset 0")
        } else {
            syntax_error("Invalid integer at offset 0")
        }
    );
    assert_eq!(tokens_of(b"0:"), vec![Token::String(b"")]);
    assert_eq!(tokens_of(b"10:0123456789"), vec![Token::String(b"0123456789")]);
}

#[test]
fn unknown_token_starts_are_rejected() {
    assert_eq!(
        first_error(b"x"),
        syntax_error("Invalid token starting with 'x' at offset 0")
    );
    assert_eq!(
        first_error(b"li1e-e"),
        syntax_error("Invalid token starting with '-' at offset 4")
    );
    assert_eq!(
        first_error(b":"),
        syntax_error("Invalid token starting with ':' at offset 0")
    );
    assert_eq!(
        first_error(b"\xff"),
        syntax_error("Invalid token starting with '\u{ff}' at offset 0")
    );
}

#[test]
fn tokens_borrow_from_the_input() {
    let input = b"d3:bari-12e3:foo0:e".to_vec();
    let tokens = tokens_of(&input);
    assert_eq!(
        tokens,
        vec![
            Token::Dict,
            Token::String(b"bar"),
            Token::Num("-12"),
            Token::String(b"foo"),
            Token::String(b""),
            Token::End,
        ]
    );
    if let Token::String(key) = tokens[1] {
        assert_eq!(key.as_ptr(), input[3..].as_ptr());
    } else {
        unreachable!();
    }
    if let Token::Num(text) = tokens[2] {
        assert_eq!(text.as_ptr(), input[7..].as_ptr());
    } else {
        unreachable!();
    }
}

#[test]
fn trailing_bytes_are_read_as_more_objects() {
    assert_eq!(
        tokens_of(b"i0ei-1e"),
        vec![Token::Num("0"), Token::Num("-1")]
    );
    let mut decoder = Decoder::new(b"i1e1:a");
    assert!(matches!(
        decoder.next_object(),
        Ok(Some(Object::Integer("1")))
    ));
    assert!(matches!(decoder.next_object(), Ok(Some(Object::Bytes(b"a")))));
    assert!(matches!(decoder.next_object(), Ok(None)));
    assert!(matches!(decoder.next_object(), Ok(None)));
}

#[test]
fn empty_input_has_no_object() {
    let mut decoder = Decoder::new(b"");
    assert!(matches!(decoder.next_object(), Ok(None)));
    assert!(tokens_of(b"").is_empty());
    assert_eq!(
        i64::from_bencode(b"").err().unwrap().to_string(),
        "bencode encoding corrupted (Reached EOF in the middle of a message)"
    );
}

#[test]
fn list_view_reads_items_in_order() {
    let mut decoder = Decoder::new(b"li1e1:ali2eedee3:end");
    let mut list = decoder.next_object().unwrap().unwrap().try_into_list().unwrap();
    assert!(matches!(list.next_object(), Ok(Some(Object::Integer("1")))));
    assert!(matches!(list.next_object(), Ok(Some(Object::Bytes(b"a")))));
    // the inner list is left after its first read
    assert!(matches!(list.next_object(), Ok(Some(Object::List(_)))));
    assert!(matches!(list.next_object(), Ok(Some(Object::Dict(_)))));
    assert!(matches!(list.next_object(), Ok(None)));
    assert!(matches!(list.next_object(), Ok(None)));
    drop(list);
    assert!(matches!(
        decoder.next_object(),
        Ok(Some(Object::Bytes(b"end")))
    ));
}

#[test]
fn dict_view_reads_pairs_in_order() {
    let mut decoder = Decoder::new(b"d1:ai1e1:bli2ee1:cdee");
    let mut dict = decoder
        .next_object()
        .unwrap()
        .unwrap()
        .try_into_dictionary()
        .unwrap();
    match dict.next_pair().unwrap().unwrap() {
        (b"a", Object::Integer("1")) => {},
        _ => panic!("first pair"),
    }
    match dict.next_pair().unwrap().unwrap() {
        (b"b", Object::List(_)) => {},
        _ => panic!("second pair"),
    }
    match dict.next_pair().unwrap().unwrap() {
        (b"c", Object::Dict(_)) => {},
        _ => panic!("third pair"),
    }
    assert!(dict.next_pair().unwrap().is_none());
    assert!(dict.next_pair().unwrap().is_none());
}

#[test]
fn abandoned_views_are_skipped() {
    // a nested view that is left at once, in a list that is left in the middle
    let mut decoder = Decoder::new(b"lli1eli2eeei3eei4e");
    {
        let mut outer = decoder.next_object().unwrap().unwrap().try_into_list().unwrap();
        let inner = outer.next_object().unwrap().unwrap();
        assert!(matches!(inner, Object::List(_)));
    }
    assert!(matches!(
        decoder.next_object(),
        Ok(Some(Object::Integer("4")))
    ));
    assert!(matches!(decoder.next_object(), Ok(None)));

    // inside a list, the item after an abandoned dictionary
    let mut decoder = Decoder::new(b"ld1:ai1e1:bi2eei3ee");
    let mut list = decoder.next_object().unwrap().unwrap().try_into_list().unwrap();
    {
        let mut dict = list
            .next_object()
            .unwrap()
            .unwrap()
            .try_into_dictionary()
            .unwrap();
        assert!(dict.next_pair().unwrap().is_some());
    }
    assert!(matches!(list.next_object(), Ok(Some(Object::Integer("3")))));
    assert!(matches!(list.next_object(), Ok(None)));
}

#[test]
fn errors_in_abandoned_views_come_back() {
    let mut decoder = Decoder::new(b"li1ei-0eei5e");
    drop(decoder.next_object());
    let error = decoder.next_object().err().unwrap().to_string();
    assert!(error.contains("got '0' at offset 6"), "{}", error);
    assert_eq!(decoder.next_object().err().unwrap().to_string(), error);
}

#[test]
fn raw_bytes_of_views() {
    let input = b"l2:abd1:ali1eeei7ee3:end";
    let mut decoder = Decoder::new(input);
    let list = decoder.next_object().unwrap().unwrap().try_into_list().unwrap();
    assert_eq!(list.into_raw().unwrap(), &input[..19]);
    assert!(matches!(
        decoder.next_object(),
        Ok(Some(Object::Bytes(b"end")))
    ));

    let mut decoder = Decoder::new(input);
    let mut list = decoder.next_object().unwrap().unwrap().try_into_list().unwrap();
    list.next_object().unwrap();
    let dict = list
        .next_object()
        .unwrap()
        .unwrap()
        .try_into_dictionary()
        .unwrap();
    assert_eq!(dict.into_raw().unwrap(), b"d1:ali1eee");
    assert!(matches!(list.next_object(), Ok(Some(Object::Integer("7")))));

    // after a part of it was read, a view still gives all of its bytes
    let mut decoder = Decoder::new(b"li1ei2ee");
    let mut list = decoder.next_object().unwrap().unwrap().try_into_list().unwrap();
    list.next_object().unwrap();
    assert_eq!(list.into_raw().unwrap(), b"li1ei2ee");

    let mut decoder = Decoder::new(b"li1ei2");
    let list = decoder.next_object().unwrap().unwrap().try_into_list().unwrap();
    assert!(list.into_raw().is_err());
}

#[test]
fn consume_all_checks_the_rest() {
    let mut decoder = Decoder::new(b"li1ei2ee");
    let mut list = decoder.next_object().unwrap().unwrap().try_into_list().unwrap();
    assert!(list.consume_all().is_ok());
    assert!(list.consume_all().is_ok());
    assert!(matches!(list.next_object(), Ok(None)));

    let mut decoder = Decoder::new(b"d1:ai1e1:ai2ee");
    let mut dict = decoder
        .next_object()
        .unwrap()
        .unwrap()
        .try_into_dictionary()
        .unwrap();
    assert_eq!(
        dict.consume_all().err().unwrap().to_string(),
        "bencode encoding corrupted (Keys were not sorted)"
    );
}

#[test]
fn byte_order_of_keys() {
    assert!(bytes_lt(b"a", b"b"));
    assert!(bytes_lt(b"", b"a"));
    assert!(bytes_lt(b"a", b"aa"));
    assert!(bytes_lt(b"Z", b"a"));
    assert!(bytes_lt(b"a\x00", b"a\x01"));
    assert!(bytes_lt(b"\x7f", b"\x80"));
    assert!(!bytes_lt(b"a", b"a"));
    assert!(!bytes_lt(b"", b""));
    assert!(!bytes_lt(b"b", b"a"));
    assert!(!bytes_lt(b"aa", b"a"));
}

#[test]
fn numerals_are_parsed_as_the_standard_library_parses_them() {
    let texts: &[&str] = &[
        "", "+", "-", "0", "-0", "+0", "00", "007", "-007", "+5", "5", "-5", "127", "128", "-128",
        "-129", "255", "256", "1a", "a1", " 1", "1 ", "--1", "+-1", "-+1", "65535", "65536",
        "99999999999999999999", "-99999999999999999999", "9999999999999999999999999999999999999999x",
        "x9999999999999999999999999999999999999999", "340282366920938463463374607431768211455",
        "340282366920938463463374607431768211456", "-170141183460469231731687303715884105728",
        "-170141183460469231731687303715884105729", "170141183460469231731687303715884105727",
        "170141183460469231731687303715884105728", "2147483647", "2147483648", "-2147483648",
        "-2147483649", "4294967295", "4294967296", "9223372036854775807", "9223372036854775808",
        "-9223372036854775808", "-9223372036854775809", "18446744073709551615",
        "18446744073709551616", "\u{663}", "1\u{0}",
    ];
    fn same<T>(text: &str, decoded: Result<T, DecodingError>)
    where
        T: std::str::FromStr<Err = std::num::ParseIntError> + PartialEq + std::fmt::Debug,
    {
        match (text.parse::<T>(), decoded) {
            (Ok(expected), Ok(found)) => assert_eq!(expected, found, "{:?}", text),
            (Err(expected), Err(found)) => assert_eq!(
                format!("malformed content discovered: {}", expected),
                found.to_string(),
                "{:?}",
                text
            ),
            (expected, found) => panic!(
                "{:?}: expected {:?}, found {:?}",
                text,
                expected,
                found.map_err(|e| e.to_string())
            ),
        }
    }
    for text in texts {
        same(text, u8::decode_bencode_object(Object::Integer(text)));
        same(text, u16::decode_bencode_object(Object::Integer(text)));
        same(text, u32::decode_bencode_object(Object::Integer(text)));
        same(text, u64::decode_bencode_object(Object::Integer(text)));
        same(text, u128::decode_bencode_object(Object::Integer(text)));
        same(text, usize::decode_bencode_object(Object::Integer(text)));
        same(text, i8::decode_bencode_object(Object::Integer(text)));
        same(text, i16::decode_bencode_object(Object::Integer(text)));
        same(text, i32::decode_bencode_object(Object::Integer(text)));
        same(text, i64::decode_bencode_object(Object::Integer(text)));
        same(text, i128::decode_bencode_object(Object::Integer(text)));
        same(text, isize::decode_bencode_object(Object::Integer(text)));
    }
}

#[test]
fn integers_are_written_in_canonical_form() {
    fn written<T: ToBencode>(value: T) -> String {
        String::from_utf8(value.to_bencode().unwrap()).unwrap()
    }
    assert_eq!(written(0u8), "i0e");
    assert_eq!(written(255u8), "i255e");
    assert_eq!(written(-128i8), "i-128e");
    assert_eq!(written(127i8), "i127e");
    assert_eq!(written(u16::MAX), "i65535e");
    assert_eq!(written(i16::MIN), "i-32768e");
    assert_eq!(written(u32::MAX), "i4294967295e");
    assert_eq!(written(i32::MIN), "i-2147483648e");
    assert_eq!(written(u64::MAX), "i18446744073709551615e");
    assert_eq!(written(i64::MIN), "i-9223372036854775808e");
    assert_eq!(
        written(u128::MAX),
        "i340282366920938463463374607431768211455e"
    );
    assert_eq!(
        written(i128::MIN),
        "i-170141183460469231731687303715884105728e"
    );
    assert_eq!(
        written(i128::MAX),
        "i170141183460469231731687303715884105727e"
    );
    assert_eq!(written(usize::MAX), format!("i{}e", usize::MAX));
    assert_eq!(written(isize::MIN), format!("i{}e", isize::MIN));
    assert_eq!(written(10u8), "i10e");
    assert_eq!(written(-10i64), "i-10e");
    assert_eq!(written(100i64), "i100e");
}

#[test]
fn integers_round_trip() {
    for value in [i64::MIN, -1000, -10, -9, -1, 0, 1, 9, 10, 99, 100, 1 << 40, i64::MAX] {
        let encoded = value.to_bencode().unwrap();
        assert_eq!(i64::from_bencode(&encoded).unwrap(), value);
    }
    for value in [0u128, 1, u64::MAX as u128 + 1, u128::MAX] {
        let encoded = value.to_bencode().unwrap();
        assert_eq!(u128::from_bencode(&encoded).unwrap(), value);
    }
    for value in [i128::MIN, -1, 0, i128::MAX] {
        let encoded = value.to_bencode().unwrap();
        assert_eq!(i128::from_bencode(&encoded).unwrap(), value);
    }
}

#[test]
fn strings_are_written_with_their_length() {
    let mut encoder = Encoder::new();
    encoder.emit_str("").unwrap();
    encoder.emit_bytes(b"\x00\xff").unwrap();
    encoder.emit_str("0123456789").unwrap();
    encoder.emit_str("\u{e9}").unwrap();
    assert_eq!(
        encoder.get_output().unwrap(),
        b"0:2:\x00\xff10:01234567892:\xc3\xa9"
    );
}

#[test]
fn sorted_dict_example() {
    let mut encoder = Encoder::new();
    encoder
        .emit_dict(|mut e| {
            e.emit_pair(b"bar", 25)?;
            e.emit_pair_with(b"foo", |e| {
                e.emit_list(|e| {
                    e.emit_str("baz")?;
                    e.emit_str("qux")
                })
            })
        })
        .unwrap();
    let bytes = encoder.get_output().unwrap();
    assert_eq!(bytes, b"d3:bari25e3:fool3:baz3:quxee");

    let mut decoder = Decoder::new(&bytes);
    let mut dict = decoder
        .next_object()
        .unwrap()
        .unwrap()
        .try_into_dictionary()
        .unwrap();
    match dict.next_pair().unwrap().unwrap() {
        (b"bar", value) => assert_eq!(i64::decode_bencode_object(value).unwrap(), 25),
        _ => panic!("first pair"),
    }
    match dict.next_pair().unwrap().unwrap() {
        (b"foo", value) => assert_eq!(
            Vec::<String>::decode_bencode_object(value).unwrap(),
            vec!["baz", "qux"]
        ),
        _ => panic!("second pair"),
    }
    assert!(dict.next_pair().unwrap().is_none());
    drop(dict);
    assert!(matches!(decoder.next_object(), Ok(None)));
}

#[test]
fn sorted_dict_refuses_keys_out_of_order() {
    let mut encoder = Encoder::new();
    let error = encoder
        .emit_dict(|mut e| {
            e.emit_pair(b"b", 1)?;
            e.emit_pair(b"a", 2)
        })
        .err()
        .unwrap();
    assert!(matches!(
        error,
        EncodingError::StructureError {
            source: StructureError::UnsortedKeys
        }
    ));
    assert!(encoder.get_output().is_err());

    let mut encoder = Encoder::new();
    let error = encoder
        .emit_dict(|mut e| {
            e.emit_pair(b"a", 1)?;
            e.emit_pair(b"a", 2)
        })
        .err()
        .unwrap();
    assert!(matches!(
        error,
        EncodingError::StructureError {
            source: StructureError::UnsortedKeys
        }
    ));
}

#[test]
fn unsorted_dict_sorts_by_the_raw_key() {
    let mut encoder = Encoder::new();
    encoder
        .emit_and_sort_dict(|e| {
            e.emit_pair(b"b", 2)?;
            e.emit_pair(b"a", "foo")
        })
        .unwrap();
    assert_eq!(encoder.get_output().unwrap(), b"d1:a3:foo1:bi2ee");

    // the order is that of the keys, not that of their encodings:
    // "aa" is written as 2:aa and "b" as 1:b
    let mut encoder = Encoder::new();
    encoder
        .emit_and_sort_dict(|e| {
            e.emit_pair(b"b", 1)?;
            e.emit_pair(b"aa", 2)?;
            e.emit_pair(b"", 3)?;
            e.emit_pair_with(b"a", |e| e.emit_list(|e| e.emit_int(4)))
        })
        .unwrap();
    assert_eq!(
        encoder.get_output().unwrap(),
        b"d0:i3e1:ali4ee2:aai2e1:bi1ee"
    );
}

#[test]
fn unsorted_dict_refuses_duplicate_keys() {
    let mut encoder = Encoder::new();
    let error = encoder
        .emit_and_sort_dict(|e| {
            e.emit_pair(b"a", 1)?;
            e.emit_pair(b"b", 2)?;
            e.emit_pair(b"a", 3)
        })
        .err()
        .unwrap();
    match error {
        EncodingError::StructureError {
            source: StructureError::InvalidState(message),
        } => assert_eq!(message, "Duplicate key a"),
        other => panic!("{:?}", other),
    }

    let mut encoder = Encoder::new();
    let error = encoder
        .emit_and_sort_dict(|e| {
            e.emit_pair(b"\xff", 1)?;
            e.emit_pair(b"\xff", 3)
        })
        .err()
        .unwrap();
    match error {
        EncodingError::StructureError {
            source: StructureError::InvalidState(message),
        } => assert_eq!(message, "Duplicate key \u{fffd}"),
        other => panic!("{:?}", other),
    }
}

#[test]
fn unsorted_dict_values_have_the_depth_that_is_left() {
    let mut encoder = Encoder::new().with_max_depth(2);
    encoder
        .emit_and_sort_dict(|e| e.emit_pair_with(b"a", |e| e.emit_list(|e| e.emit_int(1))))
        .unwrap();
    assert_eq!(encoder.get_output().unwrap(), b"d1:ali1eee");

    let mut encoder = Encoder::new().with_max_depth(1);
    let error = encoder
        .emit_and_sort_dict(|e| e.emit_pair_with(b"a", |e| e.emit_list(|e| e.emit_int(1))))
        .err()
        .unwrap();
    assert!(matches!(
        error,
        EncodingError::StructureError {
            source: StructureError::NestingTooDeep
        }
    ));
}

#[test]
fn unsorted_dict_values_must_be_one_complete_item() {
    let mut encoder = Encoder::new();
    let error = encoder
        .emit_and_sort_dict(|e| e.emit_pair_with(b"a", |_| Ok(())))
        .err()
        .unwrap();
    match error {
        EncodingError::StructureError {
            source: StructureError::InvalidState(message),
        } => assert_eq!(message, "No value was emitted"),
        other => panic!("{:?}", other),
    }
}

#[test]
fn item_callbacks_must_emit() {
    let mut encoder = Encoder::new();
    let error = encoder.emit_with(|_| Ok(())).err().unwrap();
    match &error {
        EncodingError::StructureError {
            source: StructureError::InvalidState(message),
        } => assert_eq!(message, "No value was emitted"),
        other => panic!("{:?}", other),
    }
    // and the error is latched
    assert!(encoder.emit_int(1).is_err());
}

#[test]
fn unfinished_output_is_an_error() {
    let mut encoder = Encoder::new();
    let _ = encoder.emit_list(|_| Err(EncodingError::malformed_content("stop")));
    let error = encoder.get_output().err().unwrap();
    assert!(matches!(
        error,
        EncodingError::StructureError {
            source: StructureError::UnexpectedEof
        }
    ));
    assert_eq!(Encoder::new().get_output().unwrap(), b"");
}

#[test]
fn encoder_output_is_decodable() {
    let mut encoder = Encoder::new();
    encoder
        .emit_list(|e| {
            e.emit_int(-5)?;
            e.emit_bytes(b"\x00")?;
            e.emit_and_sort_dict(|d| {
                d.emit_pair(b"z", vec![1u8, 2])?;
                d.emit_pair(b"y", "s")
            })?;
            e.emit_dict(|mut d| d.emit_pair(b"k", AsString(b"v".to_vec())))
        })
        .unwrap();
    let bytes = encoder.get_output().unwrap();
    assert_eq!(bytes, b"li-5e1:\x00d1:y1:s1:zli1ei2eeed1:k1:vee");
    let tokens = tokens_of(&bytes);
    assert_eq!(tokens.len(), 17);
    let mut decoder = Decoder::new(&bytes);
    assert!(matches!(decoder.next_object(), Ok(Some(Object::List(_)))));
    assert!(matches!(decoder.next_object(), Ok(None)));
}

#[test]
fn tokens_round_trip() {
    for input in [
        &b"d3:bari1e3:fooli2ei3eee"[..],
        b"i0e",
        b"0:",
        b"le",
        b"de",
        b"lllleeee",
        b"d1:ad1:bd1:cleeee",
        b"l10:0123456789i-9223372036854775809ee",
    ] {
        let mut out = Vec::new();
        for token in tokens_of(input) {
            match token {
                Token::List => out.push(b'l'),
                Token::Dict => out.push(b'd'),
                Token::End => out.push(b'e'),
                Token::Num(text) => {
                    out.push(b'i');
                    out.extend_from_slice(text.as_bytes());
                    out.push(b'e');
                },
                Token::String(bytes) => {
                    out.extend_from_slice(bytes.len().to_string().as_bytes());
                    out.push(b':');
                    out.extend_from_slice(bytes);
                },
            }
        }
        assert_eq!(out, input);
    }
}

#[test]
fn typed_values_round_trip() {
    let list = vec!["a".to_owned(), "".to_owned(), "\u{e9}".to_owned()];
    let encoded = list.to_bencode().unwrap();
    assert_eq!(encoded, b"l1:a0:2:\xc3\xa9e");
    assert_eq!(Vec::<String>::from_bencode(&encoded).unwrap(), list);

    let mut map = BTreeMap::new();
    map.insert("b".to_owned(), vec![1i32, -2]);
    map.insert("a".to_owned(), vec![]);
    let encoded = map.to_bencode().unwrap();
    assert_eq!(encoded, b"d1:ale1:bli1ei-2eee");
    assert_eq!(
        BTreeMap::<String, Vec<i32>>::from_bencode(&encoded).unwrap(),
        map
    );

    let mut map = HashMap::new();
    for key in ["q", "b", "zz", "a", "ab"] {
        map.insert(key.to_owned(), key.len() as u8);
    }
    let encoded = map.to_bencode().unwrap();
    assert_eq!(encoded, b"d1:ai1e2:abi2e1:bi1e1:qi1e2:zzi2ee");
    assert_eq!(HashMap::<String, u8>::from_bencode(&encoded).unwrap(), map);

    let deque: VecDeque<u8> = vec![1, 2, 3].into();
    assert_eq!(deque.to_bencode().unwrap(), b"li1ei2ei3ee");
    let slice: &[u8] = &[1, 2];
    assert_eq!(slice.to_bencode().unwrap(), b"li1ei2ee");
    assert_eq!(Box::new(5u8).to_bencode().unwrap(), b"i5e");
    assert_eq!(Rc::new(5u8).to_bencode().unwrap(), b"i5e");
    assert_eq!(Arc::new(5u8).to_bencode().unwrap(), b"i5e");
    assert_eq!(*Rc::<u8>::from_bencode(b"i5e").unwrap(), 5);
    assert_eq!(AsString(vec![1u8, 2]).to_bencode().unwrap(), b"2:\x01\x02");
    assert_eq!(AsString::<Vec<u8>>::from(&b"ab"[..]).0, b"ab");
    assert_eq!(
        AsString::<Vec<u8>>::from_bencode(b"2:\x01\x02").unwrap().0,
        vec![1, 2]
    );
}

#[test]
fn typed_decoding_reports_what_is_wrong() {
    assert_eq!(
        String::from_bencode(b"2:\xff\xfe").err().unwrap().to_string(),
        "malformed content discovered: invalid utf-8 sequence of 1 bytes from index 0"
    );
    assert_eq!(
        String::from_bencode(b"i1e").err().unwrap().to_string(),
        "discovered Num but expected String"
    );
    assert_eq!(
        u8::from_bencode(b"i256e").err().unwrap().to_string(),
        "malformed content discovered: number too large to fit in target type"
    );
    assert_eq!(
        i8::from_bencode(b"i-129e").err().unwrap().to_string(),
        "malformed content discovered: number too small to fit in target type"
    );
    assert_eq!(
        u8::from_bencode(b"i-1e").err().unwrap().to_string(),
        "malformed content discovered: invalid digit found in string"
    );
    assert_eq!(
        Vec::<u8>::from_bencode(b"de").err().unwrap().to_string(),
        "discovered Dict but expected List"
    );
    assert_eq!(
        BTreeMap::<String, u8>::from_bencode(b"le")
            .err()
            .unwrap()
            .to_string(),
        "discovered List but expected Dict"
    );
    assert_eq!(
        Vec::<u8>::from_bencode(b"li1e1:ae")
            .err()
            .unwrap()
            .to_string(),
        "discovered String but expected Num"
    );
    // the depth that a type expects bounds the decoder
    assert_eq!(
        Vec::<u8>::from_bencode(b"llee").err().unwrap().to_string(),
        "bencode encoding corrupted (Maximum nesting depth exceeded)"
    );
    assert_eq!(Vec::<Vec<u8>>::from_bencode(b"llee").unwrap(), vec![vec![]]);
}

#[test]
fn items_are_emitted_one_after_the_other() {
    let mut encoder = Encoder::new();
    encoder.emit_token(Token::List).unwrap();
    encoder.emit_each(&[1u8, 2, 3]).unwrap();
    encoder.emit_each::<u8>(&[]).unwrap();
    encoder.emit_each(&["a", "bc"]).unwrap();
    encoder.emit_token(Token::End).unwrap();
    assert_eq!(encoder.get_output().unwrap(), b"li1ei2ei3e1:a2:bce".to_vec());
}

#[test]
fn items_stop_at_the_first_that_fails() {
    let mut encoder = Encoder::new().with_max_depth(1);
    encoder.emit_token(Token::List).unwrap();
    let items = vec![vec![1u8], vec![2u8]];
    assert!(encoder.emit_each(&items).is_err());
    assert!(encoder.get_output().is_err());
}

#[test]
fn pairs_are_emitted_one_after_the_other() {
    let mut encoder = Encoder::new();
    encoder.emit_token(Token::Dict).unwrap();
    let one = 1u8;
    let two = 2u8;
    encoder
        .emit_pairs(&[(&b"a"[..], &one), (&b"b"[..], &two)])
        .unwrap();
    encoder.emit_token(Token::End).unwrap();
    assert_eq!(encoder.get_output().unwrap(), b"d1:ai1e1:bi2ee".to_vec());
}

#[test]
fn pairs_out_of_order_are_refused() {
    let mut encoder = Encoder::new();
    encoder.emit_token(Token::Dict).unwrap();
    let one = 1u8;
    let two = 2u8;
    match encoder.emit_pairs(&[(&b"b"[..], &one), (&b"a"[..], &two)]) {
        Err(EncodingError::StructureError { source }) => {
            assert_eq!(source, StructureError::UnsortedKeys)
        },
        other => panic!("expected unsorted keys, got {:?}", other),
    }
}

#[test]
fn unchecked_list_takes_what_the_iterator_hands_out() {
    let mut encoder = Encoder::new();
    encoder
        .emit_with(|e| e.emit_unchecked_list(vec![3i64, -4, 5].into_iter()))
        .unwrap();
    assert_eq!(encoder.get_output().unwrap(), b"li3ei-4ei5ee".to_vec());

    let mut empty = Encoder::new();
    empty
        .emit_with(|e| e.emit_unchecked_list(Vec::<u8>::new().into_iter()))
        .unwrap();
    assert_eq!(empty.get_output().unwrap(), b"le".to_vec());

    let mut shallow = Encoder::new().with_max_depth(0);
    assert!(shallow
        .emit_with(|e| e.emit_unchecked_list(vec![1u8].into_iter()))
        .is_err());
}

#[test]
fn lists_and_maps_are_decoded_pair_by_pair() {
    let mut decoder = Decoder::new(b"li1ei2ei3ee");
    match decoder.next_object().unwrap().unwrap() {
        Object::List(list) => {
            let items: Vec<u8> = bendy::decoding::from_bencode::decode_items(list).unwrap();
            assert_eq!(items, vec![1, 2, 3]);
        },
        _ => panic!("expected a list"),
    }
    let mut decoder = Decoder::new(b"d1:ai1e1:bi2ee");
    match decoder.next_object().unwrap().unwrap() {
        Object::Dict(dict) => {
            let pairs: Vec<(String, u8)> =
                bendy::decoding::from_bencode::decode_pairs(dict).unwrap();
            assert_eq!(pairs, vec![("a".to_string(), 1), ("b".to_string(), 2)]);
        },
        _ => panic!("expected a dictionary"),
    }
    let mut decoder = Decoder::new(b"li1ei300ei3eei7e");
    match decoder.next_object().unwrap().unwrap() {
        Object::List(list) => {
            let items: Result<Vec<u8>, _> = bendy::decoding::from_bencode::decode_items(list);
            assert!(items.is_err());
        },
        _ => panic!("expected a list"),
    }
    match decoder.next_object().unwrap().unwrap() {
        Object::Integer(text) => assert_eq!(text, "7"),
        _ => panic!("expected an integer"),
    }
    let maps: BTreeMap<String, Vec<u8>> =
        BTreeMap::from_bencode(b"d1:ali1ee1:bli2ei3eee").unwrap();
    assert_eq!(maps.len(), 2);
    assert_eq!(maps["b"], vec![2, 3]);
    let hashed: HashMap<String, u8> = HashMap::from_bencode(b"d1:ai1e1:bi2ee").unwrap();
    assert_eq!(hashed["a"], 1);
    assert_eq!(hashed["b"], 2);
    assert!(BTreeMap::<String, u8>::from_bencode(b"d1:ai1e1:b1:xe").is_err());
    assert!(BTreeMap::<String, u8>::from_bencode(b"d2:\xff\xfei1ee").is_err());
}
