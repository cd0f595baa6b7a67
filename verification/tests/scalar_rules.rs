//! The rules by which values without a bencode type of their own are
//! written and read.
use bendy::decoding::Decoder;
use bendy::encoding::Encoder;
use bendy::scalars::{
    bits32_of_bytes, bits64_of_bytes, bool_of_number, byte_string_content, bytes_of_bits32,
    bytes_of_bits64, number_of_bool, single_char,
};
use bendy::state_tracker::Token;

fn is_send<T: Send>() {}

fn is_sync<T: Sync>() {}

#[test]
fn decoding_errors_are_sync_send() {
    is_send::<bendy::decoding::Error>();
    is_send::<bendy::decoding::ErrorKind>();
    is_sync::<bendy::decoding::Error>();
    is_sync::<bendy::decoding::ErrorKind>();
}

#[test]
fn encoding_errors_are_sync_send() {
    is_send::<bendy::encoding::Error>();
    is_sync::<bendy::encoding::Error>();
}

#[test]
fn none() {
    let mut encoder = Encoder::new();
    encoder.emit_token(Token::List).unwrap();
    encoder.emit_token(Token::End).unwrap();
    assert_eq!(encoder.get_output().unwrap(), b"le".to_vec());
}

#[test]
fn map_non_byte_key() {
    let mut encoder = Encoder::new();
    encoder.emit_int(1).unwrap();
    let key = encoder.get_output().unwrap();
    assert_eq!(byte_string_content(&key), None);
    assert_eq!(byte_string_content(b"le"), None);
    assert_eq!(byte_string_content(b"d1:ai1ee"), None);
    assert_eq!(byte_string_content(b""), None);
}

#[test]
fn map_byte_key() {
    assert_eq!(byte_string_content(b"3:foo"), Some(&b"foo"[..]));
    assert_eq!(byte_string_content(b"0:"), Some(&b""[..]));
    assert_eq!(byte_string_content(b"4:a:b:"), Some(&b"a:b:"[..]));
    assert_eq!(byte_string_content(b"12:abcdefghijkl"), Some(&b"abcdefghijkl"[..]));
    assert_eq!(byte_string_content(b"12"), None);
}

#[test]
fn invalid_bool() {
    assert_eq!(bool_of_number("100"), None);
    assert_eq!(bool_of_number("-1"), None);
    assert_eq!(bool_of_number("2"), None);
    assert_eq!(bool_of_number(""), None);
    assert_eq!(bool_of_number("01"), None);
}

#[test]
fn valid_bool() {
    assert_eq!(bool_of_number("0"), Some(false));
    assert_eq!(bool_of_number("1"), Some(true));
    assert_eq!(number_of_bool(false), 0);
    assert_eq!(number_of_bool(true), 1);
}

#[test]
fn invalid_f32() {
    assert_eq!(bits32_of_bytes(b"10000000"), Err(8));
    assert_eq!(bits32_of_bytes(b""), Err(0));
    assert_eq!(bits32_of_bytes(b"123"), Err(3));
}

#[test]
fn invalid_f64() {
    assert_eq!(bits64_of_bytes(b"1000"), Err(4));
    assert_eq!(bits64_of_bytes(b"123456789"), Err(9));
}

#[test]
fn float_bits_are_written_most_significant_first() {
    for value in [0.0f32, 1.0, -1.5, f32::MAX, f32::MIN_POSITIVE, f32::INFINITY] {
        let bytes = bytes_of_bits32(value.to_bits());
        assert_eq!(bytes, value.to_bits().to_be_bytes());
        assert_eq!(bits32_of_bytes(&bytes), Ok(value.to_bits()));
    }
    for value in [0.0f64, 1.0, -1.5, f64::MAX, f64::MIN_POSITIVE, f64::NEG_INFINITY] {
        let bytes = bytes_of_bits64(value.to_bits());
        assert_eq!(bytes, value.to_bits().to_be_bytes());
        assert_eq!(bits64_of_bytes(&bytes), Ok(value.to_bits()));
    }
    assert_eq!(bytes_of_bits32(0x0102_0304), [1, 2, 3, 4]);
    assert_eq!(bytes_of_bits64(0x0102_0304_0506_0708), [1, 2, 3, 4, 5, 6, 7, 8]);
    assert_eq!(bits32_of_bytes(&[0xff, 0, 0, 1]), Ok(0xff00_0001));
}

#[test]
fn invalid_char() {
    assert_eq!(single_char("00"), Err(2));
    assert_eq!(single_char(""), Err(0));
    assert_eq!(single_char("\u{1F9D0}\u{1F9D0}\u{1F9D0}"), Err(3));
}

#[test]
fn valid_char() {
    assert_eq!(single_char("a"), Ok('a'));
    assert_eq!(single_char("\u{1F9D0}"), Ok('\u{1F9D0}'));
}

#[test]
fn trailing_bytes_forbid() {
    let mut tokens = Decoder::new(b"i1ei1e").tokens();
    assert_eq!(tokens.next().unwrap().unwrap(), Token::Num("1"));
    assert!(tokens.next().is_some());
}

#[test]
fn trailing_bytes_allow() {
    let mut tokens = Decoder::new(b"i1ei1e").tokens();
    assert_eq!(tokens.next().unwrap().unwrap(), Token::Num("1"));
    let mut exact = Decoder::new(b"i1e").tokens();
    assert_eq!(exact.next().unwrap().unwrap(), Token::Num("1"));
    assert!(exact.next().is_none());
}
