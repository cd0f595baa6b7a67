use bendy::decoding::{Decoder, Error, Object, Tokens};
use bendy::state_tracker::Token;

static SIMPLE_MSG: &'static [u8] = b"d3:bari1e3:fooli2ei3eee";

fn collect<'a>(mut tokens: Tokens<'a>) -> Vec<Result<Token<'a>, Error>> {
    let mut all = Vec::new();
    while let Some(token) = tokens.next() {
        all.push(token);
    }
    all
}

fn decode_tokens(msg: &[u8]) -> Vec<Token> {
    let tokens: Vec<Result<Token, Error>> = collect(Decoder::new(msg).tokens());
    if tokens.iter().all(Result::is_ok) {
        tokens.into_iter().map(Result::unwrap).collect()
    } else {
        panic!(
            "Unexpected tokenization error. Received tokens: {:?}",
            tokens
        );
    }
}

fn decode_err(msg: &[u8], err_regex: &str) {
    let mut tokens: Vec<Result<Token, Error>> = collect(Decoder::new(msg).tokens());
    if tokens.iter().all(Result::is_ok) {
        panic!("Unexpected parse success: {:?}", tokens);
    } else {
        let err = format!("{}", tokens.pop().unwrap().err().unwrap().to_string());
        let err_regex = regex::Regex::new(err_regex).expect("Test regexes should be valid");
        if !err_regex.is_match(&err) {
            panic!("Unexpected error: {}", err);
        }
    }
}

#[test]
fn decoder_simple_bdecode_tokenization() {
    let tokens: Vec<_> = decode_tokens(SIMPLE_MSG);
    assert_eq!(
        tokens,
        vec![
            Token::Dict,
            Token::String(&b"bar"[..]),
            Token::Num(&"1"[..]),
            Token::String(&b"foo"[..]),
            Token::List,
            Token::Num(&"2"[..]),
            Token::Num(&"3"[..]),
            Token::End,
            Token::End,
        ]
    );
}

#[test]
fn decoder_short_dict_should_fail() {
    decode_err(b"d", r"EOF");
}

#[test]
fn decoder_short_list_should_fail() {
    decode_err(b"l", r"EOF");
}

#[test]
fn decoder_short_int_should_fail() {
    decode_err(b"i12", r"EOF");
}

#[test]
fn decoder_negative_numbers_and_zero_should_parse() {
    let tokens: Vec<_> = decode_tokens(b"i0ei-1e");
    assert_eq!(tokens, vec![Token::Num(&"0"), Token::Num(&"-1")],);
}

#[test]
fn decoder_negative_zero_is_illegal() {
    decode_err(b"i-0e", "got '0'");
}

#[test]
fn decoder_leading_zeros_are_illegal() {
    decode_err(b"i01e", "got '1'");
    decode_err(b"i-01e", "got '0'");
}

#[test]
fn decoder_map_keys_must_be_strings() {
    decode_err(b"d3:fooi1ei2ei3ee", r"Map keys must be strings");
}

#[test]
fn decoder_map_keys_must_ascend() {
    decode_err(b"d3:fooi1e3:bari1ee", r"Keys were not sorted");
}

#[test]
fn decoder_map_keys_must_be_unique() {
    decode_err(b"d3:fooi1e3:fooi1ee", r"Keys were not sorted");
}

#[test]
fn decoder_map_keys_must_have_values() {
    decode_err(b"d3:fooe", r"Missing map value");
}

#[test]
fn decoder_strings_must_have_bodies() {
    decode_err(b"3:", r"EOF");
}

#[test]
fn decoder_ints_must_have_bodies() {
    decode_err(b"ie", r"Expected.*got 'e'");
}

#[test]
fn decoder_recursion_should_be_limited() {
    let mut msg = Vec::new();
    msg.extend(std::iter::repeat(b'l').take(4096));
    msg.extend(std::iter::repeat(b'e').take(4096));
    decode_err(&msg, r"nesting depth");
}

#[test]
fn decoder_recursion_bounds_should_be_tight() {
    let test_msg = b"lllleeee";
    assert!(collect(Decoder::new(test_msg).with_max_depth(4).tokens())
        .into_iter()
        .last()
        .unwrap()
        .is_ok());
    assert!(collect(Decoder::new(test_msg).with_max_depth(3).tokens())
        .into_iter()
        .last()
        .unwrap()
        .is_err());
}

#[test]
fn decoder_dict_drop_should_consume_struct() {
    let mut decoder = Decoder::new(b"d3:fooi1e3:quxi2eei1000e");
    drop(decoder.next_object());

    let token = decoder.tokens().next().unwrap().unwrap();
    assert_eq!(token, Token::Num("1000"));
}

#[test]
fn decoder_list_drop_should_consume_struct() {
    let mut decoder = Decoder::new(b"li1ei2ei3eei1000e");
    drop(decoder.next_object());

    let token = decoder.tokens().next().unwrap().unwrap();
    assert_eq!(token, Token::Num("1000"));
}

#[test]
fn decoder_bytes_or_should_work_on_bytes() {
    assert_eq!(
        Ok(&b"foo"[..]),
        Object::Bytes(b"foo").bytes_or(Err("failure"))
    );
    assert_eq!(Ok(&b"foo"[..]), Object::Bytes(b"foo").bytes_or_err(0));
}

#[test]
fn decoder_bytes_or_should_not_work_on_other_types() {
    assert_eq!(
        Err("failure"),
        Object::Integer("123").bytes_or(Err("failure"))
    );

    let mut list_decoder = Decoder::new(b"le");
    assert_eq!(
        Err("failure"),
        list_decoder
            .next_object()
            .unwrap()
            .unwrap()
            .bytes_or(Err("failure"))
    );
    let mut dict_decoder = Decoder::new(b"de");
    assert_eq!(
        Err("failure"),
        dict_decoder
            .next_object()
            .unwrap()
            .unwrap()
            .bytes_or(Err("failure"))
    );

    assert_eq!(Err(0), Object::Integer("123").bytes_or_err(0));
    let mut list_decoder = Decoder::new(b"le");
    assert_eq!(
        Err(0),
        list_decoder.next_object().unwrap().unwrap().bytes_or_err(0)
    );
    let mut dict_decoder = Decoder::new(b"de");
    assert_eq!(
        Err(0),
        dict_decoder.next_object().unwrap().unwrap().bytes_or_err(0)
    );
}

#[test]
fn decoder_bytes_or_else_should_work_on_bytes() {
    assert_eq!(
        Ok(&b"foo"[..]),
        Object::Bytes(b"foo").bytes_or_else(|_| Err("failure"))
    );
    assert_eq!(
        Ok(&b"foo"[..]),
        Object::Bytes(b"foo").bytes_or_else_err(|| 0)
    );
}

#[test]
fn decoder_bytes_or_else_should_not_work_on_other_types() {
    assert_eq!(
        Err("failure"),
        Object::Integer("123").bytes_or_else(|_| Err("failure"))
    );
    let mut list_decoder = Decoder::new(b"le");
    assert_eq!(
        Err("failure"),
        list_decoder
            .next_object()
            .unwrap()
            .unwrap()
            .bytes_or_else(|_| Err("failure"))
    );
    let mut dict_decoder = Decoder::new(b"de");
    assert_eq!(
        Err("failure"),
        dict_decoder
            .next_object()
            .unwrap()
            .unwrap()
            .bytes_or_else(|_| Err("failure"))
    );

    assert_eq!(Err(0), Object::Integer("123").bytes_or_else_err(|| 0));
    let mut list_decoder = Decoder::new(b"le");
    assert_eq!(
        Err(0),
        list_decoder
            .next_object()
            .unwrap()
            .unwrap()
            .bytes_or_else_err(|| 0)
    );
    let mut dict_decoder = Decoder::new(b"de");
    assert_eq!(
        Err(0),
        dict_decoder
            .next_object()
            .unwrap()
            .unwrap()
            .bytes_or_else_err(|| 0)
    );
}

#[test]
fn decoder_integer_str_or_should_work_on_int() {
    assert_eq!(
        Ok(&"123"[..]),
        Object::Integer("123").integer_or(Err("failure"))
    );
    assert_eq!(
        Ok(&"123"[..]),
        Object::Integer("123").integer_str_or_err(-1)
    );
}

#[test]
fn decoder_integer_str_or_should_not_work_on_other_types() {
    assert_eq!(
        Err("failure"),
        Object::Bytes(b"foo").integer_or(Err("failure"))
    );
    let mut list_decoder = Decoder::new(b"le");
    assert_eq!(
        Err("failure"),
        list_decoder
            .next_object()
            .unwrap()
            .unwrap()
            .integer_or(Err("failure"))
    );
    let mut dict_decoder = Decoder::new(b"de");
    assert_eq!(
        Err("failure"),
        dict_decoder
            .next_object()
            .unwrap()
            .unwrap()
            .integer_or(Err("failure"))
    );

    assert_eq!(Err(-1), Object::Bytes(b"foo").integer_str_or_err(-1));
    let mut list_decoder = Decoder::new(b"le");
    assert_eq!(
        Err(-1),
        list_decoder
            .next_object()
            .unwrap()
            .unwrap()
            .integer_str_or_err(-1)
    );
    let mut dict_decoder = Decoder::new(b"de");
    assert_eq!(
        Err(-1),
        dict_decoder
            .next_object()
            .unwrap()
            .unwrap()
            .integer_str_or_err(-1)
    );
}

#[test]
fn decoder_integer_str_or_else_should_work_on_int() {
    assert_eq!(
        Ok(&"123"[..]),
        Object::Integer("123").integer_or_else(|_| Err("failure"))
    );
    assert_eq!(
        Ok(&"123"[..]),
        Object::Integer("123").integer_str_or_else_err(|| -1)
    );
}

#[test]
fn decoder_integer_str_or_else_should_not_work_on_other_types() {
    assert_eq!(
        Err("failure"),
        Object::Bytes(b"foo").integer_or_else(|_| Err("failure"))
    );
    let mut list_decoder = Decoder::new(b"le");
    assert_eq!(
        Err("failure"),
        list_decoder
            .next_object()
            .unwrap()
            .unwrap()
            .integer_or_else(|_| Err("failure"))
    );
    let mut dict_decoder = Decoder::new(b"de");
    assert_eq!(
        Err("failure"),
        dict_decoder
            .next_object()
            .unwrap()
            .unwrap()
            .integer_or_else(|_| Err("failure"))
    );

    assert_eq!(
        Err(-1),
        Object::Bytes(b"foo").integer_str_or_else_err(|| -1)
    );
    let mut list_decoder = Decoder::new(b"le");
    assert_eq!(
        Err(-1),
        list_decoder
            .next_object()
            .unwrap()
            .unwrap()
            .integer_str_or_else_err(|| -1)
    );
    let mut dict_decoder = Decoder::new(b"de");
    assert_eq!(
        Err(-1),
        dict_decoder
            .next_object()
            .unwrap()
            .unwrap()
            .integer_str_or_else_err(|| -1)
    );
}

#[test]
fn decoder_list_or_should_work_on_list() {
    let mut list_decoder = Decoder::new(b"le");
    assert!(list_decoder
        .next_object()
        .unwrap()
        .unwrap()
        .list_or(Err("failure"))
        .is_ok());
    let mut list_decoder = Decoder::new(b"le");
    assert!(list_decoder
        .next_object()
        .unwrap()
        .unwrap()
        .list_or_err(0)
        .is_ok());
}

#[test]
fn decoder_list_or_should_not_work_on_other_types() {
    assert_eq!(
        "failure",
        Object::Bytes(b"foo").list_or(Err("failure")).err().unwrap()
    );
    assert_eq!(
        "failure",
        Object::Integer("foo").list_or(Err("failure")).err().unwrap()
    );

    let mut dict_decoder = Decoder::new(b"de");
    assert_eq!(
        "failure",
        dict_decoder
            .next_object()
            .unwrap()
            .unwrap()
            .list_or(Err("failure"))
            .err()
            .unwrap()
    );

    assert_eq!(0, Object::Bytes(b"foo").list_or_err(0).err().unwrap());
    assert_eq!(0, Object::Integer("foo").list_or_err(0).err().unwrap());

    let mut dict_decoder = Decoder::new(b"de");
    assert_eq!(
        0,
        dict_decoder
            .next_object()
            .unwrap()
            .unwrap()
            .list_or_err(0)
            .err()
            .unwrap()
    );
}

#[test]
fn decoder_list_or_else_should_work_on_list() {
    let mut list_decoder = Decoder::new(b"le");
    assert!(list_decoder
        .next_object()
        .unwrap()
        .unwrap()
        .list_or_else(|_| Err("failure"))
        .is_ok());
    let mut list_decoder = Decoder::new(b"le");
    assert!(list_decoder
        .next_object()
        .unwrap()
        .unwrap()
        .list_or_else_err(|| 0)
        .is_ok());
}

#[test]
fn decoder_list_or_else_should_not_work_on_other_types() {
    assert_eq!(
        "failure",
        Object::Bytes(b"foo")
            .list_or_else(|_| Err("failure"))
            .err()
            .unwrap()
    );
    assert_eq!(
        "failure",
        Object::Integer("foo")
            .list_or_else(|_| Err("failure"))
            .err()
            .unwrap()
    );

    let mut dict_decoder = Decoder::new(b"de");
    assert_eq!(
        "failure",
        dict_decoder
            .next_object()
            .unwrap()
            .unwrap()
            .list_or_else(|_| Err("failure"))
            .err()
            .unwrap()
    );

    assert_eq!(
        0,
        Object::Bytes(b"foo").list_or_else_err(|| 0).err().unwrap()
    );
    assert_eq!(
        0,
        Object::Integer("foo")
            .list_or_else_err(|| 0)
            .err()
            .unwrap()
    );

    let mut dict_decoder = Decoder::new(b"de");
    assert_eq!(
        0,
        dict_decoder
            .next_object()
            .unwrap()
            .unwrap()
            .list_or_else_err(|| 0)
            .err()
            .unwrap()
    );
}

#[test]
fn decoder_dictionary_or_should_work_on_dict() {
    let mut dict_decoder = Decoder::new(b"de");
    assert!(dict_decoder
        .next_object()
        .unwrap()
        .unwrap()
        .dictionary_or(Err("failure"))
        .is_ok());
    let mut dict_decoder = Decoder::new(b"de");
    assert!(dict_decoder
        .next_object()
        .unwrap()
        .unwrap()
        .dictionary_or_err(0)
        .is_ok());
}

#[test]
fn decoder_dictionary_or_should_not_work_on_other_types() {
    assert_eq!(
        "failure",
        Object::Bytes(b"foo")
            .dictionary_or(Err("failure"))
            .err()
            .unwrap()
    );
    assert_eq!(
        "failure",
        Object::Integer("foo")
            .dictionary_or(Err("failure"))
            .err()
            .unwrap()
    );

    let mut list_decoder = Decoder::new(b"le");
    assert_eq!(
        "failure",
        list_decoder
            .next_object()
            .unwrap()
            .unwrap()
            .dictionary_or(Err("failure"))
            .err()
            .unwrap()
    );

    assert_eq!(
        0,
        Object::Bytes(b"foo").dictionary_or_err(0).err().unwrap()
    );
    assert_eq!(
        0,
        Object::Integer("foo").dictionary_or_err(0).err().unwrap()
    );

    let mut list_decoder = Decoder::new(b"le");
    assert_eq!(
        0,
        list_decoder
            .next_object()
            .unwrap()
            .unwrap()
            .dictionary_or_err(0)
            .err()
            .unwrap()
    );
}

#[test]
fn decoder_dictionary_or_else_should_work_on_dict() {
    let mut dict_decoder = Decoder::new(b"de");
    assert!(dict_decoder
        .next_object()
        .unwrap()
        .unwrap()
        .dictionary_or_else(|_| Err("failure"))
        .is_ok());
    let mut dict_decoder = Decoder::new(b"de");
    assert!(dict_decoder
        .next_object()
        .unwrap()
        .unwrap()
        .dictionary_or_else_err(|| 0)
        .is_ok());
}

#[test]
fn decoder_dictionary_or_else_should_not_work_on_other_types() {
    assert_eq!(
        "failure",
        Object::Bytes(b"foo")
            .dictionary_or_else(|_| Err("failure"))
            .err()
            .unwrap()
    );
    assert_eq!(
        "failure",
        Object::Integer("foo")
            .dictionary_or_else(|_| Err("failure"))
            .err()
            .unwrap()
    );

    let mut list_decoder = Decoder::new(b"le");
    assert_eq!(
        "failure",
        list_decoder
            .next_object()
            .unwrap()
            .unwrap()
            .dictionary_or_else(|_| Err("failure"))
            .err()
            .unwrap()
    );

    assert_eq!(
        0,
        Object::Bytes(b"foo")
            .dictionary_or_else_err(|| 0)
            .err()
            .unwrap()
    );
    assert_eq!(
        0,
        Object::Integer("foo")
            .dictionary_or_else_err(|| 0)
            .err()
            .unwrap()
    );

    let mut list_decoder = Decoder::new(b"le");
    assert_eq!(
        0,
        list_decoder
            .next_object()
            .unwrap()
            .unwrap()
            .dictionary_or_else_err(|| 0)
            .err()
            .unwrap()
    );
}
