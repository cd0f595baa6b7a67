//! The grammar, the depth bound and the stickiness of errors, on given
//! values.
use bendy::decoding::{Decoder, Error as DecodingError, ErrorKind, Object};
use bendy::encoding::{Encoder, Error as EncodingError};
use bendy::state_tracker::{Stack, StateTracker, StructureError, Token};

fn tracker() -> StateTracker<Vec<u8>, StructureError> {
    StateTracker::new()
}

fn feed(
    tracker: &mut StateTracker<Vec<u8>, StructureError>,
    tokens: &[Token],
) -> Result<(), StructureError> {
    for token in tokens {
        tracker.observe_token(token)?;
    }
    Ok(())
}

#[test]
fn new_tracker_has_the_default_depth() {
    let tracker = tracker();
    assert_eq!(tracker.remaining_depth(), 2048);
    assert_eq!(tracker.depth(), 0);
    assert_eq!(tracker.check_error(), Ok(()));
}

#[test]
fn remaining_depth_counts_open_levels() {
    let mut tracker = tracker();
    tracker.set_max_depth(5);
    feed(&mut tracker, &[Token::List, Token::Dict]).unwrap();
    assert_eq!(tracker.depth(), 2);
    assert_eq!(tracker.remaining_depth(), 3);
    feed(&mut tracker, &[Token::End]).unwrap();
    assert_eq!(tracker.remaining_depth(), 4);
}

#[test]
fn end_at_top_level_is_an_invalid_state() {
    let mut tracker = tracker();
    assert_eq!(
        tracker.observe_token(&Token::End),
        Err(StructureError::InvalidState(
            "End not allowed at top level".to_owned()
        ))
    );
}

#[test]
fn atoms_at_top_level_change_nothing() {
    let mut tracker = tracker();
    feed(&mut tracker, &[Token::Num("1"), Token::String(b"a")]).unwrap();
    assert_eq!(tracker.depth(), 0);
    assert_eq!(tracker.observe_eof(), Ok(()));
}

#[test]
fn keys_must_be_strings() {
    let mut tracker = tracker();
    assert_eq!(
        feed(&mut tracker, &[Token::Dict, Token::Num("1")]),
        Err(StructureError::InvalidState(
            "Map keys must be strings".to_owned()
        ))
    );
    let mut tracker = self::tracker();
    assert_eq!(
        feed(&mut tracker, &[Token::Dict, Token::List]),
        Err(StructureError::InvalidState(
            "Map keys must be strings".to_owned()
        ))
    );
}

#[test]
fn values_must_follow_keys() {
    let mut tracker = tracker();
    assert_eq!(
        feed(&mut tracker, &[Token::Dict, Token::String(b"a"), Token::End]),
        Err(StructureError::InvalidState("Missing map value".to_owned()))
    );
}

#[test]
fn keys_must_strictly_ascend() {
    let key_then_value = |key: &'static [u8]| [Token::String(key), Token::Num("1")];
    let mut tracker = self::tracker();
    feed(&mut tracker, &[Token::Dict]).unwrap();
    feed(&mut tracker, &key_then_value(b"a")).unwrap();
    feed(&mut tracker, &key_then_value(b"ab")).unwrap();
    feed(&mut tracker, &key_then_value(b"b")).unwrap();
    assert_eq!(
        tracker.observe_token(&Token::String(b"b")),
        Err(StructureError::UnsortedKeys)
    );

    let mut tracker = self::tracker();
    feed(&mut tracker, &[Token::Dict]).unwrap();
    feed(&mut tracker, &key_then_value(b"b")).unwrap();
    assert_eq!(
        tracker.observe_token(&Token::String(b"a")),
        Err(StructureError::UnsortedKeys)
    );

    // a key that is the beginning of the next one comes first
    let mut tracker = self::tracker();
    feed(&mut tracker, &[Token::Dict]).unwrap();
    feed(&mut tracker, &key_then_value(b"ab")).unwrap();
    assert_eq!(
        tracker.observe_token(&Token::String(b"a")),
        Err(StructureError::UnsortedKeys)
    );
}

#[test]
fn key_order_starts_anew_in_each_dictionary() {
    let mut tracker = tracker();
    feed(
        &mut tracker,
        &[
            Token::Dict,
            Token::String(b"z"),
            Token::Dict,
            Token::String(b"a"),
            Token::Num("1"),
            Token::End,
            Token::End,
        ],
    )
    .unwrap();
    assert_eq!(tracker.observe_eof(), Ok(()));
}

#[test]
fn a_value_that_is_a_container_keeps_the_key_order() {
    let mut tracker = tracker();
    feed(
        &mut tracker,
        &[
            Token::Dict,
            Token::String(b"b"),
            Token::List,
            Token::End,
        ],
    )
    .unwrap();
    assert_eq!(
        tracker.observe_token(&Token::String(b"a")),
        Err(StructureError::UnsortedKeys)
    );
}

#[test]
fn depth_bound_is_tight() {
    for max_depth in 0..6usize {
        for n in 0..8usize {
            let mut tracker = tracker();
            tracker.set_max_depth(max_depth);
            let mut outcome = Ok(());
            let mut failed_at = None;
            for i in 0..n {
                outcome = tracker.observe_token(&Token::List);
                if outcome.is_err() {
                    failed_at = Some(i);
                    break;
                }
            }
            if outcome.is_ok() {
                for _ in 0..n {
                    outcome = tracker.observe_token(&Token::End);
                    if outcome.is_err() {
                        break;
                    }
                }
            }
            assert_eq!(outcome.is_ok(), n <= max_depth);
            if n > max_depth {
                assert_eq!(outcome, Err(StructureError::NestingTooDeep));
                // the opener that is one too deep is refused, not a closer
                assert_eq!(failed_at, Some(max_depth));
            }
        }
    }
}

#[test]
fn depth_bound_in_the_decoder() {
    let mut decoder = Decoder::new(b"lllleeee").with_max_depth(4);
    let mut tokens = decoder_tokens(&mut decoder);
    assert_eq!(tokens.len(), 8);
    assert!(tokens.pop().unwrap().is_ok());

    let mut decoder = Decoder::new(b"lllleeee").with_max_depth(3);
    let tokens = decoder_tokens(&mut decoder);
    // three openers are read, the fourth is refused
    assert_eq!(tokens.len(), 4);
    assert!(tokens[..3].iter().all(Result::is_ok));
    assert_eq!(
        tokens[3].as_ref().err().unwrap().to_string(),
        "bencode encoding corrupted (Maximum nesting depth exceeded)"
    );
}

fn decoder_tokens<'a>(decoder: &mut Decoder<'a>) -> Vec<Result<Token<'a>, DecodingError>> {
    let mut tokens = std::mem::replace(decoder, Decoder::new(b"")).tokens();
    let mut all = Vec::new();
    while let Some(token) = tokens.next() {
        all.push(token);
    }
    all
}

#[test]
fn deep_nesting_fails_at_the_first_opener_beyond_the_bound() {
    let mut msg = Vec::new();
    msg.extend(std::iter::repeat(b'l').take(4096));
    msg.extend(std::iter::repeat(b'e').take(4096));
    let mut decoder = Decoder::new(&msg);
    let tokens = decoder_tokens(&mut decoder);
    assert_eq!(tokens.len(), 2049);
    assert!(tokens[..2048].iter().all(Result::is_ok));
    assert!(tokens[2048].is_err());
}

#[test]
fn tracker_errors_are_sticky() {
    let mut tracker = tracker();
    let first = tracker.observe_token(&Token::End);
    assert!(first.is_err());
    assert_eq!(tracker.observe_token(&Token::List), first);
    assert_eq!(tracker.observe_token(&Token::Num("1")), first);
    assert_eq!(tracker.observe_eof(), first);
    assert_eq!(tracker.check_error(), first);
    assert_eq!(tracker.latch_err(Ok(())), first);
    assert_eq!(
        tracker.latch_err::<()>(Err(StructureError::UnsortedKeys)),
        first
    );
}

#[test]
fn latch_err_latches_the_first_error() {
    let mut tracker = tracker();
    assert_eq!(tracker.latch_err(Ok(5)), Ok(5));
    assert_eq!(tracker.check_error(), Ok(()));
    assert_eq!(
        tracker.latch_err::<u8>(Err(StructureError::UnsortedKeys)),
        Err(StructureError::UnsortedKeys)
    );
    assert_eq!(tracker.check_error(), Err(StructureError::UnsortedKeys));
    assert_eq!(
        tracker.latch_err::<u8>(Err(StructureError::NestingTooDeep)),
        Err(StructureError::UnsortedKeys)
    );
}

#[test]
fn eof_is_idempotent() {
    let mut tracker = tracker();
    assert_eq!(tracker.observe_eof(), Ok(()));
    assert_eq!(tracker.observe_eof(), Ok(()));

    let mut tracker = self::tracker();
    tracker.observe_token(&Token::List).unwrap();
    assert_eq!(tracker.observe_eof(), Err(StructureError::UnexpectedEof));
    assert_eq!(tracker.observe_eof(), Err(StructureError::UnexpectedEof));
    assert_eq!(
        tracker.observe_token(&Token::End),
        Err(StructureError::UnexpectedEof)
    );
}

#[test]
fn decoder_errors_are_sticky() {
    let mut decoder = Decoder::new(b"i-0ei1e");
    let first = decoder.next_object().err().unwrap().to_string();
    assert!(first.contains("got '0'"));
    for _ in 0..3 {
        assert_eq!(decoder.next_object().err().unwrap().to_string(), first);
    }
    let mut tokens = decoder.tokens();
    // a stream of tokens reports an error once
    assert!(tokens.next().is_none());
}

#[test]
fn encoder_errors_are_sticky() {
    let mut encoder = Encoder::new().with_max_depth(0);
    let first = encoder.emit_list(|_| Ok(())).err().unwrap();
    assert!(matches!(
        first,
        EncodingError::StructureError {
            source: StructureError::NestingTooDeep
        }
    ));
    let again = encoder.emit_int(1).err().unwrap();
    assert!(matches!(
        again,
        EncodingError::StructureError {
            source: StructureError::NestingTooDeep
        }
    ));
    let at_end = encoder.get_output().err().unwrap();
    assert!(matches!(
        at_end,
        EncodingError::StructureError {
            source: StructureError::NestingTooDeep
        }
    ));
}

#[test]
fn stack_peek_shows_the_top() {
    let empty: Vec<u8> = Vec::new();
    assert_eq!(empty.peek(), None);
    assert_eq!(vec![1, 2, 3].peek(), Some(&3));
}

#[test]
fn token_names() {
    assert_eq!(Token::List.name(), "List");
    assert_eq!(Token::Dict.name(), "Dict");
    assert_eq!(Token::End.name(), "End");
    assert_eq!(Token::Num("1").name(), "Num");
    assert_eq!(Token::String(b"a").name(), "String");
}

#[test]
fn structure_error_messages() {
    assert_eq!(
        StructureError::unexpected("'1'..'9'", '0', 2).to_string(),
        "Malformed number of unexpected character: Expected '1'..'9', got '0' at offset 2"
    );
    assert_eq!(
        StructureError::unexpected("x", '\n', 1234567890).to_string(),
        "Malformed number of unexpected character: Expected x, got '\\n' at offset 1234567890"
    );
    assert_eq!(
        StructureError::invalid_state("here").to_string(),
        "Saw the wrong type of token: here"
    );
    assert_eq!(
        StructureError::UnsortedKeys.to_string(),
        "Keys were not sorted"
    );
    assert_eq!(
        StructureError::UnexpectedEof.to_string(),
        "Reached EOF in the middle of a message"
    );
    assert_eq!(
        StructureError::NestingTooDeep.to_string(),
        "Maximum nesting depth exceeded"
    );
    assert_eq!(
        StructureError::UnsortedKeys.clone(),
        StructureError::UnsortedKeys
    );
}

#[test]
fn decoding_error_messages_and_context() {
    let error = DecodingError::missing_field("name");
    assert_eq!(error.to_string(), "missing field: name");
    let error = error.context("file").context("info");
    assert_eq!(error.to_string(), "Error: missing field: name in info.file");
    assert_eq!(
        DecodingError::unexpected_field("extra").to_string(),
        "unexpected field: extra"
    );
    assert_eq!(
        DecodingError::unexpected_token("List", "Num").to_string(),
        "discovered Num but expected List"
    );
    assert_eq!(
        DecodingError::malformed_content("bad").to_string(),
        "malformed content discovered: bad"
    );
    assert_eq!(
        DecodingError::from(StructureError::UnexpectedEof).to_string(),
        "bencode encoding corrupted (Reached EOF in the middle of a message)"
    );
    assert_eq!(
        DecodingError::from(ErrorKind::MissingField {
            field: "x".to_owned()
        })
        .to_string(),
        "missing field: x"
    );
    assert_eq!(
        DecodingError::from("x".parse::<u8>().unwrap_err()).to_string(),
        "malformed content discovered: invalid digit found in string"
    );
    let cloned = DecodingError::missing_field("name").context("a").clone();
    assert_eq!(cloned.to_string(), "Error: missing field: name in a");
}

#[test]
fn encoding_error_messages() {
    assert_eq!(
        EncodingError::from(StructureError::UnsortedKeys).to_string(),
        "bencode encoding corrupted"
    );
    assert_eq!(
        EncodingError::malformed_content("bad").to_string(),
        "malformed content discovered: bad"
    );
}

#[test]
fn object_into_token() {
    assert_eq!(Object::Bytes(b"a").into_token(), Token::String(b"a"));
    assert_eq!(Object::Integer("1").into_token(), Token::Num("1"));
    let mut decoder = Decoder::new(b"le");
    assert_eq!(
        decoder.next_object().unwrap().unwrap().into_token(),
        Token::List
    );
    let mut decoder = Decoder::new(b"de");
    assert_eq!(
        decoder.next_object().unwrap().unwrap().into_token(),
        Token::Dict
    );
}

#[test]
fn try_into_names_what_was_found() {
    let error = Object::Integer("1").try_into_bytes().err().unwrap();
    assert_eq!(error.to_string(), "discovered Num but expected String");
    let error = Object::Bytes(b"a").try_into_integer().err().unwrap();
    assert_eq!(error.to_string(), "discovered String but expected Num");
    let error = Object::Bytes(b"a").try_into_list().err().unwrap();
    assert_eq!(error.to_string(), "discovered String but expected List");
    let error = Object::Bytes(b"a").try_into_dictionary().err().unwrap();
    assert_eq!(error.to_string(), "discovered String but expected Dict");
    let mut decoder = Decoder::new(b"le");
    let error = decoder
        .next_object()
        .unwrap()
        .unwrap()
        .try_into_dictionary()
        .err()
        .unwrap();
    assert_eq!(error.to_string(), "discovered List but expected Dict");
    assert_eq!(Object::Bytes(b"a").try_into_bytes().unwrap(), b"a");
    assert_eq!(Object::Integer("7").try_into_integer().unwrap(), "7");
}
