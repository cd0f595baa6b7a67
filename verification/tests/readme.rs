use bendy::decoding::{Error as DecodingError, FromBencode, Object, ResultExt};
use bendy::encoding::{AsString, Error, SingleItemEncoder, ToBencode};

#[test]
fn encode_vector() -> Result<(), Error> {
    let my_data = vec!["hello", "world"];
    let encoded = my_data.to_bencode()?;

    assert_eq!(b"l5:hello5:worlde", encoded.as_slice());
    Ok(())
}

struct IntegerWrapper(i64);

impl ToBencode for IntegerWrapper {
    const MAX_DEPTH: usize = 0;

    fn encode(&self, encoder: SingleItemEncoder) -> Result<(), Error> {
        encoder.emit_int(self.0)
    }
}

#[test]
fn encode_integer() -> Result<(), Error> {
    let example = IntegerWrapper(21);

    let encoded = example.to_bencode()?;
    assert_eq!(b"i21e", encoded.as_slice());

    let encoded = 21.to_bencode()?;
    assert_eq!(b"i21e", encoded.as_slice());

    Ok(())
}

struct StringWrapper(String);

impl ToBencode for StringWrapper {
    const MAX_DEPTH: usize = 0;

    fn encode(&self, encoder: SingleItemEncoder) -> Result<(), Error> {
        encoder.emit_str(&self.0)
    }
}

#[test]
fn encode_string() -> Result<(), Error> {
    let example = StringWrapper("content".to_string());

    let encoded = example.to_bencode()?;
    assert_eq!(b"7:content", encoded.as_slice());

    let encoded = "content".to_bencode()?;
    assert_eq!(b"7:content", encoded.as_slice());

    Ok(())
}

struct ByteStringWrapper(Vec<u8>);

impl ToBencode for ByteStringWrapper {
    const MAX_DEPTH: usize = 0;

    fn encode(&self, encoder: SingleItemEncoder) -> Result<(), Error> {
        let content = AsString(&self.0);
        encoder.emit(&content)
    }
}

#[test]
fn encode_byte_string() -> Result<(), Error> {
    let example = ByteStringWrapper(b"content".to_vec());

    let encoded = example.to_bencode()?;
    assert_eq!(b"7:content", encoded.as_slice());

    let encoded = AsString(b"content").to_bencode()?;
    assert_eq!(b"7:content", encoded.as_slice());

    Ok(())
}

struct Example {
    label: String,
    counter: u64,
}

impl ToBencode for Example {
    const MAX_DEPTH: usize = 1;

    fn encode(&self, encoder: SingleItemEncoder) -> Result<(), Error> {
        encoder.emit_dict(|mut e| {
            e.emit_pair(b"counter", &self.counter)?;
            e.emit_pair(b"label", &self.label)?;

            Ok(())
        })
    }
}

#[test]
fn encode_dictionary() -> Result<(), Error> {
    let example = Example {
        label: "Example".to_string(),
        counter: 0,
    };

    let encoded = example.to_bencode()?;
    assert_eq!(b"d7:counteri0e5:label7:Examplee", encoded.as_slice());

    Ok(())
}

struct Location(i64, i64);

impl ToBencode for Location {
    const MAX_DEPTH: usize = 1;

    fn encode(&self, encoder: SingleItemEncoder) -> Result<(), Error> {
        encoder.emit_list(|e| {
            e.emit_int(self.0)?;
            e.emit_int(self.1)
        })
    }
}

#[test]
fn encode_list() -> Result<(), Error> {
    let example = Location(2, 3);

    let encoded = example.to_bencode()?;
    assert_eq!(b"li2ei3ee", encoded.as_slice());

    Ok(())
}

#[test]
fn decode_vector() -> Result<(), DecodingError> {
    let encoded = b"l5:hello5:worlde".to_vec();
    let decoded = Vec::<String>::from_bencode(&encoded)?;

    assert_eq!(vec!["hello", "world"], decoded);
    Ok(())
}

#[derive(Debug, Eq, PartialEq)]
struct DecodedInteger(i64);

impl FromBencode for DecodedInteger {
    const EXPECTED_RECURSION_DEPTH: usize = 0;

    fn decode_bencode_object(object: Object) -> Result<Self, DecodingError> {
        // This is an example for content handling. It would also be possible
        // to call  `i64::decode_bencode_object(object)` directly.
        let content = object.try_into_integer()?;
        let number = content.parse::<i64>()?;

        Ok(DecodedInteger(number))
    }
}

#[test]
fn decode_integer() -> Result<(), DecodingError> {
    let encoded = b"i21e".to_vec();

    let example = DecodedInteger::from_bencode(&encoded)?;
    assert_eq!(DecodedInteger(21), example);

    let example = i64::from_bencode(&encoded)?;
    assert_eq!(21, example);

    Ok(())
}

#[derive(Debug, Eq, PartialEq)]
struct DecodedString(String);

impl FromBencode for DecodedString {
    const EXPECTED_RECURSION_DEPTH: usize = 0;

    fn decode_bencode_object(object: Object) -> Result<Self, DecodingError> {
        // This is an example for content handling. It would also be possible
        // to call  `String::decode_bencode_object(object)` directly.
        let content = object.try_into_bytes()?;
        let content = String::from_utf8(content.to_vec())?;

        Ok(DecodedString(content))
    }
}

#[test]
fn decode_string() -> Result<(), DecodingError> {
    let encoded = b"7:content".to_vec();

    let example = DecodedString::from_bencode(&encoded)?;
    assert_eq!(DecodedString("content".to_string()), example);

    let example = String::from_bencode(&encoded)?;
    assert_eq!("content".to_string(), example);

    Ok(())
}

#[derive(Debug, Eq, PartialEq)]
struct DecodedByteString(Vec<u8>);

impl FromBencode for DecodedByteString {
    const EXPECTED_RECURSION_DEPTH: usize = 0;

    fn decode_bencode_object(object: Object) -> Result<Self, DecodingError> {
        let content = AsString::decode_bencode_object(object)?;
        Ok(DecodedByteString(content.0))
    }
}

#[test]
fn decode_byte_string() -> Result<(), DecodingError> {
    let encoded = b"7:content".to_vec();

    let example = DecodedByteString::from_bencode(&encoded)?;
    assert_eq!(DecodedByteString(b"content".to_vec()), example);

    let example = AsString::from_bencode(&encoded)?;
    assert_eq!(b"content".to_vec(), example.0);

    Ok(())
}

#[derive(Debug, Eq, PartialEq)]
struct DecodedExample {
    label: String,
    counter: u64,
}

impl FromBencode for DecodedExample {
    const EXPECTED_RECURSION_DEPTH: usize = 1;

    fn decode_bencode_object(object: Object) -> Result<Self, DecodingError> {
        let mut counter = None;
        let mut label = None;

        let mut dict = object.try_into_dictionary()?;
        while let Some(pair) = dict.next_pair()? {
            match pair {
                (b"counter", value) => {
                    counter = u64::decode_bencode_object(value)
                        .context("counter")
                        .map(Some)?;
                },
                (b"label", value) => {
                    label = String::decode_bencode_object(value)
                        .context("label")
                        .map(Some)?;
                },
                (unknown_field, _) => {
                    return Err(DecodingError::unexpected_field(String::from_utf8_lossy(
                        unknown_field,
                    )));
                },
            }
        }

        let counter = counter.ok_or_else(|| DecodingError::missing_field("counter"))?;
        let label = label.ok_or_else(|| DecodingError::missing_field("label"))?;

        Ok(DecodedExample { counter, label })
    }
}

#[test]
fn decode_dictionary() -> Result<(), DecodingError> {
    let encoded = b"d7:counteri0e5:label7:Examplee".to_vec();
    let expected = DecodedExample {
        label: "Example".to_string(),
        counter: 0,
    };

    let example = DecodedExample::from_bencode(&encoded)?;
    assert_eq!(expected, example);

    Ok(())
}

#[derive(Debug, PartialEq, Eq)]
struct DecodedLocation(i64, i64);

impl FromBencode for DecodedLocation {
    const EXPECTED_RECURSION_DEPTH: usize = 1;

    fn decode_bencode_object(object: Object) -> Result<Self, DecodingError> {
        let mut list = object.try_into_list()?;

        let x = list.next_object()?.ok_or(DecodingError::missing_field("x"))?;
        let x = i64::decode_bencode_object(x)?;

        let y = list.next_object()?.ok_or(DecodingError::missing_field("y"))?;
        let y = i64::decode_bencode_object(y)?;

        Ok(DecodedLocation(x, y))
    }
}

#[test]
fn decode_list() -> Result<(), DecodingError> {
    let encoded = b"li2ei3ee".to_vec();
    let expected = DecodedLocation(2, 3);

    let example = DecodedLocation::from_bencode(&encoded)?;
    assert_eq!(expected, example);

    Ok(())
}
