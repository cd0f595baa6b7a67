//! Values are written and read back.
use bendy::decoding::FromBencode;
use bendy::encoding::ToBencode;
use bendy::state_tracker::StructureError;
use bendy::value::{Entries, Value};

fn case(value: Value, expected: impl AsRef<[u8]>) {
    let expected = expected.as_ref();

    let encoded = match value.to_bencode() {
        Ok(bytes) => bytes,
        Err(err) => panic!("Failed to encode `{:?}`: {}", value, err.to_string()),
    };

    if encoded != expected {
        panic!(
            "Expected `{:?}` to encode as `{}`, but got `{}",
            value,
            String::from_utf8_lossy(expected),
            String::from_utf8_lossy(&encoded)
        )
    }

    let decoded = match Value::from_bencode(&encoded) {
        Ok(decoded) => decoded,
        Err(err) => panic!(
            "Failed to decode value from `{}`: {}",
            String::from_utf8_lossy(&encoded),
            err.to_string(),
        ),
    };

    assert_eq!(decoded, value);
}

#[test]
fn bytes() {
    case(Value::Bytes(vec![1, 2, 3]), b"3:\x01\x02\x03");
    case(Value::Bytes(vec![1, 2, 3]).into_owned(), b"3:\x01\x02\x03");
}

#[test]
fn dict() {
    case(Value::Dict(Entries::new()), "de");

    let mut dict = Entries::new();
    dict.insert("foo".as_bytes().to_vec(), Value::Integer(1));
    dict.insert("bar".as_bytes().to_vec(), Value::Integer(2));
    case(Value::Dict(dict), "d3:bari2e3:fooi1ee");
}

#[test]
fn integer() {
    case(Value::Integer(0), "i0e");
    case(Value::Integer(-1), "i-1e");
}

#[test]
fn list() {
    case(Value::List(Vec::new()), "le");
    case(
        Value::List(vec![Value::Integer(0), Value::Bytes(vec![1, 2, 3])]),
        b"li0e3:\x01\x02\x03e",
    );
}

#[test]
fn value_nested() {
    let inner = Value::Dict(Entries::from_pairs(vec![
        (b"b".to_vec(), Value::Dict(Entries::new())),
        (b"a".to_vec(), Value::List(vec![Value::Integer(i64::MIN), Value::Integer(i64::MAX)])),
    ]));
    case(
        Value::List(vec![inner, Value::Bytes(Vec::new())]),
        "ld1:ali-9223372036854775808ei9223372036854775807ee1:bdee0:e",
    );
}

#[test]
fn entries_are_kept_in_the_order_of_their_keys() {
    let mut entries = Entries::new();
    assert_eq!(entries.insert(b"foo".to_vec(), Value::Integer(1)), None);
    assert_eq!(entries.insert(b"bar".to_vec(), Value::Integer(2)), None);
    assert_eq!(entries.insert(b"fo".to_vec(), Value::Integer(3)), None);
    assert_eq!(entries.insert(b"zoo".to_vec(), Value::Integer(4)), None);
    assert_eq!(
        entries.insert(b"bar".to_vec(), Value::Integer(5)),
        Some(Value::Integer(2))
    );
    assert_eq!(entries.len(), 4);
    assert_eq!(entries.get(b"bar"), Some(&Value::Integer(5)));
    assert_eq!(entries.get(b"fo"), Some(&Value::Integer(3)));
    assert_eq!(entries.get(b"f"), None);
    let keys: Vec<&[u8]> = entries.as_slice().iter().map(|pair| pair.0.as_slice()).collect();
    assert_eq!(keys, vec![&b"bar"[..], &b"fo"[..], &b"foo"[..], &b"zoo"[..]]);
    assert_eq!(
        Value::Dict(entries).to_bencode().unwrap(),
        b"d3:bari5e2:foi3e3:fooi1e3:zooi4ee".to_vec()
    );

    let twice = Entries::from_pairs(vec![
        (b"a".to_vec(), Value::Integer(1)),
        (b"a".to_vec(), Value::Integer(2)),
    ]);
    assert_eq!(twice.into_pairs(), vec![(b"a".to_vec(), Value::Integer(2))]);
}

#[test]
fn value_integer_must_fit() {
    assert!(Value::from_bencode(b"i9223372036854775808e").is_err());
    assert!(Value::from_bencode(b"li-9223372036854775809ee").is_err());
    assert_eq!(
        Value::from_bencode(b"i-9223372036854775808e").unwrap(),
        Value::Integer(i64::MIN)
    );
}

#[test]
fn value_is_written_token_by_token() {
    let mut encoder = bendy::encoding::Encoder::new();
    let value = Value::List(vec![Value::Integer(7), Value::Bytes(b"x".to_vec())]);
    value.write(&mut encoder).unwrap();
    Value::Integer(-3).write(&mut encoder).unwrap();
    assert_eq!(encoder.get_output().unwrap(), b"li7e1:xei-3e".to_vec());

    let mut shallow = bendy::encoding::Encoder::new().with_max_depth(1);
    let deep = Value::List(vec![Value::List(Vec::new())]);
    assert!(deep.write(&mut shallow).is_err());
    assert!(shallow.get_output().is_err());
}

#[test]
fn value_decoding_stops_at_bad_input() {
    assert!(Value::from_bencode(b"li1e").is_err());
    assert!(Value::from_bencode(b"d1:bi1e1:ai2ee").is_err());
    assert!(Value::from_bencode(b"d1:ae").is_err());
    assert!(Value::from_bencode(b"").is_err());
}

#[test]
fn value_is_encoded_as_it_was_read() {
    let inputs: Vec<&[u8]> = vec![
        b"i0e",
        b"i-42e",
        b"0:",
        b"5:hello",
        b"le",
        b"de",
        b"li1eli2eli3eeee",
        b"d1:ad1:bd1:cleee1:zi0ee",
        b"d3:bari1e3:fooli2ei3eee",
        b"l4:spam4:eggsd3:cow3:mooee",
    ];
    for input in inputs {
        let value = Value::from_bencode(input).unwrap();
        assert_eq!(value.to_bencode().unwrap(), input.to_vec());
    }
}

#[test]
fn value_is_the_first_object_only() {
    let value = Value::from_bencode(b"li1eei2e").unwrap();
    assert_eq!(value, Value::List(vec![Value::Integer(1)]));
    assert_eq!(value.to_bencode().unwrap(), b"li1ee".to_vec());
    let atom = Value::from_bencode(b"3:abcxyz").unwrap();
    assert_eq!(atom.to_bencode().unwrap(), b"3:abc".to_vec());
}

#[test]
fn value_copies_are_equal() {
    let value = Value::from_bencode(b"d1:ali1e2:xyd1:bi-2eee1:c0:e").unwrap();
    let copy = value.duplicate();
    assert_eq!(copy, value);
    assert_eq!(copy.to_bencode().unwrap(), value.to_bencode().unwrap());
}
