use bendy::decoding::FromBencode;
use bendy::encoding::{AsString, Encoder, Error, SingleItemEncoder, ToBencode};

#[test]
fn encoder_simple_encoding_works() {
    let mut encoder = Encoder::new();
    encoder
        .emit_dict(|mut e| {
            e.emit_pair(b"bar", 25)?;
            e.emit_pair_with(b"foo", |e| {
                e.emit_list(|e| {
                    e.emit_str("baz")?;
                    e.emit_str("qux")
                })
            })
        })
        .expect("Encoding shouldn't fail");
    assert_eq!(
        &encoder
            .get_output()
            .expect("Complete object should have been written"),
        &b"d3:bari25e3:fool3:baz3:quxee"
    );
}

#[test]
fn encoder_emit_cb_must_emit() {
    let mut encoder = Encoder::new();
    assert!(encoder.emit_with(|_| Ok(())).is_err());
}

struct Foo {
    bar: u32,
    baz: Vec<String>,
    qux: Vec<u8>,
}

impl ToBencode for Foo {
    const MAX_DEPTH: usize = 2;

    fn encode(&self, encoder: SingleItemEncoder) -> Result<(), Error> {
        encoder.emit_dict(|mut e| {
            e.emit_pair(b"bar", &self.bar)?;
            e.emit_pair(b"baz", &self.baz)?;
            e.emit_pair(b"qux", AsString(&self.qux))?;
            Ok(())
        })?;

        Ok(())
    }
}

#[test]
fn to_bencode_simple_encodable_works() {
    let mut encoder = Encoder::new();
    encoder
        .emit(Foo {
            bar: 5,
            baz: vec!["foo".to_owned(), "bar".to_owned()],
            qux: b"qux".to_vec(),
        })
        .unwrap();
    assert_eq!(
        &encoder.get_output().unwrap()[..],
        &b"d3:bari5e3:bazl3:foo3:bare3:qux3:quxe"[..]
    );
}

#[test]
fn encoder_simple_encodable_works() {
    let mut encoder = Encoder::new();
    encoder
        .emit(Foo {
            bar: 5,
            baz: vec!["foo".to_owned(), "bar".to_owned()],
            qux: b"qux".to_vec(),
        })
        .unwrap();
    assert_eq!(
        &encoder.get_output().unwrap()[..],
        &b"d3:bari5e3:bazl3:foo3:bare3:qux3:quxe"[..]
    );
}

#[test]
fn from_bencode_to_string_should_work_with_valid_input() {
    let expected_message = "hello";
    let serialized_message =
        format!("{}:{}", expected_message.len(), expected_message).into_bytes();

    let decoded_message = String::from_bencode(&serialized_message).unwrap();
    assert_eq!(expected_message, decoded_message);
}

#[test]
fn from_bencode_to_as_string_should_work_with_valid_input() {
    let expected_message = "hello";
    let serialized_message =
        format!("{}:{}", expected_message.len(), expected_message).into_bytes();

    let decoded_vector = AsString::from_bencode(&serialized_message).unwrap();
    assert_eq!(expected_message.as_bytes(), &decoded_vector.0[..]);
}

#[test]
#[should_panic(expected = "Num")]
fn from_bencode_to_as_string_should_fail_for_integer() {
    AsString::<Vec<u8>>::from_bencode(&b"i1e"[..]).unwrap();
}

#[test]
#[should_panic(expected = "NestingTooDeep")]
fn from_bencode_to_as_string_should_fail_for_list() {
    AsString::<Vec<u8>>::from_bencode(&b"l1:ae"[..]).unwrap();
}

#[test]
#[should_panic(expected = "NestingTooDeep")]
fn from_bencode_to_as_string_should_fail_for_dictionary() {
    AsString::<Vec<u8>>::from_bencode(&b"d1:a1:ae"[..]).unwrap();
}

#[test]
fn unsorted_dict_keeps_its_first_error() {
    let mut encoder = Encoder::new();
    let mut first = None;
    let mut second = None;
    let outcome = encoder.emit_and_sort_dict(|e| {
        first = Some(e.emit_pair_with(b"a", |_| Ok(())));
        second = Some(e.emit_pair(b"b", 2));
        Ok(())
    });
    let first = format!("{:?}", first.unwrap().unwrap_err());
    let second = format!("{:?}", second.unwrap().unwrap_err());
    assert!(first.contains("No value was emitted"));
    assert_eq!(second, first);
    assert_eq!(format!("{:?}", outcome.unwrap_err()), first);
    assert!(encoder.get_output().is_err());
}

#[test]
fn unsorted_dict_writes_its_pairs_in_key_order() {
    let mut encoder = Encoder::new();
    encoder
        .emit_and_sort_dict(|e| {
            e.emit_pair(b"b", 2)?;
            e.emit_pair(b"a", "foo")
        })
        .unwrap();
    assert_eq!(encoder.get_output().unwrap(), b"d1:a3:foo1:bi2ee".to_vec());

    let mut twice = Encoder::new();
    let outcome = twice.emit_and_sort_dict(|e| {
        e.emit_pair(b"a", 1)?;
        e.emit_pair(b"a", 2)
    });
    assert!(format!("{:?}", outcome.unwrap_err()).contains("Duplicate key a"));
}

#[test]
fn maps_write_every_entry_once() {
    let mut hashed = std::collections::HashMap::new();
    hashed.insert("b".to_string(), 2u8);
    hashed.insert("a".to_string(), 1u8);
    hashed.insert("c".to_string(), 3u8);
    assert_eq!(hashed.to_bencode().unwrap(), b"d1:ai1e1:bi2e1:ci3ee".to_vec());
    let mut ordered = std::collections::BTreeMap::new();
    ordered.insert("b".to_string(), 2u8);
    ordered.insert("a".to_string(), 1u8);
    assert_eq!(ordered.to_bencode().unwrap(), b"d1:ai1e1:bi2ee".to_vec());
    let empty: std::collections::HashMap<String, u8> = std::collections::HashMap::new();
    assert_eq!(empty.to_bencode().unwrap(), b"de".to_vec());
}
