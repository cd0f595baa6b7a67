//! Decoding into a struct through a trait of the caller's own.
use bendy::decoding::{Decoder, Object};

const SIMPLE_MSG: &[u8] = b"d3:bari1e3:fooli2ei3eee";

// test of high-level interface
// Normally, a trait like this would have a better error type
trait DecodeFrom<'ser>: Sized {
    fn decode<'obj>(object: Object<'obj, 'ser>) -> Result<Self, String>;
}

impl<'ser, T: DecodeFrom<'ser>> DecodeFrom<'ser> for Vec<T> {
    fn decode<'obj>(object: Object<'obj, 'ser>) -> Result<Self, String> {
        if let Object::List(mut list) = object {
            let mut result = Vec::new();

            while let Some(item) = list.next_object().map_err(|e| e.to_string())? {
                result.push(T::decode(item)?);
            }

            Ok(result)
        } else {
            Err("Unexpected object type".to_string())
        }
    }
}

impl<'ser> DecodeFrom<'ser> for i64 {
    fn decode<'obj>(object: Object<'obj, 'ser>) -> Result<Self, String> {
        if let Object::Integer(int) = object {
            Ok(i64::from_str_radix(int, 10).map_err(|e| e.to_string())?)
        } else {
            Err("Unexpected object type".to_string())
        }
    }
}

impl<'ser> DecodeFrom<'ser> for String {
    fn decode<'obj>(object: Object<'obj, 'ser>) -> Result<Self, String> {
        if let Object::Bytes(bytes) = object {
            Ok(::std::str::from_utf8(bytes).map_err(|e| e.to_string())?.to_owned())
        } else {
            Err("Unexpected object type".to_string())
        }
    }
}

#[derive(PartialEq, Eq, Debug)]
struct TestStruct {
    foo: Vec<i64>,
    bar: i64,
}

impl<'ser> DecodeFrom<'ser> for TestStruct {
    fn decode<'obj>(object: Object<'obj, 'ser>) -> Result<Self, String> {
        let mut foo = None;
        let mut bar = None;

        if let Object::Dict(mut dict) = object {
            while let Some((key, value)) = dict.next_pair().map_err(|e| e.to_string())? {
                match key {
                    b"foo" => {
                        foo = Some(DecodeFrom::decode(value)?);
                    },
                    b"bar" => {
                        bar = Some(DecodeFrom::decode(value)?);
                    },
                    _ => (), // ignore unknown keys
                }
            }

            Ok(TestStruct {
                foo: foo.ok_or_else(|| "Missing foo field".to_string())?,
                bar: bar.ok_or_else(|| "Missing bar field".to_string())?,
            })
        } else {
            Err("Expected a dict".to_string())?
        }
    }
}

// test cases for high-level interface
#[test]
fn struct_deser_should_decode_struct() {
    let mut decoder = Decoder::new(SIMPLE_MSG);
    let bencode_object = decoder.next_object().unwrap().unwrap();
    let result = TestStruct::decode(bencode_object).expect("Decoding shouldn't fail");

    assert_eq!(
        result,
        TestStruct {
            foo: vec![2, 3],
            bar: 1,
        }
    )
}

#[test]
fn struct_deser_reports_a_missing_field() {
    let mut decoder = Decoder::new(b"d3:bari1ee");
    let bencode_object = decoder.next_object().unwrap().unwrap();
    assert_eq!(
        TestStruct::decode(bencode_object),
        Err("Missing foo field".to_string())
    );
}
