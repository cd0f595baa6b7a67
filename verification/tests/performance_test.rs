use bendy::{
    decoding::{Error as DecodingError, FromBencode, Object},
    encoding::{Error as EncodingError, SingleItemEncoder, ToBencode},
};

struct PerformanceTestSubject<T>
where
    T: FromBencode,
{
    list: Vec<Vec<T>>,
}

impl<T> PerformanceTestSubject<T>
where
    T: ToBencode + FromBencode,
{
    fn serialize(&self) -> Vec<u8> {
        self.to_bencode().unwrap()
    }

    fn deserialize(bytes: Vec<u8>) -> Self {
        PerformanceTestSubject::<T>::from_bencode(&bytes).unwrap()
    }
}

impl<T> ToBencode for PerformanceTestSubject<T>
where
    T: ToBencode + FromBencode,
{
    const MAX_DEPTH: usize = 2;

    fn encode(&self, encoder: SingleItemEncoder) -> Result<(), EncodingError> {
        encoder.emit(&self.list)
    }
}

impl<T> FromBencode for PerformanceTestSubject<T>
where
    T: FromBencode,
{
    const EXPECTED_RECURSION_DEPTH: usize = 2;

    fn decode_bencode_object(object: Object) -> Result<Self, DecodingError>
    where
        Self: Sized,
    {
        Ok(PerformanceTestSubject {
            list: Vec::<Vec<T>>::decode_bencode_object(object)?,
        })
    }
}

#[test]
fn this_should_take_long() {
    const LIST_SIZE: usize = 1000;
    let test_subject = PerformanceTestSubject::<u32> {
        list: vec![vec![69; LIST_SIZE]; LIST_SIZE],
    };
    let serialized = test_subject.serialize();
    assert_eq!(serialized.len(), 2 + LIST_SIZE * (2 + 4 * LIST_SIZE));
    let deserialized = PerformanceTestSubject::<u32>::deserialize(serialized.clone());
    assert_eq!(deserialized.list.len(), LIST_SIZE);
    assert!(deserialized
        .list
        .iter()
        .all(|row| row.len() == LIST_SIZE && row.iter().all(|item| *item == 69)));
}
