use std::collections::{BTreeMap, HashMap};
use std::hash::{BuildHasher, Hash};
use std::rc::Rc;

use vstd::prelude::*;
use vstd::string::StringSliceAdditionalSpecFns;
use vstd::utf8::{decode_utf8, valid_utf8};

use crate::decoding::decoder::{
    below_kept_chains, items_lead_out, next_item, pairs_lead_out, Decoder, DictDecoder, ListDecoder, Reading,
};
use crate::decoding::error::Error;
use crate::decoding::object::{unexpected, Object};
use crate::encoding::AsString;
use crate::state_tracker::{Latch, StructureError, StructureErrorView};
use crate::text::{
    numeral_value, parse_i128, parse_i16, parse_i32, parse_i64, parse_i8, parse_isize, parse_u128,
    parse_u16, parse_u32, parse_u64, parse_u8, parse_usize,
};

verus! {

/// `String::from_utf8` accepts exactly the valid UTF-8, and the text it
/// returns is what the bytes encode.
pub assume_specification[ std::string::String::from_utf8 ](vec: std::vec::Vec<u8>) -> (r: Result<
    std::string::String,
    std::string::FromUtf8Error,
>)
    ensures
        r is Ok <==> valid_utf8(vec@),
        r matches Ok(s) ==> s@ == decode_utf8(vec@),
;

///Basic trait for bencode based value deserialization.
pub trait FromBencode: Sized {
    /// Maximum allowed depth of nested structures before the decoding should be aborted.
    const EXPECTED_RECURSION_DEPTH: usize = 2048;

    /// Deserialize an object from its byte representation.
    ///
    /// A new decoder with the depth `EXPECTED_RECURSION_DEPTH` reads the
    /// first object of `bytes`, and that object is decoded; what follows
    /// it is not looked at. Where `bytes` begins with no object, the error
    /// is that of the decoder, or `UnexpectedEof` where `bytes` is empty.
    fn from_bencode(bytes: &[u8]) -> (r: Result<Self, Error>)
        ensures
            match next_item(
                bytes@,
                Self::EXPECTED_RECURSION_DEPTH as nat,
                Reading { at: 0, frames: Seq::empty() },
                0,
            ) {
                Err(violation) => r matches Err(error) && error.reports(violation),
                Ok((None, _)) => r matches Err(error) && error.reports(
                    StructureErrorView::UnexpectedEof,
                ),
                Ok((Some(token), _)) => exists|
                    new: Decoder,
                    now: Decoder,
                    object: Object<'_, '_>,
                |
                    {
                        &&& new.input() == bytes@
                        &&& new.reading() == (Reading { at: 0, frames: Seq::empty() })
                        &&& new.depth_limit() == Self::EXPECTED_RECURSION_DEPTH
                        &&& new.latched() is None
                        &&& #[trigger] new.finds(0, now, Ok(Some(object)))
                        &&& object.token() == token
                        &&& call_ensures(Self::decode_bencode_object, (object,), r)
                    },
            },
    {
        let mut decoder = Decoder::new(bytes).with_max_depth(Self::EXPECTED_RECURSION_DEPTH);
        let ghost new = decoder;
        match decoder.next_object() {
            Err(error) => Err(error),
            Ok(None) => Err(Error::raise(StructureError::UnexpectedEof)),
            Ok(Some(object)) => {
                let ghost now = object.decoder_or(after_borrow(decoder));
                let r = Self::decode_bencode_object(object);
                proof {
                    assert(new.finds(0, now, Ok(Some(object))));
                }
                r
            },
        }
    }

    /// Deserialize an object from its intermediate bencode representation.
    ///
    /// A list or a dictionary that is handed in may be read in part: the
    /// decoder behind it is left in its input, with what was open around the
    /// container still open.
    fn decode_bencode_object<'obj, 'ser>(object: Object<'obj, 'ser>) -> (r: Result<Self, Error>)
        requires
            object.wf(),
        ensures
            object matches Object::List(list) ==> list.leaves(*final(list.parent())),
            object matches Object::Dict(dict) ==> dict.leaves(*final(dict.parent())),
    ;
}

/// `r` is what decoding `object` as an integer between `min` and `max`
/// gives: the number that the text of an integer is the decimal numeral
/// of; for a text that is no numeral of such a number, malformed content
/// with the message of the parse error; and for any other object, an
/// unexpected token.
pub open spec fn decoded_integer(
    object: Object<'_, '_>,
    signed: bool,
    min: int,
    max: int,
    r: Result<int, Error>,
) -> bool {
    match object {
        Object::Integer(text) => match numeral_value(text.spec_bytes(), signed, min, max) {
            Ok(value) => r == Ok::<int, Error>(value),
            Err(_) => r matches Err(found) && found.path() is None && found.kind()
                is MalformedContent,
        },
        _ => r matches Err(found) && found@ == unexpected("Num"@, object),
    }
}

impl FromBencode for u8 {
    const EXPECTED_RECURSION_DEPTH: usize = 0;

    fn decode_bencode_object<'obj, 'ser>(object: Object<'obj, 'ser>) -> (r: Result<Self, Error>)
        ensures
            decoded_integer(
                object,
                false,
                u8::MIN as int,
                u8::MAX as int,
                match r {
                    Ok(number) => Ok(number as int),
                    Err(error) => Err(error),
                },
            ),
    {
        let text = match object.try_into_integer() {
            Ok(text) => text,
            Err(error) => return Err(error),
        };
        match parse_u8(text) {
            Ok(number) => Ok(number),
            Err(error) => Err(Error::malformed_content(error)),
        }
    }
}

impl FromBencode for u16 {
    const EXPECTED_RECURSION_DEPTH: usize = 0;

    fn decode_bencode_object<'obj, 'ser>(object: Object<'obj, 'ser>) -> (r: Result<Self, Error>)
        ensures
            decoded_integer(
                object,
                false,
                u16::MIN as int,
                u16::MAX as int,
                match r {
                    Ok(number) => Ok(number as int),
                    Err(error) => Err(error),
                },
            ),
    {
        let text = match object.try_into_integer() {
            Ok(text) => text,
            Err(error) => return Err(error),
        };
        match parse_u16(text) {
            Ok(number) => Ok(number),
            Err(error) => Err(Error::malformed_content(error)),
        }
    }
}

impl FromBencode for u32 {
    const EXPECTED_RECURSION_DEPTH: usize = 0;

    fn decode_bencode_object<'obj, 'ser>(object: Object<'obj, 'ser>) -> (r: Result<Self, Error>)
        ensures
            decoded_integer(
                object,
                false,
                u32::MIN as int,
                u32::MAX as int,
                match r {
                    Ok(number) => Ok(number as int),
                    Err(error) => Err(error),
                },
            ),
    {
        let text = match object.try_into_integer() {
            Ok(text) => text,
            Err(error) => return Err(error),
        };
        match parse_u32(text) {
            Ok(number) => Ok(number),
            Err(error) => Err(Error::malformed_content(error)),
        }
    }
}

impl FromBencode for u64 {
    const EXPECTED_RECURSION_DEPTH: usize = 0;

    fn decode_bencode_object<'obj, 'ser>(object: Object<'obj, 'ser>) -> (r: Result<Self, Error>)
        ensures
            decoded_integer(
                object,
                false,
                u64::MIN as int,
                u64::MAX as int,
                match r {
                    Ok(number) => Ok(number as int),
                    Err(error) => Err(error),
                },
            ),
    {
        let text = match object.try_into_integer() {
            Ok(text) => text,
            Err(error) => return Err(error),
        };
        match parse_u64(text) {
            Ok(number) => Ok(number),
            Err(error) => Err(Error::malformed_content(error)),
        }
    }
}

impl FromBencode for u128 {
    const EXPECTED_RECURSION_DEPTH: usize = 0;

    fn decode_bencode_object<'obj, 'ser>(object: Object<'obj, 'ser>) -> (r: Result<Self, Error>)
        ensures
            decoded_integer(
                object,
                false,
                u128::MIN as int,
                u128::MAX as int,
                match r {
                    Ok(number) => Ok(number as int),
                    Err(error) => Err(error),
                },
            ),
    {
        let text = match object.try_into_integer() {
            Ok(text) => text,
            Err(error) => return Err(error),
        };
        match parse_u128(text) {
            Ok(number) => Ok(number),
            Err(error) => Err(Error::malformed_content(error)),
        }
    }
}

impl FromBencode for usize {
    const EXPECTED_RECURSION_DEPTH: usize = 0;

    fn decode_bencode_object<'obj, 'ser>(object: Object<'obj, 'ser>) -> (r: Result<Self, Error>)
        ensures
            decoded_integer(
                object,
                false,
                usize::MIN as int,
                usize::MAX as int,
                match r {
                    Ok(number) => Ok(number as int),
                    Err(error) => Err(error),
                },
            ),
    {
        let text = match object.try_into_integer() {
            Ok(text) => text,
            Err(error) => return Err(error),
        };
        match parse_usize(text) {
            Ok(number) => Ok(number),
            Err(error) => Err(Error::malformed_content(error)),
        }
    }
}

impl FromBencode for i8 {
    const EXPECTED_RECURSION_DEPTH: usize = 0;

    fn decode_bencode_object<'obj, 'ser>(object: Object<'obj, 'ser>) -> (r: Result<Self, Error>)
        ensures
            decoded_integer(
                object,
                true,
                i8::MIN as int,
                i8::MAX as int,
                match r {
                    Ok(number) => Ok(number as int),
                    Err(error) => Err(error),
                },
            ),
    {
        let text = match object.try_into_integer() {
            Ok(text) => text,
            Err(error) => return Err(error),
        };
        match parse_i8(text) {
            Ok(number) => Ok(number),
            Err(error) => Err(Error::malformed_content(error)),
        }
    }
}

impl FromBencode for i16 {
    const EXPECTED_RECURSION_DEPTH: usize = 0;

    fn decode_bencode_object<'obj, 'ser>(object: Object<'obj, 'ser>) -> (r: Result<Self, Error>)
        ensures
            decoded_integer(
                object,
                true,
                i16::MIN as int,
                i16::MAX as int,
                match r {
                    Ok(number) => Ok(number as int),
                    Err(error) => Err(error),
                },
            ),
    {
        let text = match object.try_into_integer() {
            Ok(text) => text,
            Err(error) => return Err(error),
        };
        match parse_i16(text) {
            Ok(number) => Ok(number),
            Err(error) => Err(Error::malformed_content(error)),
        }
    }
}

impl FromBencode for i32 {
    const EXPECTED_RECURSION_DEPTH: usize = 0;

    fn decode_bencode_object<'obj, 'ser>(object: Object<'obj, 'ser>) -> (r: Result<Self, Error>)
        ensures
            decoded_integer(
                object,
                true,
                i32::MIN as int,
                i32::MAX as int,
                match r {
                    Ok(number) => Ok(number as int),
                    Err(error) => Err(error),
                },
            ),
    {
        let text = match object.try_into_integer() {
            Ok(text) => text,
            Err(error) => return Err(error),
        };
        match parse_i32(text) {
            Ok(number) => Ok(number),
            Err(error) => Err(Error::malformed_content(error)),
        }
    }
}

impl FromBencode for i64 {
    const EXPECTED_RECURSION_DEPTH: usize = 0;

    fn decode_bencode_object<'obj, 'ser>(object: Object<'obj, 'ser>) -> (r: Result<Self, Error>)
        ensures
            decoded_integer(
                object,
                true,
                i64::MIN as int,
                i64::MAX as int,
                match r {
                    Ok(number) => Ok(number as int),
                    Err(error) => Err(error),
                },
            ),
    {
        let text = match object.try_into_integer() {
            Ok(text) => text,
            Err(error) => return Err(error),
        };
        match parse_i64(text) {
            Ok(number) => Ok(number),
            Err(error) => Err(Error::malformed_content(error)),
        }
    }
}

impl FromBencode for i128 {
    const EXPECTED_RECURSION_DEPTH: usize = 0;

    fn decode_bencode_object<'obj, 'ser>(object: Object<'obj, 'ser>) -> (r: Result<Self, Error>)
        ensures
            decoded_integer(
                object,
                true,
                i128::MIN as int,
                i128::MAX as int,
                match r {
                    Ok(number) => Ok(number as int),
                    Err(error) => Err(error),
                },
            ),
    {
        let text = match object.try_into_integer() {
            Ok(text) => text,
            Err(error) => return Err(error),
        };
        match parse_i128(text) {
            Ok(number) => Ok(number),
            Err(error) => Err(Error::malformed_content(error)),
        }
    }
}

impl FromBencode for isize {
    const EXPECTED_RECURSION_DEPTH: usize = 0;

    fn decode_bencode_object<'obj, 'ser>(object: Object<'obj, 'ser>) -> (r: Result<Self, Error>)
        ensures
            decoded_integer(
                object,
                true,
                isize::MIN as int,
                isize::MAX as int,
                match r {
                    Ok(number) => Ok(number as int),
                    Err(error) => Err(error),
                },
            ),
    {
        let text = match object.try_into_integer() {
            Ok(text) => text,
            Err(error) => return Err(error),
        };
        match parse_isize(text) {
            Ok(number) => Ok(number),
            Err(error) => Err(Error::malformed_content(error)),
        }
    }
}

/// The read found an item.
pub open spec fn found_item(found: Result<Option<Object<'_, '_>>, Error>) -> bool {
    found is Ok && found->Ok_0 is Some
}

/// Reads of a list that follow one another: `views` are the list before,
/// between and after the reads, `found` what each read returned, and
/// `decoded` what the items that were found were decoded to. All items but
/// the last were decoded; `r` is the error of the last item or of the last
/// read, or the decoded items where the last read found the end of the
/// list.
pub open spec fn read_in_turn<'obj, 'ser, T>(
    given: ListDecoder<'obj, 'ser>,
    views: Seq<ListDecoder<'obj, 'ser>>,
    found: Seq<Result<Option<Object<'obj, 'ser>>, Error>>,
    decoded: Seq<Result<T, Error>>,
    r: Result<Vec<T>, Error>,
) -> bool {
    &&& found.len() >= 1
    &&& views.len() == found.len() + 1
    &&& views[0] == given
    &&& forall|i: int|
        0 <= i < found.len() ==> views[i].reads_item(views[i + 1], #[trigger] found[i])
    &&& decoded.len() <= found.len() <= decoded.len() + 1
    &&& forall|i: int| 0 <= i < decoded.len() ==> found_item(#[trigger] found[i])
    &&& forall|i: int| 0 <= i < decoded.len() - 1 ==> (#[trigger] decoded[i]) is Ok
    &&& if found.len() == decoded.len() {
        decoded.last() is Err && r == Err::<Vec<T>, Error>(decoded.last()->Err_0)
    } else {
        &&& decoded.len() > 0 ==> decoded.last() is Ok
        &&& match found.last() {
            Ok(None) => {
                &&& r matches Ok(items)
                &&& items@.len() == decoded.len()
                &&& forall|i: int|
                    0 <= i < decoded.len() ==> #[trigger] decoded[i] == Ok::<T, Error>(items@[i])
            },
            Err(error) => r == Err::<Vec<T>, Error>(error),
            Ok(Some(_)) => false,
        }
    }
}

/// Reads the list to its end: each item that [`ListDecoder::next_object`]
/// finds is decoded as a `T`, up to the first that fails. A list or a
/// dictionary that is found is a view on the decoder of the list, and the
/// list goes on from where the item's decoding left that decoder. The
/// decoder behind the list is left where the last read, or the last item,
/// left it.
pub fn decode_items<'obj, 'ser, T: FromBencode>(given: ListDecoder<'obj, 'ser>) -> (r: Result<
    Vec<T>,
    Error,
>)
    requires
        given.wf(),
    ensures
        given.leaves(*final(given.parent())),
        exists|
            views: Seq<ListDecoder<'obj, 'ser>>,
            found: Seq<Result<Option<Object<'obj, 'ser>>, Error>>,
            decoded: Seq<Result<T, Error>>,
        |
            {
                &&& #[trigger] read_in_turn(given, views, found, decoded, r)
                &&& *final(given.parent()) == views.last().decoder()
                &&& forall|i: int|
                    0 <= i < found.len() ==> match #[trigger] found[i] {
                        Ok(Some(Object::List(list))) => *final(list.parent()) == views[i
                            + 1].decoder(),
                        Ok(Some(Object::Dict(dict))) => *final(dict.parent()) == views[i
                            + 1].decoder(),
                        _ => true,
                    }
                &&& forall|i: int|
                    0 <= i < decoded.len() ==> call_ensures(
                        T::decode_bencode_object,
                        (found[i]->Ok_0->Some_0,),
                        #[trigger] decoded[i],
                    )
            },
{
    let mut list = given;
    let mut results: Vec<T> = Vec::new();
    let ghost mut views: Seq<ListDecoder<'obj, 'ser>> = seq![given];
    let ghost mut found: Seq<Result<Option<Object<'obj, 'ser>>, Error>> = Seq::empty();
    let ghost mut decoded: Seq<Result<T, Error>> = Seq::empty();
    loop
        invariant
            list.wf(),
            given.same_list(list),
            given.leaves(list.decoder()),
            *final(list.parent()) == *final(given.parent()),
            views.len() == results@.len() + 1,
            found.len() == results@.len(),
            decoded.len() == results@.len(),
            views[0] == given,
            views.last() == list,
            forall|i: int|
                0 <= i < found.len() ==> views[i].reads_item(views[i + 1], #[trigger] found[i]),
            forall|i: int| 0 <= i < decoded.len() ==> found_item(#[trigger] found[i]),
            forall|i: int|
                0 <= i < decoded.len() ==> #[trigger] decoded[i] == Ok::<T, Error>(results@[i]),
            forall|i: int|
                0 <= i < found.len() ==> match #[trigger] found[i] {
                    Ok(Some(Object::List(list))) => *final(list.parent()) == views[i + 1].decoder(),
                    Ok(Some(Object::Dict(dict))) => *final(dict.parent()) == views[i + 1].decoder(),
                    _ => true,
                },
            forall|i: int|
                0 <= i < decoded.len() ==> call_ensures(
                    T::decode_bencode_object,
                    (found[i]->Ok_0->Some_0,),
                    #[trigger] decoded[i],
                ),
        decreases list.decoder().input().len() - list.decoder().reading().at,
    {
        let ghost before = list;
        let ghost known_views = views;
        let ghost known_found = found;
        let ghost known_decoded = decoded;
        proof {
            if !list.is_finished() && list.decoder().latched() is None {
                items_lead_out(
                    list.decoder().input(),
                    list.decoder().depth_limit(),
                    before.decoder().reading(),
                    list.level(),
                );
            }
        }
        let next = list.next_object();
        let ghost read = next;
        let object = match next {
            Err(error) => {
                proof {
                    list.gives_back();
                    views = views.push(list);
                    found = found.push(read);
                    assert(forall|i: int|
                        0 <= i < known_views.len() ==> views[i] == known_views[i]);
                    assert(forall|i: int|
                        0 <= i < known_found.len() ==> found[i] == known_found[i]);
                    assert(read_in_turn(
                        given,
                        views,
                        found,
                        decoded,
                        Err::<Vec<T>, Error>(error),
                    ));
                }
                return Err(error);
            },
            Ok(None) => {
                proof {
                    list.gives_back();
                    views = views.push(list);
                    found = found.push(read);
                    assert(forall|i: int|
                        0 <= i < known_views.len() ==> views[i] == known_views[i]);
                    assert(forall|i: int|
                        0 <= i < known_found.len() ==> found[i] == known_found[i]);
                    assert(read_in_turn(given, views, found, decoded, Ok::<Vec<T>, Error>(results)));
                }
                return Ok(results);
            },
            Ok(Some(object)) => object,
        };
        let ghost item = object;
        let ghost opened = object.decoder_or(after_borrow(list).decoder()).reading().frames;
        let outcome = T::decode_bencode_object(object);
        proof {
            below_kept_chains(
                before.decoder().reading().frames,
                opened,
                list.decoder().reading().frames,
                list.level(),
            );
            below_kept_chains(
                given.decoder().reading().frames,
                before.decoder().reading().frames,
                list.decoder().reading().frames,
                list.level(),
            );
            views = views.push(list);
            found = found.push(read);
            decoded = decoded.push(outcome);
            assert(forall|i: int| 0 <= i < known_views.len() ==> views[i] == known_views[i]);
            assert(forall|i: int| 0 <= i < known_found.len() ==> found[i] == known_found[i]);
            assert(forall|i: int|
                0 <= i < known_decoded.len() ==> decoded[i] == known_decoded[i]);
            assert(call_ensures(T::decode_bencode_object, (item,), outcome));
        }
        match outcome {
            Ok(value) => {
                results.push(value);
            },
            Err(error) => {
                proof {
                    list.gives_back();
                    assert(read_in_turn(
                        given,
                        views,
                        found,
                        decoded,
                        Err::<Vec<T>, Error>(error),
                    ));
                }
                return Err(error);
            },
        }
    }
}

impl<ContentT: FromBencode> FromBencode for Vec<ContentT> {
    const EXPECTED_RECURSION_DEPTH: usize = ContentT::EXPECTED_RECURSION_DEPTH + 1;

    /// A list is decoded as [`decode_items`] says; anything else is
    /// refused.
    fn decode_bencode_object<'obj, 'ser>(object: Object<'obj, 'ser>) -> (r: Result<Self, Error>)
        ensures
            !(object is List) ==> (r matches Err(error) && error@ == unexpected("List"@, object)),
            object matches Object::List(list) ==> call_ensures(
                decode_items::<ContentT>,
                (list,),
                r,
            ),
    {
        match object.try_into_list() {
            Ok(list) => decode_items(list),
            Err(error) => Err(error),
        }
    }
}

/// What decoding `object` as a text gives: the text that the bytes encode
/// in UTF-8, where they are a byte string that encodes one.
pub open spec fn decoded_text(object: Object<'_, '_>) -> Option<Seq<char>> {
    match object {
        Object::Bytes(content) => if valid_utf8(content@) {
            Some(decode_utf8(content@))
        } else {
            None
        },
        _ => None,
    }
}

impl FromBencode for String {
    const EXPECTED_RECURSION_DEPTH: usize = 0;

    fn decode_bencode_object<'obj, 'ser>(object: Object<'obj, 'ser>) -> (r: Result<Self, Error>)
        ensures
            match decoded_text(object) {
                Some(text) => r matches Ok(content) && content@ == text,
                None => r is Err,
            },
            !(object is Bytes) ==> (r matches Err(error) && error@ == unexpected(
                "String"@,
                object,
            )),
            object is Bytes && r is Err ==> r->Err_0.kind() is MalformedContent,
    {
        let content = match object.try_into_bytes() {
            Ok(content) => content,
            Err(error) => return Err(error),
        };
        match String::from_utf8(vstd::slice::slice_to_vec(content)) {
            Ok(content) => Ok(content),
            Err(error) => Err(Error::malformed_content(error)),
        }
    }
}

/// The read found a pair.
pub open spec fn found_pair(found: Result<Option<(&[u8], Object<'_, '_>)>, Error>) -> bool {
    found is Ok && found->Ok_0 is Some
}

/// The key that the read found, as the object that keys are decoded from.
pub open spec fn key_of<'obj, 'ser>(
    found: Result<Option<(&'ser [u8], Object<'obj, 'ser>)>, Error>,
) -> Object<'obj, 'ser> {
    Object::Bytes(found->Ok_0->Some_0.0)
}

/// The value that the read found.
pub open spec fn value_of<'obj, 'ser>(
    found: Result<Option<(&'ser [u8], Object<'obj, 'ser>)>, Error>,
) -> Object<'obj, 'ser> {
    found->Ok_0->Some_0.1
}

/// Reads of a dictionary that follow one another: `views` are the
/// dictionary before, between and after the reads, `found` what each read
/// returned, `named` what the keys that were found were decoded to and
/// `decoded` what their values were decoded to. Where a key is not
/// decoded, its value is given up as it was found, and `decoded` holds the
/// error of the key. All pairs but the last were decoded; `r` is the error
/// of the last pair or of the last read, or the decoded pairs where the
/// last read found the end of the dictionary.
pub open spec fn pairs_read_in_turn<'obj, 'ser, K, V>(
    given: DictDecoder<'obj, 'ser>,
    views: Seq<DictDecoder<'obj, 'ser>>,
    found: Seq<Result<Option<(&'ser [u8], Object<'obj, 'ser>)>, Error>>,
    named: Seq<Result<K, Error>>,
    decoded: Seq<Result<V, Error>>,
    r: Result<Vec<(K, V)>, Error>,
) -> bool {
    &&& found.len() >= 1
    &&& views.len() == found.len() + 1
    &&& views[0] == given
    &&& forall|i: int|
        0 <= i < found.len() ==> views[i].reads_pair(views[i + 1], #[trigger] found[i])
    &&& named.len() == decoded.len()
    &&& decoded.len() <= found.len() <= decoded.len() + 1
    &&& forall|i: int| 0 <= i < decoded.len() ==> found_pair(#[trigger] found[i])
    &&& forall|i: int|
        0 <= i < decoded.len() ==> ((#[trigger] named[i]) matches Err(error) ==> decoded[i]
            == Err::<V, Error>(error) && value_of(found[i]).decoder_or(views[i + 1].decoder())
            == views[i + 1].decoder())
    &&& forall|i: int| 0 <= i < decoded.len() - 1 ==> (#[trigger] decoded[i]) is Ok
    &&& if found.len() == decoded.len() {
        decoded.last() is Err && r == Err::<Vec<(K, V)>, Error>(decoded.last()->Err_0)
    } else {
        &&& decoded.len() > 0 ==> decoded.last() is Ok
        &&& match found.last() {
            Ok(None) => {
                &&& r matches Ok(pairs)
                &&& pairs@.len() == decoded.len()
                &&& forall|i: int|
                    0 <= i < decoded.len() ==> named[i] == Ok::<K, Error>(pairs@[i].0)
                        && #[trigger] decoded[i] == Ok::<V, Error>(pairs@[i].1)
            },
            Err(error) => r == Err::<Vec<(K, V)>, Error>(error),
            Ok(Some(_)) => false,
        }
    }
}

/// Reads the dictionary to its end: of each pair that
/// [`DictDecoder::next_pair`] finds, the key is decoded as a `K` from a
/// byte string, and then the value as a `V`, up to the first that fails. A
/// list or a dictionary that is found as a value is a view on the decoder
/// of the dictionary, and the dictionary goes on from where the value's
/// decoding left that decoder. The decoder behind the dictionary is left
/// where the last read, or the last pair, left it.
#[verifier::rlimit(80)]
pub fn decode_pairs<'obj, 'ser, K: FromBencode, V: FromBencode>(
    given: DictDecoder<'obj, 'ser>,
) -> (r: Result<Vec<(K, V)>, Error>)
    requires
        given.wf(),
    ensures
        given.leaves(*final(given.parent())),
        exists|
            views: Seq<DictDecoder<'obj, 'ser>>,
            found: Seq<Result<Option<(&'ser [u8], Object<'obj, 'ser>)>, Error>>,
            named: Seq<Result<K, Error>>,
            decoded: Seq<Result<V, Error>>,
        |
            {
                &&& #[trigger] pairs_read_in_turn(given, views, found, named, decoded, r)
                &&& *final(given.parent()) == views.last().decoder()
                &&& forall|i: int|
                    0 <= i < found.len() ==> match #[trigger] found[i] {
                        Ok(Some((_, Object::List(list)))) => *final(list.parent()) == views[i
                            + 1].decoder(),
                        Ok(Some((_, Object::Dict(dict)))) => *final(dict.parent()) == views[i
                            + 1].decoder(),
                        _ => true,
                    }
                &&& forall|i: int|
                    0 <= i < decoded.len() ==> {
                        &&& call_ensures(
                            K::decode_bencode_object,
                            (key_of(found[i]),),
                            #[trigger] named[i],
                        )
                        &&& named[i] is Ok ==> call_ensures(
                            V::decode_bencode_object,
                            (value_of(found[i]),),
                            decoded[i],
                        )
                    }
            },
{
    let mut dict = given;
    let mut results: Vec<(K, V)> = Vec::new();
    let ghost mut views: Seq<DictDecoder<'obj, 'ser>> = seq![given];
    let ghost mut found: Seq<Result<Option<(&'ser [u8], Object<'obj, 'ser>)>, Error>> =
        Seq::empty();
    let ghost mut named: Seq<Result<K, Error>> = Seq::empty();
    let ghost mut decoded: Seq<Result<V, Error>> = Seq::empty();
    loop
        invariant
            dict.wf(),
            given.same_dict(dict),
            given.leaves(dict.decoder()),
            *final(dict.parent()) == *final(given.parent()),
            views.len() == results@.len() + 1,
            found.len() == results@.len(),
            named.len() == results@.len(),
            decoded.len() == results@.len(),
            views[0] == given,
            views.last() == dict,
            forall|i: int|
                0 <= i < found.len() ==> views[i].reads_pair(views[i + 1], #[trigger] found[i]),
            forall|i: int| 0 <= i < decoded.len() ==> found_pair(#[trigger] found[i]),
            forall|i: int|
                0 <= i < decoded.len() ==> #[trigger] named[i] == Ok::<K, Error>(results@[i].0),
            forall|i: int|
                0 <= i < decoded.len() ==> #[trigger] decoded[i] == Ok::<V, Error>(results@[i].1),
            forall|i: int|
                0 <= i < found.len() ==> match #[trigger] found[i] {
                    Ok(Some((_, Object::List(list)))) => *final(list.parent()) == views[i
                        + 1].decoder(),
                    Ok(Some((_, Object::Dict(dict)))) => *final(dict.parent()) == views[i
                        + 1].decoder(),
                    _ => true,
                },
            forall|i: int|
                0 <= i < decoded.len() ==> {
                    &&& call_ensures(
                        K::decode_bencode_object,
                        (key_of(found[i]),),
                        #[trigger] named[i],
                    )
                    &&& named[i] is Ok ==> call_ensures(
                        V::decode_bencode_object,
                        (value_of(found[i]),),
                        decoded[i],
                    )
                },
        decreases dict.decoder().input().len() - dict.decoder().reading().at,
    {
        let ghost before = dict;
        let ghost known_views = views;
        let ghost known_found = found;
        let ghost known_named = named;
        let ghost known_decoded = decoded;
        proof {
            if !dict.is_finished() && dict.decoder().latched() is None {
                pairs_lead_out(
                    dict.decoder().input(),
                    dict.decoder().depth_limit(),
                    before.decoder().reading(),
                    dict.level(),
                );
            }
        }
        let next = dict.next_pair();
        let ghost read = next;
        let (key, value) = match next {
            Err(error) => {
                proof {
                    dict.gives_back();
                    views = views.push(dict);
                    found = found.push(read);
                    assert(forall|i: int|
                        0 <= i < known_views.len() ==> views[i] == known_views[i]);
                    assert(forall|i: int|
                        0 <= i < known_found.len() ==> found[i] == known_found[i]);
                    assert(pairs_read_in_turn(
                        given,
                        views,
                        found,
                        named,
                        decoded,
                        Err::<Vec<(K, V)>, Error>(error),
                    ));
                }
                return Err(error);
            },
            Ok(None) => {
                proof {
                    dict.gives_back();
                    views = views.push(dict);
                    found = found.push(read);
                    assert(forall|i: int|
                        0 <= i < known_views.len() ==> views[i] == known_views[i]);
                    assert(forall|i: int|
                        0 <= i < known_found.len() ==> found[i] == known_found[i]);
                    assert(pairs_read_in_turn(
                        given,
                        views,
                        found,
                        named,
                        decoded,
                        Ok::<Vec<(K, V)>, Error>(results),
                    ));
                }
                return Ok(results);
            },
            Ok(Some(pair)) => pair,
        };
        let ghost item = value;
        let ghost opened = value.decoder_or(after_borrow(dict).decoder()).reading().frames;
        let key_outcome = K::decode_bencode_object(Object::Bytes(key));
        let key = match key_outcome {
            Ok(key) => key,
            Err(error) => {
                proof {
                    value.gives_back();
                    below_kept_chains(
                        given.decoder().reading().frames,
                        before.decoder().reading().frames,
                        dict.decoder().reading().frames,
                        dict.level(),
                    );
                    dict.gives_back();
                    views = views.push(dict);
                    found = found.push(read);
                    named = named.push(key_outcome);
                    decoded = decoded.push(Err::<V, Error>(error));
                    assert(forall|i: int|
                        0 <= i < known_views.len() ==> views[i] == known_views[i]);
                    assert(forall|i: int|
                        0 <= i < known_found.len() ==> found[i] == known_found[i]);
                    assert(forall|i: int|
                        0 <= i < known_named.len() ==> named[i] == known_named[i]);
                    assert(forall|i: int|
                        0 <= i < known_decoded.len() ==> decoded[i] == known_decoded[i]);
                    assert(pairs_read_in_turn(
                        given,
                        views,
                        found,
                        named,
                        decoded,
                        Err::<Vec<(K, V)>, Error>(error),
                    ));
                }
                return Err(error);
            },
        };
        let outcome = V::decode_bencode_object(value);
        proof {
            below_kept_chains(
                before.decoder().reading().frames,
                opened,
                dict.decoder().reading().frames,
                dict.level(),
            );
            below_kept_chains(
                given.decoder().reading().frames,
                before.decoder().reading().frames,
                dict.decoder().reading().frames,
                dict.level(),
            );
            assert(dict.level() <= dict.decoder().reading().frames.len()
                ==> dict.decoder().reading().frames.take(dict.level() as int)[dict.level() - 1]
                == dict.decoder().reading().frames[dict.level() - 1]);
            assert(dict.level() <= opened.len() ==> opened.take(dict.level() as int)[dict.level()
                - 1] == opened[dict.level() - 1]);
            views = views.push(dict);
            found = found.push(read);
            named = named.push(key_outcome);
            decoded = decoded.push(outcome);
            assert(forall|i: int| 0 <= i < known_views.len() ==> views[i] == known_views[i]);
            assert(forall|i: int| 0 <= i < known_found.len() ==> found[i] == known_found[i]);
            assert(forall|i: int| 0 <= i < known_named.len() ==> named[i] == known_named[i]);
            assert(forall|i: int|
                0 <= i < known_decoded.len() ==> decoded[i] == known_decoded[i]);
            assert(call_ensures(V::decode_bencode_object, (item,), outcome));
        }
        match outcome {
            Ok(value) => {
                results.push((key, value));
            },
            Err(error) => {
                proof {
                    dict.gives_back();
                    assert(pairs_read_in_turn(
                        given,
                        views,
                        found,
                        named,
                        decoded,
                        Err::<Vec<(K, V)>, Error>(error),
                    ));
                }
                return Err(error);
            },
        }
    }
}

/// The map that holds the pairs: each is entered in turn, so that of two
/// pairs with one key the later stays.
pub open spec fn entered<K, V>(pairs: Seq<(K, V)>) -> Map<K, V>
    decreases pairs.len(),
{
    if pairs.len() == 0 {
        Map::empty()
    } else {
        entered(pairs.drop_last()).insert(pairs.last().0, pairs.last().1)
    }
}

/// The order of the keys is one that an ordered map can rely on.
pub open spec fn keys_are_ordered<K: Ord>() -> bool {
    vstd::laws_cmp::obeys_cmp::<K>()
}

/// The keys are hashed in a way that a hashed map can rely on.
pub open spec fn keys_are_hashed<K, H>() -> bool {
    vstd::std_specs::hash::obeys_key_model::<K>() && vstd::std_specs::hash::builds_valid_hashers::<
        H,
    >()
}

impl<K, V> FromBencode for BTreeMap<K, V> where K: FromBencode + Ord, V: FromBencode {
    const EXPECTED_RECURSION_DEPTH: usize = V::EXPECTED_RECURSION_DEPTH + 1;

    /// A dictionary is decoded as [`decode_pairs`] says, and its pairs are
    /// entered into a map one after the other; anything else is refused.
    /// What the map holds then is known where the order of the keys is
    /// one that the map can rely on.
    fn decode_bencode_object<'obj, 'ser>(object: Object<'obj, 'ser>) -> (r: Result<Self, Error>)
        ensures
            !(object is Dict) ==> (r matches Err(error) && error@ == unexpected("Dict"@, object)),
            object matches Object::Dict(dict) ==> exists|pairs: Result<Vec<(K, V)>, Error>|
                {
                    &&& #[trigger] call_ensures(decode_pairs::<K, V>, (dict,), pairs)
                    &&& match pairs {
                        Ok(pairs) => r matches Ok(map) && (keys_are_ordered::<K>() ==> map@
                            == entered(pairs@)),
                        Err(error) => r == Err::<Self, Error>(error),
                    }
                },
    {
        let dict = match object.try_into_dictionary() {
            Ok(dict) => dict,
            Err(error) => return Err(error),
        };
        let pairs = decode_pairs::<K, V>(dict);
        let ghost read = pairs;
        let mut pairs = match pairs {
            Ok(pairs) => pairs,
            Err(error) => return Err(error),
        };
        let ghost all = pairs@;
        let mut result = BTreeMap::new();
        let mut n: usize = 0;
        let count = pairs.len();
        while n < count
            invariant
                n <= count,
                count == all.len(),
                pairs@ == all.skip(n as int),
                keys_are_ordered::<K>() ==> result@ == entered(all.take(n as int)),
            decreases count - n,
        {
            let (key, value) = pairs.remove(0);
            proof {
                assert(all.take(n + 1).drop_last() =~= all.take(n as int));
                assert(all.take(n + 1).last() == all[n as int]);
                assert(all.skip(n as int).remove(0) =~= all.skip(n + 1));
            }
            result.insert(key, value);
            n = n + 1;
        }
        proof {
            assert(all.take(n as int) =~= all);
        }
        Ok(result)
    }
}

impl<K, V, H> FromBencode for HashMap<K, V, H> where
    K: FromBencode + Hash + Eq,
    V: FromBencode,
    H: BuildHasher + Default,
 {
    const EXPECTED_RECURSION_DEPTH: usize = V::EXPECTED_RECURSION_DEPTH + 1;

    /// A dictionary is decoded as [`decode_pairs`] says, and its pairs are
    /// entered into a map one after the other; anything else is refused.
    /// What the map holds then is known where the keys and the hasher are
    /// such that the map can rely on them.
    fn decode_bencode_object<'obj, 'ser>(object: Object<'obj, 'ser>) -> (r: Result<Self, Error>)
        ensures
            !(object is Dict) ==> (r matches Err(error) && error@ == unexpected("Dict"@, object)),
            object matches Object::Dict(dict) ==> exists|pairs: Result<Vec<(K, V)>, Error>|
                {
                    &&& #[trigger] call_ensures(decode_pairs::<K, V>, (dict,), pairs)
                    &&& match pairs {
                        Ok(pairs) => r matches Ok(map) && (keys_are_hashed::<K, H>() ==> map@
                            == entered(pairs@)),
                        Err(error) => r == Err::<Self, Error>(error),
                    }
                },
    {
        let dict = match object.try_into_dictionary() {
            Ok(dict) => dict,
            Err(error) => return Err(error),
        };
        let pairs = decode_pairs::<K, V>(dict);
        let ghost read = pairs;
        let mut pairs = match pairs {
            Ok(pairs) => pairs,
            Err(error) => return Err(error),
        };
        let ghost all = pairs@;
        let mut result: HashMap<K, V, H> = HashMap::default();
        let mut n: usize = 0;
        let count = pairs.len();
        while n < count
            invariant
                n <= count,
                count == all.len(),
                pairs@ == all.skip(n as int),
                keys_are_hashed::<K, H>() ==> result@ == entered(all.take(n as int)),
            decreases count - n,
        {
            let (key, value) = pairs.remove(0);
            proof {
                assert(all.take(n + 1).drop_last() =~= all.take(n as int));
                assert(all.take(n + 1).last() == all[n as int]);
                assert(all.skip(n as int).remove(0) =~= all.skip(n + 1));
            }
            result.insert(key, value);
            n = n + 1;
        }
        proof {
            assert(all.take(n as int) =~= all);
        }
        Ok(result)
    }
}

impl<T: FromBencode> FromBencode for Rc<T> {
    const EXPECTED_RECURSION_DEPTH: usize = T::EXPECTED_RECURSION_DEPTH;

    /// The object is decoded as a `T`, and what that gives is shared.
    fn decode_bencode_object<'obj, 'ser>(object: Object<'obj, 'ser>) -> (r: Result<Self, Error>)
        ensures
            match r {
                Ok(shared) => call_ensures(
                    T::decode_bencode_object,
                    (object,),
                    Ok::<T, Error>(*shared),
                ),
                Err(error) => call_ensures(
                    T::decode_bencode_object,
                    (object,),
                    Err::<T, Error>(error),
                ),
            },
    {
        match T::decode_bencode_object(object) {
            Ok(value) => Ok(Rc::new(value)),
            Err(error) => Err(error),
        }
    }
}

impl FromBencode for AsString<Vec<u8>> {
    const EXPECTED_RECURSION_DEPTH: usize = 0;

    fn decode_bencode_object<'obj, 'ser>(object: Object<'obj, 'ser>) -> (r: Result<Self, Error>)
        ensures
            object matches Object::Bytes(content) ==> (r matches Ok(bytes) && bytes.0@
                == content@),
            !(object is Bytes) ==> (r matches Err(error) && error@ == unexpected(
                "String"@,
                object,
            )),
    {
        match object.try_into_bytes() {
            Ok(content) => Ok(AsString(vstd::slice::slice_to_vec(content))),
            Err(error) => Err(error),
        }
    }
}

} // verus!
