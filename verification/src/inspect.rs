//! A tree of bencode that can be looked into and changed, even into what
//! is no valid bencode any more.
pub mod display;
pub mod mutate;
pub mod parse;
pub mod path;
pub mod traverse;

use vstd::prelude::*;
use vstd::utf8::encode_utf8;

pub use self::parse::inspect;
pub use self::path::{inspect_path, PathBuilder, Search, Step};

use crate::encoding::encoder::token_bytes;
use crate::round_trip::{written, written_from_the_first, written_of_both};
use crate::state_tracker::TokenView;
use crate::text::{decimal, decimal_bytes, push_decimal, push_decimal_bytes};

verus! {

/// A bencode object that can be inspected and changed.
#[derive(Debug, PartialEq, Eq)]
pub enum Inspectable {
    Int(InInt),
    String(InString),
    Raw(Vec<u8>),
    Dict(InDict),
    List(InList),
}

/// A byte string, and the length that is written for it where that is not
/// its own.
#[derive(Debug, PartialEq, Eq)]
pub struct InString {
    pub bytes: Vec<u8>,
    pub fake_length: Option<usize>,
}

/// An integer, as the text that is written for it.
#[derive(Debug, PartialEq, Eq)]
pub struct InInt {
    pub bytes: String,
}

/// A key of a dictionary with its value.
#[derive(Debug, PartialEq, Eq)]
pub struct InDictEntry {
    pub key: Inspectable,
    pub value: Inspectable,
}

/// A dictionary: its entries in the order in which they are written.
#[derive(Debug, PartialEq, Eq)]
pub struct InDict {
    pub items: Vec<InDictEntry>,
}

/// A list: its items in the order in which they are written.
#[derive(Debug, PartialEq, Eq)]
pub struct InList {
    pub items: Vec<Inspectable>,
}

impl Clone for InString {
    fn clone(&self) -> (r: Self)
        ensures
            r.bytes@ == self.bytes@,
            r.fake_length == self.fake_length,
    {
        InString { bytes: self.bytes.clone(), fake_length: self.fake_length }
    }
}

impl Clone for InInt {
    fn clone(&self) -> (r: Self)
        ensures
            r == *self,
    {
        InInt { bytes: self.bytes.clone() }
    }
}

/// The text that the integer `number` is written as.
pub open spec fn int_text(number: int) -> Seq<char> {
    if number < 0 {
        seq!['-'] + decimal((-number) as nat)
    } else {
        decimal(number as nat)
    }
}

/// The bytes that the object is written as. A byte string is written with
/// its fake length where it has one; raw bytes are written as they are.
pub open spec fn bytes_of(object: Inspectable) -> Seq<u8>
    decreases object,
{
    match object {
        Inspectable::String(x) => decimal_bytes(x.written_len() as nat) + seq![58u8] + x.bytes@,
        Inspectable::Raw(x) => x@,
        Inspectable::Int(x) => seq![105u8] + encode_utf8(x.bytes@) + seq![101u8],
        Inspectable::List(x) => seq![108u8] + items_bytes(x.items@, x.items@.len() as int)
            + seq![101u8],
        Inspectable::Dict(x) => seq![100u8] + entries_bytes(x.items@, x.items@.len() as int)
            + seq![101u8],
    }
}

/// The bytes that the first `count` of the items are written as.
pub open spec fn items_bytes(items: Seq<Inspectable>, count: int) -> Seq<u8>
    decreases items, count,
{
    if count <= 0 || count > items.len() {
        Seq::empty()
    } else {
        items_bytes(items, count - 1) + bytes_of(items[count - 1])
    }
}

/// The bytes that the first `count` of the entries are written as: each
/// key, and after it its value.
pub open spec fn entries_bytes(items: Seq<InDictEntry>, count: int) -> Seq<u8>
    decreases items, count,
{
    if count <= 0 || count > items.len() {
        Seq::empty()
    } else {
        entries_bytes(items, count - 1) + bytes_of(items[count - 1].key) + bytes_of(
            items[count - 1].value,
        )
    }
}

/// The two objects are alike: of the same kind and with the same
/// contents, item by item.
pub open spec fn alike(a: Inspectable, b: Inspectable) -> bool
    decreases a,
{
    match (a, b) {
        (Inspectable::Int(x), Inspectable::Int(y)) => x.bytes@ == y.bytes@,
        (Inspectable::String(x), Inspectable::String(y)) => x.bytes@ == y.bytes@
            && x.fake_length == y.fake_length,
        (Inspectable::Raw(x), Inspectable::Raw(y)) => x@ == y@,
        (Inspectable::List(x), Inspectable::List(y)) => x.items@.len() == y.items@.len()
            && forall|i: int|
            0 <= i < x.items@.len() ==> alike(#[trigger] x.items@[i], y.items@[i]),
        (Inspectable::Dict(x), Inspectable::Dict(y)) => x.items@.len() == y.items@.len()
            && forall|i: int|
            0 <= i < x.items@.len() ==> alike((#[trigger] x.items@[i]).key, y.items@[i].key)
                && alike(x.items@[i].value, y.items@[i].value),
        _ => false,
    }
}

/// Objects that are alike are written alike.
pub proof fn alike_is_written_alike(a: Inspectable, b: Inspectable)
    requires
        alike(a, b),
    ensures
        bytes_of(a) == bytes_of(b),
    decreases a,
{
    match (a, b) {
        (Inspectable::List(x), Inspectable::List(y)) => {
            assert forall|k: int| 0 <= k < x.items@.len() implies bytes_of(#[trigger] x.items@[k])
                == bytes_of(y.items@[k]) by {
                alike_is_written_alike(x.items@[k], y.items@[k]);
            }
            same_items_bytes(x.items@, y.items@, x.items@.len() as int);
        },
        (Inspectable::Dict(x), Inspectable::Dict(y)) => {
            assert forall|k: int| 0 <= k < x.items@.len() implies bytes_of(
                (#[trigger] x.items@[k]).key,
            ) == bytes_of(y.items@[k].key) && bytes_of(x.items@[k].value) == bytes_of(
                y.items@[k].value,
            ) by {
                alike_is_written_alike(x.items@[k].key, y.items@[k].key);
                alike_is_written_alike(x.items@[k].value, y.items@[k].value);
            }
            same_entries_bytes(x.items@, y.items@, x.items@.len() as int);
        },
        _ => {},
    }
}

/// Items that are written alike one by one are written alike together.
pub proof fn same_items_bytes(a: Seq<Inspectable>, b: Seq<Inspectable>, count: int)
    requires
        0 <= count <= a.len(),
        count <= b.len(),
        forall|k: int| 0 <= k < count ==> bytes_of(#[trigger] a[k]) == bytes_of(b[k]),
    ensures
        items_bytes(a, count) == items_bytes(b, count),
    decreases count,
{
    if count > 0 {
        same_items_bytes(a, b, count - 1);
    }
}

/// Entries that are written alike one by one are written alike together.
pub proof fn same_entries_bytes(a: Seq<InDictEntry>, b: Seq<InDictEntry>, count: int)
    requires
        0 <= count <= a.len(),
        count <= b.len(),
        forall|k: int|
            0 <= k < count ==> bytes_of((#[trigger] a[k]).key) == bytes_of(b[k].key) && bytes_of(
                a[k].value,
            ) == bytes_of(b[k].value),
    ensures
        entries_bytes(a, count) == entries_bytes(b, count),
    decreases count,
{
    if count > 0 {
        same_entries_bytes(a, b, count - 1);
    }
}

/// The tokens that the object is written as, where it is plain: raw
/// bytes have none.
pub open spec fn spelled(object: Inspectable) -> Seq<TokenView>
    decreases object,
{
    match object {
        Inspectable::String(x) => seq![TokenView::String(x.bytes@)],
        Inspectable::Raw(_) => Seq::empty(),
        Inspectable::Int(x) => seq![TokenView::Num(x.bytes@)],
        Inspectable::List(x) => seq![TokenView::List] + items_spelled(
            x.items@,
            x.items@.len() as int,
        ) + seq![TokenView::End],
        Inspectable::Dict(x) => seq![TokenView::Dict] + entries_spelled(
            x.items@,
            x.items@.len() as int,
        ) + seq![TokenView::End],
    }
}

/// The tokens that the first `count` of the items are written as.
pub open spec fn items_spelled(items: Seq<Inspectable>, count: int) -> Seq<TokenView>
    decreases items, count,
{
    if count <= 0 || count > items.len() {
        Seq::empty()
    } else {
        items_spelled(items, count - 1) + spelled(items[count - 1])
    }
}

/// The tokens that the first `count` of the entries are written as.
pub open spec fn entries_spelled(items: Seq<InDictEntry>, count: int) -> Seq<TokenView>
    decreases items, count,
{
    if count <= 0 || count > items.len() {
        Seq::empty()
    } else {
        entries_spelled(items, count - 1) + spelled(items[count - 1].key) + spelled(
            items[count - 1].value,
        )
    }
}

/// The object is plain: it holds no raw bytes, and no byte string in it
/// has a length written for it that is not its own.
pub open spec fn plain(object: Inspectable) -> bool
    decreases object,
{
    match object {
        Inspectable::String(x) => x.fake_length is None,
        Inspectable::Raw(_) => false,
        Inspectable::Int(_) => true,
        Inspectable::List(x) => items_plain(x.items@, x.items@.len() as int),
        Inspectable::Dict(x) => entries_plain(x.items@, x.items@.len() as int),
    }
}

/// The first `count` of the items are plain.
pub open spec fn items_plain(items: Seq<Inspectable>, count: int) -> bool
    decreases items, count,
{
    if count <= 0 || count > items.len() {
        true
    } else {
        items_plain(items, count - 1) && plain(items[count - 1])
    }
}

/// The first `count` of the entries are plain.
pub open spec fn entries_plain(items: Seq<InDictEntry>, count: int) -> bool
    decreases items, count,
{
    if count <= 0 || count > items.len() {
        true
    } else {
        entries_plain(items, count - 1) && plain(items[count - 1].key) && plain(
            items[count - 1].value,
        )
    }
}

/// The first items that are plain are written as what their tokens are
/// written as.
proof fn plain_items_are_written(items: Seq<Inspectable>, count: int)
    requires
        items_plain(items, count),
    ensures
        items_bytes(items, count) == written(items_spelled(items, count)),
    decreases items, count,
{
    if 0 < count <= items.len() {
        plain_items_are_written(items, count - 1);
        plain_object_is_written(items[count - 1]);
        written_of_both(items_spelled(items, count - 1), spelled(items[count - 1]));
    } else {
        assert(written(items_spelled(items, count)) =~= Seq::<u8>::empty());
    }
}

/// The first entries that are plain are written as what their tokens are
/// written as.
proof fn plain_entries_are_written(items: Seq<InDictEntry>, count: int)
    requires
        entries_plain(items, count),
    ensures
        entries_bytes(items, count) == written(entries_spelled(items, count)),
    decreases items, count,
{
    if 0 < count <= items.len() {
        plain_entries_are_written(items, count - 1);
        plain_object_is_written(items[count - 1].key);
        plain_object_is_written(items[count - 1].value);
        written_of_both(entries_spelled(items, count - 1), spelled(items[count - 1].key));
        written_of_both(
            entries_spelled(items, count - 1) + spelled(items[count - 1].key),
            spelled(items[count - 1].value),
        );
    } else {
        assert(written(entries_spelled(items, count)) =~= Seq::<u8>::empty());
    }
}

/// A plain object is written as what its tokens are written as.
pub proof fn plain_object_is_written(object: Inspectable)
    requires
        plain(object),
    ensures
        bytes_of(object) == written(spelled(object)),
    decreases object,
{
    let tokens = spelled(object);
    match object {
        Inspectable::String(x) => {
            assert(tokens.drop_last() =~= Seq::<TokenView>::empty());
            assert(written(tokens.drop_last()) =~= Seq::<u8>::empty());
            assert(x.bytes@.len() == x.bytes.len());
            assert(written(tokens) =~= token_bytes(tokens.last()));
        },
        Inspectable::Raw(_) => {},
        Inspectable::Int(x) => {
            assert(tokens.drop_last() =~= Seq::<TokenView>::empty());
            assert(written(tokens.drop_last()) =~= Seq::<u8>::empty());
            assert(written(tokens) =~= token_bytes(tokens.last()));
        },
        Inspectable::List(x) => {
            let inner = items_spelled(x.items@, x.items@.len() as int);
            plain_items_are_written(x.items@, x.items@.len() as int);
            written_from_the_first(TokenView::List, inner + seq![TokenView::End]);
            written_of_both(inner, seq![TokenView::End]);
            let last = seq![TokenView::End];
            assert(last.drop_last() =~= Seq::<TokenView>::empty());
            assert(written(last.drop_last()) =~= Seq::<u8>::empty());
            assert(written(last) =~= seq![101u8]);
            assert(seq![TokenView::List] + (inner + last) =~= tokens);
            assert(seq![108u8] + (written(inner) + seq![101u8]) =~= bytes_of(object));
        },
        Inspectable::Dict(x) => {
            let inner = entries_spelled(x.items@, x.items@.len() as int);
            plain_entries_are_written(x.items@, x.items@.len() as int);
            written_from_the_first(TokenView::Dict, inner + seq![TokenView::End]);
            written_of_both(inner, seq![TokenView::End]);
            let last = seq![TokenView::End];
            assert(last.drop_last() =~= Seq::<TokenView>::empty());
            assert(written(last.drop_last()) =~= Seq::<u8>::empty());
            assert(written(last) =~= seq![101u8]);
            assert(seq![TokenView::Dict] + (inner + last) =~= tokens);
            assert(seq![100u8] + (written(inner) + seq![101u8]) =~= bytes_of(object));
        },
    }
}

impl InString {
    /// The length that is written for the byte string.
    pub open spec fn written_len(&self) -> usize {
        match self.fake_length {
            Some(length) => length,
            None => self.bytes@.len() as usize,
        }
    }
}

impl Inspectable {
    /// The integer `i`.
    pub fn new_int(i: i64) -> (r: Inspectable)
        ensures
            r matches Inspectable::Int(number) && number.bytes@ == int_text(i as int),
    {
        let mut text = String::new();
        if i < 0 {
            proof {
                reveal_strlit("-");
                assert("-"@ =~= seq!['-']);
            }
            text.append("-");
            push_decimal(&mut text, (-(i as i128)) as u128);
        } else {
            push_decimal(&mut text, i as u128);
        }
        Inspectable::Int(InInt { bytes: text })
    }

    /// The bytes that the object is written as.
    pub fn emit(&self) -> (r: Vec<u8>)
        ensures
            r@ == bytes_of(*self),
    {
        let mut res = Vec::new();
        self.emit_to(&mut res);
        res
    }

    /// Writes the object to `out`.
    fn emit_to(&self, out: &mut Vec<u8>)
        ensures
            final(out)@ == old(out)@ + bytes_of(*self),
        decreases self,
    {
        match self {
            Inspectable::String(x) => {
                push_decimal_bytes(out, x.len() as u128);
                out.push(58);
                out.extend_from_slice(x.content());
            },
            Inspectable::Raw(x) => {
                out.extend_from_slice(x.as_slice());
            },
            Inspectable::Int(x) => {
                out.push(105);
                out.extend_from_slice(x.bytes.as_str().as_bytes());
                out.push(101);
            },
            Inspectable::List(x) => {
                out.push(108);
                let mut i: usize = 0;
                while i < x.items.len()
                    invariant
                        i <= x.items.len(),
                        self == Inspectable::List(*x),
                        out@ == old(out)@ + seq![108u8] + items_bytes(x.items@, i as int),
                    decreases x.items.len() - i,
                {
                    proof {
                        assert(decreases_to!(*self => self->List_0));
                        assert(decreases_to!(*x => x.items));
                        assert(decreases_to!(x.items => x.items@));
                        assert(decreases_to!(x.items@ => x.items@[i as int]));
                    }
                    x.items[i].emit_to(out);
                    i = i + 1;
                }
                out.push(101);
            },
            Inspectable::Dict(x) => {
                out.push(100);
                let mut i: usize = 0;
                while i < x.items.len()
                    invariant
                        i <= x.items.len(),
                        self == Inspectable::Dict(*x),
                        out@ == old(out)@ + seq![100u8] + entries_bytes(x.items@, i as int),
                    decreases x.items.len() - i,
                {
                    proof {
                        assert(decreases_to!(*self => self->Dict_0));
                        assert(decreases_to!(*x => x.items));
                        assert(decreases_to!(x.items => x.items@));
                        assert(decreases_to!(x.items@ => x.items@[i as int]));
                        assert(decreases_to!(x.items@[i as int] => x.items@[i as int].key));
                        assert(decreases_to!(x.items@[i as int] => x.items@[i as int].value));
                    }
                    x.items[i].key.emit_to(out);
                    x.items[i].value.emit_to(out);
                    i = i + 1;
                }
                out.push(101);
            },
        }
    }

    /// A copy of the object: one that is like it, and that is written as
    /// the same bytes.
    pub fn duplicate(&self) -> (r: Self)
        ensures
            alike(*self, r),
            bytes_of(r) == bytes_of(*self),
        decreases self,
    {
        match self {
            Inspectable::Int(x) => Inspectable::Int(x.clone()),
            Inspectable::String(x) => Inspectable::String(x.clone()),
            Inspectable::Raw(x) => Inspectable::Raw(x.clone()),
            Inspectable::Dict(x) => {
                let mut items: Vec<InDictEntry> = Vec::new();
                let mut i: usize = 0;
                while i < x.items.len()
                    invariant
                        i <= x.items.len(),
                        self == Inspectable::Dict(*x),
                        items@.len() == i,
                        forall|k: int|
                            0 <= k < i ==> bytes_of((#[trigger] items@[k]).key) == bytes_of(
                                x.items@[k].key,
                            ) && bytes_of(items@[k].value) == bytes_of(x.items@[k].value),
                        forall|k: int|
                            0 <= k < i ==> alike((#[trigger] x.items@[k]).key, items@[k].key)
                                && alike(x.items@[k].value, items@[k].value),
                    decreases x.items.len() - i,
                {
                    let entry = &x.items[i];
                    proof {
                        assert(decreases_to!(*self => self->Dict_0));
                        assert(decreases_to!(*x => x.items));
                        assert(decreases_to!(x.items => x.items@));
                        assert(decreases_to!(x.items@ => x.items@[i as int]));
                        assert(decreases_to!(x.items@[i as int] => x.items@[i as int].key));
                        assert(decreases_to!(x.items@[i as int] => x.items@[i as int].value));
                    }
                    items.push(
                        InDictEntry { key: entry.key.duplicate(), value: entry.value.duplicate() },
                    );
                    i = i + 1;
                }
                proof {
                    same_entries_bytes(items@, x.items@, i as int);
                }
                Inspectable::Dict(InDict { items })
            },
            Inspectable::List(x) => {
                let mut items: Vec<Inspectable> = Vec::new();
                let mut i: usize = 0;
                while i < x.items.len()
                    invariant
                        i <= x.items.len(),
                        self == Inspectable::List(*x),
                        items@.len() == i,
                        forall|k: int|
                            0 <= k < i ==> bytes_of(#[trigger] items@[k]) == bytes_of(x.items@[k]),
                        forall|k: int| 0 <= k < i ==> alike(#[trigger] x.items@[k], items@[k]),
                    decreases x.items.len() - i,
                {
                    proof {
                        assert(decreases_to!(*self => self->List_0));
                        assert(decreases_to!(*x => x.items));
                        assert(decreases_to!(x.items => x.items@));
                        assert(decreases_to!(x.items@ => x.items@[i as int]));
                    }
                    items.push(x.items[i].duplicate());
                    i = i + 1;
                }
                proof {
                    same_items_bytes(items@, x.items@, i as int);
                }
                Inspectable::List(InList { items })
            },
        }
    }

    /// Bytes that are written as they are.
    pub fn new_raw(buf: &[u8]) -> (r: Inspectable)
        ensures
            r matches Inspectable::Raw(bytes) && bytes@ == buf@,
    {
        Inspectable::Raw(vstd::slice::slice_to_vec(buf))
    }

    /// A byte string with the content `buf`.
    pub fn new_string(buf: &[u8]) -> (r: Inspectable)
        ensures
            r matches Inspectable::String(string) && string.bytes@ == buf@ && string.fake_length
                is None,
    {
        Inspectable::String(InString::new(buf))
    }

    /// An empty dictionary.
    pub fn new_dict() -> (r: Inspectable)
        ensures
            r matches Inspectable::Dict(dict) && dict.items@.len() == 0,
    {
        Inspectable::Dict(InDict::new())
    }

    /// An empty list.
    pub fn new_list() -> (r: Inspectable)
        ensures
            r matches Inspectable::List(list) && list.items@.len() == 0,
    {
        Inspectable::List(InList::new())
    }
}

impl InInt {
    /// The integer that is written as `buf`.
    pub fn new(buf: &str) -> (r: Self)
        ensures
            r.bytes@ == buf@,
    {
        InInt { bytes: buf.to_owned() }
    }
}

impl InInt {
    /// The integer as an `i64`.
    pub fn as_i64(&self) -> (r: i64)
        requires
            crate::text::numeral_value(
                encode_utf8(self.bytes@),
                true,
                i64::MIN as int,
                i64::MAX as int,
            ) is Ok,
        ensures
            crate::text::numeral_value(
                encode_utf8(self.bytes@),
                true,
                i64::MIN as int,
                i64::MAX as int,
            ) == Ok::<int, crate::text::NumeralError>(r as int),
    {
        match crate::text::parse_i64(self.bytes.as_str()) {
            Ok(number) => number,
            Err(_) => vstd::pervasive::unreached(),
        }
    }
}

impl InString {
    /// The length that is written for the byte string: its fake length,
    /// or else the length of its content.
    pub fn len(&self) -> (r: usize)
        ensures
            r == self.written_len(),
    {
        match self.fake_length {
            Some(length) => length,
            None => self.bytes.len(),
        }
    }

    /// Whether the length that is written is 0.
    pub fn is_empty(&self) -> (r: bool)
        ensures
            r == (self.written_len() == 0),
    {
        self.len() == 0
    }

    /// The content of the byte string.
    pub fn content(&self) -> (r: &[u8])
        ensures
            r@ == self.bytes@,
    {
        self.bytes.as_slice()
    }

    /// The byte string with the content `buf`.
    pub fn new(buf: &[u8]) -> (r: InString)
        ensures
            r.bytes@ == buf@,
            r.fake_length is None,
    {
        InString { bytes: vstd::slice::slice_to_vec(buf), fake_length: None }
    }
}

impl InList {
    /// The empty list.
    pub fn new() -> (r: Self)
        ensures
            r.items@.len() == 0,
    {
        InList { items: Vec::new() }
    }
}

impl InDict {
    /// The empty dictionary.
    pub fn new() -> (r: Self)
        ensures
            r.items@.len() == 0,
    {
        InDict { items: Vec::new() }
    }
}

impl InDictEntry {
    /// The entry of `key` and `value`.
    pub fn new(key: Inspectable, value: Inspectable) -> (r: Self)
        ensures
            r.key == key,
            r.value == value,
    {
        InDictEntry { key, value }
    }
}

} // verus!
