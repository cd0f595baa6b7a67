use std::ops::{
    Bound, Range, RangeBounds, RangeFrom, RangeFull, RangeInclusive, RangeTo, RangeToInclusive,
};

use vstd::prelude::*;

use crate::inspect::path::{follow, follow_alike, PathBuilder};
use crate::inspect::{
    alike, int_text, InDict, InDictEntry, InInt, InList, InString, Inspectable,
};
use crate::text::{bytes_lt, lex_lt, push_decimal};

verus! {

/// A range of all indices from one on.
#[verifier::external_type_specification]
#[verifier::reject_recursive_types(Idx)]
pub struct ExRangeFrom<Idx>(std::ops::RangeFrom<Idx>);

/// A range of all indices before one.
#[verifier::external_type_specification]
#[verifier::reject_recursive_types(Idx)]
pub struct ExRangeTo<Idx>(std::ops::RangeTo<Idx>);

/// A range of all indices up to one.
#[verifier::external_type_specification]
#[verifier::reject_recursive_types(Idx)]
pub struct ExRangeToInclusive<Idx>(std::ops::RangeToInclusive<Idx>);

/// The range of all indices.
#[verifier::external_type_specification]
pub struct ExRangeFull(std::ops::RangeFull);

/// The first index of an inclusive range.
pub assume_specification<Idx>[ RangeInclusive::<Idx>::start ](range: &RangeInclusive<Idx>) -> (r:
    &Idx)
    ensures
        *r == range@.start,
;

/// The last index of an inclusive range.
pub assume_specification<Idx>[ RangeInclusive::<Idx>::end ](range: &RangeInclusive<Idx>) -> (r:
    &Idx)
    ensures
        *r == range@.end,
;

/// A range of indices into the content of a byte string.
pub trait ByteRange {
    /// The first index of the range.
    spec fn first(&self) -> int;

    /// The index behind the last one of the range, in a content of
    /// `max_end` bytes.
    spec fn behind(&self, max_end: usize) -> int;

    /// The first index of the range, and the index behind its last one.
    fn limits(&self, max_end: usize) -> (r: (usize, usize))
        requires
            self.first() < self.behind(max_end) <= usize::MAX,
        ensures
            r.0 == self.first(),
            r.1 == self.behind(max_end),
    ;
}

impl ByteRange for Range<usize> {
    open spec fn first(&self) -> int {
        self.start as int
    }

    open spec fn behind(&self, max_end: usize) -> int {
        self.end as int
    }

    fn limits(&self, max_end: usize) -> (r: (usize, usize)) {
        (self.start, self.end)
    }
}

/// Whether `RangeBounds::end_bound` of an inclusive range with these
/// parts leaves the last index out.
pub uninterp spec fn end_is_left_out(start: usize, end: usize, exhausted: bool) -> bool;

/// Whether `RangeBounds::end_bound` of the inclusive range is a bound
/// that leaves the last index out. Nothing is proved of it here: it is
/// only given its name.
#[verifier::external_body]
fn leaves_out_end(range: &RangeInclusive<usize>) -> (r: bool)
    ensures
        (r == end_is_left_out(range@.start, range@.end, range@.exhausted)),
{
    matches!(range.end_bound(), Bound::Excluded(_))
}

impl ByteRange for RangeInclusive<usize> {
    open spec fn first(&self) -> int {
        self@.start as int
    }

    open spec fn behind(&self, max_end: usize) -> int {
        if end_is_left_out(self@.start, self@.end, self@.exhausted) {
            self@.end as int
        } else {
            self@.end + 1
        }
    }

    fn limits(&self, max_end: usize) -> (r: (usize, usize)) {
        if leaves_out_end(self) {
            (*self.start(), *self.end())
        } else {
            (*self.start(), *self.end() + 1)
        }
    }
}

impl ByteRange for RangeFrom<usize> {
    open spec fn first(&self) -> int {
        self.start as int
    }

    open spec fn behind(&self, max_end: usize) -> int {
        max_end as int
    }

    fn limits(&self, max_end: usize) -> (r: (usize, usize)) {
        (self.start, max_end)
    }
}

impl ByteRange for RangeTo<usize> {
    open spec fn first(&self) -> int {
        0
    }

    open spec fn behind(&self, max_end: usize) -> int {
        self.end as int
    }

    fn limits(&self, max_end: usize) -> (r: (usize, usize)) {
        (0, self.end)
    }
}

impl ByteRange for RangeToInclusive<usize> {
    open spec fn first(&self) -> int {
        0
    }

    open spec fn behind(&self, max_end: usize) -> int {
        self.end + 1
    }

    fn limits(&self, max_end: usize) -> (r: (usize, usize)) {
        (0, self.end + 1)
    }
}

impl ByteRange for RangeFull {
    open spec fn first(&self) -> int {
        0
    }

    open spec fn behind(&self, max_end: usize) -> int {
        max_end as int
    }

    fn limits(&self, max_end: usize) -> (r: (usize, usize)) {
        (0, max_end)
    }
}

/// The first index of `range` and the index behind its last one: the range
/// is not empty.
fn normalize_range<R: ByteRange>(range: R, max_end: usize) -> (r: (usize, usize))
    requires
        range.first() < range.behind(max_end) <= usize::MAX,
    ensures
        r.0 == range.first(),
        r.1 == range.behind(max_end),
        r.0 < r.1,
{
    range.limits(max_end)
}

/// Every entry of `items` has a byte string as its key.
pub open spec fn keys_are_strings(items: Seq<InDictEntry>) -> bool {
    forall|i: int| 0 <= i < items.len() ==> (#[trigger] items[i]).key is String
}

/// The key of an entry whose key is a byte string.
pub open spec fn key_of(entry: InDictEntry) -> Seq<u8> {
    entry.key->String_0.bytes@
}

/// No entry of `items` stands behind one whose key comes after its own.
pub open spec fn sorted_by_key(items: Seq<InDictEntry>) -> bool {
    forall|i: int, j: int|
        0 <= i < j < items.len() ==> !lex_lt(key_of(#[trigger] items[j]), key_of(#[trigger] items[i]))
}

impl Inspectable {
    /// Puts `other` in the place of the object.
    pub fn replace(&mut self, other: Inspectable)
        ensures
            *final(self) == other,
    {
        *self = other;
    }

    /// Hands the object to which the way leads to `f`, to change it.
    pub fn mutate<F>(&mut self, path: &PathBuilder, f: F) where F: FnOnce(&mut Inspectable)
        requires
            follow(*old(self), path@, 0) matches Ok(Some(found)) && forall|
                object: &mut Inspectable,
            |
                *object == found ==> #[trigger] f.requires((object,)),
        ensures
            exists|object: &mut Inspectable|
                follow(*old(self), path@, 0) == Ok::<Option<Inspectable>, ()>(Some(*object))
                    && #[trigger] f.ensures((object,), ()),
    {
        self.find(path).apply(f)
    }

    /// A copy of the object in which `f` has changed the object to which
    /// the way leads.
    pub fn clone_and_mutate<F>(&self, path: &PathBuilder, f: F) -> (r: Inspectable) where
        F: FnOnce(&mut Inspectable),

        requires
            follow(*self, path@, 0) matches Ok(Some(found)) && forall|object: &mut Inspectable|
                alike(found, *object) ==> #[trigger] f.requires((object,)),
        ensures
            exists|object: &mut Inspectable|
                follow(*self, path@, 0) matches Ok(Some(found)) && alike(found, *object)
                    && #[trigger] f.ensures((object,), ()),
    {
        let mut c = self.duplicate();
        proof {
            follow_alike(*self, c, path@, 0);
        }
        c.mutate(path, f);
        c
    }

    /// Hands the object to `f`, to change it.
    pub fn apply<F>(&mut self, f: F) where F: FnOnce(&mut Inspectable)
        requires
            forall|object: &mut Inspectable| *object == *old(self) ==> #[trigger] f.requires(
                (object,),
            ),
        ensures
            exists|object: &mut Inspectable|
                *object == *old(self) && *final(object) == *final(self) && #[trigger] f.ensures(
                    (object,),
                    (),
                ),
    {
        let ghost before = *self;
        f(self);
        proof {
            assert(exists|object: &mut Inspectable|
                *object == before && *final(object) == *self && #[trigger] f.ensures(
                    (object,),
                    (),
                ));
        }
    }

    /// Takes the item or the entry at `idx` out of a list or a dictionary.
    pub fn remove_nth(&mut self, idx: usize)
        requires
            match *old(self) {
                Inspectable::Dict(x) => idx < x.items@.len(),
                Inspectable::List(x) => idx < x.items@.len(),
                _ => false,
            },
        ensures
            match *old(self) {
                Inspectable::Dict(x) => *final(self) matches Inspectable::Dict(y) && y.items@
                    == x.items@.remove(idx as int),
                Inspectable::List(x) => *final(self) matches Inspectable::List(y) && y.items@
                    == x.items@.remove(idx as int),
                _ => false,
            },
    {
        match self {
            Inspectable::Dict(x) => x.remove_nth(idx),
            Inspectable::List(x) => x.remove_nth(idx),
            _ => vstd::pervasive::unreached(),
        }
    }

    /// Cuts a byte string down to the first half of its content.
    pub fn truncate(&mut self)
        requires
            *old(self) is String,
        ensures
            *final(self) matches Inspectable::String(x) && x.fake_length == old(
                self,
            )->String_0.fake_length && x.bytes@ == old(self)->String_0.bytes@.take(
                (old(self)->String_0.bytes@.len() / 2) as int,
            ),
    {
        match self {
            Inspectable::String(instring) => instring.truncate(),
            _ => vstd::pervasive::unreached(),
        }
    }

    /// Puts `byte` at every index of `range` in the content of a byte
    /// string.
    pub fn set_content_byterange<R: ByteRange>(&mut self, range: R, byte: u8)
        requires
            *old(self) is String,
            0 <= range.first() < range.behind(old(self)->String_0.bytes@.len() as usize) <= old(self)->String_0.bytes@.len(),
        ensures
            *final(self) matches Inspectable::String(x) && x.fake_length == old(self)->String_0.fake_length && x.bytes@ == filled(
                old(self)->String_0.bytes@,
                range.first(),
                range.behind(old(self)->String_0.bytes@.len() as usize),
                byte,
            ),
    {
        match self {
            Inspectable::String(instring) => instring.set_content_byterange(range, byte),
            _ => vstd::pervasive::unreached(),
        }
    }

    /// Empties the object: a byte string, raw bytes, a list or a dictionary
    /// lose their content, and an integer becomes 0.
    pub fn clear_content(&mut self)
        ensures
            match *old(self) {
                Inspectable::String(x) => *final(self) matches Inspectable::String(y)
                    && y.bytes@.len() == 0 && y.fake_length == x.fake_length,
                Inspectable::Int(_) => *final(self) matches Inspectable::Int(y) && y.bytes@
                    == int_text(0),
                Inspectable::Raw(_) => *final(self) matches Inspectable::Raw(y) && y@.len() == 0,
                Inspectable::Dict(_) => *final(self) matches Inspectable::Dict(y) && y.items@.len()
                    == 0,
                Inspectable::List(_) => *final(self) matches Inspectable::List(y) && y.items@.len()
                    == 0,
            },
    {
        match self {
            Inspectable::String(x) => x.clear_content(),
            Inspectable::Int(x) => x.clear_content(),
            Inspectable::Raw(x) => x.clear(),
            Inspectable::Dict(x) => x.clear_content(),
            Inspectable::List(x) => x.clear_content(),
        }
    }

    /// Takes every entry with the key `dict_key` out of a dictionary.
    pub fn remove_entry(&mut self, dict_key: &[u8])
        requires
            *old(self) is Dict,
            keys_are_strings(old(self)->Dict_0.items@),
        ensures
            *final(self) matches Inspectable::Dict(x) && x.items@ == old(self)->Dict_0.items@.filter(|entry: InDictEntry| key_of(entry) != dict_key@),
    {
        match self {
            Inspectable::Dict(x) => x.remove_entry(dict_key),
            _ => vstd::pervasive::unreached(),
        }
    }
}

/// `bytes` with `byte` at every index from `first` up to `behind`.
pub open spec fn filled(bytes: Seq<u8>, first: int, behind: int, byte: u8) -> Seq<u8> {
    Seq::new(
        bytes.len(),
        |i: int|
            if first <= i < behind {
                byte
            } else {
                bytes[i]
            },
    )
}

impl InInt {
    /// Makes the integer `value`.
    pub fn set(&mut self, value: i64)
        ensures
            final(self).bytes@ == int_text(value as int),
    {
        let mut text = String::new();
        if value < 0 {
            proof {
                reveal_strlit("-");
                assert("-"@ =~= seq!['-']);
            }
            text.append("-");
            push_decimal(&mut text, (-(value as i128)) as u128);
        } else {
            push_decimal(&mut text, value as u128);
        }
        self.bytes = text;
    }

    /// Makes the integer 0.
    pub fn clear_content(&mut self)
        ensures
            final(self).bytes@ == int_text(0),
    {
        self.set(0);
    }
}

impl InDict {
    /// Takes all entries out.
    pub fn clear_content(&mut self)
        ensures
            final(self).items@.len() == 0,
    {
        self.items.clear();
    }

    /// Takes the entry at `idx` out.
    pub fn remove_nth(&mut self, idx: usize)
        requires
            idx < old(self).items@.len(),
        ensures
            final(self).items@ == old(self).items@.remove(idx as int),
    {
        self.items.remove(idx);
    }

    /// Takes every entry with the key `dict_key` out.
    pub fn remove_entry(&mut self, dict_key: &[u8])
        requires
            keys_are_strings(old(self).items@),
        ensures
            final(self).items@ == old(self).items@.filter(
                |entry: InDictEntry| key_of(entry) != dict_key@,
            ),
    {
        let ghost all = self.items@;
        let ghost keep = |entry: InDictEntry| key_of(entry) != dict_key@;
        let mut kept: Vec<InDictEntry> = Vec::new();
        let mut i: usize = self.items.len();
        proof {
            assert(all.skip(i as int) =~= Seq::<InDictEntry>::empty());
            lemma_filter_empty(keep);
        }
        // The entries are taken from the end, and put back in their order
        while i > 0
            invariant
                i == self.items@.len(),
                i <= all.len(),
                self.items@ == all.take(i as int),
                keys_are_strings(all),
                keep == |entry: InDictEntry| key_of(entry) != dict_key@,
                kept@.reverse() == all.skip(i as int).filter(keep),
            decreases i,
        {
            i = i - 1;
            let entry = self.items.pop().unwrap();
            proof {
                assert(entry == all[i as int]);
                assert(all[i as int].key is String);
                assert(all.skip(i as int) =~= seq![entry] + all.skip(i + 1));
                lemma_filter_first(entry, all.skip(i + 1), keep);
                assert(self.items@ =~= all.take(i as int));
            }
            let same = same_bytes(entry.key.string_ref().content(), dict_key);
            if !same {
                proof {
                    assert(kept@.push(entry).reverse() =~= seq![entry] + kept@.reverse());
                }
                kept.push(entry);
            }
        }
        proof {
            assert(all.skip(0) =~= all);
        }
        let ghost target = all.filter(keep);
        while kept.len() > 0
            invariant
                self.items@ + kept@.reverse() == target,
            decreases kept.len(),
        {
            let ghost before = kept@;
            let entry = kept.pop().unwrap();
            proof {
                assert(before.reverse() =~= seq![entry] + kept@.reverse());
                assert(self.items@.push(entry) + kept@.reverse() =~= self.items@
                    + before.reverse());
            }
            self.items.push(entry);
        }
        proof {
            assert(kept@.reverse() =~= Seq::<InDictEntry>::empty());
            assert(self.items@ + kept@.reverse() =~= self.items@);
        }
    }

    /// Puts the entries in the order of their keys.
    pub fn sort(&mut self)
        requires
            keys_are_strings(old(self).items@),
        ensures
            sorted_by_key(final(self).items@),
            final(self).items@.to_multiset() == old(self).items@.to_multiset(),
            keys_are_strings(final(self).items@),
    {
        broadcast use vstd::seq_lib::group_to_multiset_ensures;

        let ghost all = self.items@.to_multiset();
        let mut sorted: Vec<InDictEntry> = Vec::new();
        while self.items.len() > 0
            invariant
                keys_are_strings(self.items@),
                keys_are_strings(sorted@),
                sorted_by_key(sorted@),
                sorted@.to_multiset().add(self.items@.to_multiset()) == all,
            decreases self.items.len(),
        {
            let ghost rest = self.items@;
            let ghost done = sorted@;
            let entry = self.items.pop().unwrap();
            proof {
                assert(rest =~= self.items@.push(entry));
                assert(entry.key is String) by {
                    assert(rest[rest.len() - 1] == entry);
                }
                assert forall|i: int| 0 <= i < self.items@.len() implies (
                #[trigger] self.items@[i]).key is String by {
                    assert(self.items@[i] == rest[i]);
                }
            }
            let mut at: usize = 0;
            while at < sorted.len() && !bytes_lt(
                entry.key.string_ref().content(),
                sorted[at].key.string_ref().content(),
            )
                invariant
                    at <= sorted.len(),
                    entry.key is String,
                    keys_are_strings(sorted@),
                    forall|i: int| 0 <= i < at ==> !lex_lt(key_of(entry), key_of(#[trigger] sorted@[i])),
                decreases sorted.len() - at,
            {
                at = at + 1;
            }
            sorted.insert(at, entry);
            proof {
                assert(sorted@ =~= done.insert(at as int, entry));
                self.items@.to_multiset_ensures();
                assert(rest.to_multiset() =~= self.items@.to_multiset().insert(entry));
                lemma_insert_to_multiset(done, at as int, entry);
                assert(sorted@.to_multiset().add(self.items@.to_multiset()) =~= done.to_multiset().add(
                    rest.to_multiset(),
                ));
                assert forall|i: int, j: int| 0 <= i < j < sorted@.len() implies !lex_lt(
                    key_of(#[trigger] sorted@[j]),
                    key_of(#[trigger] sorted@[i]),
                ) by {
                    if i == at {
                        crate::text::lex_lt_is_total(key_of(entry), key_of(done[at as int]));
                        crate::text::lex_lt_is_strict(key_of(entry), key_of(done[at as int]));
                        if j - 1 > at {
                            assert(!lex_lt(key_of(done[j - 1]), key_of(done[at as int])));
                            if lex_lt(key_of(done[j - 1]), key_of(entry)) {
                                if key_of(entry) == key_of(done[at as int]) {
                                } else {
                                    crate::text::lex_lt_is_transitive(
                                        key_of(done[j - 1]),
                                        key_of(entry),
                                        key_of(done[at as int]),
                                    );
                                }
                            }
                        } else {
                            crate::text::lex_lt_is_strict(key_of(done[at as int]), key_of(entry));
                        }
                    } else if j == at {
                    } else {
                        let a = if i < at {
                            i
                        } else {
                            i - 1
                        };
                        let b = if j < at {
                            j
                        } else {
                            j - 1
                        };
                        assert(!lex_lt(key_of(done[b]), key_of(done[a])));
                    }
                }
                assert forall|i: int| 0 <= i < sorted@.len() implies (#[trigger] sorted@[i]).key
                    is String by {
                    if i < at {
                        assert(sorted@[i] == done[i]);
                    } else if i > at {
                        assert(sorted@[i] == done[i - 1]);
                    }
                }
            }
        }
        proof {
            assert(self.items@.to_multiset() =~= vstd::multiset::Multiset::empty());
            assert(sorted@.to_multiset() =~= all);
        }
        self.items = sorted;
    }
}

/// Filtering nothing gives nothing.
proof fn lemma_filter_empty(keep: spec_fn(InDictEntry) -> bool)
    ensures
        Seq::<InDictEntry>::empty().filter(keep) == Seq::<InDictEntry>::empty(),
{
    reveal(Seq::filter);
}

/// Filtering with one entry in front.
proof fn lemma_filter_first(
    entry: InDictEntry,
    rest: Seq<InDictEntry>,
    keep: spec_fn(InDictEntry) -> bool,
)
    ensures
        (seq![entry] + rest).filter(keep) == if keep(entry) {
            seq![entry] + rest.filter(keep)
        } else {
            rest.filter(keep)
        },
{
    let one = seq![entry];
    assert(one.filter(keep) =~= if keep(entry) {
        one
    } else {
        Seq::<InDictEntry>::empty()
    }) by {
        reveal_with_fuel(Seq::filter, 2);
        assert(one.drop_last() =~= Seq::<InDictEntry>::empty());
        assert(one.last() == entry);
    }
    Seq::filter_distributes_over_add(one, rest, keep);
}

/// An entry that is put in is one more of its kind.
proof fn lemma_insert_to_multiset(items: Seq<InDictEntry>, at: int, entry: InDictEntry)
    requires
        0 <= at <= items.len(),
    ensures
        items.insert(at, entry).to_multiset() == items.to_multiset().insert(entry),
{
    broadcast use vstd::seq_lib::group_to_multiset_ensures;

    let more = items.insert(at, entry);
    assert(more.remove(at) =~= items);
    assert(more[at] == entry);
    more.to_multiset_ensures();
    assert(more.remove(at).to_multiset() =~= more.to_multiset().remove(entry));
    assert(more.to_multiset().count(entry) > 0) by {
        assert(more.contains(entry));
    }
    assert(more.to_multiset() =~= items.to_multiset().insert(entry));
}

/// Whether `a` and `b` are the same bytes.
pub(crate) fn same_bytes(a: &[u8], b: &[u8]) -> (r: bool)
    ensures
        r == (a@ == b@),
{
    if a.len() != b.len() {
        return false;
    }
    let mut i: usize = 0;
    while i < a.len()
        invariant
            i <= a.len(),
            a.len() == b.len(),
            forall|k: int| 0 <= k < i ==> a@[k] == b@[k],
        decreases a.len() - i,
    {
        if a[i] != b[i] {
            return false;
        }
        i = i + 1;
    }
    proof {
        assert(a@ =~= b@);
    }
    true
}

impl InList {
    /// Takes all items out.
    pub fn clear_content(&mut self)
        ensures
            final(self).items@.len() == 0,
    {
        self.items.clear();
    }

    /// Takes the item at `idx` out.
    pub fn remove_nth(&mut self, idx: usize)
        requires
            idx < old(self).items@.len(),
        ensures
            final(self).items@ == old(self).items@.remove(idx as int),
    {
        self.items.remove(idx);
    }
}

impl InString {
    /// Has `length` written as the length of the byte string, whatever
    /// its content is.
    pub fn set_fake_length(&mut self, length: usize)
        ensures
            final(self).fake_length == Some(length),
            final(self).bytes == old(self).bytes,
    {
        self.fake_length = Some(length);
    }

    /// Has the length of the content written again.
    pub fn clear_fake_length(&mut self)
        ensures
            final(self).fake_length is None,
            final(self).bytes == old(self).bytes,
    {
        self.fake_length = None;
    }

    /// Makes the bytes of `other` the content.
    pub fn set_content_string(&mut self, other: String)
        ensures
            final(self).bytes@ == vstd::utf8::encode_utf8(other@),
            final(self).fake_length == old(self).fake_length,
    {
        self.bytes = vstd::slice::slice_to_vec(other.as_str().as_bytes());
    }

    /// Makes `other` the content.
    pub fn set_content_vec(&mut self, other: Vec<u8>)
        ensures
            final(self).bytes == other,
            final(self).fake_length == old(self).fake_length,
    {
        self.bytes = other;
    }

    /// Cuts the content down to its first half.
    pub fn truncate(&mut self)
        ensures
            final(self).bytes@ == old(self).bytes@.take((old(self).bytes@.len() / 2) as int),
            final(self).fake_length == old(self).fake_length,
    {
        let len = self.bytes.len();
        let new_len = len / 2;
        if len <= new_len {
            self.bytes.clear();
            proof {
                assert(self.bytes@ =~= old(self).bytes@.take((old(self).bytes@.len() / 2) as int));
            }
            return ;
        }
        self.bytes.truncate(new_len);
        proof {
            assert(self.bytes@ =~= old(self).bytes@.take((old(self).bytes@.len() / 2) as int));
        }
    }

    /// Takes the content away.
    pub fn clear_content(&mut self)
        ensures
            final(self).bytes@.len() == 0,
            final(self).fake_length == old(self).fake_length,
    {
        self.bytes.clear();
    }

    /// Puts `byte` at every index of `range` in the content.
    pub fn set_content_byterange<R: ByteRange>(&mut self, range: R, byte: u8)
        requires
            0 <= range.first() < range.behind(old(self).bytes@.len() as usize) <= old(self).bytes@.len(),
        ensures
            final(self).fake_length == old(self).fake_length,
            final(self).bytes@ == filled(
                old(self).bytes@,
                range.first(),
                range.behind(old(self).bytes@.len() as usize),
                byte,
            ),
    {
        let len = self.bytes.len();
        let (start, stop) = normalize_range(range, len);
        let mut i: usize = start;
        while i < stop
            invariant
                start <= i <= stop <= len,
                len == old(self).bytes@.len(),
                self.fake_length == old(self).fake_length,
                self.bytes@ == filled(old(self).bytes@, start as int, i as int, byte),
            decreases stop - i,
        {
            self.bytes.set(i, byte);
            proof {
                assert(self.bytes@ =~= filled(old(self).bytes@, start as int, i + 1, byte));
            }
            i = i + 1;
        }
        proof {
            assert(filled(old(self).bytes@, start as int, start as int, byte) =~= old(self).bytes@);
        }
    }

    /// Makes the bytes of `other` the content.
    pub fn set_content_str(&mut self, other: &str)
        ensures
            final(self).bytes@ == vstd::utf8::encode_utf8(other@),
            final(self).fake_length == old(self).fake_length,
    {
        self.bytes = vstd::slice::slice_to_vec(other.as_bytes());
    }

    /// Makes `other` the content.
    pub fn set_content_u8(&mut self, other: &[u8])
        ensures
            final(self).bytes@ == other@,
            final(self).fake_length == old(self).fake_length,
    {
        self.bytes = vstd::slice::slice_to_vec(other);
    }
}

} // verus!
