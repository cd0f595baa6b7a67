use std::collections::{BTreeMap, HashMap, VecDeque};
use std::hash::{BuildHasher, Hash};
use std::rc::Rc;
use std::sync::Arc;

use vstd::prelude::*;
use vstd::std_specs::convert::FromSpecImpl;
use vstd::std_specs::iter::IteratorSpec;
use vstd::string::StringSliceAdditionalSpecFns;

use crate::encoding::encoder::{
    in_turn, integer_bytes, pair_keys, pairs_in_turn, Encoder, SingleItemEncoder,
};
use crate::decoding::from_bencode::keys_are_hashed;
use crate::encoding::error::Error;
use crate::encoding::printable_integer::PrintableInteger;
use crate::state_tracker::{Label, LabelFrom, Token, TokenView};

verus! {

/// An object that can be encoded into a single bencode object
pub trait ToBencode {
    /// The maximum depth that this object could encode to. Leaves do not consume a level, so an
    /// `i1e` has depth 0 and `li1ee` has depth 1.
    const MAX_DEPTH: usize;

    /// Encode this object into the bencode stream
    fn encode(&self, encoder: SingleItemEncoder) -> (r: Result<(), Error>);

    /// Encode this object to a byte string
    ///
    /// The object is told to encode itself to a new encoder with the depth
    /// `MAX_DEPTH`; what comes of it is what [`Encoder::yields`] says.
    fn to_bencode(&self) -> (r: Result<Vec<u8>, Error>)
        ensures
            exists|item: SingleItemEncoder, outcome: Result<(), Error>|
                {
                    &&& item.encoder().is_new(Self::MAX_DEPTH as nat)
                    &&& !item.value_written()
                    &&& #[trigger] call_ensures(Self::encode, (self, item), outcome)
                    &&& final(item.target()).yields(outcome, *final(item.mark()), r)
                },
    {
        let mut encoder = Encoder::new().with_max_depth(Self::MAX_DEPTH);
        let ghost new = encoder;
        let tell = |item: SingleItemEncoder| -> (outcome: Result<(), Error>)
            ensures
                call_ensures(Self::encode, (self, item), outcome),
            { self.encode(item) };
        match encoder.emit_with(tell) {
            Err(error) => return Err(error),
            Ok(()) => {},
        }
        encoder.get_output()
    }
}

/// Wrapper to allow `Vec<u8>` encoding as bencode string element.
#[derive(Clone, Copy, Debug, Default, Hash, Eq, PartialEq, PartialOrd, Ord)]
pub struct AsString<I>(pub I);

// Forwarding impls
impl<'a, E: 'a + ToBencode + Sized> ToBencode for &'a E {
    const MAX_DEPTH: usize = E::MAX_DEPTH;

    fn encode(&self, encoder: SingleItemEncoder) -> (r: Result<(), Error>)
        ensures
            call_ensures(E::encode, (*self, encoder), r),
    {
        E::encode(self, encoder)
    }
}

impl<E: ToBencode> ToBencode for Box<E> {
    const MAX_DEPTH: usize = E::MAX_DEPTH;

    fn encode(&self, encoder: SingleItemEncoder) -> (r: Result<(), Error>)
        ensures
            call_ensures(E::encode, (&**self, encoder), r),
    {
        E::encode(&**self, encoder)
    }
}

impl<E: ToBencode> ToBencode for Rc<E> {
    const MAX_DEPTH: usize = E::MAX_DEPTH;

    fn encode(&self, encoder: SingleItemEncoder) -> (r: Result<(), Error>)
        ensures
            call_ensures(E::encode, (&**self, encoder), r),
    {
        E::encode(&**self, encoder)
    }
}

impl<E: ToBencode> ToBencode for Arc<E> {
    const MAX_DEPTH: usize = E::MAX_DEPTH;

    fn encode(&self, encoder: SingleItemEncoder) -> (r: Result<(), Error>)
        ensures
            call_ensures(E::encode, (&**self, encoder), r),
    {
        E::encode(&**self, encoder)
    }
}

// Base type impls
impl<'a> ToBencode for &'a str {
    const MAX_DEPTH: usize = 0;

    fn encode(&self, encoder: SingleItemEncoder) -> (r: Result<(), Error>)
        ensures
            *final(encoder.mark()),
            encoder.encoder().emits(
                TokenView::String(self.spec_bytes()),
                *final(encoder.target()),
                r,
            ),
    {
        encoder.emit_str(self)
    }
}

impl ToBencode for String {
    const MAX_DEPTH: usize = 0;

    fn encode(&self, encoder: SingleItemEncoder) -> (r: Result<(), Error>)
        ensures
            *final(encoder.mark()),
            encoder.encoder().emits(
                TokenView::String(vstd::utf8::encode_utf8(self@)),
                *final(encoder.target()),
                r,
            ),
    {
        encoder.emit_str(self.as_str())
    }
}

impl ToBencode for u8 {
    const MAX_DEPTH: usize = 0;

    fn encode(&self, encoder: SingleItemEncoder) -> (r: Result<(), Error>)
        ensures
            *final(encoder.mark()),
            encoder.encoder().writes(
                TokenView::Num(Seq::empty()),
                integer_bytes(*self as int),
                *final(encoder.target()),
                r,
            ),
    {
        encoder.emit_int(*self)
    }
}

impl ToBencode for u16 {
    const MAX_DEPTH: usize = 0;

    fn encode(&self, encoder: SingleItemEncoder) -> (r: Result<(), Error>)
        ensures
            *final(encoder.mark()),
            encoder.encoder().writes(
                TokenView::Num(Seq::empty()),
                integer_bytes(*self as int),
                *final(encoder.target()),
                r,
            ),
    {
        encoder.emit_int(*self)
    }
}

impl ToBencode for u32 {
    const MAX_DEPTH: usize = 0;

    fn encode(&self, encoder: SingleItemEncoder) -> (r: Result<(), Error>)
        ensures
            *final(encoder.mark()),
            encoder.encoder().writes(
                TokenView::Num(Seq::empty()),
                integer_bytes(*self as int),
                *final(encoder.target()),
                r,
            ),
    {
        encoder.emit_int(*self)
    }
}

impl ToBencode for u64 {
    const MAX_DEPTH: usize = 0;

    fn encode(&self, encoder: SingleItemEncoder) -> (r: Result<(), Error>)
        ensures
            *final(encoder.mark()),
            encoder.encoder().writes(
                TokenView::Num(Seq::empty()),
                integer_bytes(*self as int),
                *final(encoder.target()),
                r,
            ),
    {
        encoder.emit_int(*self)
    }
}

impl ToBencode for u128 {
    const MAX_DEPTH: usize = 0;

    fn encode(&self, encoder: SingleItemEncoder) -> (r: Result<(), Error>)
        ensures
            *final(encoder.mark()),
            encoder.encoder().writes(
                TokenView::Num(Seq::empty()),
                integer_bytes(*self as int),
                *final(encoder.target()),
                r,
            ),
    {
        encoder.emit_int(*self)
    }
}

impl ToBencode for usize {
    const MAX_DEPTH: usize = 0;

    fn encode(&self, encoder: SingleItemEncoder) -> (r: Result<(), Error>)
        ensures
            *final(encoder.mark()),
            encoder.encoder().writes(
                TokenView::Num(Seq::empty()),
                integer_bytes(*self as int),
                *final(encoder.target()),
                r,
            ),
    {
        encoder.emit_int(*self)
    }
}

impl ToBencode for i8 {
    const MAX_DEPTH: usize = 0;

    fn encode(&self, encoder: SingleItemEncoder) -> (r: Result<(), Error>)
        ensures
            *final(encoder.mark()),
            encoder.encoder().writes(
                TokenView::Num(Seq::empty()),
                integer_bytes(*self as int),
                *final(encoder.target()),
                r,
            ),
    {
        encoder.emit_int(*self)
    }
}

impl ToBencode for i16 {
    const MAX_DEPTH: usize = 0;

    fn encode(&self, encoder: SingleItemEncoder) -> (r: Result<(), Error>)
        ensures
            *final(encoder.mark()),
            encoder.encoder().writes(
                TokenView::Num(Seq::empty()),
                integer_bytes(*self as int),
                *final(encoder.target()),
                r,
            ),
    {
        encoder.emit_int(*self)
    }
}

impl ToBencode for i32 {
    const MAX_DEPTH: usize = 0;

    fn encode(&self, encoder: SingleItemEncoder) -> (r: Result<(), Error>)
        ensures
            *final(encoder.mark()),
            encoder.encoder().writes(
                TokenView::Num(Seq::empty()),
                integer_bytes(*self as int),
                *final(encoder.target()),
                r,
            ),
    {
        encoder.emit_int(*self)
    }
}

impl ToBencode for i64 {
    const MAX_DEPTH: usize = 0;

    fn encode(&self, encoder: SingleItemEncoder) -> (r: Result<(), Error>)
        ensures
            *final(encoder.mark()),
            encoder.encoder().writes(
                TokenView::Num(Seq::empty()),
                integer_bytes(*self as int),
                *final(encoder.target()),
                r,
            ),
    {
        encoder.emit_int(*self)
    }
}

impl ToBencode for i128 {
    const MAX_DEPTH: usize = 0;

    fn encode(&self, encoder: SingleItemEncoder) -> (r: Result<(), Error>)
        ensures
            *final(encoder.mark()),
            encoder.encoder().writes(
                TokenView::Num(Seq::empty()),
                integer_bytes(*self as int),
                *final(encoder.target()),
                r,
            ),
    {
        encoder.emit_int(*self)
    }
}

impl ToBencode for isize {
    const MAX_DEPTH: usize = 0;

    fn encode(&self, encoder: SingleItemEncoder) -> (r: Result<(), Error>)
        ensures
            *final(encoder.mark()),
            encoder.encoder().writes(
                TokenView::Num(Seq::empty()),
                integer_bytes(*self as int),
                *final(encoder.target()),
                r,
            ),
    {
        encoder.emit_int(*self)
    }
}

impl<ContentT> ToBencode for Vec<ContentT> where ContentT: ToBencode {
    const MAX_DEPTH: usize = ContentT::MAX_DEPTH + 1;

    /// A list is opened, unless the encoder refuses it; the items are
    /// encoded one after the other, as [`Encoder::emit_each`] says; and
    /// the list is closed, as [`Encoder::close_container`] says.
    fn encode(&self, encoder: SingleItemEncoder) -> (r: Result<(), Error>)
        ensures
            *final(encoder.mark()),
            encoder.encoder().refuses(TokenView::List) ==> encoder.encoder().emits(
                TokenView::List,
                *final(encoder.target()),
                r,
            ),
            !encoder.encoder().refuses(TokenView::List) ==> exists|
                opened: Encoder,
                states: Seq<Encoder>,
                handed: Seq<SingleItemEncoder>,
                told: Seq<Result<(), Error>>,
                outcomes: Seq<Result<(), Error>>,
                filled: Encoder,
                outcome: Result<(), Error>,
            |
                {
                    &&& encoder.encoder().opens(TokenView::List, opened)
                    &&& #[trigger] in_turn(
                        opened,
                        states,
                        handed,
                        told,
                        outcomes,
                        self@.len(),
                        filled,
                        outcome,
                    )
                    &&& forall|i: int|
                        0 <= i < outcomes.len() ==> {
                            &&& call_ensures(
                                ContentT::encode,
                                (&self@[i], #[trigger] handed[i]),
                                told[i],
                            )
                            &&& final(handed[i].target()).finishes(
                                told[i],
                                *final(handed[i].mark()),
                                states[i + 1],
                                outcomes[i],
                            )
                        }
                    &&& filled.closes(outcome, *final(encoder.target()), r)
                },
    {
        let target = encoder.begin();
        match target.emit_token(Token::List) {
            Err(error) => return Err(error),
            Ok(()) => {},
        }
        let filled = target.emit_each(self.as_slice());
        target.close_container(filled)
    }
}

impl<ContentT> ToBencode for VecDeque<ContentT> where ContentT: ToBencode {
    const MAX_DEPTH: usize = ContentT::MAX_DEPTH + 1;

    /// A list is opened, unless the encoder refuses it; the items are
    /// encoded one after the other through references to them, as
    /// [`Encoder::emit_each`] says; and the list is closed, as
    /// [`Encoder::close_container`] says.
    fn encode(&self, encoder: SingleItemEncoder) -> (r: Result<(), Error>)
        ensures
            *final(encoder.mark()),
            encoder.encoder().refuses(TokenView::List) ==> encoder.encoder().emits(
                TokenView::List,
                *final(encoder.target()),
                r,
            ),
            !encoder.encoder().refuses(TokenView::List) ==> exists|
                opened: Encoder,
                states: Seq<Encoder>,
                handed: Seq<SingleItemEncoder>,
                told: Seq<Result<(), Error>>,
                outcomes: Seq<Result<(), Error>>,
                filled: Encoder,
                outcome: Result<(), Error>,
            |
                {
                    &&& encoder.encoder().opens(TokenView::List, opened)
                    &&& #[trigger] in_turn(
                        opened,
                        states,
                        handed,
                        told,
                        outcomes,
                        self@.len(),
                        filled,
                        outcome,
                    )
                    &&& forall|i: int|
                        0 <= i < outcomes.len() ==> {
                            &&& call_ensures(
                                <&ContentT as ToBencode>::encode,
                                (&&self@[i], #[trigger] handed[i]),
                                told[i],
                            )
                            &&& final(handed[i].target()).finishes(
                                told[i],
                                *final(handed[i].mark()),
                                states[i + 1],
                                outcomes[i],
                            )
                        }
                    &&& filled.closes(outcome, *final(encoder.target()), r)
                },
    {
        let mut items: Vec<&ContentT> = Vec::new();
        let mut n: usize = 0;
        while n < self.len()
            invariant
                n <= self.len(),
                items@.len() == n,
                forall|i: int| 0 <= i < n ==> *(#[trigger] items@[i]) == self@[i],
            decreases self.len() - n,
        {
            items.push(&self[n]);
            n = n + 1;
        }
        assert(items@.len() == self@.len());
        let target = encoder.begin();
        match target.emit_token(Token::List) {
            Err(error) => return Err(error),
            Ok(()) => {},
        }
        let filled = target.emit_each(items.as_slice());
        target.close_container(filled)
    }
}

impl<'a, ContentT> ToBencode for &'a [ContentT] where ContentT: ToBencode {
    const MAX_DEPTH: usize = ContentT::MAX_DEPTH + 1;

    /// A list is opened, unless the encoder refuses it; the items are
    /// encoded one after the other, as [`Encoder::emit_each`] says; and
    /// the list is closed, as [`Encoder::close_container`] says.
    fn encode(&self, encoder: SingleItemEncoder) -> (r: Result<(), Error>)
        ensures
            *final(encoder.mark()),
            encoder.encoder().refuses(TokenView::List) ==> encoder.encoder().emits(
                TokenView::List,
                *final(encoder.target()),
                r,
            ),
            !encoder.encoder().refuses(TokenView::List) ==> exists|
                opened: Encoder,
                states: Seq<Encoder>,
                handed: Seq<SingleItemEncoder>,
                told: Seq<Result<(), Error>>,
                outcomes: Seq<Result<(), Error>>,
                filled: Encoder,
                outcome: Result<(), Error>,
            |
                {
                    &&& encoder.encoder().opens(TokenView::List, opened)
                    &&& #[trigger] in_turn(
                        opened,
                        states,
                        handed,
                        told,
                        outcomes,
                        (*self)@.len(),
                        filled,
                        outcome,
                    )
                    &&& forall|i: int|
                        0 <= i < outcomes.len() ==> {
                            &&& call_ensures(
                                ContentT::encode,
                                (&(*self)@[i], #[trigger] handed[i]),
                                told[i],
                            )
                            &&& final(handed[i].target()).finishes(
                                told[i],
                                *final(handed[i].mark()),
                                states[i + 1],
                                outcomes[i],
                            )
                        }
                    &&& filled.closes(outcome, *final(encoder.target()), r)
                },
    {
        let target = encoder.begin();
        match target.emit_token(Token::List) {
            Err(error) => return Err(error),
            Ok(()) => {},
        }
        let filled = target.emit_each(*self);
        target.close_container(filled)
    }
}

/// The pairs are the entries of `map`, each of them once, with the bytes
/// of their keys in place of the keys.
pub open spec fn lists<K: Label, V>(map: Map<K, V>, pairs: Seq<(&[u8], &V)>) -> bool {
    exists|entries: Seq<(&K, &V)>| #[trigger] listed(map, entries, pairs)
}

/// The entries are those of `map`, each of them once, and the pairs are
/// the entries with the bytes of their keys in place of the keys.
pub open spec fn listed<K: Label, V>(
    map: Map<K, V>,
    entries: Seq<(&K, &V)>,
    pairs: Seq<(&[u8], &V)>,
) -> bool {
    &&& entries.len() == map.dom().len()
    &&& pairs.len() == entries.len()
    &&& forall|i: int|
        0 <= i < entries.len() ==> map.contains_key(*(#[trigger] entries[i]).0) && map[*entries[i].0]
            == *entries[i].1
    &&& forall|i: int, j: int|
        0 <= i < j < entries.len() ==> *(#[trigger] entries[i]).0 != *(#[trigger] entries[j]).0
    &&& forall|i: int|
        0 <= i < pairs.len() ==> (#[trigger] pairs[i]).0@ == entries[i].0.label() && *pairs[i].1
            == *entries[i].1
}

/// No key of the pairs comes before one that stands before it.
pub open spec fn in_order<V>(pairs: Seq<(&[u8], &V)>) -> bool {
    forall|i: int, j: int|
        0 <= i < j < pairs.len() ==> !crate::text::lex_lt(
            #[trigger] pairs[j].0@,
            #[trigger] pairs[i].0@,
        )
}

/// The keys of an ordered map are ordered as the map needs it: only then
/// is it known what the map hands out.
pub open spec fn keys_keep_order<K>() -> bool {
    vstd::std_specs::btree::key_obeys_cmp_spec::<K>()
}

/// The first `count` items that the iterator hands out, or all of them
/// where it hands out fewer.
fn first_of<I, T>(iter: I, count: usize) -> (items: Vec<T>) where I: Iterator<Item = T>
    ensures
        iter.obeys_prophetic_iter_laws() ==> {
            &&& items@.len() <= count
            &&& items@.is_prefix_of(iter.remaining())
            &&& items@.len() == count || items@ == iter.remaining()
        },
{
    let ghost all = iter.remaining();
    let ghost lawful = iter.obeys_prophetic_iter_laws();
    let mut rest = iter;
    let mut items: Vec<T> = Vec::new();
    let mut n: usize = 0;
    while n < count
        invariant
            n <= count,
            items@.len() <= n,
            rest.obeys_prophetic_iter_laws() == lawful,
            lawful ==> items@ + rest.remaining() == all,
            lawful ==> items@.len() == n || rest.remaining().len() == 0,
        decreases count - n,
    {
        let ghost before = rest.remaining();
        match rest.next() {
            Some(item) => {
                items.push(item);
                assert(lawful ==> items@ + rest.remaining() =~= all);
            },
            None => {},
        }
        n = n + 1;
    }
    assert(lawful && rest.remaining().len() == 0 ==> items@ =~= all);
    items
}

/// The entries with the bytes of their keys in place of the keys.
fn labelled<'a, K: Label, V>(entries: &Vec<(&'a K, &'a V)>) -> (pairs: Vec<(&'a [u8], &'a V)>)
    ensures
        pairs@.len() == entries@.len(),
        forall|i: int|
            0 <= i < pairs@.len() ==> (#[trigger] pairs@[i]).0@ == entries@[i].0.label()
                && pairs@[i].1 == entries@[i].1,
{
    let mut pairs: Vec<(&'a [u8], &'a V)> = Vec::new();
    let mut n: usize = 0;
    while n < entries.len()
        invariant
            n <= entries.len(),
            pairs@.len() == n,
            forall|i: int|
                0 <= i < n ==> (#[trigger] pairs@[i]).0@ == entries@[i].0.label() && pairs@[i].1
                    == entries@[i].1,
        decreases entries.len() - n,
    {
        pairs.push((entries[n].0.bytes(), entries[n].1));
        n = n + 1;
    }
    pairs
}

/// What a map hands out, where it hands out each of its entries once, has
/// no key twice.
proof fn handed_out_once<K, V>(map: Map<K, V>, entries: Seq<(&K, &V)>)
    requires
        entries.no_duplicates(),
        forall|i: int|
            0 <= i < entries.len() ==> map.contains_key(*(#[trigger] entries[i]).0) && map[*entries[i].0]
                == *entries[i].1,
    ensures
        forall|i: int, j: int|
            0 <= i < j < entries.len() ==> *(#[trigger] entries[i]).0 != *(#[trigger] entries[j]).0,
{
    assert forall|i: int, j: int| 0 <= i < j < entries.len() implies *(#[trigger] entries[i]).0
        != *(#[trigger] entries[j]).0 by {
        if *entries[i].0 == *entries[j].0 {
            assert(*entries[i].1 == *entries[j].1);
            assert(entries[i] == entries[j]);
        }
    }
}

impl<K: Label, V: ToBencode> ToBencode for BTreeMap<K, V> {
    const MAX_DEPTH: usize = V::MAX_DEPTH + 1;

    /// A dictionary is opened, unless the encoder refuses it; what the map
    /// hands out is written pair by pair, as [`Encoder::emit_pairs`] says;
    /// and the dictionary is closed, as [`Encoder::close_container`] says.
    /// Where the keys are ordered as the map needs it, what it hands out
    /// are its entries, each of them once.
    fn encode(&self, encoder: SingleItemEncoder) -> (r: Result<(), Error>)
        ensures
            *final(encoder.mark()),
            encoder.encoder().refuses(TokenView::Dict) ==> encoder.encoder().emits(
                TokenView::Dict,
                *final(encoder.target()),
                r,
            ),
            !encoder.encoder().refuses(TokenView::Dict) ==> exists|
                pairs: Seq<(&[u8], &V)>,
                opened: Encoder,
                states: Seq<Encoder>,
                named: Seq<Result<(), Error>>,
                keyed: Seq<Encoder>,
                handed: Seq<SingleItemEncoder>,
                told: Seq<Result<(), Error>>,
                outcomes: Seq<Result<(), Error>>,
                filled: Encoder,
                outcome: Result<(), Error>,
            |
                {
                    &&& keys_keep_order::<K>() ==> lists(self@, pairs)
                    &&& encoder.encoder().opens(TokenView::Dict, opened)
                    &&& #[trigger] pairs_in_turn(
                        opened,
                        pair_keys(pairs),
                        states,
                        named,
                        keyed,
                        handed,
                        told,
                        outcomes,
                        filled,
                        outcome,
                    )
                    &&& forall|i: int|
                        0 <= i < outcomes.len() && named[i] is Ok ==> {
                            &&& call_ensures(V::encode, (pairs[i].1, #[trigger] handed[i]), told[i])
                            &&& final(handed[i].target()).finishes(
                                told[i],
                                *final(handed[i].mark()),
                                states[i + 1],
                                outcomes[i],
                            )
                        }
                    &&& filled.closes(outcome, *final(encoder.target()), r)
                },
    {
        let entries = first_of(self.iter(), self.len());
        let pairs = labelled(&entries);
        proof {
            broadcast use vstd::std_specs::btree::group_btree_axioms;

            if keys_keep_order::<K>() {
                assert(entries@ == self.iter().remaining());
                handed_out_once(self@, entries@);
            }
            assert(keys_keep_order::<K>() ==> listed(self@, entries@, pairs@));
        }
        let target = encoder.begin();
        match target.emit_token(Token::Dict) {
            Err(error) => return Err(error),
            Ok(()) => {},
        }
        let filled = target.emit_pairs(pairs.as_slice());
        target.close_container(filled)
    }
}

/// Sorts the pairs by their keys with `sort_by_key` of the slice: the pairs
/// are the same, and no key comes before a key that stands before it. The
/// order of byte strings is the lexicographic one.
#[verifier::external_body]
fn sort_pairs<'a, V>(pairs: &mut Vec<(&'a [u8], &'a V)>)
    ensures
        final(pairs)@.to_multiset() == old(pairs)@.to_multiset(),
        in_order(final(pairs)@),
{
    pairs.sort_by_key(|&(k, _)| k);
}

/// The pairs are the entries, each with the bytes of its key before it.
pub open spec fn tagged<K: Label, V>(
    entries: Seq<(&K, &V)>,
    pairs: Seq<(&[u8], &(&K, &V))>,
) -> bool {
    &&& pairs.len() == entries.len()
    &&& forall|i: int|
        0 <= i < pairs.len() ==> (#[trigger] pairs[i]).0@ == entries[i].0.label() && *pairs[i].1
            == entries[i]
}

/// The entries that the pairs hold, in the order of the pairs.
pub open spec fn untagged<'a, K, V>(pairs: Seq<(&'a [u8], &'a (&'a K, &'a V))>) -> Seq<
    (&'a K, &'a V),
> {
    pairs.map_values(|pair: (&'a [u8], &'a (&'a K, &'a V))| *pair.1)
}

/// Entries of a map that are listed once each are so in any order.
proof fn sorted_entries_are_listed<K: Label, V>(
    map: Map<K, V>,
    entries: Seq<(&K, &V)>,
    before: Seq<(&[u8], &(&K, &V))>,
    after: Seq<(&[u8], &(&K, &V))>,
)
    requires
        tagged(entries, before),
        before.to_multiset() == after.to_multiset(),
        entries.len() == map.dom().len(),
        forall|i: int|
            0 <= i < entries.len() ==> map.contains_key(*(#[trigger] entries[i]).0) && map[*entries[i].0]
                == *entries[i].1,
        forall|i: int, j: int|
            0 <= i < j < entries.len() ==> *(#[trigger] entries[i]).0 != *(#[trigger] entries[j]).0,
    ensures
        tagged(untagged(after), after),
        untagged(after).len() == map.dom().len(),
        forall|i: int|
            0 <= i < after.len() ==> map.contains_key(*(#[trigger] untagged(after)[i]).0)
                && map[*untagged(after)[i].0] == *untagged(after)[i].1,
        forall|i: int, j: int|
            0 <= i < j < after.len() ==> *(#[trigger] untagged(after)[i]).0 != *(
            #[trigger] untagged(after)[j]).0,
{
    before.to_multiset_ensures();
    after.to_multiset_ensures();
    assert forall|i: int, j: int| 0 <= i < before.len() && 0 <= j < before.len() && i
        != j implies before[i] != before[j] by {
        if before[i] == before[j] {
            assert(*before[i].1 == entries[i]);
            assert(*before[j].1 == entries[j]);
            if i < j {
                assert(*entries[i].0 != *entries[j].0);
            } else {
                assert(*entries[j].0 != *entries[i].0);
            }
        }
    }
    assert(before.no_duplicates());
    before.lemma_multiset_has_no_duplicates();
    after.lemma_multiset_has_no_duplicates_conv();
    assert forall|i: int| 0 <= i < after.len() implies (#[trigger] after[i]).0@ == after[i].1.0.label()
        && map.contains_key(*after[i].1.0) && map[*after[i].1.0] == *after[i].1.1 by {
        assert(after.contains(after[i]));
        assert(after.to_multiset().count(after[i]) > 0);
        assert(before.contains(after[i]));
        let k = choose|k: int| 0 <= k < before.len() && before[k] == after[i];
        assert(*before[k].1 == entries[k]);
    }
    assert forall|i: int, j: int| 0 <= i < j < after.len() implies *(#[trigger] untagged(
        after,
    )[i]).0 != *(#[trigger] untagged(after)[j]).0 by {
        if *after[i].1.0 == *after[j].1.0 {
            assert(after.contains(after[i]));
            assert(after.to_multiset().count(after[i]) > 0);
            assert(before.contains(after[i]));
            assert(after.contains(after[j]));
            assert(after.to_multiset().count(after[j]) > 0);
            assert(before.contains(after[j]));
            let a = choose|a: int| 0 <= a < before.len() && before[a] == after[i];
            let b = choose|b: int| 0 <= b < before.len() && before[b] == after[j];
            assert(*before[a].1 == entries[a]);
            assert(*before[b].1 == entries[b]);
            if a < b {
                assert(*entries[a].0 != *entries[b].0);
            } else if b < a {
                assert(*entries[b].0 != *entries[a].0);
            }
            assert(after[i] == after[j]);
        }
    }
}

impl<K, V, S> ToBencode for HashMap<K, V, S> where
    K: Label + Eq + Hash,
    V: ToBencode,
    S: BuildHasher,
 {
    const MAX_DEPTH: usize = V::MAX_DEPTH + 1;

    /// A dictionary is opened, unless the encoder refuses it; what the map
    /// hands out is written pair by pair in the order of the bytes of the
    /// keys, as [`Encoder::emit_pairs`] says; and the dictionary is closed,
    /// as [`Encoder::close_container`] says. Where the keys and the hasher
    /// are such that the map can rely on them, what it hands out are its
    /// entries, each of them once.
    fn encode(&self, encoder: SingleItemEncoder) -> (r: Result<(), Error>)
        ensures
            *final(encoder.mark()),
            encoder.encoder().refuses(TokenView::Dict) ==> encoder.encoder().emits(
                TokenView::Dict,
                *final(encoder.target()),
                r,
            ),
            !encoder.encoder().refuses(TokenView::Dict) ==> exists|
                pairs: Seq<(&[u8], &V)>,
                opened: Encoder,
                states: Seq<Encoder>,
                named: Seq<Result<(), Error>>,
                keyed: Seq<Encoder>,
                handed: Seq<SingleItemEncoder>,
                told: Seq<Result<(), Error>>,
                outcomes: Seq<Result<(), Error>>,
                filled: Encoder,
                outcome: Result<(), Error>,
            |
                {
                    &&& keys_are_hashed::<K, S>() ==> lists(self@, pairs)
                    &&& in_order(pairs)
                    &&& encoder.encoder().opens(TokenView::Dict, opened)
                    &&& #[trigger] pairs_in_turn(
                        opened,
                        pair_keys(pairs),
                        states,
                        named,
                        keyed,
                        handed,
                        told,
                        outcomes,
                        filled,
                        outcome,
                    )
                    &&& forall|i: int|
                        0 <= i < outcomes.len() && named[i] is Ok ==> {
                            &&& call_ensures(V::encode, (pairs[i].1, #[trigger] handed[i]), told[i])
                            &&& final(handed[i].target()).finishes(
                                told[i],
                                *final(handed[i].mark()),
                                states[i + 1],
                                outcomes[i],
                            )
                        }
                    &&& filled.closes(outcome, *final(encoder.target()), r)
                },
    {
        let entries = first_of(self.iter(), self.len());
        let mut sorted: Vec<(&[u8], &(&K, &V))> = Vec::new();
        let mut n: usize = 0;
        while n < entries.len()
            invariant
                n <= entries.len(),
                sorted@.len() == n,
                forall|i: int|
                    0 <= i < n ==> (#[trigger] sorted@[i]).0@ == entries@[i].0.label()
                        && *sorted@[i].1 == entries@[i],
            decreases entries.len() - n,
        {
            sorted.push((entries[n].0.bytes(), &entries[n]));
            n = n + 1;
        }
        let ghost unsorted = sorted@;
        sort_pairs(&mut sorted);
        let mut pairs: Vec<(&[u8], &V)> = Vec::new();
        let mut n: usize = 0;
        while n < sorted.len()
            invariant
                n <= sorted.len(),
                pairs@.len() == n,
                forall|i: int|
                    0 <= i < n ==> (#[trigger] pairs@[i]).0 == sorted@[i].0 && pairs@[i].1
                        == sorted@[i].1.1,
            decreases sorted.len() - n,
        {
            pairs.push((sorted[n].0, sorted[n].1.1));
            n = n + 1;
        }
        proof {
            broadcast use vstd::std_specs::hash::group_hash_axioms;

            assert(in_order(pairs@));
            if keys_are_hashed::<K, S>() {
                assert(entries@ == self.iter().remaining());
                handed_out_once(self@, entries@);
                sorted_entries_are_listed(self@, entries@, unsorted, sorted@);
            }
            assert(keys_are_hashed::<K, S>() ==> listed(self@, untagged(sorted@), pairs@));
        }
        let target = encoder.begin();
        match target.emit_token(Token::Dict) {
            Err(error) => return Err(error),
            Ok(()) => {},
        }
        let filled = target.emit_pairs(pairs.as_slice());
        target.close_container(filled)
    }
}

impl<I> ToBencode for AsString<I> where I: Label {
    const MAX_DEPTH: usize = 0;

    fn encode(&self, encoder: SingleItemEncoder) -> (r: Result<(), Error>)
        ensures
            *final(encoder.mark()),
            encoder.encoder().emits(
                TokenView::String(self.0.label()),
                *final(encoder.target()),
                r,
            ),
    {
        encoder.emit_bytes(self.0.bytes())
    }
}

impl<I> Label for AsString<I> where I: Label {
    open spec fn label(&self) -> Seq<u8> {
        self.0.label()
    }

    fn bytes(&self) -> (r: &[u8]) {
        self.0.bytes()
    }
}

impl<'a, I> From<&'a [u8]> for AsString<I> where I: LabelFrom<'a> {
    fn from(content: &'a [u8]) -> (r: Self)
        ensures
            r.0.label() == content@,
    {
        AsString(I::keep(content))
    }
}

impl<'a, I> FromSpecImpl<&'a [u8]> for AsString<I> where I: LabelFrom<'a> {
    open spec fn obeys_from_spec() -> bool {
        false
    }

    open spec fn from_spec(content: &'a [u8]) -> Self {
        arbitrary()
    }
}

} // verus!
