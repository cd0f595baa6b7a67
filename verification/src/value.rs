//! `Value`s hold arbitrary bencode data. Unlike `Object`s, they can be
//! copied and traversed multiple times.
use vstd::prelude::*;
use vstd::string::StringSliceAdditionalSpecFns;
use vstd::utf8::encode_utf8;

use crate::decoding::decoder::{
    awaits_key, below_kept_chains, item_is_skipped, items_lead_out, keys_and_values_alternate,
    next_item, next_pair, pair_orders_keys, skip_to_keeps_below,
    pair_is_skipped, pairs_lead_out, skip_to, skip_to_composes, skip_to_lands, skipped,
    skipped_composes,
    step_moves_one_level, Decoder, DictDecoder, ListDecoder, Reading,
};
use crate::decoding::error::Error as DecodingError;
use crate::decoding::from_bencode::FromBencode;
use crate::decoding::object::{
    can_be_read, first_object_end, left_to_read, object_tokens, unread, Object,
};
use crate::encoding::encoder::{emits_both, emits_one, token_bytes, Encoder, SingleItemEncoder};
use crate::encoding::error::Error as EncodingError;
use crate::encoding::to_bencode::ToBencode;
use crate::round_trip::{
    accepted, all_readable, canonical_text_is_ascii, emissions_keep_sound, found_item_is_unread,
    grammar_ignores_number_text, integer_is_written_canonically, left_behind,
    new_encoder_is_sound, passage_is_run, read_integer_is_written, readable,
    scanned_token_is_written, skipped_tokens_are_written, sound_output_is_accepted, written,
    written_from_the_first,
};
use crate::state_tracker::{run, step, FrameView, StructureErrorView, Token, TokenView};
use crate::text::{
    ascii_text, bytes_lt, decimal_int_bytes, lex_lt, lex_lt_is_strict, lex_lt_is_total,
    lex_lt_is_transitive, numeral_value,
};

verus! {

/// A bencoded value.
#[derive(PartialEq, Eq, Debug)]
pub enum Value {
    /// A byte string
    Bytes(Vec<u8>),
    /// A dictionary mapping byte strings to values
    Dict(Entries),
    /// A signed integer
    Integer(i64),
    /// A list of values
    List(Vec<Value>),
}

/// The entries of a dictionary: byte strings as keys, each with its value,
/// kept in the strictly ascending order of the keys, so that no key occurs
/// twice.
///
/// The entries are kept in a vector that only [`Entries::new`],
/// [`Entries::from_pairs`] and [`Entries::insert`] fill, each of which
/// keeps the order. An ordered map of the standard library would do the
/// same work, but what such a map holds is specified only for keys whose
/// order is known to obey the laws of comparison, and of byte strings that
/// is not known.
#[derive(PartialEq, Eq, Debug)]
pub struct Entries {
    pairs: Vec<(Vec<u8>, Value)>,
}

impl View for Entries {
    type V = Seq<(Vec<u8>, Value)>;

    closed spec fn view(&self) -> Seq<(Vec<u8>, Value)> {
        self.pairs@
    }
}

/// The keys of the entries ascend strictly.
#[verifier::opaque]
pub open spec fn ascending(entries: Seq<(Vec<u8>, Value)>) -> bool {
    forall|i: int, j: int|
        0 <= i < j < entries.len() ==> lex_lt((#[trigger] entries[i]).0@, (#[trigger] entries[j]).0@)
}

/// The index of the entry with the key `key`, if there is one.
pub open spec fn place_of(entries: Seq<(Vec<u8>, Value)>, key: Seq<u8>) -> Option<int> {
    if exists|i: int| 0 <= i < entries.len() && (#[trigger] entries[i]).0@ == key {
        Some(choose|i: int| 0 <= i < entries.len() && (#[trigger] entries[i]).0@ == key)
    } else {
        None
    }
}

/// An entry whose key comes after every key that is held is put behind
/// the others.
pub proof fn put_behind(
    held: Seq<(Vec<u8>, Value)>,
    after: Seq<(Vec<u8>, Value)>,
    entry: (Vec<u8>, Value),
)
    requires
        ascending(held),
        ascending(after),
        held.len() > 0 ==> lex_lt(held.last().0@, entry.0@),
        match place_of(held, entry.0@) {
            Some(at) => after == held.update(at, entry),
            None => exists|at: int|
                0 <= at <= held.len() && after == #[trigger] held.insert(at, entry),
        },
    ensures
        after == held.push(entry),
        ascending(held.push(entry)),
{
    reveal(ascending);
    assert forall|i: int| 0 <= i < held.len() implies (#[trigger] held[i]).0@ != entry.0@ by {
        lex_lt_is_strict(held[i].0@, entry.0@);
        if i < held.len() - 1 {
            lex_lt_is_transitive(held[i].0@, held.last().0@, entry.0@);
        }
    }
    assert(place_of(held, entry.0@) is None);
    let at = choose|at: int| 0 <= at <= held.len() && after == #[trigger] held.insert(at, entry);
    if at < held.len() {
        assert(after[at] == entry);
        assert(after[at + 1] == held[at]);
        assert(lex_lt(after[at].0@, after[at + 1].0@));
        lex_lt_is_strict(entry.0@, held[at].0@);
        if at < held.len() - 1 {
            lex_lt_is_transitive(held[at].0@, held.last().0@, entry.0@);
        }
    }
    assert(held.insert(held.len() as int, entry) =~= held.push(entry));
}

/// The entries that were read ascend, and the dictionary at `level` keeps
/// the key of the last of them as its last key.
#[verifier::opaque]
pub open spec fn in_step(
    entries: Seq<(Vec<u8>, Value)>,
    frames: Seq<FrameView>,
    level: nat,
) -> bool {
    &&& ascending(entries)
    &&& 1 <= level <= frames.len()
    &&& entries.len() > 0 ==> frames[level - 1] == FrameView::ExpectingKey(
        Some(entries.last().0@),
    )
}

/// No entries are in step with any dictionary.
proof fn nothing_is_in_step(frames: Seq<FrameView>, level: nat)
    requires
        1 <= level <= frames.len(),
    ensures
        in_step(Seq::empty(), frames, level),
{
    reveal(in_step);
    reveal(ascending);
}

/// Entries that are in step ascend.
proof fn what_is_in_step_ascends(
    entries: Seq<(Vec<u8>, Value)>,
    frames: Seq<FrameView>,
    level: nat,
)
    requires
        in_step(entries, frames, level),
    ensures
        ascending(entries),
{
    reveal(in_step);
}

/// A pair that the decoder finds in a dictionary in which nothing else is
/// open keeps the entries in step.
proof fn pair_keeps_step(
    src: Seq<u8>,
    max_depth: nat,
    entries: Seq<(Vec<u8>, Value)>,
    entry: (Vec<u8>, Value),
    before: Reading,
    level: nat,
    opened: Reading,
    behind: Reading,
)
    requires
        in_step(entries, before.frames, level),
        awaits_key(before.frames, level),
        level == before.frames.len(),
        0 <= before.at <= src.len(),
        next_pair(src, max_depth, before, level) matches Ok((Some((key, _, _)), next)) && key
            == entry.0@ && next == opened,
        0 <= opened.at <= src.len(),
        behind == opened || skip_to(src, max_depth, opened, level) == Ok::<
            Reading,
            StructureErrorView,
        >(behind),
        behind.frames.len() == level,
    ensures
        in_step(entries.push(entry), behind.frames, level),
{
    reveal(in_step);
    reveal(ascending);
    pair_orders_keys(src, max_depth, before, level);
    if behind != opened {
        skip_to_keeps_below(src, max_depth, opened, level);
        assert(behind.frames[level - 1] == opened.frames.take(level as int)[level - 1]);
    }
    let more = entries.push(entry);
    assert forall|i: int, j: int| 0 <= i < j < more.len() implies lex_lt(
        (#[trigger] more[i]).0@,
        (#[trigger] more[j]).0@,
    ) by {
        if j == entries.len() {
            if i < entries.len() - 1 {
                lex_lt_is_transitive(entries[i].0@, entries.last().0@, entry.0@);
            }
        } else {
            assert(lex_lt(entries[i].0@, entries[j].0@));
        }
    }
}

/// Whether the two keys are the same.
fn same_keys(a: &[u8], b: &[u8]) -> (r: bool)
    ensures
        r == (a@ == b@),
{
    proof {
        lex_lt_is_total(a@, b@);
        lex_lt_is_strict(a@, b@);
    }
    !bytes_lt(a, b) && !bytes_lt(b, a)
}

impl Entries {
    /// The keys ascend strictly.
    pub open spec fn wf(&self) -> bool {
        ascending(self@)
    }

    /// No entries.
    pub fn new() -> (r: Self)
        ensures
            r@.len() == 0,
            r.wf(),
    {
        proof {
            reveal(ascending);
        }
        Entries { pairs: Vec::new() }
    }

    /// The number of the entries.
    pub fn len(&self) -> (r: usize)
        ensures
            r == self@.len(),
    {
        self.pairs.len()
    }

    /// The entries, in the order of their keys.
    pub fn as_slice(&self) -> (r: &[(Vec<u8>, Value)])
        ensures
            r@ == self@,
    {
        self.pairs.as_slice()
    }

    /// The value under `key`, if the key is held.
    pub fn get(&self, key: &[u8]) -> (r: Option<&Value>)
        ensures
            match r {
                Some(value) => exists|at: int|
                    0 <= at < self@.len() && (#[trigger] self@[at]).0@ == key@ && *value
                        == self@[at].1,
                None => forall|at: int| 0 <= at < self@.len() ==> (#[trigger] self@[at]).0@ != key@,
            },
    {
        let mut at: usize = 0;
        while at < self.pairs.len()
            invariant
                at <= self.pairs.len(),
                forall|i: int| 0 <= i < at ==> (#[trigger] self@[i]).0@ != key@,
            decreases self.pairs.len() - at,
        {
            if same_keys(self.pairs[at].0.as_slice(), key) {
                proof {
                    assert(self@[at as int].0@ == key@);
                }
                return Some(&self.pairs[at].1);
            }
            at = at + 1;
        }
        None
    }

    /// The entries, in the order of their keys.
    pub fn into_pairs(self) -> (r: Vec<(Vec<u8>, Value)>)
        ensures
            r@ == self@,
    {
        self.pairs
    }

    /// The entries of `pairs`, put in the order of their keys; of two
    /// pairs with one key the later stays. Pairs whose keys ascend
    /// already are kept as they are.
    pub fn from_pairs(pairs: Vec<(Vec<u8>, Value)>) -> (r: Self)
        ensures
            r.wf(),
            ascending(pairs@) ==> r@ == pairs@,
    {
        let ghost all = pairs@;
        let mut rest = pairs;
        let mut entries = Entries::new();
        let mut n: usize = 0;
        let count = rest.len();
        while n < count
            invariant
                n <= count,
                count == all.len(),
                rest@ == all.skip(n as int),
                entries.wf(),
                ascending(all) ==> entries@ == all.take(n as int),
            decreases count - n,
        {
            let ghost held = entries@;
            let pair = rest.remove(0);
            proof {
                assert(pair == all[n as int]);
                assert(all.skip(n as int).remove(0) =~= all.skip(n + 1));
            }
            let _ = entries.insert(pair.0, pair.1);
            proof {
                if ascending(all) {
                    reveal(ascending);
                    assert(all.take(n + 1) =~= all.take(n as int).push(all[n as int]));
                    assert(n > 0 ==> held.last() == all[n - 1]);
                    put_behind(held, entries@, all[n as int]);
                }
            }
            n = n + 1;
        }
        proof {
            assert(all.take(n as int) =~= all);
        }
        entries
    }

    /// Puts `value` under `key`. Where the key was held already, its value
    /// is replaced and the value that it had is returned; else the entry
    /// is put where its key belongs.
    pub fn insert(&mut self, key: Vec<u8>, value: Value) -> (r: Option<Value>)
        requires
            old(self).wf(),
        ensures
            final(self).wf(),
            match place_of(old(self)@, key@) {
                Some(at) => r == Some(old(self)@[at].1) && final(self)@ == old(self)@.update(
                    at,
                    (key, value),
                ),
                None => r is None && exists|at: int|
                    0 <= at <= old(self)@.len() && final(self)@ == #[trigger] old(self)@.insert(
                        at,
                        (key, value),
                    ),
            },
    {
        proof {
            reveal(ascending);
        }
        let ghost before = self@;
        let mut at: usize = self.pairs.len();
        while at > 0 && !bytes_lt(self.pairs[at - 1].0.as_slice(), key.as_slice())
            invariant
                at <= self.pairs.len(),
                *self == *old(self),
                self@ == before,
                ascending(before),
                forall|i: int| at <= i < before.len() ==> !lex_lt((#[trigger] before[i]).0@, key@),
            decreases at,
        {
            at = at - 1;
        }
        proof {
            assert forall|i: int| 0 <= i < at implies lex_lt((#[trigger] before[i]).0@, key@) by {
                if i < at - 1 {
                    lex_lt_is_transitive(before[i].0@, before[at - 1].0@, key@);
                }
            }
        }
        if at < self.pairs.len() && !bytes_lt(key.as_slice(), self.pairs[at].0.as_slice()) {
            proof {
                lex_lt_is_total(before[at as int].0@, key@);
                assert forall|i: int| 0 <= i < before.len() && (#[trigger] before[i]).0@
                    == key@ implies i == at by {
                    lex_lt_is_strict(before[i].0@, before[at as int].0@);
                    if i < at {
                        assert(lex_lt(before[i].0@, before[at as int].0@));
                    } else if i > at {
                        assert(lex_lt(before[at as int].0@, before[i].0@));
                    }
                }
            }
            let held = self.pairs.remove(at);
            self.pairs.insert(at, (key, value));
            proof {
                let after = self@;
                assert(after =~= before.update(at as int, (key, value)));
                assert forall|i: int, j: int| 0 <= i < j < after.len() implies lex_lt(
                    (#[trigger] after[i]).0@,
                    (#[trigger] after[j]).0@,
                ) by {
                    assert(lex_lt(before[i].0@, before[j].0@));
                }
            }
            return Some(held.1);
        }
        proof {
            assert forall|i: int| 0 <= i < before.len() implies (#[trigger] before[i]).0@
                != key@ by {
                lex_lt_is_strict(before[i].0@, key@);
                lex_lt_is_strict(key@, before[i].0@);
                if i < at {
                } else if i > at {
                    lex_lt_is_transitive(key@, before[at as int].0@, before[i].0@);
                }
            }
        }
        self.pairs.insert(at, (key, value));
        proof {
            let after = self@;
            assert(after =~= before.insert(at as int, (key, value)));
            assert forall|i: int, j: int| 0 <= i < j < after.len() implies lex_lt(
                (#[trigger] after[i]).0@,
                (#[trigger] after[j]).0@,
            ) by {
                if j == at {
                } else if i == at {
                    if j - 1 > at {
                        lex_lt_is_transitive(key@, before[at as int].0@, before[j - 1].0@);
                    }
                } else {
                    let a = if i < at {
                        i
                    } else {
                        i - 1
                    };
                    let b = if j < at {
                        j
                    } else {
                        j - 1
                    };
                    assert(lex_lt(before[a].0@, before[b].0@));
                }
            }
        }
        None
    }
}

/// The tokens of the first `count` of the items.
pub open spec fn items_tokens(items: Seq<Value>, count: int) -> Seq<TokenView>
    decreases items, count,
{
    if count <= 0 || count > items.len() {
        Seq::empty()
    } else {
        items_tokens(items, count - 1) + items[count - 1].tokens()
    }
}

/// The tokens of the first `count` of the entries: each key, and after it
/// the tokens of its value.
pub open spec fn entries_tokens(entries: Seq<(Vec<u8>, Value)>, count: int) -> Seq<TokenView>
    decreases entries, count,
{
    if count <= 0 || count > entries.len() {
        Seq::empty()
    } else {
        entries_tokens(entries, count - 1) + seq![TokenView::String(entries[count - 1].0@)]
            + entries[count - 1].1.tokens()
    }
}

/// Items with the same tokens one by one have the same tokens together.
proof fn same_items_tokens(a: Seq<Value>, b: Seq<Value>, count: int)
    requires
        0 <= count <= a.len(),
        count <= b.len(),
        forall|k: int| 0 <= k < count ==> (#[trigger] a[k]).tokens() == b[k].tokens(),
    ensures
        items_tokens(a, count) == items_tokens(b, count),
    decreases count,
{
    if count > 0 {
        same_items_tokens(a, b, count - 1);
    }
}

/// Entries with the same keys and tokens one by one have the same tokens
/// together.
proof fn same_entries_tokens(a: Seq<(Vec<u8>, Value)>, b: Seq<(Vec<u8>, Value)>, count: int)
    requires
        0 <= count <= a.len(),
        count <= b.len(),
        forall|k: int|
            0 <= k < count ==> (#[trigger] a[k]).0@ == b[k].0@ && a[k].1.tokens()
                == b[k].1.tokens(),
    ensures
        entries_tokens(a, count) == entries_tokens(b, count),
    decreases count,
{
    if count > 0 {
        same_entries_tokens(a, b, count - 1);
    }
}

/// The tokens of the first items are the first of the tokens of all items.
pub proof fn items_tokens_begin(items: Seq<Value>, count: int, all: int)
    requires
        0 <= count <= all <= items.len(),
    ensures
        items_tokens(items, count).is_prefix_of(items_tokens(items, all)),
    decreases all - count,
{
    if count < all {
        items_tokens_begin(items, count, all - 1);
    }
}

/// The tokens of the first entries are the first of the tokens of all
/// entries.
pub proof fn entries_tokens_begin(entries: Seq<(Vec<u8>, Value)>, count: int, all: int)
    requires
        0 <= count <= all <= entries.len(),
    ensures
        entries_tokens(entries, count).is_prefix_of(entries_tokens(entries, all)),
    decreases all - count,
{
    if count < all {
        entries_tokens_begin(entries, count, all - 1);
    }
}

/// A run of tokens that fails fails as the beginning of any longer run.
proof fn fails_as_beginning(
    before: Encoder,
    part: Seq<TokenView>,
    whole: Seq<TokenView>,
    after: Encoder,
    r: Result<(), EncodingError>,
)
    requires
        before.emits_all(part, after, r),
        r is Err,
        part.is_prefix_of(whole),
    ensures
        before.emits_all(whole, after, r),
{
    let rest = whole.skip(part.len() as int);
    emits_both(before, part, after, r, rest, after, r);
    assert(part + rest =~= whole);
}

impl Value {
    /// The tokens that the value is written as.
    pub open spec fn tokens(self) -> Seq<TokenView>
        decreases self,
    {
        match self {
            Value::Bytes(bytes) => seq![TokenView::String(bytes@)],
            Value::Integer(number) => seq![
                TokenView::Num(ascii_text(decimal_int_bytes(number as int))),
            ],
            Value::List(items) => seq![TokenView::List] + items_tokens(
                items@,
                items@.len() as int,
            ) + seq![TokenView::End],
            Value::Dict(entries) => seq![TokenView::Dict] + entries_tokens(
                entries@,
                entries@.len() as int,
            ) + seq![TokenView::End],
        }
    }

    /// A copy of the value: it has the same tokens, and the entries of a
    /// dictionary are in order in it where they are in this one.
    pub fn duplicate(&self) -> (r: Value)
        ensures
            r.tokens() == self.tokens(),
            self matches Value::Dict(held) ==> r matches Value::Dict(copy) && (held.wf()
                ==> copy.wf()),
        decreases self,
    {
        match self {
            Value::Bytes(bytes) => Value::Bytes(bytes.clone()),
            Value::Integer(number) => Value::Integer(*number),
            Value::List(items) => {
                let mut copies: Vec<Value> = Vec::new();
                let mut i: usize = 0;
                while i < items.len()
                    invariant
                        i <= items.len(),
                        self == Value::List(*items),
                        copies@.len() == i,
                        forall|k: int|
                            0 <= k < i ==> (#[trigger] copies@[k]).tokens() == items@[k].tokens(),
                    decreases items.len() - i,
                {
                    proof {
                        assert(decreases_to!(*self => self->List_0));
                        assert(decreases_to!(*items => items@));
                        assert(decreases_to!(items@ => items@[i as int]));
                    }
                    copies.push(items[i].duplicate());
                    i = i + 1;
                }
                proof {
                    same_items_tokens(copies@, items@, i as int);
                }
                Value::List(copies)
            },
            Value::Dict(held) => {
                let entries = &held.pairs;
                let mut copies: Vec<(Vec<u8>, Value)> = Vec::new();
                let mut i: usize = 0;
                while i < entries.len()
                    invariant
                        i <= entries.len(),
                        self == Value::Dict(*held),
                        entries == &held.pairs,
                        copies@.len() == i,
                        forall|k: int|
                            0 <= k < i ==> (#[trigger] copies@[k]).0@ == entries@[k].0@
                                && copies@[k].1.tokens() == entries@[k].1.tokens(),
                    decreases entries.len() - i,
                {
                    proof {
                        assert(decreases_to!(*self => self->Dict_0));
                        assert(decreases_to!(*held => held.pairs));
                        assert(decreases_to!(*entries => entries@));
                        assert(decreases_to!(entries@ => entries@[i as int]));
                        assert(decreases_to!(entries@[i as int] => entries@[i as int].1));
                    }
                    copies.push((entries[i].0.clone(), entries[i].1.duplicate()));
                    i = i + 1;
                }
                proof {
                    same_entries_tokens(copies@, entries@, i as int);
                    reveal(ascending);
                    assert(ascending(entries@) ==> ascending(copies@)) by {
                        if ascending(entries@) {
                            assert forall|a: int, b: int| 0 <= a < b < copies@.len() implies lex_lt(
                                (#[trigger] copies@[a]).0@,
                                (#[trigger] copies@[b]).0@,
                            ) by {
                                assert(lex_lt(entries@[a].0@, entries@[b].0@));
                            }
                        }
                    }
                }
                Value::Dict(Entries { pairs: copies })
            },
        }
    }

    /// Convert this Value into an owned Value: it is one already.
    pub fn into_owned(self) -> (r: Value)
        ensures
            r == self,
    {
        self
    }

    /// Writes the value to `encoder`, token by token.
    pub fn write(&self, encoder: &mut Encoder) -> (r: Result<(), EncodingError>)
        ensures
            old(encoder).emits_all(self.tokens(), *final(encoder), r),
        decreases self,
    {
        match self {
            Value::Bytes(bytes) => {
                let r = encoder.emit_bytes(bytes.as_slice());
                proof {
                    emits_one(*old(encoder), TokenView::String(bytes@), *encoder, r);
                }
                r
            },
            Value::Integer(number) => {
                let r = encoder.emit_int(*number);
                proof {
                    let text = ascii_text(decimal_int_bytes(*number as int));
                    integer_is_written_canonically(*number as int);
                    grammar_ignores_number_text(
                        old(encoder).frames(),
                        old(encoder).depth_limit(),
                        Seq::empty(),
                        text,
                    );
                    emits_one(*old(encoder), TokenView::Num(text), *encoder, r);
                }
                r
            },
            Value::List(items) => {
                let opened = encoder.emit_token(Token::List);
                proof {
                    emits_one(*old(encoder), TokenView::List, *encoder, opened);
                    assert(seq![TokenView::List].is_prefix_of(self.tokens()));
                }
                match opened {
                    Err(error) => {
                        proof {
                            fails_as_beginning(
                                *old(encoder),
                                seq![TokenView::List],
                                self.tokens(),
                                *encoder,
                                opened,
                            );
                        }
                        return Err(error);
                    },
                    Ok(()) => {},
                }
                let mut i: usize = 0;
                while i < items.len()
                    invariant
                        i <= items.len(),
                        self == Value::List(*items),
                        old(encoder).emits_all(
                            seq![TokenView::List] + items_tokens(items@, i as int),
                            *encoder,
                            Ok(()),
                        ),
                    decreases items.len() - i,
                {
                    proof {
                        assert(decreases_to!(*self => self->List_0));
                        assert(decreases_to!(*items => items@));
                        assert(decreases_to!(items@ => items@[i as int]));
                    }
                    let ghost before = *encoder;
                    let ghost so_far = seq![TokenView::List] + items_tokens(items@, i as int);
                    let written = items[i].write(encoder);
                    proof {
                        emits_both(
                            *old(encoder),
                            so_far,
                            before,
                            Ok(()),
                            items@[i as int].tokens(),
                            *encoder,
                            written,
                        );
                        assert(so_far + items@[i as int].tokens() =~= seq![TokenView::List]
                            + items_tokens(items@, i + 1));
                    }
                    match written {
                        Err(error) => {
                            proof {
                                items_tokens_begin(items@, i + 1, items@.len() as int);
                                fails_as_beginning(
                                    *old(encoder),
                                    seq![TokenView::List] + items_tokens(items@, i + 1),
                                    self.tokens(),
                                    *encoder,
                                    written,
                                );
                            }
                            return Err(error);
                        },
                        Ok(()) => {},
                    }
                    i = i + 1;
                }
                let ghost before = *encoder;
                let closed = encoder.emit_token(Token::End);
                proof {
                    emits_one(before, TokenView::End, *encoder, closed);
                    emits_both(
                        *old(encoder),
                        seq![TokenView::List] + items_tokens(items@, items@.len() as int),
                        before,
                        Ok(()),
                        seq![TokenView::End],
                        *encoder,
                        closed,
                    );
                }
                closed
            },
            Value::Dict(held) => {
                let entries = &held.pairs;
                let opened = encoder.emit_token(Token::Dict);
                proof {
                    emits_one(*old(encoder), TokenView::Dict, *encoder, opened);
                    assert(seq![TokenView::Dict].is_prefix_of(self.tokens()));
                }
                match opened {
                    Err(error) => {
                        proof {
                            fails_as_beginning(
                                *old(encoder),
                                seq![TokenView::Dict],
                                self.tokens(),
                                *encoder,
                                opened,
                            );
                        }
                        return Err(error);
                    },
                    Ok(()) => {},
                }
                let mut i: usize = 0;
                while i < entries.len()
                    invariant
                        i <= entries.len(),
                        self == Value::Dict(*held),
                        entries == &held.pairs,
                        old(encoder).emits_all(
                            seq![TokenView::Dict] + entries_tokens(entries@, i as int),
                            *encoder,
                            Ok(()),
                        ),
                    decreases entries.len() - i,
                {
                    proof {
                        assert(decreases_to!(*self => self->Dict_0));
                        assert(decreases_to!(*held => held.pairs));
                        assert(decreases_to!(*entries => entries@));
                        assert(decreases_to!(entries@ => entries@[i as int]));
                        assert(decreases_to!(entries@[i as int] => entries@[i as int].1));
                        entries_tokens_begin(entries@, i + 1, entries@.len() as int);
                    }
                    let ghost before = *encoder;
                    let ghost so_far = seq![TokenView::Dict] + entries_tokens(entries@, i as int);
                    let ghost key = seq![TokenView::String(entries@[i as int].0@)];
                    let named = encoder.emit_bytes(entries[i].0.as_slice());
                    proof {
                        emits_one(before, key[0], *encoder, named);
                        emits_both(*old(encoder), so_far, before, Ok(()), key, *encoder, named);
                        assert((so_far + key).is_prefix_of(
                            seq![TokenView::Dict] + entries_tokens(entries@, i + 1),
                        ));
                    }
                    match named {
                        Err(error) => {
                            proof {
                                fails_as_beginning(
                                    *old(encoder),
                                    so_far + key,
                                    self.tokens(),
                                    *encoder,
                                    named,
                                );
                            }
                            return Err(error);
                        },
                        Ok(()) => {},
                    }
                    let ghost between = *encoder;
                    let written = entries[i].1.write(encoder);
                    proof {
                        emits_both(
                            *old(encoder),
                            so_far + key,
                            between,
                            Ok(()),
                            entries@[i as int].1.tokens(),
                            *encoder,
                            written,
                        );
                        assert(so_far + key + entries@[i as int].1.tokens() =~= seq![
                            TokenView::Dict,
                        ] + entries_tokens(entries@, i + 1));
                    }
                    match written {
                        Err(error) => {
                            proof {
                                fails_as_beginning(
                                    *old(encoder),
                                    seq![TokenView::Dict] + entries_tokens(entries@, i + 1),
                                    self.tokens(),
                                    *encoder,
                                    written,
                                );
                            }
                            return Err(error);
                        },
                        Ok(()) => {},
                    }
                    i = i + 1;
                }
                let ghost before = *encoder;
                let closed = encoder.emit_token(Token::End);
                proof {
                    emits_one(before, TokenView::End, *encoder, closed);
                    emits_both(
                        *old(encoder),
                        seq![TokenView::Dict] + entries_tokens(entries@, entries@.len() as int),
                        before,
                        Ok(()),
                        seq![TokenView::End],
                        *encoder,
                        closed,
                    );
                }
                closed
            },
        }
    }
}

/// The token is no integer, or one that an `i64` holds.
pub open spec fn fits_one(token: TokenView) -> bool {
    match token {
        TokenView::Num(text) => numeral_value(
            encode_utf8(text),
            true,
            i64::MIN as int,
            i64::MAX as int,
        ) is Ok,
        _ => true,
    }
}

/// Every integer among the tokens is one that an `i64` holds.
#[verifier::opaque]
pub open spec fn fits(tokens: Seq<TokenView>) -> bool {
    forall|i: int| 0 <= i < tokens.len() ==> fits_one(#[trigger] tokens[i])
}

/// Where the integers of tokens fit, those of every part of them fit.
proof fn parts_fit(a: Seq<TokenView>, b: Seq<TokenView>)
    requires
        fits(a + b),
    ensures
        fits(a),
        fits(b),
{
    reveal(fits);
    assert forall|i: int| 0 <= i < a.len() implies fits_one(#[trigger] a[i]) by {
        assert((a + b)[i] == a[i]);
    }
    assert forall|i: int| 0 <= i < b.len() implies fits_one(#[trigger] b[i]) by {
        assert((a + b)[a.len() + i] == b[i]);
    }
}

/// The object can be decoded: it is unread and begins with a readable
/// token, a list or a dictionary can be read to its end, and every integer
/// in it is one that an `i64` holds.
pub open spec fn decodable(object: Object<'_, '_>) -> bool {
    &&& unread(object)
    &&& readable(object.token())
    &&& can_be_read(object)
    &&& fits(object_tokens(object))
}

/// The tokens of the first items do not change where an item is added.
proof fn items_tokens_of_more(items: Seq<Value>, value: Value, count: int)
    requires
        0 <= count <= items.len(),
    ensures
        items_tokens(items.push(value), count) == items_tokens(items, count),
        count == items.len() ==> items_tokens(items.push(value), count + 1) == items_tokens(
            items,
            count,
        ) + value.tokens(),
    decreases count,
{
    if count > 0 {
        items_tokens_of_more(items, value, count - 1);
        assert(items.push(value)[count - 1] == items[count - 1]);
    }
    if count == items.len() {
        assert(items.push(value)[count] == value);
    }
}

/// The tokens of the first entries do not change where an entry is added.
proof fn entries_tokens_of_more(
    entries: Seq<(Vec<u8>, Value)>,
    entry: (Vec<u8>, Value),
    count: int,
)
    requires
        0 <= count <= entries.len(),
    ensures
        entries_tokens(entries.push(entry), count) == entries_tokens(entries, count),
        count == entries.len() ==> entries_tokens(entries.push(entry), count + 1)
            == entries_tokens(entries, count) + seq![TokenView::String(entry.0@)]
            + entry.1.tokens(),
    decreases count,
{
    if count > 0 {
        entries_tokens_of_more(entries, entry, count - 1);
        assert(entries.push(entry)[count - 1] == entries[count - 1]);
    }
    if count == entries.len() {
        assert(entries.push(entry)[count] == entry);
    }
}

/// An item of a container that can be decoded can be decoded itself.
/// Here `all` are the tokens that are skipped on the way out of the
/// container, `so_far` those of the items that were read, and `found` those
/// with which the item at hand was found, of which the last is its own.
proof fn item_can_be_decoded(
    src: Seq<u8>,
    max_depth: nat,
    all: Seq<TokenView>,
    so_far: Seq<TokenView>,
    found: Seq<TokenView>,
    from: Reading,
    depth: nat,
    item: Object<'_, '_>,
    at: Decoder<'_>,
)
    requires
        depth >= 1,
        fits(all),
        found.len() >= 1,
        found.last() == item.token(),
        all == so_far + skipped(src, max_depth, from, (depth - 1) as nat),
        skipped(src, max_depth, from, (depth - 1) as nat) == found + skipped(
            src,
            max_depth,
            at.reading(),
            (depth - 1) as nat,
        ),
        skip_to(src, max_depth, at.reading(), (depth - 1) as nat) is Ok,
        unread(item),
        readable(item.token()),
        item.decoder_or(at) == at,
        at.input() == src,
        at.depth_limit() == max_depth,
        0 <= at.reading().at <= src.len(),
        item matches Object::List(list) ==> list.level() == depth + 1,
        item matches Object::Dict(dict) ==> dict.level() == depth + 1,
    ensures
        decodable(item),
{
    reveal(fits);
    let shallow = (depth - 1) as nat;
    let rest = skipped(src, max_depth, at.reading(), shallow);
    parts_fit(so_far, skipped(src, max_depth, from, shallow));
    parts_fit(found, rest);
    assert(fits_one(found[found.len() - 1]));
    if item is List || item is Dict {
        skip_to_composes(src, max_depth, at.reading(), depth, shallow);
        skipped_composes(src, max_depth, at.reading(), depth, shallow);
        let inner = skipped(src, max_depth, at.reading(), depth);
        let behind = skip_to(src, max_depth, at.reading(), depth)->Ok_0;
        parts_fit(inner, skipped(src, max_depth, behind, shallow));
        assert forall|i: int| 0 <= i < (seq![item.token()] + inner).len() implies fits_one(
            #[trigger] (seq![item.token()] + inner)[i],
        ) by {
            if i > 0 {
                assert((seq![item.token()] + inner)[i] == inner[i - 1]);
            }
        }
    } else {
        assert forall|i: int| 0 <= i < seq![item.token()].len() implies fits_one(
            #[trigger] seq![item.token()][i],
        ) by {}
    }
}

impl Value {
    /// Reads the object into a value: a list or a dictionary is read to
    /// its end, and an integer has to be one of 64 bits. Of an object that
    /// was unread and begins with a readable token the value has the
    /// tokens; and the decoder behind a list or a dictionary is left behind
    /// that container then.
    pub fn from_object<'obj, 'ser>(object: Object<'obj, 'ser>) -> (r: Result<Value, DecodingError>)
        requires
            object.wf(),
        ensures
            object matches Object::List(list) ==> list.leaves(*final(list.parent())),
            object matches Object::Dict(dict) ==> dict.leaves(*final(dict.parent())),
            object matches Object::Bytes(bytes) ==> r matches Ok(Value::Bytes(content))
                && content@ == bytes@,
            object matches Object::Integer(text) ==> match numeral_value(
                text.spec_bytes(),
                true,
                i64::MIN as int,
                i64::MAX as int,
            ) {
                Ok(value) => r matches Ok(Value::Integer(number)) && number == value,
                Err(_) => r matches Err(found) && found.path() is None && found.kind()
                    is MalformedContent,
            },
            object is List ==> (r matches Ok(value) ==> value is List),
            object is Dict ==> (r matches Ok(value) ==> value is Dict),
            unread(object) && readable(object.token()) ==> (r matches Ok(value) ==> value.tokens()
                == object_tokens(object)),
            decodable(object) ==> r is Ok,
            object matches Object::List(list) ==> (unread(object) && r is Ok ==>
                final(list.parent()).latched() is None && skip_to(
                list.decoder().input(),
                list.decoder().depth_limit(),
                list.decoder().reading(),
                (list.level() - 1) as nat,
            ) == Ok::<Reading, StructureErrorView>(final(list.parent()).reading())),
            object matches Object::Dict(dict) ==> (unread(object) && r is Ok ==>
                final(dict.parent()).latched() is None && skip_to(
                dict.decoder().input(),
                dict.decoder().depth_limit(),
                dict.decoder().reading(),
                (dict.level() - 1) as nat,
            ) == Ok::<Reading, StructureErrorView>(final(dict.parent()).reading())),
        decreases left_to_read(object), 1int,
    {
        proof {
            if decodable(object) && object is Integer {
                reveal(fits);
                assert(fits_one(object_tokens(object)[0]));
            }
        }
        match object {
            Object::Bytes(bytes) => Ok(Value::Bytes(vstd::slice::slice_to_vec(bytes))),
            Object::Dict(decoder) => match Value::from_dict(decoder) {
                Ok(entries) => {
                    proof {
                        let inner = entries_tokens(entries@, entries@.len() as int);
                        assert(seq![TokenView::Dict] + (inner + seq![TokenView::End]) =~= (seq![
                            TokenView::Dict,
                        ] + inner) + seq![TokenView::End]);
                    }
                    Ok(Value::Dict(Entries::from_pairs(entries)))
                },
                Err(error) => Err(error),
            },
            Object::Integer(text) => match i64::decode_bencode_object(Object::Integer(text)) {
                Ok(number) => {
                    proof {
                        if readable(TokenView::Num(text@)) {
                            read_integer_is_written(
                                text.spec_bytes(),
                                true,
                                i64::MIN as int,
                                i64::MAX as int,
                            );
                            canonical_text_is_ascii(text@);
                        }
                    }
                    Ok(Value::Integer(number))
                },
                Err(error) => Err(error),
            },
            Object::List(decoder) => match Value::from_list(decoder) {
                Ok(items) => {
                    proof {
                        let inner = items_tokens(items@, items@.len() as int);
                        assert(seq![TokenView::List] + (inner + seq![TokenView::End]) =~= (seq![
                            TokenView::List,
                        ] + inner) + seq![TokenView::End]);
                    }
                    Ok(Value::List(items))
                },
                Err(error) => Err(error),
            },
        }
    }

    /// Reads the list to its end: the values of its items.
    fn from_list<'obj, 'ser>(given: ListDecoder<'obj, 'ser>) -> (r: Result<
        Vec<Value>,
        DecodingError,
    >)
        requires
            given.wf(),
        ensures
            given.leaves(*final(given.parent())),
            unread(Object::List(given)) ==> (r matches Ok(items) ==> {
                &&& items_tokens(items@, items@.len() as int) + seq![TokenView::End] == skipped(
                    given.decoder().input(),
                    given.decoder().depth_limit(),
                    given.decoder().reading(),
                    (given.level() - 1) as nat,
                )
                &&& final(given.parent()).latched() is None
                &&& skip_to(
                    given.decoder().input(),
                    given.decoder().depth_limit(),
                    given.decoder().reading(),
                    (given.level() - 1) as nat,
                ) == Ok::<Reading, StructureErrorView>(final(given.parent()).reading())
            }),
            decodable(Object::List(given)) ==> r is Ok,
        decreases left_to_read(Object::List(given)), 0int,
    {
        let mut list = given;
        let mut items: Vec<Value> = Vec::new();
        let ghost src = given.decoder().input();
        let ghost limit = given.decoder().depth_limit();
        let ghost out = (given.level() - 1) as nat;
        loop
            invariant
                list.wf(),
                given.same_list(list),
                given.leaves(list.decoder()),
                given.decoder().read_on(list.decoder()),
                *final(list.parent()) == *final(given.parent()),
                src == given.decoder().input(),
                limit == given.decoder().depth_limit(),
                out == given.level() - 1,
                unread(Object::List(given)) ==> {
                    &&& !list.is_finished()
                    &&& list.decoder().latched() is None
                    &&& list.decoder().reading().frames.len() == list.level()
                    &&& skip_to(src, limit, list.decoder().reading(), out) == skip_to(
                        src,
                        limit,
                        given.decoder().reading(),
                        out,
                    )
                    &&& items_tokens(items@, items@.len() as int) + skipped(
                        src,
                        limit,
                        list.decoder().reading(),
                        out,
                    ) == skipped(src, limit, given.decoder().reading(), out)
                },
            decreases list.decoder().input().len() - list.decoder().reading().at,
        {
            let ghost before = list.decoder().reading();
            let ghost so_far = items_tokens(items@, items@.len() as int);
            proof {
                if !list.is_finished() && list.decoder().latched() is None {
                    items_lead_out(
                        list.decoder().input(),
                        list.decoder().depth_limit(),
                        before,
                        list.level(),
                    );
                }
                if unread(Object::List(given)) {
                    item_is_skipped(src, limit, before, list.level());
                }
            }
            let found = list.next_object();
            let object = match found {
                Err(error) => {
                    proof {
                        list.gives_back();
                    }
                    return Err(error);
                },
                Ok(None) => {
                    proof {
                        list.gives_back();
                    }
                    return Ok(items);
                },
                Ok(Some(object)) => object,
            };
            let ghost item = object;
            let ghost at = object.decoder_or(after_borrow(list).decoder());
            let ghost opened = at.reading();
            proof {
                if unread(Object::List(given)) {
                    found_item_is_unread(src, limit, before, given.level(), item, at);
                }
                if decodable(Object::List(given)) {
                    parts_fit(
                        seq![TokenView::List],
                        skipped(src, limit, given.decoder().reading(), out),
                    );
                    item_can_be_decoded(
                        src,
                        limit,
                        skipped(src, limit, given.decoder().reading(), out),
                        so_far,
                        seq![item.token()],
                        before,
                        given.level(),
                        item,
                        at,
                    );
                }
                skip_to_composes(
                    given.decoder().input(),
                    given.decoder().depth_limit(),
                    opened,
                    given.level(),
                    (given.level() - 1) as nat,
                );
            }
            let read = Value::from_object(object);
            proof {
                below_kept_chains(
                    before.frames,
                    opened.frames,
                    list.decoder().reading().frames,
                    list.level(),
                );
                below_kept_chains(
                    given.decoder().reading().frames,
                    before.frames,
                    list.decoder().reading().frames,
                    list.level(),
                );
            }
            match read {
                Ok(value) => {
                    proof {
                        items_tokens_of_more(items@, value, items@.len() as int);
                        if unread(Object::List(given)) {
                            let behind = list.decoder().reading();
                            if item is List || item is Dict {
                                left_behind(src, limit, opened, list.level(), behind);
                                assert(seq![item.token()] + (skipped(
                                    src,
                                    limit,
                                    opened,
                                    list.level(),
                                ) + skipped(src, limit, behind, out)) =~= value.tokens() + skipped(
                                    src,
                                    limit,
                                    behind,
                                    out,
                                ));
                            }
                            assert((so_far + value.tokens()) + skipped(src, limit, behind, out)
                                =~= so_far + (value.tokens() + skipped(src, limit, behind, out)));
                        }
                    }
                    items.push(value);
                },
                Err(error) => {
                    proof {
                        list.gives_back();
                    }
                    return Err(error);
                },
            }
        }
    }

    /// Reads the dictionary to its end: its keys, each with the value
    /// that follows it.
    #[verifier::rlimit(100)]
    #[verifier::spinoff_prover]
    fn from_dict<'obj, 'ser>(given: DictDecoder<'obj, 'ser>) -> (r: Result<
        Vec<(Vec<u8>, Value)>,
        DecodingError,
    >)
        requires
            given.wf(),
        ensures
            given.leaves(*final(given.parent())),
            unread(Object::Dict(given)) ==> (r matches Ok(entries) ==> {
                &&& entries_tokens(entries@, entries@.len() as int) + seq![TokenView::End]
                    == skipped(
                    given.decoder().input(),
                    given.decoder().depth_limit(),
                    given.decoder().reading(),
                    (given.level() - 1) as nat,
                )
                &&& final(given.parent()).latched() is None
                &&& skip_to(
                    given.decoder().input(),
                    given.decoder().depth_limit(),
                    given.decoder().reading(),
                    (given.level() - 1) as nat,
                ) == Ok::<Reading, StructureErrorView>(final(given.parent()).reading())
                &&& ascending(entries@)
            }),
            decodable(Object::Dict(given)) ==> r is Ok,
        decreases left_to_read(Object::Dict(given)), 0int,
    {
        let mut dict = given;
        let mut entries: Vec<(Vec<u8>, Value)> = Vec::new();
        let ghost src = given.decoder().input();
        let ghost limit = given.decoder().depth_limit();
        let ghost out = (given.level() - 1) as nat;
        proof {
            if unread(Object::Dict(given)) {
                nothing_is_in_step(given.decoder().reading().frames, given.level());
            }
        }
        loop
            invariant
                dict.wf(),
                given.same_dict(dict),
                given.leaves(dict.decoder()),
                given.decoder().read_on(dict.decoder()),
                *final(dict.parent()) == *final(given.parent()),
                src == given.decoder().input(),
                limit == given.decoder().depth_limit(),
                out == given.level() - 1,
                unread(Object::Dict(given)) ==> {
                    &&& !dict.is_finished()
                    &&& dict.decoder().latched() is None
                    &&& dict.decoder().reading().frames.len() == dict.level()
                    &&& skip_to(src, limit, dict.decoder().reading(), out) == skip_to(
                        src,
                        limit,
                        given.decoder().reading(),
                        out,
                    )
                    &&& entries_tokens(entries@, entries@.len() as int) + skipped(
                        src,
                        limit,
                        dict.decoder().reading(),
                        out,
                    ) == skipped(src, limit, given.decoder().reading(), out)
                    &&& in_step(entries@, dict.decoder().reading().frames, dict.level())
                },
            decreases dict.decoder().input().len() - dict.decoder().reading().at,
        {
            let ghost before = dict.decoder().reading();
            let ghost so_far = entries_tokens(entries@, entries@.len() as int);
            proof {
                if !dict.is_finished() && dict.decoder().latched() is None {
                    pairs_lead_out(
                        dict.decoder().input(),
                        dict.decoder().depth_limit(),
                        before,
                        dict.level(),
                    );
                }
                if unread(Object::Dict(given)) {
                    pair_is_skipped(src, limit, before, dict.level());
                    keys_and_values_alternate(src, limit, before, dict.level());
                    items_lead_out(src, limit, before, dict.level());
                    item_is_skipped(src, limit, before, dict.level());
                }
            }
            let found = dict.next_pair();
            let (key, object) = match found {
                Err(error) => {
                    proof {
                        dict.gives_back();
                    }
                    return Err(error);
                },
                Ok(None) => {
                    proof {
                        dict.gives_back();
                        if unread(Object::Dict(given)) {
                            what_is_in_step_ascends(entries@, before.frames, dict.level());
                        }
                    }
                    return Ok(entries);
                },
                Ok(Some(pair)) => pair,
            };
            let ghost item = object;
            let ghost at = object.decoder_or(after_borrow(dict).decoder());
            let ghost opened = at.reading();
            proof {
                if unread(Object::Dict(given)) {
                    let between = next_item(src, limit, before, given.level())->Ok_0.1;
                    assert(skip_to(src, limit, between, out) == skip_to(src, limit, before, out));
                    found_item_is_unread(src, limit, between, given.level(), item, at);
                    assert(skipped(src, limit, before, out) == seq![TokenView::String(key@)] + (
                    seq![item.token()] + skipped(src, limit, opened, out)));
                }
                if decodable(Object::Dict(given)) {
                    assert(seq![TokenView::String(key@)] + (seq![item.token()] + skipped(
                        src,
                        limit,
                        opened,
                        out,
                    )) =~= seq![TokenView::String(key@), item.token()] + skipped(
                        src,
                        limit,
                        opened,
                        out,
                    ));
                    parts_fit(
                        seq![TokenView::Dict],
                        skipped(src, limit, given.decoder().reading(), out),
                    );
                    item_can_be_decoded(
                        src,
                        limit,
                        skipped(src, limit, given.decoder().reading(), out),
                        so_far,
                        seq![TokenView::String(key@), item.token()],
                        before,
                        given.level(),
                        item,
                        at,
                    );
                }
                skip_to_composes(
                    given.decoder().input(),
                    given.decoder().depth_limit(),
                    opened,
                    given.level(),
                    (given.level() - 1) as nat,
                );
            }
            let read = Value::from_object(object);
            proof {
                below_kept_chains(
                    before.frames,
                    opened.frames,
                    dict.decoder().reading().frames,
                    dict.level(),
                );
                below_kept_chains(
                    given.decoder().reading().frames,
                    before.frames,
                    dict.decoder().reading().frames,
                    dict.level(),
                );
                assert(dict.level() <= dict.decoder().reading().frames.len()
                    ==> dict.decoder().reading().frames.take(dict.level() as int)[dict.level() - 1]
                    == dict.decoder().reading().frames[dict.level() - 1]);
                assert(dict.level() <= opened.frames.len() ==> opened.frames.take(
                    dict.level() as int,
                )[dict.level() - 1] == opened.frames[dict.level() - 1]);
            }
            match read {
                Ok(value) => {
                    let name = vstd::slice::slice_to_vec(key);
                    proof {
                        entries_tokens_of_more(entries@, (name, value), entries@.len() as int);
                        if unread(Object::Dict(given)) {
                            let behind = dict.decoder().reading();
                            if item is List || item is Dict {
                                left_behind(src, limit, opened, dict.level(), behind);
                            }
                            pair_keeps_step(
                                src,
                                limit,
                                entries@,
                                (name, value),
                                before,
                                dict.level(),
                                opened,
                                behind,
                            );
                            if item is List || item is Dict {
                                assert(seq![item.token()] + (skipped(
                                    src,
                                    limit,
                                    opened,
                                    dict.level(),
                                ) + skipped(src, limit, behind, out)) =~= value.tokens() + skipped(
                                    src,
                                    limit,
                                    behind,
                                    out,
                                ));
                            }
                            assert((so_far + seq![TokenView::String(name@)] + value.tokens())
                                + skipped(src, limit, behind, out) =~= so_far + (seq![
                                TokenView::String(key@),
                            ] + (value.tokens() + skipped(src, limit, behind, out))));
                        }
                    }
                    entries.push((name, value));
                },
                Err(error) => {
                    proof {
                        dict.gives_back();
                    }
                    return Err(error);
                },
            }
        }
    }
}

impl FromBencode for Value {
    const EXPECTED_RECURSION_DEPTH: usize = usize::MAX / 4;

    /// The object is read as [`Value::from_object`] reads it.
    fn decode_bencode_object<'obj, 'ser>(object: Object<'obj, 'ser>) -> (r: Result<
        Self,
        DecodingError,
    >)
        ensures
            object matches Object::Bytes(bytes) ==> r matches Ok(Value::Bytes(content))
                && content@ == bytes@,
            object matches Object::Integer(text) ==> match numeral_value(
                text.spec_bytes(),
                true,
                i64::MIN as int,
                i64::MAX as int,
            ) {
                Ok(value) => r matches Ok(Value::Integer(number)) && number == value,
                Err(_) => r matches Err(found) && found.path() is None && found.kind()
                    is MalformedContent,
            },
            object is List ==> (r matches Ok(value) ==> value is List),
            object is Dict ==> (r matches Ok(value) ==> value is Dict),
            unread(object) && readable(object.token()) ==> (r matches Ok(value) ==> value.tokens()
                == object_tokens(object)),
            decodable(object) ==> r is Ok,
            object matches Object::List(list) ==> (unread(object) && r is Ok ==>
                final(list.parent()).latched() is None && skip_to(
                list.decoder().input(),
                list.decoder().depth_limit(),
                list.decoder().reading(),
                (list.level() - 1) as nat,
            ) == Ok::<Reading, StructureErrorView>(final(list.parent()).reading())),
            object matches Object::Dict(dict) ==> (unread(object) && r is Ok ==>
                final(dict.parent()).latched() is None && skip_to(
                dict.decoder().input(),
                dict.decoder().depth_limit(),
                dict.decoder().reading(),
                (dict.level() - 1) as nat,
            ) == Ok::<Reading, StructureErrorView>(final(dict.parent()).reading())),
    {
        Value::from_object(object)
    }
}

/// Readable tokens after readable tokens are readable all together.
proof fn readable_together(a: Seq<TokenView>, b: Seq<TokenView>)
    requires
        all_readable(a),
        all_readable(b),
    ensures
        all_readable(a + b),
{
    assert forall|i: int| 0 <= i < (a + b).len() implies readable(#[trigger] (a + b)[i]) by {
        if i < a.len() {
            assert((a + b)[i] == a[i]);
        } else {
            assert((a + b)[i] == b[i - a.len()]);
        }
    }
}

/// Every token of the first items is readable.
proof fn items_tokens_are_readable(items: Seq<Value>, count: int)
    ensures
        all_readable(items_tokens(items, count)),
    decreases items, count,
{
    if 0 < count <= items.len() {
        items_tokens_are_readable(items, count - 1);
        items[count - 1].tokens_are_readable();
        readable_together(items_tokens(items, count - 1), items[count - 1].tokens());
    }
}

/// Every token of the first entries is readable.
proof fn entries_tokens_are_readable(entries: Seq<(Vec<u8>, Value)>, count: int)
    ensures
        all_readable(entries_tokens(entries, count)),
    decreases entries, count,
{
    if 0 < count <= entries.len() {
        entries_tokens_are_readable(entries, count - 1);
        entries[count - 1].1.tokens_are_readable();
        let key = seq![TokenView::String(entries[count - 1].0@)];
        assert(entries[count - 1].0@.len() == entries[count - 1].0.len());
        assert(all_readable(key));
        readable_together(entries_tokens(entries, count - 1), key);
        readable_together(entries_tokens(entries, count - 1) + key, entries[count - 1].1.tokens());
    }
}

impl Value {
    /// Every token of a value is one that the decoder reads back: its
    /// integers are written in canonical form.
    pub proof fn tokens_are_readable(self)
        ensures
            all_readable(self.tokens()),
        decreases self,
    {
        match self {
            Value::Bytes(bytes) => {
                assert(bytes@.len() == bytes.len());
            },
            Value::Integer(number) => {
                integer_is_written_canonically(number as int);
            },
            Value::List(items) => {
                items_tokens_are_readable(items@, items@.len() as int);
                readable_together(
                    seq![TokenView::List],
                    items_tokens(items@, items@.len() as int),
                );
                readable_together(
                    seq![TokenView::List] + items_tokens(items@, items@.len() as int),
                    seq![TokenView::End],
                );
            },
            Value::Dict(entries) => {
                entries_tokens_are_readable(entries@, entries@.len() as int);
                readable_together(
                    seq![TokenView::Dict],
                    entries_tokens(entries@, entries@.len() as int),
                );
                readable_together(
                    seq![TokenView::Dict] + entries_tokens(entries@, entries@.len() as int),
                    seq![TokenView::End],
                );
            },
        }
    }
}

impl ToBencode for Value {
    const MAX_DEPTH: usize = usize::MAX / 4;

    fn encode(&self, encoder: SingleItemEncoder) -> (r: Result<(), EncodingError>)
        ensures
            *final(encoder.mark()),
            encoder.encoder().emits_all(self.tokens(), *final(encoder.target()), r),
    {
        let target = encoder.begin();
        self.write(target)
    }
}

/// The bytes that a value is encoded to are what its tokens are written
/// as, and a decoder with the same depth accepts them: `item` is the
/// encoder that the value was told to encode itself to, `outcome` what it
/// returned and `r` what came of it.
pub proof fn encoded_value_is_accepted(
    value: Value,
    item: SingleItemEncoder,
    outcome: Result<(), EncodingError>,
    r: Result<Vec<u8>, EncodingError>,
)
    requires
        item.encoder().is_new(Value::MAX_DEPTH as nat),
        !item.value_written(),
        call_ensures(Value::encode, (&value, item), outcome),
        final(item.target()).yields(outcome, *final(item.mark()), r),
    ensures
        r matches Ok(bytes) ==> bytes@ == written(value.tokens()) && accepted(
            bytes@,
            Value::MAX_DEPTH as nat,
        ),
{
    new_encoder_is_sound(item.encoder());
    value.tokens_are_readable();
    emissions_keep_sound(item.encoder(), value.tokens(), *final(item.target()), outcome);
    if r is Ok {
        sound_output_is_accepted(*final(item.target()));
    }
}

/// A value that was decoded is encoded to the bytes that it was decoded
/// from. Here `new` is a new decoder on the bytes, and `object` the first
/// object that it found, which was decoded to the value `decoded`; `item`
/// is the new encoder that the value was told to encode itself to,
/// `outcome` what that returned and `encoded` what came of it.
pub proof fn decoded_value_is_encoded_as_read(
    new: Decoder,
    now: Decoder,
    object: Object<'_, '_>,
    decoded: Result<Value, DecodingError>,
    item: SingleItemEncoder,
    outcome: Result<(), EncodingError>,
    encoded: Result<Vec<u8>, EncodingError>,
)
    requires
        new.reading() == (Reading { at: 0, frames: Seq::empty() }),
        new.depth_limit() == Value::EXPECTED_RECURSION_DEPTH,
        new.latched() is None,
        new.finds(0, now, Ok(Some(object))),
        call_ensures(Value::decode_bencode_object, (object,), decoded),
        decoded is Ok,
        item.encoder().is_new(Value::MAX_DEPTH as nat),
        !item.value_written(),
        call_ensures(Value::encode, (&decoded->Ok_0, item), outcome),
        final(item.target()).yields(outcome, *final(item.mark()), encoded),
    ensures
        encoded matches Ok(bytes) && bytes@ == new.input().subrange(
            0,
            first_object_end(new.input(), new.depth_limit()),
        ),
{
    let src = new.input();
    let limit = new.depth_limit();
    let start = Reading { at: 0, frames: Seq::<FrameView>::empty() };
    let value = decoded->Ok_0;
    let token = object.token();
    let opened = now.reading();
    assert(skip_to(src, limit, start, 0) == Ok::<Reading, StructureErrorView>(start));
    crate::decoding::decoder::read_token_advances(src, limit, start);
    scanned_token_is_written(src, 0);
    step_moves_one_level(start.frames, limit, token);
    skipped_tokens_are_written(src, limit, opened, 0);
    skip_to_lands(src, limit, opened, 0);
    let rest = skipped(src, limit, opened, 0);
    assert(object.decoder_or(now) == now);
    assert(unread(object));
    assert(readable(token));
    let one = seq![token];
    assert(one[0] == token);
    assert(one.drop_first() =~= Seq::<TokenView>::empty());
    assert(step(Seq::empty(), limit, token) == Ok::<Seq<FrameView>, StructureErrorView>(
        opened.frames,
    ));
    assert(run(opened.frames, limit, one.drop_first()) == Ok::<
        Seq<FrameView>,
        StructureErrorView,
    >(opened.frames));
    assert(run(Seq::empty(), limit, one) == Ok::<Seq<FrameView>, StructureErrorView>(
        opened.frames,
    ));
    if object is List || object is Dict {
        assert(opened.frames.len() == 1);
        assert(object matches Object::List(list) ==> list.level() == 1);
        assert(object matches Object::Dict(dict) ==> dict.level() == 1);
        assert(skip_to(src, limit, opened, 0) is Ok);
        assert(value.tokens() == seq![token] + rest);
        written_from_the_first(token, rest);
        let behind = skip_to(src, limit, opened, 0)->Ok_0;
        assert(src.subrange(0, opened.at) + src.subrange(opened.at, behind.at) =~= src.subrange(
            0,
            behind.at,
        ));
        crate::state_tracker::lemmas::run_concat(Seq::empty(), limit, seq![token], rest);
        assert(seq![token].drop_first() =~= Seq::<TokenView>::empty());
        assert(behind.frames =~= Seq::<FrameView>::empty());
    } else {
        assert(value.tokens() == one);
        assert(one.drop_last() =~= Seq::<TokenView>::empty());
        assert(written(one) =~= token_bytes(token));
        assert(opened.frames =~= Seq::<FrameView>::empty());
    }
    let end = first_object_end(src, limit);
    assert(run(Seq::empty(), limit, value.tokens()) == Ok::<Seq<FrameView>, StructureErrorView>(
        Seq::empty(),
    ));
    assert(written(value.tokens()) == src.subrange(0, end));
    assert(Value::MAX_DEPTH == Value::EXPECTED_RECURSION_DEPTH);
    assert(item.encoder().frames() =~= Seq::<FrameView>::empty());
    passage_is_run(Seq::empty(), limit, value.tokens());
    assert(item.encoder().written() + written(value.tokens()) =~= written(value.tokens()));
    assert(outcome is Ok);
    assert(final(item.target()).frames().len() == 0);
    assert(*final(item.mark()));
}

} // verus!
