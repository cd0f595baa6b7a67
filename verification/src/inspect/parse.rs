use vstd::prelude::*;

use crate::decoding::decoder::{
    below_kept_chains, item_is_skipped, items_lead_out, keys_and_values_alternate, next_item,
    pair_is_skipped, pairs_lead_out, skip_to, skip_to_composes, skipped, Decoder, DictDecoder,
    ListDecoder, Reading,
};
use crate::decoding::error::Error;
use crate::decoding::object::{
    can_be_read, first_object_end, left_level, left_to_read, object_tokens, unread, Object,
};
use crate::encoding::encoder::token_bytes;
use crate::inspect::{
    bytes_of, entries_plain, entries_spelled, items_plain, items_spelled, plain,
    plain_object_is_written, spelled, InDict, InDictEntry, InInt, InList, InString, Inspectable,
};
use crate::round_trip::{
    found_item_is_unread, left_behind, scanned_token_is_written, skipped_tokens_are_written,
    written, written_of_both,
};
use crate::state_tracker::{FrameView, Latch, StructureError, StructureErrorView, TokenView};

verus! {

/// The first object of `src` can be read to its end, with the depth that a
/// decoder has if it is given none.
pub open spec fn can_be_inspected(src: Seq<u8>) -> bool {
    match next_item(src, 2048, Reading { at: 0, frames: Seq::empty() }, 0) {
        Ok((Some(_), opened)) => skip_to(src, 2048, opened, 0) is Ok,
        _ => false,
    }
}

/// What the first object of `src` is written as: the bytes up to where it
/// ends.
proof fn first_object_is_written(
    src: Seq<u8>,
    new: Decoder,
    now: Decoder,
    object: Object<'_, '_>,
)
    requires
        new.input() == src,
        new.reading() == (Reading { at: 0, frames: Seq::empty() }),
        new.latched() is None,
        new.finds(0, now, Ok(Some(object))),
    ensures
        unread(object),
        left_level(object) == 1,
        object.decoder_or(now) == now,
        next_item(src, new.depth_limit(), new.reading(), 0) matches Ok((Some(_), opened))
            && opened == now.reading(),
        !(object is List || object is Dict) ==> skip_to(src, new.depth_limit(), now.reading(), 0)
            is Ok,
        skip_to(src, new.depth_limit(), now.reading(), 0) is Ok ==> written(
            object_tokens(object),
        ) == src.subrange(0, first_object_end(src, new.depth_limit())),
{
    let limit = new.depth_limit();
    let start = Reading { at: 0, frames: Seq::<FrameView>::empty() };
    let token = object.token();
    let opened = now.reading();
    assert(skip_to(src, limit, start, 0) == Ok::<Reading, StructureErrorView>(start));
    crate::decoding::decoder::read_token_advances(src, limit, start);
    scanned_token_is_written(src, 0);
    crate::decoding::decoder::step_moves_one_level(start.frames, limit, token);
    skipped_tokens_are_written(src, limit, opened, 0);
    let rest = skipped(src, limit, opened, 0);
    let one = seq![token];
    assert(one.drop_last() =~= Seq::<TokenView>::empty());
    assert(one.last() == token);
    assert(written(one.drop_last()) =~= Seq::<u8>::empty());
    assert(written(one) =~= token_bytes(token));
    if let Ok(behind) = skip_to(src, limit, opened, 0) {
        if object is List || object is Dict {
            written_of_both(one, rest);
            assert(src.subrange(0, opened.at) + src.subrange(opened.at, behind.at)
                =~= src.subrange(0, behind.at));
        }
    }
}

/// Decodes the first object of `buf` into a tree: a plain one, which is
/// written as the bytes of that object.
pub fn inspect(buf: &[u8]) -> (r: Inspectable)
    requires
        can_be_inspected(buf@),
    ensures
        plain(r),
        bytes_of(r) == buf@.subrange(0, first_object_end(buf@, 2048)),
{
    let mut decoder = Decoder::new(buf);
    let ghost new = decoder;
    let found = decoder.next_object();
    match found {
        Ok(Some(object)) => {
            proof {
                first_object_is_written(
                    buf@,
                    new,
                    object.decoder_or(after_borrow(decoder)),
                    object,
                );
                skip_to_composes(
                    buf@,
                    2048,
                    object.decoder_or(after_borrow(decoder)).reading(),
                    (left_level(object) - 1) as nat,
                    0,
                );
            }
            match Inspectable::from_object(object) {
                Ok(tree) => {
                    proof {
                        plain_object_is_written(tree);
                    }
                    tree
                },
                Err(_) => vstd::pervasive::unreached(),
            }
        },
        _ => vstd::pervasive::unreached(),
    }
}

impl Inspectable {
    /// Decodes the first object of `buf` into a tree: a plain one, which
    /// is written as the bytes of that object. The error is that of the
    /// decoder, or `UnexpectedEof` where `buf` holds no object.
    pub fn from_bytes(buf: &[u8]) -> (r: Result<Inspectable, Error>)
        ensures
            r is Ok <==> can_be_inspected(buf@),
            r matches Ok(tree) ==> plain(tree) && bytes_of(tree) == buf@.subrange(
                0,
                first_object_end(buf@, 2048),
            ),
            match next_item(buf@, 2048, Reading { at: 0, frames: Seq::empty() }, 0) {
                Err(violation) => r matches Err(error) && error.reports(violation),
                Ok((None, _)) => r matches Err(error) && error.reports(
                    StructureErrorView::UnexpectedEof,
                ),
                Ok((Some(_), _)) => true,
            },
    {
        let mut decoder = Decoder::new(buf);
        let ghost new = decoder;
        let found = decoder.next_object();
        match found {
            Err(error) => Err(error),
            Ok(None) => Err(Error::raise(StructureError::UnexpectedEof)),
            Ok(Some(object)) => {
                proof {
                    first_object_is_written(
                        buf@,
                        new,
                        object.decoder_or(after_borrow(decoder)),
                        object,
                    );
                    if can_be_inspected(buf@) {
                        skip_to_composes(
                            buf@,
                            2048,
                            object.decoder_or(after_borrow(decoder)).reading(),
                            (left_level(object) - 1) as nat,
                            0,
                        );
                    }
                }
                let r = Inspectable::from_object(object);
                proof {
                    if r is Ok {
                        plain_object_is_written(r->Ok_0);
                    }
                }
                r
            },
        }
    }

    /// Reads the object into a tree: a list or a dictionary is read to its
    /// end.
    pub fn from_object<'obj, 'ser>(object: Object<'obj, 'ser>) -> (r: Result<Inspectable, Error>)
        requires
            object.wf(),
        ensures
            object matches Object::List(list) ==> list.leaves(*final(list.parent())),
            object matches Object::Dict(dict) ==> dict.leaves(*final(dict.parent())),
            can_be_read(object) ==> r is Ok,
            unread(object) ==> (r matches Ok(tree) ==> plain(tree) && spelled(tree)
                == object_tokens(object)),
            unread(object) && r is Ok ==> can_be_read(object),
            object matches Object::List(list) ==> (can_be_read(object) ==>
                final(list.parent()).latched() is None && skip_to(
                list.decoder().input(),
                list.decoder().depth_limit(),
                list.decoder().reading(),
                (list.level() - 1) as nat,
            ) == Ok::<Reading, StructureErrorView>(final(list.parent()).reading())),
            object matches Object::Dict(dict) ==> (can_be_read(object) ==>
                final(dict.parent()).latched() is None && skip_to(
                dict.decoder().input(),
                dict.decoder().depth_limit(),
                dict.decoder().reading(),
                (dict.level() - 1) as nat,
            ) == Ok::<Reading, StructureErrorView>(final(dict.parent()).reading())),
        decreases left_to_read(object), 1int,
    {
        match object {
            Object::List(ld) => match InList::from_list(ld) {
                Ok(list) => {
                    proof {
                        let inner = items_spelled(list.items@, list.items@.len() as int);
                        assert(seq![TokenView::List] + (inner + seq![TokenView::End]) =~= (seq![
                            TokenView::List,
                        ] + inner) + seq![TokenView::End]);
                    }
                    Ok(Inspectable::List(list))
                },
                Err(error) => Err(error),
            },
            Object::Dict(dd) => match InDict::from_dict(dd) {
                Ok(dict) => {
                    proof {
                        let inner = entries_spelled(dict.items@, dict.items@.len() as int);
                        assert(seq![TokenView::Dict] + (inner + seq![TokenView::End]) =~= (seq![
                            TokenView::Dict,
                        ] + inner) + seq![TokenView::End]);
                    }
                    Ok(Inspectable::Dict(dict))
                },
                Err(error) => Err(error),
            },
            Object::Integer(i) => Ok(Inspectable::Int(InInt::new(i))),
            Object::Bytes(b) => Ok(Inspectable::String(InString::new(b))),
        }
    }
}

/// The tokens of the first items, and whether they are plain, do not
/// change where an item is added.
proof fn items_of_more(items: Seq<Inspectable>, item: Inspectable, count: int)
    requires
        0 <= count <= items.len(),
    ensures
        items_spelled(items.push(item), count) == items_spelled(items, count),
        items_plain(items.push(item), count) == items_plain(items, count),
        count == items.len() ==> items_spelled(items.push(item), count + 1) == items_spelled(
            items,
            count,
        ) + spelled(item),
        count == items.len() ==> items_plain(items.push(item), count + 1) == (items_plain(
            items,
            count,
        ) && plain(item)),
    decreases count,
{
    if count > 0 {
        items_of_more(items, item, count - 1);
        assert(items.push(item)[count - 1] == items[count - 1]);
    }
    if count == items.len() {
        assert(items.push(item)[count] == item);
    }
}

/// The tokens of the first entries, and whether they are plain, do not
/// change where an entry is added.
proof fn entries_of_more(items: Seq<InDictEntry>, entry: InDictEntry, count: int)
    requires
        0 <= count <= items.len(),
    ensures
        entries_spelled(items.push(entry), count) == entries_spelled(items, count),
        entries_plain(items.push(entry), count) == entries_plain(items, count),
        count == items.len() ==> entries_spelled(items.push(entry), count + 1)
            == entries_spelled(items, count) + spelled(entry.key) + spelled(entry.value),
        count == items.len() ==> entries_plain(items.push(entry), count + 1) == (entries_plain(
            items,
            count,
        ) && plain(entry.key) && plain(entry.value)),
    decreases count,
{
    let more = items.push(entry);
    if count > 0 {
        entries_of_more(items, entry, count - 1);
        assert(more[count - 1] == items[count - 1]);
    }
    if count == items.len() {
        assert(more[count] == entry);
        assert(more.len() == count + 1);
        assert(entries_spelled(more, count + 1) == entries_spelled(more, count) + spelled(
            more[count].key,
        ) + spelled(more[count].value));
        assert(entries_plain(more, count + 1) == (entries_plain(more, count) && plain(
            more[count].key,
        ) && plain(more[count].value)));
    }
}

impl InList {
    /// Reads the list to its end into a tree.
    #[verifier::rlimit(100)]
    #[verifier::spinoff_prover]
    pub fn from_list<'obj, 'ser>(ld: ListDecoder<'obj, 'ser>) -> (r: Result<Self, Error>)
        requires
            ld.wf(),
        ensures
            ld.leaves(*final(ld.parent())),
            can_be_read(Object::List(ld)) ==> r is Ok && final(ld.parent()).latched() is None
                && skip_to(
                ld.decoder().input(),
                ld.decoder().depth_limit(),
                ld.decoder().reading(),
                (ld.level() - 1) as nat,
            ) == Ok::<Reading, StructureErrorView>(final(ld.parent()).reading()),
            unread(Object::List(ld)) ==> (r matches Ok(list) ==> {
                &&& items_spelled(list.items@, list.items@.len() as int) + seq![TokenView::End]
                    == skipped(
                    ld.decoder().input(),
                    ld.decoder().depth_limit(),
                    ld.decoder().reading(),
                    (ld.level() - 1) as nat,
                )
                &&& items_plain(list.items@, list.items@.len() as int)
                &&& can_be_read(Object::List(ld))
            }),
        decreases left_to_read(Object::List(ld)), 0int,
    {
        let mut list = ld;
        let mut items: Vec<Inspectable> = Vec::new();
        let ghost src = ld.decoder().input();
        let ghost limit = ld.decoder().depth_limit();
        let ghost out = (ld.level() - 1) as nat;
        loop
            invariant
                src == ld.decoder().input(),
                limit == ld.decoder().depth_limit(),
                out == ld.level() - 1,
                unread(Object::List(ld)) ==> {
                    &&& !list.is_finished()
                    &&& list.decoder().latched() is None
                    &&& list.decoder().reading().frames.len() == list.level()
                    &&& skip_to(src, limit, list.decoder().reading(), out) == skip_to(
                        src,
                        limit,
                        ld.decoder().reading(),
                        out,
                    )
                    &&& items_spelled(items@, items@.len() as int) + skipped(
                        src,
                        limit,
                        list.decoder().reading(),
                        out,
                    ) == skipped(src, limit, ld.decoder().reading(), out)
                    &&& items_plain(items@, items@.len() as int)
                },
                list.wf(),
                ld.same_list(list),
                ld.leaves(list.decoder()),
                ld.decoder().read_on(list.decoder()),
                *final(list.parent()) == *final(ld.parent()),
                can_be_read(Object::List(ld)) ==> !list.is_finished() && list.decoder().latched()
                    is None && skip_to(
                    list.decoder().input(),
                    list.decoder().depth_limit(),
                    list.decoder().reading(),
                    (list.level() - 1) as nat,
                ) == skip_to(
                    ld.decoder().input(),
                    ld.decoder().depth_limit(),
                    ld.decoder().reading(),
                    (ld.level() - 1) as nat,
                ),
            decreases list.decoder().input().len() - list.decoder().reading().at,
        {
            let ghost before = list.decoder().reading();
            let ghost so_far = items_spelled(items@, items@.len() as int);
            proof {
                if !list.is_finished() && list.decoder().latched() is None {
                    items_lead_out(
                        list.decoder().input(),
                        list.decoder().depth_limit(),
                        before,
                        list.level(),
                    );
                }
                if unread(Object::List(ld)) {
                    item_is_skipped(src, limit, before, list.level());
                }
            }
            let found = list.next_object();
            let object = match found {
                Err(error) => {
                    proof {
                        list.gives_back();
                    }
                    return Err(error);
                },
                Ok(None) => {
                    proof {
                        list.gives_back();
                    }
                    return Ok(InList { items });
                },
                Ok(Some(object)) => object,
            };
            let ghost item_found = object;
            let ghost at = object.decoder_or(after_borrow(list).decoder());
            let ghost opened = at.reading();
            proof {
                if unread(Object::List(ld)) {
                    found_item_is_unread(src, limit, before, ld.level(), item_found, at);
                }
                skip_to_composes(
                    ld.decoder().input(),
                    ld.decoder().depth_limit(),
                    opened,
                    ld.level(),
                    (ld.level() - 1) as nat,
                );
            }
            let item = match Inspectable::from_object(object) {
                Ok(item) => item,
                Err(error) => {
                    proof {
                        below_kept_chains(
                            before.frames,
                            opened.frames,
                            list.decoder().reading().frames,
                            list.level(),
                        );
                        below_kept_chains(
                            ld.decoder().reading().frames,
                            before.frames,
                            list.decoder().reading().frames,
                            list.level(),
                        );
                        list.gives_back();
                    }
                    return Err(error);
                },
            };
            proof {
                below_kept_chains(
                    before.frames,
                    opened.frames,
                    list.decoder().reading().frames,
                    list.level(),
                );
                below_kept_chains(
                    ld.decoder().reading().frames,
                    before.frames,
                    list.decoder().reading().frames,
                    list.level(),
                );
                items_of_more(items@, item, items@.len() as int);
                if unread(Object::List(ld)) {
                    let behind = list.decoder().reading();
                    if item_found is List || item_found is Dict {
                        left_behind(src, limit, opened, list.level(), behind);
                        assert(seq![item_found.token()] + (skipped(
                            src,
                            limit,
                            opened,
                            list.level(),
                        ) + skipped(src, limit, behind, out)) =~= spelled(item) + skipped(
                            src,
                            limit,
                            behind,
                            out,
                        ));
                    }
                    assert((so_far + spelled(item)) + skipped(src, limit, behind, out) =~= so_far
                        + (spelled(item) + skipped(src, limit, behind, out)));
                }
            }
            items.push(item);
        }
    }
}

impl InDict {
    /// Reads the dictionary to its end into a tree.
    #[verifier::rlimit(100)]
    #[verifier::spinoff_prover]
    pub fn from_dict<'obj, 'ser>(dd: DictDecoder<'obj, 'ser>) -> (r: Result<Self, Error>)
        requires
            dd.wf(),
        ensures
            dd.leaves(*final(dd.parent())),
            can_be_read(Object::Dict(dd)) ==> r is Ok && final(dd.parent()).latched() is None
                && skip_to(
                dd.decoder().input(),
                dd.decoder().depth_limit(),
                dd.decoder().reading(),
                (dd.level() - 1) as nat,
            ) == Ok::<Reading, StructureErrorView>(final(dd.parent()).reading()),
            unread(Object::Dict(dd)) ==> (r matches Ok(dict) ==> {
                &&& entries_spelled(dict.items@, dict.items@.len() as int) + seq![TokenView::End]
                    == skipped(
                    dd.decoder().input(),
                    dd.decoder().depth_limit(),
                    dd.decoder().reading(),
                    (dd.level() - 1) as nat,
                )
                &&& entries_plain(dict.items@, dict.items@.len() as int)
                &&& can_be_read(Object::Dict(dd))
            }),
        decreases left_to_read(Object::Dict(dd)), 0int,
    {
        let mut dict = dd;
        let mut items: Vec<InDictEntry> = Vec::new();
        let ghost src = dd.decoder().input();
        let ghost limit = dd.decoder().depth_limit();
        let ghost out = (dd.level() - 1) as nat;
        loop
            invariant
                src == dd.decoder().input(),
                limit == dd.decoder().depth_limit(),
                out == dd.level() - 1,
                unread(Object::Dict(dd)) ==> {
                    &&& !dict.is_finished()
                    &&& dict.decoder().latched() is None
                    &&& dict.decoder().reading().frames.len() == dict.level()
                    &&& skip_to(src, limit, dict.decoder().reading(), out) == skip_to(
                        src,
                        limit,
                        dd.decoder().reading(),
                        out,
                    )
                    &&& entries_spelled(items@, items@.len() as int) + skipped(
                        src,
                        limit,
                        dict.decoder().reading(),
                        out,
                    ) == skipped(src, limit, dd.decoder().reading(), out)
                    &&& entries_plain(items@, items@.len() as int)
                },
                dict.wf(),
                dd.same_dict(dict),
                dd.leaves(dict.decoder()),
                dd.decoder().read_on(dict.decoder()),
                *final(dict.parent()) == *final(dd.parent()),
                can_be_read(Object::Dict(dd)) ==> !dict.is_finished() && dict.decoder().latched()
                    is None && skip_to(
                    dict.decoder().input(),
                    dict.decoder().depth_limit(),
                    dict.decoder().reading(),
                    (dict.level() - 1) as nat,
                ) == skip_to(
                    dd.decoder().input(),
                    dd.decoder().depth_limit(),
                    dd.decoder().reading(),
                    (dd.level() - 1) as nat,
                ),
            decreases dict.decoder().input().len() - dict.decoder().reading().at,
        {
            let ghost before = dict.decoder().reading();
            let ghost so_far = entries_spelled(items@, items@.len() as int);
            proof {
                if !dict.is_finished() && dict.decoder().latched() is None {
                    pairs_lead_out(
                        dict.decoder().input(),
                        dict.decoder().depth_limit(),
                        before,
                        dict.level(),
                    );
                }
                if unread(Object::Dict(dd)) {
                    pair_is_skipped(src, limit, before, dict.level());
                    keys_and_values_alternate(src, limit, before, dict.level());
                    items_lead_out(src, limit, before, dict.level());
                    item_is_skipped(src, limit, before, dict.level());
                }
            }
            let found = dict.next_pair();
            let (k, v) = match found {
                Err(error) => {
                    proof {
                        dict.gives_back();
                    }
                    return Err(error);
                },
                Ok(None) => {
                    proof {
                        dict.gives_back();
                    }
                    return Ok(InDict { items });
                },
                Ok(Some(pair)) => pair,
            };
            let ghost item_found = v;
            let ghost at = v.decoder_or(after_borrow(dict).decoder());
            let ghost opened = at.reading();
            proof {
                if unread(Object::Dict(dd)) {
                    let between = next_item(src, limit, before, dd.level())->Ok_0.1;
                    assert(skip_to(src, limit, between, out) == skip_to(src, limit, before, out));
                    found_item_is_unread(src, limit, between, dd.level(), item_found, at);
                    assert(skipped(src, limit, before, out) == seq![TokenView::String(k@)] + (
                    seq![item_found.token()] + skipped(src, limit, opened, out)));
                }
                skip_to_composes(
                    dd.decoder().input(),
                    dd.decoder().depth_limit(),
                    opened,
                    dd.level(),
                    (dd.level() - 1) as nat,
                );
            }
            let value = match Inspectable::from_object(v) {
                Ok(value) => value,
                Err(error) => {
                    proof {
                        below_kept_chains(
                            before.frames,
                            opened.frames,
                            dict.decoder().reading().frames,
                            dict.level(),
                        );
                        below_kept_chains(
                            dd.decoder().reading().frames,
                            before.frames,
                            dict.decoder().reading().frames,
                            dict.level(),
                        );
                        dict.gives_back();
                    }
                    return Err(error);
                },
            };
            proof {
                below_kept_chains(
                    before.frames,
                    opened.frames,
                    dict.decoder().reading().frames,
                    dict.level(),
                );
                below_kept_chains(
                    dd.decoder().reading().frames,
                    before.frames,
                    dict.decoder().reading().frames,
                    dict.level(),
                );
                assert(dict.level() <= dict.decoder().reading().frames.len()
                    ==> dict.decoder().reading().frames.take(dict.level() as int)[dict.level() - 1]
                    == dict.decoder().reading().frames[dict.level() - 1]);
                assert(dict.level() <= opened.frames.len() ==> opened.frames.take(
                    dict.level() as int,
                )[dict.level() - 1] == opened.frames[dict.level() - 1]);
            }
            let entry = InDictEntry { key: Inspectable::String(InString::new(k)), value };
            proof {
                entries_of_more(items@, entry, items@.len() as int);
                if unread(Object::Dict(dd)) {
                    let behind = dict.decoder().reading();
                    if item_found is List || item_found is Dict {
                        left_behind(src, limit, opened, dict.level(), behind);
                        assert(seq![item_found.token()] + (skipped(
                            src,
                            limit,
                            opened,
                            dict.level(),
                        ) + skipped(src, limit, behind, out)) =~= spelled(entry.value) + skipped(
                            src,
                            limit,
                            behind,
                            out,
                        ));
                    }
                    assert((so_far + spelled(entry.key) + spelled(entry.value)) + skipped(
                        src,
                        limit,
                        behind,
                        out,
                    ) =~= so_far + (seq![TokenView::String(k@)] + (spelled(entry.value) + skipped(
                        src,
                        limit,
                        behind,
                        out,
                    ))));
                }
            }
            items.push(entry);
        }
    }
}

} // verus!
