use smallvec::SmallVec;

use vstd::prelude::*;

use crate::inspect::mutate::same_bytes;
use crate::inspect::{alike, int_text, InDictEntry, Inspectable};
use crate::text::push_decimal;

verus! {


/// What to look for in a tree, wherever it is.
#[derive(Debug)]
pub enum Search {
    /// A byte string with this content.
    ByteString(Vec<u8>),
    /// An entry of a dictionary with this key.
    DictKey(Vec<u8>),
    /// An integer that is written as this text.
    Int(String),
}

/// One step on the way from an object of a tree to an object inside it.
#[derive(Debug)]
pub enum Step {
    /// To the first object that is found by the search, in the order in
    /// which the tree is written.
    Search(Search),
    /// To the item of a list, or the entry of a dictionary, at an index.
    Nth(usize),
    /// To the first entry of a dictionary with a key.
    Entry(Vec<u8>),
    /// From an entry of a dictionary to its key.
    Key,
    /// From an entry of a dictionary to its value.
    Value,
}

impl Search {
    /// A copy of the search.
    pub fn duplicate(&self) -> (r: Self)
        ensures
            r.same_as(*self),
    {
        match self {
            Search::ByteString(x) => Search::ByteString(x.clone()),
            Search::DictKey(x) => Search::DictKey(x.clone()),
            Search::Int(x) => Search::Int(x.clone()),
        }
    }

    /// The two look for the same.
    pub open spec fn same_as(self, other: Self) -> bool {
        match (self, other) {
            (Search::ByteString(a), Search::ByteString(b)) => a@ == b@,
            (Search::DictKey(a), Search::DictKey(b)) => a@ == b@,
            (Search::Int(a), Search::Int(b)) => a@ == b@,
            _ => false,
        }
    }
}

impl Step {
    /// A copy of the step.
    pub fn duplicate(&self) -> (r: Self)
        ensures
            r.same_as(*self),
    {
        match self {
            Step::Search(x) => Step::Search(x.duplicate()),
            Step::Nth(x) => Step::Nth(*x),
            Step::Entry(x) => Step::Entry(x.clone()),
            Step::Key => Step::Key,
            Step::Value => Step::Value,
        }
    }

    /// The two are the same step.
    pub open spec fn same_as(self, other: Self) -> bool {
        match (self, other) {
            (Step::Search(a), Step::Search(b)) => a.same_as(b),
            (Step::Nth(a), Step::Nth(b)) => a == b,
            (Step::Entry(a), Step::Entry(b)) => a@ == b@,
            (Step::Key, Step::Key) => true,
            (Step::Value, Step::Value) => true,
            _ => false,
        }
    }
}

/// The steps of a way, in a `smallvec::SmallVec` that keeps the first
/// twenty of them in itself.
#[verifier::external_body]
pub struct Steps {
    inner: SmallVec<[Step; 20]>,
}

/// The steps that are held, in their order.
pub uninterp spec fn steps_of(steps: Steps) -> Seq<Step>;

/// `SmallVec::new`: a vector that holds nothing.
#[verifier::external_body]
fn no_steps() -> (r: Steps)
    ensures
        steps_of(r) == Seq::<Step>::empty(),
{
    Steps { inner: SmallVec::new() }
}

/// `SmallVec::push`: the vector holds `step` behind what it held.
#[verifier::external_body]
fn add_step(steps: &mut Steps, step: Step)
    ensures
        steps_of(*final(steps)) == steps_of(*old(steps)).push(step),
{
    steps.inner.push(step)
}

/// `SmallVec::len`: the number of items that the vector holds.
#[verifier::external_body]
fn count_steps(steps: &Steps) -> (r: usize)
    ensures
        r == steps_of(*steps).len(),
{
    steps.inner.len()
}

/// The item at an index of the slice that a `SmallVec` derefs to, as `get`
/// of the slice gives it: none where the vector holds no more than `pc`
/// items.
#[verifier::external_body]
fn step_at(steps: &Steps, pc: usize) -> (r: Option<&Step>)
    ensures
        pc < steps_of(*steps).len() ==> r == Some(&steps_of(*steps)[pc as int]),
        pc >= steps_of(*steps).len() ==> r is None,
{
    steps.inner.get(pc)
}

/// A way from an object of a tree to an object inside it, step by step.
pub struct PathBuilder {
    pub steps: Steps,
}

impl PathBuilder {
    /// The steps of the way.
    pub open spec fn view(&self) -> Seq<Step> {
        steps_of(self.steps)
    }

    /// `longer` is this way with `step` behind it.
    pub open spec fn extended_by(&self, step: Step, longer: Self) -> bool {
        &&& longer@.len() == self@.len() + 1
        &&& forall|i: int| 0 <= i < self@.len() ==> (#[trigger] longer@[i]).same_as(self@[i])
        &&& longer@[self@.len() as int].same_as(step)
    }

    /// The way that leads nowhere: to the object itself.
    pub fn new() -> (r: Self)
        ensures
            r@.len() == 0,
    {
        PathBuilder { steps: no_steps() }
    }

    /// A copy of the way.
    pub fn duplicate(&self) -> (r: Self)
        ensures
            r@.len() == self@.len(),
            forall|i: int| 0 <= i < self@.len() ==> (#[trigger] r@[i]).same_as(self@[i]),
    {
        let mut copy = no_steps();
        let count = count_steps(&self.steps);
        let mut i: usize = 0;
        while i < count
            invariant
                i <= count,
                count == self@.len(),
                steps_of(copy).len() == i,
                forall|k: int| 0 <= k < i ==> (#[trigger] steps_of(copy)[k]).same_as(self@[k]),
            decreases count - i,
        {
            match step_at(&self.steps, i) {
                Some(step) => add_step(&mut copy, step.duplicate()),
                None => {},
            }
            i = i + 1;
        }
        PathBuilder { steps: copy }
    }

    /// The way with `step` behind it.
    fn with(self, step: Step) -> (r: Self)
        ensures
            r@ == self@.push(step),
            self.extended_by(step, r),
    {
        let mut path = self;
        add_step(&mut path.steps, step);
        path
    }

    /// A copy of the way with `step` behind it.
    fn and(&self, step: Step) -> (r: Self)
        ensures
            self.extended_by(step, r),
    {
        self.duplicate().with(step)
    }

    /// Then to the item or the entry at `idx`.
    pub fn into_nth(self, idx: usize) -> (r: Self)
        ensures
            r@ == self@.push(Step::Nth(idx)),
    {
        self.with(Step::Nth(idx))
    }

    /// Then to the item or the entry at `idx`.
    pub fn nth(&self, idx: usize) -> (r: Self)
        ensures
            self.extended_by(Step::Nth(idx), r),
    {
        self.and(Step::Nth(idx))
    }

    /// Then to the first entry with the key `entry_key`.
    pub fn into_entry(self, entry_key: &[u8]) -> (r: Self)
        ensures
            r@.len() == self@.len() + 1,
            r@.drop_last() == self@,
            r@.last() matches Step::Entry(key) && key@ == entry_key@,
    {
        let step = Step::Entry(vstd::slice::slice_to_vec(entry_key));
        let r = self.with(step);
        proof {
            assert(r@.drop_last() =~= self@);
        }
        r
    }

    /// Then to the first entry with the key `entry_key`.
    pub fn entry(&self, entry_key: &[u8]) -> (r: Self)
        ensures
            r@.len() == self@.len() + 1,
            forall|i: int| 0 <= i < self@.len() ==> (#[trigger] r@[i]).same_as(self@[i]),
            r@.last() matches Step::Entry(key) && key@ == entry_key@,
    {
        self.and(Step::Entry(vstd::slice::slice_to_vec(entry_key)))
    }

    /// Then from the entry to its key.
    pub fn into_key(self) -> (r: Self)
        ensures
            r@ == self@.push(Step::Key),
    {
        self.with(Step::Key)
    }

    /// Then from the entry to its key.
    pub fn key(&self) -> (r: Self)
        ensures
            self.extended_by(Step::Key, r),
    {
        self.and(Step::Key)
    }

    /// Then from the entry to its value.
    pub fn into_value(self) -> (r: Self)
        ensures
            r@ == self@.push(Step::Value),
    {
        self.with(Step::Value)
    }

    /// Then from the entry to its value.
    pub fn value(&self) -> (r: Self)
        ensures
            self.extended_by(Step::Value, r),
    {
        self.and(Step::Value)
    }

    /// Then to the first byte string with the content `bytestring`.
    pub fn into_search_bytestring(self, bytestring: &[u8]) -> (r: Self)
        ensures
            r@.len() == self@.len() + 1,
            r@.drop_last() == self@,
            r@.last() matches Step::Search(Search::ByteString(content)) && content@
                == bytestring@,
    {
        let step = Step::Search(Search::ByteString(vstd::slice::slice_to_vec(bytestring)));
        let r = self.with(step);
        proof {
            assert(r@.drop_last() =~= self@);
        }
        r
    }

    /// Then to the first byte string with the content `bytestring`.
    pub fn search_bytestring(&self, bytestring: &[u8]) -> (r: Self)
        ensures
            r@.len() == self@.len() + 1,
            forall|i: int| 0 <= i < self@.len() ==> (#[trigger] r@[i]).same_as(self@[i]),
            r@.last() matches Step::Search(Search::ByteString(content)) && content@
                == bytestring@,
    {
        self.and(Step::Search(Search::ByteString(vstd::slice::slice_to_vec(bytestring))))
    }

    /// Then to the first entry, anywhere, with the key `dict_key`.
    pub fn into_search_entry(self, dict_key: &[u8]) -> (r: Self)
        ensures
            r@.len() == self@.len() + 1,
            r@.drop_last() == self@,
            r@.last() matches Step::Search(Search::DictKey(key)) && key@ == dict_key@,
    {
        let step = Step::Search(Search::DictKey(vstd::slice::slice_to_vec(dict_key)));
        let r = self.with(step);
        proof {
            assert(r@.drop_last() =~= self@);
        }
        r
    }

    /// Then to the first entry, anywhere, with the key `dict_key`.
    pub fn search_entry(&self, dict_key: &[u8]) -> (r: Self)
        ensures
            r@.len() == self@.len() + 1,
            forall|i: int| 0 <= i < self@.len() ==> (#[trigger] r@[i]).same_as(self@[i]),
            r@.last() matches Step::Search(Search::DictKey(key)) && key@ == dict_key@,
    {
        self.and(Step::Search(Search::DictKey(vstd::slice::slice_to_vec(dict_key))))
    }

    /// Then to the first integer that is written as `number`.
    pub fn into_search_int(self, number: &str) -> (r: Self)
        ensures
            r@.len() == self@.len() + 1,
            r@.drop_last() == self@,
            r@.last() matches Step::Search(Search::Int(text)) && text@ == number@,
    {
        let step = Step::Search(Search::Int(number.to_owned()));
        let r = self.with(step);
        proof {
            assert(r@.drop_last() =~= self@);
        }
        r
    }

    /// Then to the first integer that is written as `number`.
    pub fn search_int(&self, number: &str) -> (r: Self)
        ensures
            r@.len() == self@.len() + 1,
            forall|i: int| 0 <= i < self@.len() ==> (#[trigger] r@[i]).same_as(self@[i]),
            r@.last() matches Step::Search(Search::Int(text)) && text@ == number@,
    {
        self.and(Step::Search(Search::Int(number.to_owned())))
    }

    /// Then to the first integer `number`.
    pub fn into_search_int_i64(self, number: i64) -> (r: Self)
        ensures
            r@.len() == self@.len() + 1,
            r@.drop_last() == self@,
            r@.last() matches Step::Search(Search::Int(text)) && text@ == int_text(
                number as int,
            ),
    {
        let step = Step::Search(Search::Int(text_of(number)));
        let r = self.with(step);
        proof {
            assert(r@.drop_last() =~= self@);
        }
        r
    }

    /// Then to the first integer `number`.
    pub fn search_int_i64(&self, number: i64) -> (r: Self)
        ensures
            r@.len() == self@.len() + 1,
            forall|i: int| 0 <= i < self@.len() ==> (#[trigger] r@[i]).same_as(self@[i]),
            r@.last() matches Step::Search(Search::Int(text)) && text@ == int_text(
                number as int,
            ),
    {
        self.and(Step::Search(Search::Int(text_of(number))))
    }
}

/// The object to which the steps from `pc` on lead from `object`, if they
/// lead to one; or that they lead astray: a step has chosen an entry of a
/// dictionary, and the step after it says neither `Key` nor `Value`.
///
/// A search finds an integer or a byte string that it matches, and looks
/// through lists and dictionaries in the order in which they are written;
/// in raw bytes nothing is found.
pub open spec fn follow(object: Inspectable, steps: Seq<Step>, pc: int) -> Result<
    Option<Inspectable>,
    (),
>
    decreases object, 0int,
{
    if pc < 0 || pc >= steps.len() {
        Ok(Some(object))
    } else {
        match object {
            Inspectable::Raw(_) => Ok(None),
            Inspectable::Int(x) => if steps[pc] matches Step::Search(Search::Int(text))
                && text@ == x.bytes@ {
                Ok(Some(object))
            } else {
                Ok(None)
            },
            Inspectable::String(x) => if steps[pc] matches Step::Search(
                Search::ByteString(content),
            ) && content@ == x.bytes@ {
                Ok(Some(object))
            } else {
                Ok(None)
            },
            Inspectable::List(x) => match steps[pc] {
                Step::Nth(idx) => if idx < x.items@.len() {
                    follow(x.items@[idx as int], steps, pc + 1)
                } else {
                    Ok(None)
                },
                Step::Search(_) => search_items(x.items@, 0, steps, pc),
                _ => Ok(None),
            },
            Inspectable::Dict(x) => match steps[pc] {
                Step::Nth(idx) => if idx < x.items@.len() {
                    descend(x.items@[idx as int], steps, pc)
                } else {
                    Ok(None)
                },
                Step::Entry(key) => match entry_with_key(x.items@, 0, key@) {
                    Some(at) => if 0 <= at < x.items@.len() {
                        descend(x.items@[at], steps, pc)
                    } else {
                        Ok(None)
                    },
                    None => Ok(None),
                },
                Step::Search(Search::DictKey(key)) => search_entries(
                    x.items@,
                    0,
                    Some(key@),
                    steps,
                    pc,
                ),
                Step::Search(_) => search_entries(x.items@, 0, None, steps, pc),
                _ => Ok(None),
            },
        }
    }
}

/// From an entry that the step at `pc` has chosen, on to its key or its
/// value, as the step after it says.
pub open spec fn descend(entry: InDictEntry, steps: Seq<Step>, pc: int) -> Result<
    Option<Inspectable>,
    (),
>
    decreases entry, 1int,
{
    if pc + 1 < steps.len() && steps[pc + 1] is Key {
        follow(entry.key, steps, pc + 2)
    } else if pc + 1 < steps.len() && steps[pc + 1] is Value {
        follow(entry.value, steps, pc + 2)
    } else {
        Err(())
    }
}

/// What the search at `pc` finds first in the items from `from` on.
pub open spec fn search_items(items: Seq<Inspectable>, from: int, steps: Seq<Step>, pc: int) -> Result<
    Option<Inspectable>,
    (),
>
    decreases items, items.len() - from,
{
    if from < 0 || from >= items.len() {
        Ok(None)
    } else {
        match follow(items[from], steps, pc) {
            Ok(None) => search_items(items, from + 1, steps, pc),
            other => other,
        }
    }
}

/// What the search at `pc` finds first in the entries from `from` on: in
/// an entry that has the key `wanted`, what the steps lead to from the
/// entry; in every other entry, what the search finds in its value.
pub open spec fn search_entries(
    items: Seq<InDictEntry>,
    from: int,
    wanted: Option<Seq<u8>>,
    steps: Seq<Step>,
    pc: int,
) -> Result<Option<Inspectable>, ()>
    decreases items, items.len() - from,
{
    if from < 0 || from >= items.len() {
        Ok(None)
    } else {
        let found = if has_key(items[from], wanted) {
            descend(items[from], steps, pc)
        } else {
            follow(items[from].value, steps, pc)
        };
        match found {
            Ok(None) => search_entries(items, from + 1, wanted, steps, pc),
            other => other,
        }
    }
}

/// The key of the entry is a byte string with the content `wanted`.
pub open spec fn has_key(entry: InDictEntry, wanted: Option<Seq<u8>>) -> bool {
    wanted matches Some(key) && entry.key matches Inspectable::String(x) && x.bytes@ == key
}

/// The index of the first entry from `from` on whose key is a byte string
/// with the content `key`.
pub open spec fn entry_with_key(items: Seq<InDictEntry>, from: int, key: Seq<u8>) -> Option<int>
    decreases items.len() - from,
{
    if from < 0 || from >= items.len() {
        None
    } else if has_key(items[from], Some(key)) {
        Some(from)
    } else {
        entry_with_key(items, from + 1, key)
    }
}

/// The object that is referred to, if one is.
pub open spec fn referred(found: Option<&Inspectable>) -> Result<Option<Inspectable>, ()> {
    match found {
        Some(object) => Ok(Some(*object)),
        None => Ok(None),
    }
}

/// Whether the key of the entry is a byte string with the content `key`.
fn key_is(entry: &InDictEntry, key: &[u8]) -> (r: bool)
    ensures
        r == has_key(*entry, Some(key@)),
{
    match &entry.key {
        Inspectable::String(x) => same_bytes(x.content(), key),
        _ => false,
    }
}

/// Whether the two texts are the same.
fn same_text(a: &str, b: &str) -> (r: bool)
    ensures
        r == (a@ == b@),
{
    let same = same_bytes(a.as_bytes(), b.as_bytes());
    proof {
        vstd::utf8::encode_utf8_decode_utf8(a@);
        vstd::utf8::encode_utf8_decode_utf8(b@);
    }
    same
}

impl InDictEntry {
    /// From this entry, which the step at `pc` has chosen, on to its key
    /// or its value.
    fn find_from(&self, steps: &Steps, pc: usize) -> (r: Option<&Inspectable>)
        requires
            pc < steps_of(*steps).len(),
            descend(*self, steps_of(*steps), pc as int) is Ok,
        ensures
            referred(r) == descend(*self, steps_of(*steps), pc as int),
        decreases self, 1int,
    {
        let count = count_steps(steps);
        match step_at(steps, pc + 1) {
            Some(Step::Key) => self.key.find_ref_impl(steps, pc + 2),
            Some(Step::Value) => self.value.find_ref_impl(steps, pc + 2),
            _ => vstd::pervasive::unreached(),
        }
    }
}

impl Inspectable {
    /// The object to which the way leads from this one.
    pub fn find_ref(&self, path: &PathBuilder) -> (r: &Inspectable)
        requires
            follow(*self, path@, 0) matches Ok(Some(_)),
        ensures
            follow(*self, path@, 0) == Ok::<Option<Inspectable>, ()>(Some(*r)),
    {
        match self.find_ref_impl(&path.steps, 0) {
            Some(x) => x,
            None => vstd::pervasive::unreached(),
        }
    }

    /// The object to which the steps from `pc` on lead from this one, if
    /// they lead to one.
    fn find_ref_impl(&self, steps: &Steps, pc: usize) -> (r: Option<&Inspectable>)
        requires
            follow(*self, steps_of(*steps), pc as int) is Ok,
        ensures
            referred(r) == follow(*self, steps_of(*steps), pc as int),
        decreases self, 0int,
    {
        let count = count_steps(steps);
        let current_step = match step_at(steps, pc) {
            Some(x) => x,
            None => return Some(self),
        };
        match self {
            Inspectable::Raw(_) => None,
            Inspectable::Int(x) => match current_step {
                Step::Search(Search::Int(text)) => if same_text(text.as_str(), x.bytes.as_str()) {
                    Some(self)
                } else {
                    None
                },
                _ => None,
            },
            Inspectable::String(x) => match current_step {
                Step::Search(Search::ByteString(content)) => if same_bytes(
                    content.as_slice(),
                    x.content(),
                ) {
                    Some(self)
                } else {
                    None
                },
                _ => None,
            },
            Inspectable::List(in_list) => {
                proof {
                    assert(decreases_to!(*self => self->List_0));
                    assert(decreases_to!(*in_list => in_list.items));
                    assert(decreases_to!(in_list.items => in_list.items@));
                }
                match current_step {
                    Step::Nth(idx) => {
                        if *idx < in_list.items.len() {
                            proof {
                                assert(decreases_to!(in_list.items@ => in_list.items@[*idx as int]));
                            }
                            in_list.items[*idx].find_ref_impl(steps, pc + 1)
                        } else {
                            None
                        }
                    },
                    Step::Search(_) => {
                        let mut i: usize = 0;
                        while i < in_list.items.len()
                            invariant
                                i <= in_list.items.len(),
                                self == Inspectable::List(*in_list),
                                pc < steps_of(*steps).len(),
                                follow(*self, steps_of(*steps), pc as int) == search_items(
                                    in_list.items@,
                                    0,
                                    steps_of(*steps),
                                    pc as int,
                                ),
                                search_items(in_list.items@, 0, steps_of(*steps), pc as int)
                                    is Ok,
                                search_items(in_list.items@, i as int, steps_of(*steps), pc as int)
                                    == search_items(in_list.items@, 0, steps_of(*steps), pc as int),
                            decreases in_list.items.len() - i,
                        {
                            proof {
                                assert(decreases_to!(*self => self->List_0));
                                assert(decreases_to!(*in_list => in_list.items));
                                assert(decreases_to!(in_list.items => in_list.items@));
                                assert(decreases_to!(in_list.items@ => in_list.items@[i as int]));
                            }
                            match in_list.items[i].find_ref_impl(steps, pc) {
                                Some(found) => return Some(found),
                                None => {},
                            }
                            i = i + 1;
                        }
                        None
                    },
                    _ => None,
                }
            },
            Inspectable::Dict(in_dict) => {
                proof {
                    assert(decreases_to!(*self => self->Dict_0));
                    assert(decreases_to!(*in_dict => in_dict.items));
                    assert(decreases_to!(in_dict.items => in_dict.items@));
                }
                match current_step {
                    Step::Nth(idx) => {
                        if *idx < in_dict.items.len() {
                            proof {
                                assert(decreases_to!(in_dict.items@ => in_dict.items@[*idx as int]));
                            }
                            in_dict.items[*idx].find_from(steps, pc)
                        } else {
                            None
                        }
                    },
                    Step::Entry(key) => {
                        let mut i: usize = 0;
                        while i < in_dict.items.len()
                            invariant
                                i <= in_dict.items.len(),
                                self == Inspectable::Dict(*in_dict),
                                pc < steps_of(*steps).len(),
                                follow(*self, steps_of(*steps), pc as int) is Ok,
                                follow(*self, steps_of(*steps), pc as int) == match entry_with_key(
                                    in_dict.items@,
                                    0,
                                    key@,
                                ) {
                                    Some(at) => if 0 <= at < in_dict.items@.len() {
                                        descend(in_dict.items@[at], steps_of(*steps), pc as int)
                                    } else {
                                        Ok(None)
                                    },
                                    None => Ok(None),
                                },
                                entry_with_key(in_dict.items@, i as int, key@) == entry_with_key(
                                    in_dict.items@,
                                    0,
                                    key@,
                                ),
                            decreases in_dict.items.len() - i,
                        {
                            if key_is(&in_dict.items[i], key.as_slice()) {
                                proof {
                                    assert(decreases_to!(*self => self->Dict_0));
                                    assert(decreases_to!(*in_dict => in_dict.items));
                                    assert(decreases_to!(in_dict.items => in_dict.items@));
                                    assert(decreases_to!(in_dict.items@ => in_dict.items@[i as int]));
                                }
                                return in_dict.items[i].find_from(steps, pc);
                            }
                            i = i + 1;
                        }
                        None
                    },
                    Step::Search(search) => {
                        let ghost wanted: Option<Seq<u8>> = match search {
                            Search::DictKey(key) => Some(key@),
                            _ => None,
                        };
                        let mut i: usize = 0;
                        while i < in_dict.items.len()
                            invariant
                                i <= in_dict.items.len(),
                                self == Inspectable::Dict(*in_dict),
                                pc < steps_of(*steps).len(),
                                wanted == match search {
                                    Search::DictKey(key) => Some(key@),
                                    _ => None::<Seq<u8>>,
                                },
                                follow(*self, steps_of(*steps), pc as int) == search_entries(
                                    in_dict.items@,
                                    0,
                                    wanted,
                                    steps_of(*steps),
                                    pc as int,
                                ),
                                search_entries(
                                    in_dict.items@,
                                    0,
                                    wanted,
                                    steps_of(*steps),
                                    pc as int,
                                ) is Ok,
                                search_entries(
                                    in_dict.items@,
                                    i as int,
                                    wanted,
                                    steps_of(*steps),
                                    pc as int,
                                ) == search_entries(
                                    in_dict.items@,
                                    0,
                                    wanted,
                                    steps_of(*steps),
                                    pc as int,
                                ),
                            decreases in_dict.items.len() - i,
                        {
                            proof {
                                assert(decreases_to!(*self => self->Dict_0));
                                assert(decreases_to!(*in_dict => in_dict.items));
                                assert(decreases_to!(in_dict.items => in_dict.items@));
                                assert(decreases_to!(in_dict.items@ => in_dict.items@[i as int]));
                                assert(decreases_to!(in_dict.items@[i as int] => in_dict.items@[i as int].value));
                            }
                            let chosen = match search {
                                Search::DictKey(key) => key_is(&in_dict.items[i], key.as_slice()),
                                _ => false,
                            };
                            let found = if chosen {
                                in_dict.items[i].find_from(steps, pc)
                            } else {
                                in_dict.items[i].value.find_ref_impl(steps, pc)
                            };
                            match found {
                                Some(found) => return Some(found),
                                None => {},
                            }
                            i = i + 1;
                        }
                        None
                    },
                    _ => None,
                }
            },
        }
    }
}

/// What was found in two objects is alike: the same object, or nothing,
/// or a way that cannot be gone.
pub open spec fn found_alike(
    a: Result<Option<Inspectable>, ()>,
    b: Result<Option<Inspectable>, ()>,
) -> bool {
    match (a, b) {
        (Ok(Some(x)), Ok(Some(y))) => alike(x, y),
        (Ok(None), Ok(None)) => true,
        (Err(_), Err(_)) => true,
        _ => false,
    }
}

/// In items that are alike, a search finds what is alike.
proof fn search_items_alike(
    a: Seq<Inspectable>,
    b: Seq<Inspectable>,
    from: int,
    steps: Seq<Step>,
    pc: int,
)
    requires
        a.len() == b.len(),
        forall|i: int| 0 <= i < a.len() ==> alike(#[trigger] a[i], b[i]),
    ensures
        found_alike(search_items(a, from, steps, pc), search_items(b, from, steps, pc)),
    decreases a, a.len() - from,
{
    if 0 <= from < a.len() {
        follow_alike(a[from], b[from], steps, pc);
        search_items_alike(a, b, from + 1, steps, pc);
    }
}

/// In entries that are alike, a search finds what is alike.
proof fn search_entries_alike(
    a: Seq<InDictEntry>,
    b: Seq<InDictEntry>,
    from: int,
    wanted: Option<Seq<u8>>,
    steps: Seq<Step>,
    pc: int,
)
    requires
        a.len() == b.len(),
        forall|i: int|
            0 <= i < a.len() ==> alike((#[trigger] a[i]).key, b[i].key) && alike(
                a[i].value,
                b[i].value,
            ),
    ensures
        found_alike(
            search_entries(a, from, wanted, steps, pc),
            search_entries(b, from, wanted, steps, pc),
        ),
    decreases a, a.len() - from,
{
    if 0 <= from < a.len() {
        descend_alike(a[from], b[from], steps, pc);
        follow_alike(a[from].value, b[from].value, steps, pc);
        search_entries_alike(a, b, from + 1, wanted, steps, pc);
    }
}

/// In entries that are alike, the first with a key is at the same place.
proof fn entry_with_key_alike(a: Seq<InDictEntry>, b: Seq<InDictEntry>, from: int, key: Seq<u8>)
    requires
        a.len() == b.len(),
        forall|i: int| 0 <= i < a.len() ==> alike((#[trigger] a[i]).key, b[i].key),
    ensures
        entry_with_key(a, from, key) == entry_with_key(b, from, key),
        entry_with_key(a, from, key) matches Some(at) ==> from <= at < a.len(),
    decreases a.len() - from,
{
    if 0 <= from < a.len() {
        entry_with_key_alike(a, b, from + 1, key);
    }
}

/// From entries that are alike, the way leads on to what is alike.
proof fn descend_alike(a: InDictEntry, b: InDictEntry, steps: Seq<Step>, pc: int)
    requires
        alike(a.key, b.key),
        alike(a.value, b.value),
    ensures
        found_alike(descend(a, steps, pc), descend(b, steps, pc)),
    decreases a, 1int,
{
    if pc + 1 < steps.len() && steps[pc + 1] is Key {
        follow_alike(a.key, b.key, steps, pc + 2);
    } else if pc + 1 < steps.len() && steps[pc + 1] is Value {
        follow_alike(a.value, b.value, steps, pc + 2);
    }
}

/// From objects that are alike, a way leads to what is alike.
pub proof fn follow_alike(a: Inspectable, b: Inspectable, steps: Seq<Step>, pc: int)
    requires
        alike(a, b),
    ensures
        found_alike(follow(a, steps, pc), follow(b, steps, pc)),
    decreases a, 0int,
{
    if 0 <= pc < steps.len() {
        match (a, b) {
            (Inspectable::List(x), Inspectable::List(y)) => match steps[pc] {
                Step::Nth(idx) => {
                    if idx < x.items@.len() {
                        follow_alike(x.items@[idx as int], y.items@[idx as int], steps, pc + 1);
                    }
                },
                Step::Search(_) => {
                    search_items_alike(x.items@, y.items@, 0, steps, pc);
                },
                _ => {},
            },
            (Inspectable::Dict(x), Inspectable::Dict(y)) => match steps[pc] {
                Step::Nth(idx) => {
                    if idx < x.items@.len() {
                        descend_alike(x.items@[idx as int], y.items@[idx as int], steps, pc);
                    }
                },
                Step::Entry(key) => {
                    entry_with_key_alike(x.items@, y.items@, 0, key@);
                    if let Some(at) = entry_with_key(x.items@, 0, key@) {
                        descend_alike(x.items@[at], y.items@[at], steps, pc);
                    }
                },
                Step::Search(Search::DictKey(key)) => {
                    search_entries_alike(x.items@, y.items@, 0, Some(key@), steps, pc);
                },
                Step::Search(_) => {
                    search_entries_alike(x.items@, y.items@, 0, None, steps, pc);
                },
                _ => {},
            },
            _ => {},
        }
    }
}

/// Where the steps lead next from an object: to the object itself, or
/// into one of its items, or into the key or the value of one of its
/// entries.
pub enum Turn {
    Here,
    Item(usize),
    Key(usize),
    Value(usize),
}

/// What the steps from `pc` on lead to from `object`, where they turn as
/// `turn` says and go on from the step at `next`.
pub open spec fn taken(
    object: Inspectable,
    steps: Seq<Step>,
    turn: Option<(Turn, usize)>,
) -> Result<Option<Inspectable>, ()> {
    match turn {
        None => Ok(None),
        Some((Turn::Here, _)) => Ok(Some(object)),
        Some((Turn::Item(at), next)) => match object {
            Inspectable::List(x) => if at < x.items@.len() {
                follow(x.items@[at as int], steps, next as int)
            } else {
                Err(())
            },
            _ => Err(()),
        },
        Some((Turn::Key(at), next)) => match object {
            Inspectable::Dict(x) => if at < x.items@.len() {
                follow(x.items@[at as int].key, steps, next as int)
            } else {
                Err(())
            },
            _ => Err(()),
        },
        Some((Turn::Value(at), next)) => match object {
            Inspectable::Dict(x) => if at < x.items@.len() {
                follow(x.items@[at as int].value, steps, next as int)
            } else {
                Err(())
            },
            _ => Err(()),
        },
    }
}

impl InDictEntry {
    /// From the entry at `at`, which the step at `pc` has chosen, the turn
    /// to its key or to its value.
    fn turn_from(&self, at: usize, steps: &Steps, pc: usize) -> (r: (Turn, usize))
        requires
            pc < steps_of(*steps).len(),
            descend(*self, steps_of(*steps), pc as int) is Ok,
        ensures
            r.1 == pc + 2,
            r.0 == Turn::Key(at) || r.0 == Turn::Value(at),
            descend(*self, steps_of(*steps), pc as int) == follow(
                if r.0 is Key {
                    self.key
                } else {
                    self.value
                },
                steps_of(*steps),
                r.1 as int,
            ),
    {
        let count = count_steps(steps);
        match step_at(steps, pc + 1) {
            Some(Step::Key) => (Turn::Key(at), pc + 2),
            Some(Step::Value) => (Turn::Value(at), pc + 2),
            _ => vstd::pervasive::unreached(),
        }
    }
}

impl Inspectable {
    /// Gets a mutable reference to the object to which the way leads from
    /// this one.
    pub fn find(&mut self, path: &PathBuilder) -> (r: &mut Inspectable)
        requires
            follow(*old(self), path@, 0) matches Ok(Some(_)),
        ensures
            follow(*old(self), path@, 0) == Ok::<Option<Inspectable>, ()>(Some(*r)),
    {
        match self.find_impl(&path.steps, 0) {
            Some(x) => x,
            None => vstd::pervasive::unreached(),
        }
    }

    /// Where the steps from `pc` on turn next from this object, if they
    /// lead to an object at all.
    fn next_turn(&self, steps: &Steps, pc: usize) -> (r: Option<(Turn, usize)>)
        requires
            follow(*self, steps_of(*steps), pc as int) is Ok,
        ensures
            taken(*self, steps_of(*steps), r) == follow(*self, steps_of(*steps), pc as int),
            r is Some <==> follow(*self, steps_of(*steps), pc as int) matches Ok(Some(_)),
            r matches Some((_, next)) ==> pc <= next <= pc + 2,
        decreases self, 0int,
    {
        let count = count_steps(steps);
        let current_step = match step_at(steps, pc) {
            Some(x) => x,
            None => return Some((Turn::Here, pc)),
        };
        match self {
            Inspectable::Raw(_) => None,
            Inspectable::Int(x) => match current_step {
                Step::Search(Search::Int(text)) => if same_text(text.as_str(), x.bytes.as_str()) {
                    Some((Turn::Here, pc))
                } else {
                    None
                },
                _ => None,
            },
            Inspectable::String(x) => match current_step {
                Step::Search(Search::ByteString(content)) => if same_bytes(
                    content.as_slice(),
                    x.content(),
                ) {
                    Some((Turn::Here, pc))
                } else {
                    None
                },
                _ => None,
            },
            Inspectable::List(in_list) => {
                proof {
                    assert(decreases_to!(*self => self->List_0));
                    assert(decreases_to!(*in_list => in_list.items));
                    assert(decreases_to!(in_list.items => in_list.items@));
                }
                match current_step {
                    Step::Nth(idx) => {
                        if *idx < in_list.items.len() {
                            proof {
                                assert(decreases_to!(in_list.items@ => in_list.items@[*idx as int]));
                            }
                            match in_list.items[*idx].find_ref_impl(steps, pc + 1) {
                                Some(_) => Some((Turn::Item(*idx), pc + 1)),
                                None => None,
                            }
                        } else {
                            None
                        }
                    },
                    Step::Search(_) => {
                        let mut i: usize = 0;
                        while i < in_list.items.len()
                            invariant
                                i <= in_list.items.len(),
                                self == Inspectable::List(*in_list),
                                pc < steps_of(*steps).len(),
                                follow(*self, steps_of(*steps), pc as int) == search_items(
                                    in_list.items@,
                                    0,
                                    steps_of(*steps),
                                    pc as int,
                                ),
                                search_items(in_list.items@, 0, steps_of(*steps), pc as int)
                                    is Ok,
                                search_items(in_list.items@, i as int, steps_of(*steps), pc as int)
                                    == search_items(in_list.items@, 0, steps_of(*steps), pc as int),
                            decreases in_list.items.len() - i,
                        {
                            match in_list.items[i].find_ref_impl(steps, pc) {
                                Some(_) => return Some((Turn::Item(i), pc)),
                                None => {},
                            }
                            i = i + 1;
                        }
                        None
                    },
                    _ => None,
                }
            },
            Inspectable::Dict(in_dict) => {
                match current_step {
                    Step::Nth(idx) => {
                        if *idx < in_dict.items.len() {
                            match in_dict.items[*idx].find_from(steps, pc) {
                                Some(_) => Some(in_dict.items[*idx].turn_from(*idx, steps, pc)),
                                None => None,
                            }
                        } else {
                            None
                        }
                    },
                    Step::Entry(key) => {
                        let mut i: usize = 0;
                        while i < in_dict.items.len()
                            invariant
                                i <= in_dict.items.len(),
                                self == Inspectable::Dict(*in_dict),
                                pc < steps_of(*steps).len(),
                                follow(*self, steps_of(*steps), pc as int) is Ok,
                                follow(*self, steps_of(*steps), pc as int) == match entry_with_key(
                                    in_dict.items@,
                                    0,
                                    key@,
                                ) {
                                    Some(at) => if 0 <= at < in_dict.items@.len() {
                                        descend(in_dict.items@[at], steps_of(*steps), pc as int)
                                    } else {
                                        Ok(None)
                                    },
                                    None => Ok(None),
                                },
                                entry_with_key(in_dict.items@, i as int, key@) == entry_with_key(
                                    in_dict.items@,
                                    0,
                                    key@,
                                ),
                            decreases in_dict.items.len() - i,
                        {
                            if key_is(&in_dict.items[i], key.as_slice()) {
                                return match in_dict.items[i].find_from(steps, pc) {
                                    Some(_) => Some(in_dict.items[i].turn_from(i, steps, pc)),
                                    None => None,
                                };
                            }
                            i = i + 1;
                        }
                        None
                    },
                    Step::Search(search) => {
                        let ghost wanted: Option<Seq<u8>> = match search {
                            Search::DictKey(key) => Some(key@),
                            _ => None,
                        };
                        let mut i: usize = 0;
                        while i < in_dict.items.len()
                            invariant
                                i <= in_dict.items.len(),
                                self == Inspectable::Dict(*in_dict),
                                pc < steps_of(*steps).len(),
                                wanted == match search {
                                    Search::DictKey(key) => Some(key@),
                                    _ => None::<Seq<u8>>,
                                },
                                follow(*self, steps_of(*steps), pc as int) == search_entries(
                                    in_dict.items@,
                                    0,
                                    wanted,
                                    steps_of(*steps),
                                    pc as int,
                                ),
                                search_entries(
                                    in_dict.items@,
                                    0,
                                    wanted,
                                    steps_of(*steps),
                                    pc as int,
                                ) is Ok,
                                search_entries(
                                    in_dict.items@,
                                    i as int,
                                    wanted,
                                    steps_of(*steps),
                                    pc as int,
                                ) == search_entries(
                                    in_dict.items@,
                                    0,
                                    wanted,
                                    steps_of(*steps),
                                    pc as int,
                                ),
                            decreases in_dict.items.len() - i,
                        {
                            let chosen = match search {
                                Search::DictKey(key) => key_is(&in_dict.items[i], key.as_slice()),
                                _ => false,
                            };
                            if chosen {
                                match in_dict.items[i].find_from(steps, pc) {
                                    Some(_) => return Some(
                                        in_dict.items[i].turn_from(i, steps, pc),
                                    ),
                                    None => {},
                                }
                            } else {
                                match in_dict.items[i].value.find_ref_impl(steps, pc) {
                                    Some(_) => return Some((Turn::Value(i), pc)),
                                    None => {},
                                }
                            }
                            i = i + 1;
                        }
                        None
                    },
                    _ => None,
                }
            },
        }
    }

    /// A mutable reference to the object to which the steps from `pc` on
    /// lead from this one, if they lead to one.
    fn find_impl(&mut self, steps: &Steps, pc: usize) -> (r: Option<&mut Inspectable>)
        requires
            follow(*old(self), steps_of(*steps), pc as int) is Ok,
        ensures
            match r {
                Some(found) => follow(*old(self), steps_of(*steps), pc as int) == Ok::<
                    Option<Inspectable>,
                    (),
                >(Some(*found)),
                None => follow(*old(self), steps_of(*steps), pc as int) == Ok::<
                    Option<Inspectable>,
                    (),
                >(None),
            },
        decreases *old(self), count_steps_left(steps_of(*steps), pc as int),
    {
        let turn = self.next_turn(steps, pc);
        match turn {
            None => None,
            Some((Turn::Here, _)) => Some(self),
            Some((Turn::Item(at), next)) => match self {
                Inspectable::List(x) => x.items[at].find_impl(steps, next),
                _ => vstd::pervasive::unreached(),
            },
            Some((Turn::Key(at), next)) => match self {
                Inspectable::Dict(x) => x.items[at].key.find_impl(steps, next),
                _ => vstd::pervasive::unreached(),
            },
            Some((Turn::Value(at), next)) => match self {
                Inspectable::Dict(x) => x.items[at].value.find_impl(steps, next),
                _ => vstd::pervasive::unreached(),
            },
        }
    }
}

/// The number of the steps from `pc` on.
pub open spec fn count_steps_left(steps: Seq<Step>, pc: int) -> int {
    steps.len() - pc
}

/// The text that `number` is written as.
fn text_of(number: i64) -> (r: String)
    ensures
        r@ == int_text(number as int),
{
    let mut text = String::new();
    if number < 0 {
        proof {
            reveal_strlit("-");
            assert("-"@ =~= seq!['-']);
        }
        text.append("-");
        push_decimal(&mut text, (-(number as i128)) as u128);
    } else {
        push_decimal(&mut text, number as u128);
    }
    text
}

/// The way that leads nowhere: to the object itself.
pub fn inspect_path() -> (r: PathBuilder)
    ensures
        r@.len() == 0,
{
    PathBuilder::new()
}

} // verus!
