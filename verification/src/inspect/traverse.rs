use vstd::prelude::*;

use crate::inspect::mutate::{key_of, keys_are_strings};
use crate::inspect::{InDict, InDictEntry, InInt, InList, InString, Inspectable};

verus! {

impl Inspectable {
    /// The byte string that the object is.
    pub fn string_ref(&self) -> (r: &InString)
        requires
            self is String,
        ensures
            *r == self->String_0,
    {
        match self {
            Inspectable::String(x) => x,
            _ => vstd::pervasive::unreached(),
        }
    }

    /// The byte string that the object is, to change it.
    pub fn string(&mut self) -> (r: &mut InString)
        requires
            *old(self) is String,
        ensures
            *r == old(self)->String_0,
            *final(self) == Inspectable::String(*final(r)),
    {
        match self {
            Inspectable::String(x) => x,
            _ => vstd::pervasive::unreached(),
        }
    }

    /// The integer that the object is.
    pub fn int_ref(&self) -> (r: &InInt)
        requires
            self is Int,
        ensures
            *r == self->Int_0,
    {
        match self {
            Inspectable::Int(x) => x,
            _ => vstd::pervasive::unreached(),
        }
    }

    /// The integer that the object is, to change it.
    pub fn int_mut(&mut self) -> (r: &mut InInt)
        requires
            *old(self) is Int,
        ensures
            *r == old(self)->Int_0,
            *final(self) == Inspectable::Int(*final(r)),
    {
        match self {
            Inspectable::Int(x) => x,
            _ => vstd::pervasive::unreached(),
        }
    }

    /// The raw bytes that the object is.
    pub fn raw_ref(&self) -> (r: &Vec<u8>)
        requires
            self is Raw,
        ensures
            *r == self->Raw_0,
    {
        match self {
            Inspectable::Raw(x) => x,
            _ => vstd::pervasive::unreached(),
        }
    }

    /// The raw bytes that the object is, to change it.
    pub fn raw(&mut self) -> (r: &mut Vec<u8>)
        requires
            *old(self) is Raw,
        ensures
            *r == old(self)->Raw_0,
            *final(self) == Inspectable::Raw(*final(r)),
    {
        match self {
            Inspectable::Raw(x) => x,
            _ => vstd::pervasive::unreached(),
        }
    }

    /// The dictionary that the object is.
    pub fn dict_ref(&self) -> (r: &InDict)
        requires
            self is Dict,
        ensures
            *r == self->Dict_0,
    {
        match self {
            Inspectable::Dict(x) => x,
            _ => vstd::pervasive::unreached(),
        }
    }

    /// The dictionary that the object is, to change it.
    pub fn dict(&mut self) -> (r: &mut InDict)
        requires
            *old(self) is Dict,
        ensures
            *r == old(self)->Dict_0,
            *final(self) == Inspectable::Dict(*final(r)),
    {
        match self {
            Inspectable::Dict(x) => x,
            _ => vstd::pervasive::unreached(),
        }
    }

    /// The list that the object is.
    pub fn list_ref(&self) -> (r: &InList)
        requires
            self is List,
        ensures
            *r == self->List_0,
    {
        match self {
            Inspectable::List(x) => x,
            _ => vstd::pervasive::unreached(),
        }
    }

    /// The list that the object is, to change it.
    pub fn list(&mut self) -> (r: &mut InList)
        requires
            *old(self) is List,
        ensures
            *r == old(self)->List_0,
            *final(self) == Inspectable::List(*final(r)),
    {
        match self {
            Inspectable::List(x) => x,
            _ => vstd::pervasive::unreached(),
        }
    }

}

impl InList {
    /// The item at `idx`.
    pub fn nth_ref(&self, idx: usize) -> (r: &Inspectable)
        requires
            idx < self.items@.len(),
        ensures
            *r == self.items@[idx as int],
    {
        &self.items[idx]
    }

    /// The item at `idx`, to change it.
    pub fn nth(&mut self, idx: usize) -> (r: &mut Inspectable)
        requires
            idx < old(self).items@.len(),
        ensures
            *r == old(self).items@[idx as int],
            final(self).items@ == old(self).items@.update(idx as int, *final(r)),
    {
        &mut self.items[idx]
    }
}

/// The index of the first entry of `items` that has the key `name`, if
/// there is one.
pub open spec fn first_with_key(items: Seq<InDictEntry>, name: Seq<u8>) -> Option<int> {
    if exists|i: int| 0 <= i < items.len() && key_of(#[trigger] items[i]) == name {
        let first = choose|i: int|
            0 <= i < items.len() && key_of(#[trigger] items[i]) == name && forall|j: int|
                0 <= j < i ==> key_of(#[trigger] items[j]) != name;
        Some(first)
    } else {
        None
    }
}

/// The first entry with a key is at an index that has the key, and before
/// it no index has it.
pub proof fn first_with_key_is_first(items: Seq<InDictEntry>, name: Seq<u8>, at: int)
    requires
        0 <= at < items.len(),
        key_of(items[at]) == name,
        forall|j: int| 0 <= j < at ==> key_of(#[trigger] items[j]) != name,
    ensures
        first_with_key(items, name) == Some(at),
{
    let first = choose|i: int|
        0 <= i < items.len() && key_of(#[trigger] items[i]) == name && forall|j: int|
            0 <= j < i ==> key_of(#[trigger] items[j]) != name;
    if first < at {
        assert(key_of(items[first]) != name);
    } else if at < first {
        assert(key_of(items[at]) != name);
    }
}

impl InDict {
    /// The entry at `idx`.
    pub fn nth_ref(&self, idx: usize) -> (r: &InDictEntry)
        requires
            idx < self.items@.len(),
        ensures
            *r == self.items@[idx as int],
    {
        &self.items[idx]
    }

    /// The entry at `idx`, to change it.
    pub fn nth(&mut self, idx: usize) -> (r: &mut InDictEntry)
        requires
            idx < old(self).items@.len(),
        ensures
            *r == old(self).items@[idx as int],
            final(self).items@ == old(self).items@.update(idx as int, *final(r)),
    {
        &mut self.items[idx]
    }

    /// The index of the first entry with the key `name`.
    fn position(&self, name: &[u8]) -> (r: usize)
        requires
            keys_are_strings(self.items@),
            first_with_key(self.items@, name@) is Some,
        ensures
            first_with_key(self.items@, name@) == Some(r as int),
            r < self.items@.len(),
    {
        let mut i: usize = 0;
        while i < self.items.len()
            invariant
                i <= self.items.len(),
                keys_are_strings(self.items@),
                first_with_key(self.items@, name@) is Some,
                forall|j: int| 0 <= j < i ==> key_of(#[trigger] self.items@[j]) != name@,
            decreases self.items.len() - i,
        {
            let found = crate::inspect::mutate::same_bytes(
                self.items[i].key.string_ref().content(),
                name,
            );
            if found {
                proof {
                    first_with_key_is_first(self.items@, name@, i as int);
                }
                return i;
            }
            i = i + 1;
        }
        proof {
            assert(false);
        }
        vstd::pervasive::unreached()
    }

    /// The first entry with the key `name`.
    pub fn entry_ref(&self, name: &[u8]) -> (r: &InDictEntry)
        requires
            keys_are_strings(self.items@),
            first_with_key(self.items@, name@) is Some,
        ensures
            *r == self.items@[first_with_key(self.items@, name@)->Some_0],
    {
        let at = self.position(name);
        &self.items[at]
    }

    /// The first entry with the key `name`, to change it.
    pub fn entry(&mut self, name: &[u8]) -> (r: &mut InDictEntry)
        requires
            keys_are_strings(old(self).items@),
            first_with_key(old(self).items@, name@) is Some,
        ensures
            *r == old(self).items@[first_with_key(old(self).items@, name@)->Some_0],
            final(self).items@ == old(self).items@.update(
                first_with_key(old(self).items@, name@)->Some_0,
                *final(r),
            ),
    {
        let at = self.position(name);
        &mut self.items[at]
    }
}

} // verus!
