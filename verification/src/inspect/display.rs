use vstd::prelude::*;

use crate::inspect::{InDict, InDictEntry, InInt, InList, InString, Inspectable};
use crate::text::{ascii_str, ascii_text, decimal, push_decimal};

verus! {

/// Whether the byte is shown as the character it is: it is printable, and
/// it is no quote.
pub open spec fn printable(b: u8) -> bool {
    40 <= b < 127
}

/// Whether the byte is shown as the character it is.
pub fn is_printable_byte(b: u8) -> (r: bool)
    ensures
        r == printable(b),
{
    40 <= b && b < 127
}

/// Every byte of `bytes` is printable.
pub open spec fn all_printable(bytes: Seq<u8>) -> bool {
    forall|i: int| 0 <= i < bytes.len() ==> printable(#[trigger] bytes[i])
}

/// The upper-case hexadecimal digit of `d`.
pub open spec fn hex_digit(d: int) -> char
    recommends
        0 <= d < 16,
{
    if d < 10 {
        crate::text::digit_char(d)
    } else if d == 10 {
        'A'
    } else if d == 11 {
        'B'
    } else if d == 12 {
        'C'
    } else if d == 13 {
        'D'
    } else if d == 14 {
        'E'
    } else {
        'F'
    }
}

/// The byte as an escape: `\x` and two hexadecimal digits.
pub open spec fn escape(b: u8) -> Seq<char> {
    seq!['\\', 'x', hex_digit(b as int / 16), hex_digit(b as int % 16)]
}

/// The first `count` of the bytes, all of them as escapes.
pub open spec fn escapes(bytes: Seq<u8>, count: int) -> Seq<char>
    decreases count,
{
    if count <= 0 || count > bytes.len() {
        Seq::empty()
    } else {
        escapes(bytes, count - 1) + escape(bytes[count - 1])
    }
}

/// The text that a byte string is shown as: the length that is written for
/// it, and its content; as it is where all of it is printable, and else all
/// of it as escapes.
pub open spec fn string_shown(x: InString) -> Seq<char> {
    decimal(x.written_len() as nat) + seq![':'] + if all_printable(x.bytes@) {
        ascii_text(x.bytes@)
    } else {
        escapes(x.bytes@, x.bytes@.len() as int)
    }
}

/// The text that the object is shown as.
pub open spec fn shown(object: Inspectable) -> Seq<char>
    decreases object,
{
    match object {
        Inspectable::String(x) => string_shown(x),
        Inspectable::Raw(x) => escapes(x@, x@.len() as int),
        Inspectable::Int(x) => seq!['i'] + x.bytes@ + seq!['e'],
        Inspectable::List(x) => seq!['l'] + items_shown(x.items@, x.items@.len() as int)
            + seq!['e'],
        Inspectable::Dict(x) => seq!['d'] + entries_shown(x.items@, x.items@.len() as int)
            + seq!['e'],
    }
}

/// The text that the first `count` of the items are shown as.
pub open spec fn items_shown(items: Seq<Inspectable>, count: int) -> Seq<char>
    decreases items, count,
{
    if count <= 0 || count > items.len() {
        Seq::empty()
    } else {
        items_shown(items, count - 1) + shown(items[count - 1])
    }
}

/// The text that the first `count` of the entries are shown as.
pub open spec fn entries_shown(items: Seq<InDictEntry>, count: int) -> Seq<char>
    decreases items, count,
{
    if count <= 0 || count > items.len() {
        Seq::empty()
    } else {
        entries_shown(items, count - 1) + shown(items[count - 1].key) + shown(
            items[count - 1].value,
        )
    }
}

/// The upper-case hexadecimal digit of `d`, as a text.
fn hex_str(d: u8) -> (r: &'static str)
    requires
        d < 16,
    ensures
        r@ == seq![hex_digit(d as int)],
{
    proof {
        reveal_strlit("0");
        reveal_strlit("1");
        reveal_strlit("2");
        reveal_strlit("3");
        reveal_strlit("4");
        reveal_strlit("5");
        reveal_strlit("6");
        reveal_strlit("7");
        reveal_strlit("8");
        reveal_strlit("9");
        reveal_strlit("A");
        reveal_strlit("B");
        reveal_strlit("C");
        reveal_strlit("D");
        reveal_strlit("E");
        reveal_strlit("F");
    }
    if d == 0 {
        "0"
    } else if d == 1 {
        "1"
    } else if d == 2 {
        "2"
    } else if d == 3 {
        "3"
    } else if d == 4 {
        "4"
    } else if d == 5 {
        "5"
    } else if d == 6 {
        "6"
    } else if d == 7 {
        "7"
    } else if d == 8 {
        "8"
    } else if d == 9 {
        "9"
    } else if d == 10 {
        "A"
    } else if d == 11 {
        "B"
    } else if d == 12 {
        "C"
    } else if d == 13 {
        "D"
    } else if d == 14 {
        "E"
    } else {
        "F"
    }
}

/// Appends the bytes to `out`, all of them as escapes.
fn push_escapes(out: &mut String, bytes: &[u8])
    ensures
        final(out)@ == old(out)@ + escapes(bytes@, bytes@.len() as int),
{
    let mut i: usize = 0;
    while i < bytes.len()
        invariant
            i <= bytes.len(),
            out@ == old(out)@ + escapes(bytes@, i as int),
        decreases bytes.len() - i,
    {
        let b = bytes[i];
        proof {
            reveal_strlit("\\x");
            assert("\\x"@ =~= seq!['\\', 'x']);
        }
        out.append("\\x");
        out.append(hex_str(b / 16));
        out.append(hex_str(b % 16));
        proof {
            assert(out@ =~= old(out)@ + escapes(bytes@, i + 1));
        }
        i = i + 1;
    }
}

/// Whether every byte of `bytes` is printable.
fn are_printable(bytes: &[u8]) -> (r: bool)
    ensures
        r == all_printable(bytes@),
{
    let mut i: usize = 0;
    while i < bytes.len()
        invariant
            i <= bytes.len(),
            forall|k: int| 0 <= k < i ==> printable(#[trigger] bytes@[k]),
        decreases bytes.len() - i,
    {
        if !is_printable_byte(bytes[i]) {
            return false;
        }
        i = i + 1;
    }
    true
}

impl InString {
    /// The text that the byte string is shown as.
    pub fn to_string(&self) -> (r: String)
        ensures
            r@ == string_shown(*self),
    {
        let mut out = String::new();
        self.show(&mut out);
        out
    }

    /// Appends the text that the byte string is shown as.
    fn show(&self, out: &mut String)
        ensures
            final(out)@ == old(out)@ + string_shown(*self),
    {
        let bytes = self.content();
        let all_printable = are_printable(bytes);
        push_decimal(out, self.len() as u128);
        proof {
            reveal_strlit(":");
            assert(":"@ =~= seq![':']);
        }
        out.append(":");
        if all_printable {
            proof {
                assert forall|i: int| 0 <= i < bytes@.len() implies #[trigger] bytes@[i]
                    < 128 by {
                    assert(printable(bytes@[i]));
                }
            }
            out.append(ascii_str(bytes));
        } else {
            push_escapes(out, bytes);
        }
        proof {
            assert(out@ =~= old(out)@ + string_shown(*self));
        }
    }
}

impl InInt {
    /// The text that the integer is shown as.
    pub fn to_string(&self) -> (r: String)
        ensures
            r@ == seq!['i'] + self.bytes@ + seq!['e'],
    {
        proof {
            reveal_strlit("i");
            reveal_strlit("e");
            assert("i"@ =~= seq!['i']);
            assert("e"@ =~= seq!['e']);
        }
        let mut out = "i".to_owned();
        out.append(self.bytes.as_str());
        out.append("e");
        out
    }
}

impl InList {
    /// The text that the list is shown as.
    pub fn to_string(&self) -> (r: String)
        ensures
            r@ == seq!['l'] + items_shown(self.items@, self.items@.len() as int) + seq!['e'],
    {
        let mut out = String::new();
        show_items(&self.items, &mut out);
        out
    }
}

impl InDict {
    /// The text that the dictionary is shown as.
    pub fn to_string(&self) -> (r: String)
        ensures
            r@ == seq!['d'] + entries_shown(self.items@, self.items@.len() as int) + seq!['e'],
    {
        let mut out = String::new();
        show_entries(&self.items, &mut out);
        out
    }
}

/// Appends the text that a list of the items is shown as.
fn show_items(items: &Vec<Inspectable>, out: &mut String)
    ensures
        final(out)@ == old(out)@ + seq!['l'] + items_shown(items@, items@.len() as int) + seq![
            'e',
        ],
    decreases items@,
{
    proof {
        reveal_strlit("l");
        reveal_strlit("e");
        assert("l"@ =~= seq!['l']);
        assert("e"@ =~= seq!['e']);
    }
    out.append("l");
    let mut i: usize = 0;
    while i < items.len()
        invariant
            i <= items.len(),
            out@ == old(out)@ + seq!['l'] + items_shown(items@, i as int),
        decreases items.len() - i,
    {
        proof {
            assert(decreases_to!(items@ => items@[i as int]));
        }
        items[i].show(out);
        i = i + 1;
    }
    out.append("e");
}

/// Appends the text that a dictionary of the entries is shown as.
fn show_entries(items: &Vec<InDictEntry>, out: &mut String)
    ensures
        final(out)@ == old(out)@ + seq!['d'] + entries_shown(items@, items@.len() as int) + seq![
            'e',
        ],
    decreases items@,
{
    proof {
        reveal_strlit("d");
        reveal_strlit("e");
        assert("d"@ =~= seq!['d']);
        assert("e"@ =~= seq!['e']);
    }
    out.append("d");
    let mut i: usize = 0;
    while i < items.len()
        invariant
            i <= items.len(),
            out@ == old(out)@ + seq!['d'] + entries_shown(items@, i as int),
        decreases items.len() - i,
    {
        proof {
            assert(decreases_to!(items@ => items@[i as int]));
            assert(decreases_to!(items@[i as int] => items@[i as int].key));
            assert(decreases_to!(items@[i as int] => items@[i as int].value));
        }
        items[i].key.show(out);
        items[i].value.show(out);
        i = i + 1;
    }
    out.append("e");
}

/// A line break in a string literal, and the indentation of the next line:
/// a backslash, the end of the line, and `indent` tabs.
pub open spec fn line_break(indent: nat) -> Seq<char> {
    seq!['\\', '\n'] + Seq::new(indent, |i: int| '\t')
}

/// One level deeper than `indent`, as far as a `usize` counts.
pub open spec fn deeper(indent: nat) -> nat {
    if indent < usize::MAX {
        indent + 1
    } else {
        indent
    }
}

/// The object as lines of a string literal, at the indentation `indent`:
/// every item of a list, and every key and every value of a dictionary,
/// stands on a line of its own, one level deeper than the list or the
/// dictionary.
pub open spec fn literal_lines(object: Inspectable, indent: nat) -> Seq<char>
    decreases object,
{
    match object {
        Inspectable::List(x) => seq!['l'] + items_lines(
            x.items@,
            x.items@.len() as int,
            deeper(indent),
        ) + line_break(indent) + seq!['e'],
        Inspectable::Dict(x) => seq!['d'] + entries_lines(
            x.items@,
            x.items@.len() as int,
            deeper(indent),
        ) + line_break(indent) + seq!['e'],
        _ => shown(object),
    }
}

/// The first `count` of the items as lines at the indentation `indent`.
pub open spec fn items_lines(items: Seq<Inspectable>, count: int, indent: nat) -> Seq<char>
    decreases items, count,
{
    if count <= 0 || count > items.len() {
        Seq::empty()
    } else {
        items_lines(items, count - 1, indent) + line_break(indent) + literal_lines(
            items[count - 1],
            indent,
        )
    }
}

/// The first `count` of the entries as lines at the indentation `indent`.
pub open spec fn entries_lines(items: Seq<InDictEntry>, count: int, indent: nat) -> Seq<char>
    decreases items, count,
{
    if count <= 0 || count > items.len() {
        Seq::empty()
    } else {
        entries_lines(items, count - 1, indent) + line_break(indent) + shown(
            items[count - 1].key,
        ) + line_break(indent) + literal_lines(items[count - 1].value, indent)
    }
}

/// Appends a line break and the indentation of the next line.
fn newline(indent: usize, out: &mut String)
    ensures
        final(out)@ == old(out)@ + line_break(indent as nat),
{
    proof {
        reveal_strlit("\\\n");
        assert("\\\n"@ =~= seq!['\\', '\n']);
        reveal_strlit("\t");
        assert("\t"@ =~= seq!['\t']);
    }
    out.append("\\\n");
    let mut i: usize = 0;
    while i < indent
        invariant
            i <= indent,
            "\t"@ == seq!['\t'],
            out@ == old(out)@ + seq!['\\', '\n'] + Seq::new(i as nat, |k: int| '\t'),
        decreases indent - i,
    {
        out.append("\t");
        proof {
            assert(out@ =~= old(out)@ + seq!['\\', '\n'] + Seq::new(
                (i + 1) as nat,
                |k: int| '\t',
            ));
        }
        i = i + 1;
    }
}

/// Appends the items as lines at the indentation `indent`.
fn lines_of_items(items: &Vec<Inspectable>, indent: usize, out: &mut String)
    ensures
        final(out)@ == old(out)@ + items_lines(items@, items@.len() as int, indent as nat),
    decreases items@,
{
    let mut i: usize = 0;
    while i < items.len()
        invariant
            i <= items.len(),
            out@ == old(out)@ + items_lines(items@, i as int, indent as nat),
        decreases items.len() - i,
    {
        proof {
            assert(decreases_to!(items@ => items@[i as int]));
        }
        newline(indent, out);
        items[i].lines(indent, out);
        proof {
            assert(out@ =~= old(out)@ + items_lines(items@, i + 1, indent as nat));
        }
        i = i + 1;
    }
}

/// Appends the entries as lines at the indentation `indent`.
fn lines_of_entries(items: &Vec<InDictEntry>, indent: usize, out: &mut String)
    ensures
        final(out)@ == old(out)@ + entries_lines(items@, items@.len() as int, indent as nat),
    decreases items@,
{
    let mut i: usize = 0;
    while i < items.len()
        invariant
            i <= items.len(),
            out@ == old(out)@ + entries_lines(items@, i as int, indent as nat),
        decreases items.len() - i,
    {
        proof {
            assert(decreases_to!(items@ => items@[i as int]));
            assert(decreases_to!(items@[i as int] => items@[i as int].key));
            assert(decreases_to!(items@[i as int] => items@[i as int].value));
        }
        newline(indent, out);
        items[i].key.show(out);
        newline(indent, out);
        items[i].value.lines(indent, out);
        proof {
            assert(out@ =~= old(out)@ + entries_lines(items@, i + 1, indent as nat));
        }
        i = i + 1;
    }
}

impl Inspectable {
    /// The object as a byte string literal of Rust that is bound to a
    /// name, with a line for every item.
    pub fn as_rust_string_literal(&self) -> (r: String)
        ensures
            r@ == "let pretty_bencode = b\"\\\n"@ + literal_lines(*self, 0) + "\\\n\""@,
    {
        let mut output = String::new();
        output.append("let pretty_bencode = b\"\\\n");
        self.lines(0, &mut output);
        output.append("\\\n\"");
        output
    }

    /// Appends the object as lines at the indentation `indent`.
    fn lines(&self, indent: usize, out: &mut String)
        ensures
            final(out)@ == old(out)@ + literal_lines(*self, indent as nat),
        decreases self,
    {
        let inner: usize = if indent < usize::MAX {
            indent + 1
        } else {
            indent
        };
        match self {
            Inspectable::List(x) => {
                proof {
                    assert(decreases_to!(*self => self->List_0));
                    assert(decreases_to!(*x => x.items));
                    assert(decreases_to!(x.items => x.items@));
                    reveal_strlit("l");
                    reveal_strlit("e");
                    assert("l"@ =~= seq!['l']);
                    assert("e"@ =~= seq!['e']);
                }
                out.append("l");
                lines_of_items(&x.items, inner, out);
                newline(indent, out);
                out.append("e");
            },
            Inspectable::Dict(x) => {
                proof {
                    assert(decreases_to!(*self => self->Dict_0));
                    assert(decreases_to!(*x => x.items));
                    assert(decreases_to!(x.items => x.items@));
                    reveal_strlit("d");
                    reveal_strlit("e");
                    assert("d"@ =~= seq!['d']);
                    assert("e"@ =~= seq!['e']);
                }
                out.append("d");
                lines_of_entries(&x.items, inner, out);
                newline(indent, out);
                out.append("e");
            },
            _ => self.show(out),
        }
    }
}

impl Inspectable {
    /// The text that the object is shown as: as it is written, but for
    /// bytes that are not printable, which are shown as escapes.
    pub fn to_string(&self) -> (r: String)
        ensures
            r@ == shown(*self),
    {
        let mut out = String::new();
        self.show(&mut out);
        out
    }

    /// Appends the text that the object is shown as.
    fn show(&self, out: &mut String)
        ensures
            final(out)@ == old(out)@ + shown(*self),
        decreases self,
    {
        match self {
            Inspectable::String(x) => x.show(out),
            Inspectable::Raw(x) => push_escapes(out, x.as_slice()),
            Inspectable::Int(x) => {
                proof {
                    reveal_strlit("i");
                    reveal_strlit("e");
                    assert("i"@ =~= seq!['i']);
                    assert("e"@ =~= seq!['e']);
                }
                out.append("i");
                out.append(x.bytes.as_str());
                out.append("e");
            },
            Inspectable::List(x) => {
                proof {
                    assert(decreases_to!(*self => self->List_0));
                    assert(decreases_to!(*x => x.items));
                    assert(decreases_to!(x.items => x.items@));
                }
                show_items(&x.items, out);
            },
            Inspectable::Dict(x) => {
                proof {
                    assert(decreases_to!(*self => self->Dict_0));
                    assert(decreases_to!(*x => x.items));
                    assert(decreases_to!(x.items => x.items@));
                }
                show_entries(&x.items, out);
            },
        }
    }
}

} // verus!
