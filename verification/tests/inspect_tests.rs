use bendy::inspect::display::is_printable_byte;
use bendy::inspect::{inspect, Inspectable};

#[test]
fn mod_all_traversal_test() {
    let buf = b"\
    l\
        i99e\
        5:hello\
        d\
            3:one\
            i11e\
            3:two\
            i22e\
            5:zzzzz\
            i33e\
        e\
    e";
    let i = inspect(buf);
    let l = i.list_ref();
    assert_eq!(3, l.items.len());
    assert_eq!(99, l.nth_ref(0).int_ref().as_i64());
    assert_eq!(b"hello".as_slice(), &*l.nth_ref(1).string_ref().bytes);
    let d = i.list_ref().nth_ref(2).dict_ref();
    let t0 = d.nth_ref(0);
    let t1 = d.nth_ref(1);
    let t2 = d.entry_ref(b"zzzzz");
    assert_eq!(b"one".as_slice(), &*t0.key.string_ref().bytes);
    assert_eq!(b"two".as_slice(), &*t1.key.string_ref().bytes);
    assert_eq!(b"zzzzz".as_slice(), &*t2.key.string_ref().bytes);
    assert_eq!(11, t0.value.int_ref().as_i64());
    assert_eq!(22, t1.value.int_ref().as_i64());
    assert_eq!(33, t2.value.int_ref().as_i64());
}

#[test]
fn mod_int_modify_test() {
    let buf = b"i64e";
    let mut i = inspect(buf);
    assert_eq!(64, i.int_mut().as_i64());
    i.int_mut().set(32);
    assert_eq!(32, i.int_mut().as_i64());
    assert_eq!("i32e", i.to_string().as_str());
    assert_eq!(b"i32e", i.emit().as_slice());

    let buf = b"\
    l\
        i43770e\
        d\
            3:one\
            i11e\
        e\
    e";
    let mut i = inspect(buf);
    i.list().nth(0).int_mut().set(2);
    i.list().nth(1).dict().nth(0).value.int_mut().set(1);
    assert_eq!(b"li2ed3:onei1eee", i.emit().as_slice());
}

#[test]
fn mod_fake_bytestring_length_test() {
    let buf = b"\
    l\
        5:hello\
        d\
            3:one\
            i11e\
        e\
    e";
    let mut i = inspect(buf);
    i.list().nth(0).string().set_fake_length(20);
    i.list()
        .nth(1)
        .dict()
        .nth(0)
        .key
        .string()
        .set_fake_length(0);
    assert_eq!(b"l20:hellod0:onei11eee", i.emit().as_slice());
    assert_eq!("l20:hellod0:onei11eee", i.to_string().as_str());
}

#[test]
fn mod_bytestring_set_content_test() {
    let buf = b"\
    l\
        5:hello\
        5:world\
        d\
            5:hello\
            5:world\
        e\
    e";
    let mut i = inspect(buf);
    i.list()
        .nth(0)
        .string()
        .set_content_string("one".to_string());
    i.list().nth(1).string().set_content_str("two");
    let entry = i.list().nth(2).dict().nth(0);
    entry.key.string().set_content_u8(b"three");
    entry.value.string().set_content_vec(Vec::from(b"four"));
    assert_eq!(b"l3:one3:twod5:three4:fouree", i.emit().as_slice());
    assert_eq!("l3:one3:twod5:three4:fouree", i.to_string().as_str());

    let mut i = inspect(b"5:hello");
    i.string().set_content_u8(b"\x00\x01");
    assert_eq!(b"2:\x00\x01".as_slice(), i.emit().as_slice());
    assert_eq!("2:\\x00\\x01", i.to_string().as_str());
}

#[test]
fn mod_replace_test() {
    let buf = b"\
    l\
        i99e\
        5:hello\
        d\
            3:one\
            i11e\
            3:two\
            i22e\
        e\
    e";
    let mut i = inspect(buf);
    let l = i.list();
    l.nth(0).replace(Inspectable::new_string(b"aaa"));
    l.nth(1).replace(inspect(b"li1ei2ei3ee"));
    l.nth(2).replace(Inspectable::new_int(5));
    assert_eq!(b"l3:aaali1ei2ei3eei5ee".as_slice(), i.emit().as_slice());
}

#[test]
fn mutate_replace_test() {
    let buf = b"\
    l\
        i99e\
        5:hello\
        d\
            3:one\
            i11e\
            3:two\
            i22e\
        e\
    e";
    let mut i = inspect(buf);
    let l = i.list();
    l.nth(0).replace(Inspectable::new_string(b"aaa"));
    l.nth(1).replace(inspect(b"li1ei2ei3ee"));
    l.nth(2).replace(Inspectable::new_int(5));
    assert_eq!(b"l3:aaali1ei2ei3eei5ee", i.emit().as_slice());
}

#[test]
fn mutate_set_byterange_test() {
    let mut i = inspect(b"5:AAAAA");
    assert_eq!(5, i.string().bytes.len());

    i.string().set_content_byterange(.., b'0');
    assert_eq!(b"5:00000", i.emit().as_slice());

    let mut i = inspect(b"5:AAAAA");
    i.string().set_content_byterange(0.., b'0');
    assert_eq!(b"5:00000", i.emit().as_slice());

    let mut i = inspect(b"5:AAAAA");
    i.string().set_content_byterange(0..=4, b'0');
    assert_eq!(b"5:00000", i.emit().as_slice());

    let mut i = inspect(b"5:AAAAA");
    i.string().set_content_byterange(0..5, b'0');
    assert_eq!(b"5:00000", i.emit().as_slice());

    let mut i = inspect(b"5:AAAAA");
    i.string().set_content_byterange(0..=0, b'0');
    assert_eq!(b"5:0AAAA", i.emit().as_slice());

    let mut i = inspect(b"5:AAAAA");
    i.string().set_content_byterange(0..1, b'0');
    assert_eq!(b"5:0AAAA", i.emit().as_slice());

    let mut i = inspect(b"5:AAAAA");
    i.string().set_content_byterange(0..=1, b'0');
    assert_eq!(b"5:00AAA", i.emit().as_slice());

    let mut i = inspect(b"5:AAAAA");
    i.string().set_content_byterange(0..2, b'0');
    assert_eq!(b"5:00AAA", i.emit().as_slice());

    let mut i = inspect(b"5:AAAAA");
    i.string().set_content_byterange(0..3, b'0');
    assert_eq!(b"5:000AA", i.emit().as_slice());

    let mut i = inspect(b"5:AAAAA");
    i.string().set_content_byterange(0..4, b'0');
    assert_eq!(b"5:0000A", i.emit().as_slice());

    let mut i = inspect(b"5:AAAAA");
    i.string().set_content_byterange(2..4, b'0');
    assert_eq!(b"5:AA00A", i.emit().as_slice());

    let mut i = inspect(b"5:AAAAA");
    i.string().set_content_byterange(2..5, b'0');
    assert_eq!(b"5:AA000", i.emit().as_slice());
}

fn ensure_prints_as(b: &[u8], expected: Option<&str>) {
    let i = inspect(b).to_string();
    if let Some(e) = expected {
        assert_eq!(i.as_str(), e);
    } else {
        let e = String::from_utf8(b.to_vec()).unwrap();
        assert_eq!(i, e);
    }
}

fn ensure_roundtrip(b: &[u8]) {
    ensure_prints_as(b, None);
}

#[test]
fn valid_printing_works() {
    ensure_roundtrip(b"i200e");
    ensure_roundtrip(b"4:helo");
    ensure_roundtrip(b"de");
    ensure_roundtrip(b"le");
    ensure_roundtrip(b"li2e6:inliste");
    ensure_roundtrip(b"d1:ai1e1:bi2ee");
    ensure_prints_as(
        b"d5:countli1ei2ei3ee4:null1:\x00e",
        Some("d5:countli1ei2ei3ee4:null1:\\x00e"),
    );
}

#[test]
fn as_rust_string_literal_doesnt_break_quoting() {
    assert!(!is_printable_byte(b'"'));
}

fn all_printables_bencode_list() -> Vec<u8> {
    let mut ap = Vec::new();
    ap.push(b'l');
    for b in 40_u8..127 {
        assert!(is_printable_byte(b));
        ap.push(b'1');
        ap.push(b':');
        ap.push(b);
    }
    ap.push(b'e');
    ap
}

#[test]
fn as_rust_string_literal_test() {
    assert_eq!(
        inspect(b"i200e").as_rust_string_literal(),
        "let pretty_bencode = b\"\\\ni200e\\\n\""
    );
    assert_eq!(
        inspect(b"le").as_rust_string_literal(),
        "let pretty_bencode = b\"\\\nl\\\ne\\\n\""
    );
    assert_eq!(
        inspect(b"li2e6:inliste").as_rust_string_literal(),
        "let pretty_bencode = b\"\\\nl\\\n\ti2e\\\n\t6:inlist\\\ne\\\n\""
    );
    assert_eq!(
        inspect(b"d1:ali1ee1:bi2ee").as_rust_string_literal(),
        "let pretty_bencode = b\"\\\nd\\\n\t1:a\\\n\tl\\\n\t\ti1e\\\n\te\\\n\t1:b\\\n\ti2e\\\ne\\\n\""
    );
    let printables = all_printables_bencode_list();
    let literal = inspect(&printables).as_rust_string_literal();
    assert_eq!(literal.matches('"').count(), 2);
}

#[test]
fn shown_bytes_that_are_not_printable() {
    assert_eq!(Inspectable::new_raw(b"\x00\x0f\xa5\xff").to_string(), "\\x00\\x0F\\xA5\\xFF");
    assert_eq!(inspect(b"3:a\"b").to_string(), "3:\\x61\\x22\\x62");
    assert_eq!(inspect(b"2:()").to_string(), "2:()");
    assert_eq!(inspect(b"1:~").to_string(), "1:~");
    assert_eq!(inspect(b"1:\x7f").to_string(), "1:\\x7F");
    assert_eq!(inspect(b"1:'").to_string(), "1:\\x27");
}

#[test]
fn constructors_and_emit() {
    assert_eq!(Inspectable::new_int(-120).emit(), b"i-120e");
    assert_eq!(Inspectable::new_int(i64::MIN).emit(), b"i-9223372036854775808e");
    assert_eq!(Inspectable::new_int(0).emit(), b"i0e");
    assert_eq!(Inspectable::new_string(b"").emit(), b"0:");
    assert_eq!(Inspectable::new_raw(b"xyz").emit(), b"xyz");
    assert_eq!(Inspectable::new_dict().emit(), b"de");
    assert_eq!(Inspectable::new_list().emit(), b"le");
    assert_eq!(Inspectable::new_list().duplicate(), Inspectable::new_list());
    let tree = inspect(b"d1:ali1e0:ee");
    assert_eq!(tree.duplicate(), tree);
    assert_eq!(tree.emit(), b"d1:ali1e0:ee");
}

#[test]
fn parse_errors_are_those_of_the_decoder() {
    assert_eq!(
        Inspectable::from_bytes(b"").err().unwrap().to_string(),
        "bencode encoding corrupted (Reached EOF in the middle of a message)"
    );
    assert_eq!(
        Inspectable::from_bytes(b"li1e").err().unwrap().to_string(),
        "bencode encoding corrupted (Reached EOF in the middle of a message)"
    );
    assert_eq!(
        Inspectable::from_bytes(b"d1:bi1e1:ai1ee")
            .err()
            .unwrap()
            .to_string(),
        "bencode encoding corrupted (Keys were not sorted)"
    );
    assert!(Inspectable::from_bytes(b"i1etrailing").is_ok());
}

#[test]
fn mutators() {
    let mut tree = inspect(b"l1:a1:b1:ce");
    tree.remove_nth(1);
    assert_eq!(tree.emit(), b"l1:a1:ce");
    tree.list().clear_content();
    assert_eq!(tree.emit(), b"le");

    let mut tree = inspect(b"d1:ai1e1:bi2e1:ci3ee");
    tree.remove_entry(b"b");
    assert_eq!(tree.emit(), b"d1:ai1e1:ci3ee");
    tree.remove_entry(b"zz");
    assert_eq!(tree.emit(), b"d1:ai1e1:ci3ee");
    tree.remove_nth(0);
    assert_eq!(tree.emit(), b"d1:ci3ee");
    tree.clear_content();
    assert_eq!(tree.emit(), b"de");

    let mut tree = inspect(b"d1:ai1e1:bi2e1:ci3ee");
    tree.dict().nth(0).key.string().set_content_u8(b"z");
    tree.dict().nth(2).key.string().set_content_u8(b"ab");
    assert_eq!(tree.emit(), b"d1:zi1e1:bi2e2:abi3ee");
    tree.dict().sort();
    assert_eq!(tree.emit(), b"d2:abi3e1:bi2e1:zi1ee");
    tree.dict().nth(0).key.string().set_content_u8(b"b");
    tree.remove_entry(b"b");
    assert_eq!(tree.emit(), b"d1:zi1ee");
    tree.dict().entry(b"z").value.int_mut().set(-7);
    assert_eq!(tree.emit(), b"d1:zi-7ee");

    let mut tree = inspect(b"5:hello");
    tree.truncate();
    assert_eq!(tree.emit(), b"2:he");
    tree.truncate();
    tree.truncate();
    assert_eq!(tree.emit(), b"0:");
    let mut tree = inspect(b"5:hello");
    tree.string().set_fake_length(9);
    assert!(!tree.string_ref().is_empty());
    assert_eq!(tree.string_ref().len(), 9);
    tree.string().clear_fake_length();
    tree.set_content_byterange(1..=3, b'-');
    assert_eq!(tree.emit(), b"5:h---o");
    tree.set_content_byterange(..2, b'+');
    assert_eq!(tree.emit(), b"5:++--o");
    tree.set_content_byterange(..=0, b'!');
    assert_eq!(tree.emit(), b"5:!+--o");
    tree.clear_content();
    assert_eq!(tree.emit(), b"0:");
    assert!(tree.string_ref().is_empty());

    let mut tree = inspect(b"i5e");
    tree.clear_content();
    assert_eq!(tree.emit(), b"i0e");
    tree.apply(|inner| inner.replace(Inspectable::new_raw(b"??")));
    assert_eq!(tree.emit(), b"??");
    tree.clear_content();
    assert_eq!(tree.raw_ref().len(), 0);
    tree.raw().push(b'x');
    assert_eq!(tree.emit(), b"x");
}
