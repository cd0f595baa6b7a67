use bendy::inspect::{inspect, inspect_path, Inspectable, PathBuilder};

const TORRENT: &[u8] =
    b"d8:announce3:url5:extrali1ei2ee4:infod5:filesld6:lengthi5e4:pathl1:a1:beed6:lengthi7e4:pathl1:ceee4:name3:diree";

#[test]
fn the_empty_path_leads_to_the_object_itself() {
    let tree = inspect(TORRENT);
    assert_eq!(tree.find_ref(&inspect_path()), &tree);
    assert_eq!(tree.find_ref(&PathBuilder::new()), &tree);
}

#[test]
fn entries_are_found_by_key_and_by_index() {
    let tree = inspect(TORRENT);
    let announce = inspect_path().entry(b"announce").value();
    assert_eq!(tree.find_ref(&announce).emit(), b"3:url");
    let key = inspect_path().nth(0).key();
    assert_eq!(tree.find_ref(&key).emit(), b"8:announce");
    let name = inspect_path().into_entry(b"info").into_value().into_entry(b"name").into_value();
    assert_eq!(tree.find_ref(&name).emit(), b"3:dir");
    let second_length = inspect_path()
        .entry(b"info")
        .value()
        .entry(b"files")
        .value()
        .nth(1)
        .entry(b"length")
        .value();
    assert_eq!(tree.find_ref(&second_length).emit(), b"i7e");
    let extra = inspect_path().nth(1).value().into_nth(1);
    assert_eq!(tree.find_ref(&extra).emit(), b"i2e");
}

#[test]
fn searches_find_the_first_match_in_the_order_of_writing() {
    let tree = inspect(TORRENT);
    let length = inspect_path().search_entry(b"length").value();
    assert_eq!(tree.find_ref(&length).emit(), b"i5e");
    let path = inspect_path().into_search_entry(b"path").into_value().into_nth(0);
    assert_eq!(tree.find_ref(&path).emit(), b"1:a");
    let seven = inspect_path().search_int("7");
    let one = inspect_path().search_int("1");
    assert_eq!(tree.find_ref(&one).emit(), b"i1e");
    assert_eq!(tree.find_ref(&seven).emit(), b"i7e");
    let two = inspect_path().search_int_i64(2);
    assert_eq!(tree.find_ref(&two).emit(), b"i2e");
    let two = inspect_path().into_search_int_i64(2);
    assert_eq!(tree.find_ref(&two).emit(), b"i2e");
    let c = inspect_path().search_bytestring(b"c");
    assert_eq!(tree.find_ref(&c).emit(), b"1:c");
    let dir = inspect_path().into_search_bytestring(b"dir").into_search_int("1");
    // a search that has matched does not look at what follows it
    assert_eq!(tree.find_ref(&dir).emit(), b"3:dir");
    // a search does not look at the keys of a dictionary
    let in_files = inspect_path().entry(b"info").value().into_search_int("5");
    assert_eq!(tree.find_ref(&in_files).emit(), b"i5e");
}

#[test]
fn a_path_is_copied_when_a_step_is_added_to_it() {
    let tree = inspect(TORRENT);
    let info = inspect_path().entry(b"info").value();
    let name = info.entry(b"name").value();
    let files = info.entry(b"files").value();
    assert_eq!(tree.find_ref(&name).emit(), b"3:dir");
    assert_eq!(tree.find_ref(&files.nth(1).nth(0).key().duplicate()).emit(), b"6:length");
    assert_eq!(tree.find_ref(&files.nth(0)).emit(), b"d6:lengthi5e4:pathl1:a1:bee");
    assert_eq!(tree.find_ref(&info).dict_ref().items.len(), 2);
    // more than twenty steps spill out of the vector
    let mut long = inspect_path();
    let mut nested = inspect(b"i1e");
    for _ in 0..25 {
        long = long.into_nth(0);
        let mut list = bendy::inspect::Inspectable::new_list();
        list.list().items.push(nested);
        nested = list;
    }
    assert_eq!(nested.find_ref(&long).emit(), b"i1e");
}

#[test]
fn find_hands_out_what_find_ref_finds() {
    let mut tree = Inspectable::from_bytes(b"d1:ai1e1:bl1:x1:yd1:ci7eeee").unwrap();
    let way = inspect_path().entry(b"b").value().nth(2).entry(b"c").value();
    assert_eq!(tree.find_ref(&way).emit(), b"i7e");
    tree.find(&way).replace(Inspectable::new_int(8));
    assert_eq!(tree.emit(), b"d1:ai1e1:bl1:x1:yd1:ci8eeee".to_vec());
    let seven = inspect_path().search_bytestring(b"y");
    tree.find(&seven).truncate();
    assert_eq!(tree.emit(), b"d1:ai1e1:bl1:x0:d1:ci8eeee".to_vec());
    let root = inspect_path();
    tree.find(&root).replace(Inspectable::new_raw(b"le"));
    assert_eq!(tree.emit(), b"le".to_vec());
}

#[test]
fn mutate_changes_the_tree_and_clone_and_mutate_a_copy() {
    let mut tree = Inspectable::from_bytes(b"li1ei2eli3eee").unwrap();
    let way = inspect_path().nth(2).nth(0);
    let changed = tree.clone_and_mutate(&way, |x| x.replace(Inspectable::new_string(b"three")));
    assert_eq!(tree.emit(), b"li1ei2eli3eee".to_vec());
    assert_eq!(changed.emit(), b"li1ei2el5:threeee".to_vec());
    tree.mutate(&inspect_path().search_int_i64(2), |x| x.int_mut().set(22));
    assert_eq!(tree.emit(), b"li1ei22eli3eee".to_vec());
    tree.mutate(&inspect_path().nth(2), |x| x.remove_nth(0));
    assert_eq!(tree.emit(), b"li1ei22elee".to_vec());
}

#[test]
fn inspected_trees_are_written_as_they_were_read() {
    let inputs: Vec<&[u8]> = vec![
        b"i0e",
        b"4:spam",
        b"le",
        b"d3:bari1e3:fooli2ei3eee",
        b"ld1:ad1:bleee0:i-7ee",
    ];
    for input in inputs {
        assert_eq!(Inspectable::from_bytes(input).unwrap().emit(), input.to_vec());
        assert_eq!(inspect(input).emit(), input.to_vec());
        assert_eq!(
            Inspectable::from_bytes(input).unwrap().duplicate().emit(),
            input.to_vec()
        );
    }
    assert_eq!(
        Inspectable::from_bytes(b"li1eei2e").unwrap().emit(),
        b"li1ee".to_vec()
    );
    assert!(Inspectable::from_bytes(b"li1e").is_err());
    assert!(Inspectable::from_bytes(b"").is_err());
}
