use minecraft_world::{Chunk, LevelDat, NbtList, NbtValue, World};

#[test]
fn keyed_lookup_finds_first_match() {
    let mut c = NbtValue::Compound(Vec::new());
    c.insert("a".to_string(), NbtValue::Int(1));
    c.insert("b".to_string(), NbtValue::Int(2));
    assert_eq!(c.get_key("a"), Some(&NbtValue::Int(1)));
    assert_eq!(c.get_key("b"), Some(&NbtValue::Int(2)));
    assert_eq!(c.get_key("missing"), None);
    assert_eq!(NbtValue::Int(3).get_key("a"), None);
}

#[test]
fn indexed_reads_on_arrays() {
    let v = NbtValue::ByteArray(vec![-1, 2]);
    assert_eq!(v.get_index(0), Some(NbtValue::Byte(-1)));
    assert_eq!(v.get_index(1), Some(NbtValue::Byte(2)));
    assert_eq!(v.get_index(2), None);
    let v = NbtValue::IntArray(vec![5]);
    assert_eq!(v.get_index(0), Some(NbtValue::Int(5)));
    let v = NbtValue::LongArray(vec![9]);
    assert_eq!(v.get_index(0), Some(NbtValue::Long(9)));
    assert_eq!(NbtValue::Byte(0).get_index(0), None);
}

#[test]
fn indexed_reads_on_lists() {
    let v = NbtValue::List(NbtList::ShortList(vec![7, 8]));
    assert_eq!(v.get_index(1), Some(NbtValue::Short(8)));
    let v = NbtValue::List(NbtList::StringList(vec!["hi".to_string()]));
    assert_eq!(v.get_index(0), Some(NbtValue::String("hi".to_string())));
    let v = NbtValue::List(NbtList::EmptyList);
    assert_eq!(v.get_index(0), None);
}

#[test]
fn list_lengths() {
    assert_eq!(NbtList::IntList(vec![1, 2, 3]).len(), 3);
    assert_eq!(NbtList::CompoundList(vec![vec![]]).len(), 1);
    assert_eq!(NbtList::EmptyList.len(), 0);
}

#[test]
fn scalar_replacement_in_place() {
    let mut v = NbtValue::Int(1);
    assert!(v.set(NbtValue::Int(2)));
    assert_eq!(v, NbtValue::Int(2));
    assert!(!v.set(NbtValue::Byte(3)));
    assert_eq!(v, NbtValue::Int(2));
    let mut s = NbtValue::String("a".to_string());
    assert!(s.set(NbtValue::String("b".to_string())));
    assert_eq!(s, NbtValue::String("b".to_string()));
    let mut c = NbtValue::Compound(Vec::new());
    assert!(!c.set(NbtValue::Int(1)));
}

#[test]
fn indexed_replacement_in_place() {
    let mut v = NbtValue::ByteArray(vec![1, 2, 3]);
    assert!(v.set_index(1, NbtValue::Byte(-9)));
    assert_eq!(v, NbtValue::ByteArray(vec![1, -9, 3]));
    assert!(!v.set_index(3, NbtValue::Byte(0)));
    assert!(!v.set_index(0, NbtValue::Int(0)));
    assert_eq!(v, NbtValue::ByteArray(vec![1, -9, 3]));

    let mut l = NbtValue::List(NbtList::StringList(vec!["a".to_string(), "b".to_string()]));
    assert!(l.set_index(0, NbtValue::String("z".to_string())));
    assert_eq!(
        l,
        NbtValue::List(NbtList::StringList(vec!["z".to_string(), "b".to_string()]))
    );

    let mut al = NbtValue::List(NbtList::IntArrayList(vec![vec![1], vec![2]]));
    assert!(al.set_index(1, NbtValue::IntArray(vec![7, 8])));
    assert_eq!(al, NbtValue::List(NbtList::IntArrayList(vec![vec![1], vec![7, 8]])));

    // Whole list elements of nested-list kind are not replaced wholesale.
    let mut ll = NbtValue::List(NbtList::ListList(vec![NbtList::EmptyList]));
    assert!(!ll.set_index(0, NbtValue::List(NbtList::EmptyList)));
}

#[test]
fn entries_iteration_order() {
    let mut c = NbtValue::Compound(Vec::new());
    c.insert("one".to_string(), NbtValue::Byte(1));
    c.insert("two".to_string(), NbtValue::Byte(2));
    let es = c.entries().unwrap();
    let keys: Vec<&str> = es.iter().map(|e| e.0.as_str()).collect();
    assert_eq!(keys, vec!["one", "two"]);
    assert_eq!(NbtValue::Byte(0).entries(), None);
}

#[test]
fn world_hands_out_its_level_dat() {
    let (name, data) = {
        let mut c = NbtValue::Compound(Vec::new());
        c.insert("LevelName".to_string(), NbtValue::String("home".to_string()));
        ("".to_string(), c)
    };
    let world = World {
        path: "saves/home".to_string(),
        level_dat: LevelDat { name, data },
    };
    let dat = world.get_level_dat();
    assert_eq!(dat.data.get_key("LevelName"), Some(&NbtValue::String("home".to_string())));
    let chunk = Chunk { data: NbtValue::Compound(Vec::new()) };
    assert_eq!(chunk.data.entries().unwrap().len(), 0);
}
