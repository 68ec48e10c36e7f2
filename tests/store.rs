use organizefs::{ArenaError, NewArena, OrganizeFSEntry, TreeStorage};

fn entry(name: &str, size: &str, mime: &str) -> OrganizeFSEntry {
    OrganizeFSEntry {
        name: name.to_string(),
        host_path: format!("/{name}"),
        size: size.to_string(),
        mime: mime.to_string(),
        modified_date: "2023-08-04".to_string(),
    }
}

fn segs(p: &[&str]) -> Vec<String> {
    p.iter().map(|s| s.to_string()).collect()
}

#[test]
fn arena_new_add_file() {
    let mut arena = NewArena::default();
    assert!(arena.insert(&segs(&["f1", "f2", "f3", "file"]), 1).is_ok());
}

#[test]
fn arena_insert_and_find() {
    let mut arena = NewArena::new();
    let id = arena.insert(&segs(&["t", "test", "file.txt"]), 7).unwrap();
    assert_eq!(arena.find(&segs(&["t", "test", "file.txt"])), Some(id));
    assert_eq!(arena.get(id).unwrap().inner(), Some(7));
    let dir = arena.find(&segs(&["t", "test"])).unwrap();
    assert!(arena.get(dir).unwrap().is_directory());
    assert_eq!(arena.find(&segs(&[])), Some(0));
    assert_eq!(arena.find(&segs(&["t", "missing"])), None);
    assert_eq!(arena.len(), 4);
}

#[test]
fn arena_insert_existing_keeps_value() {
    let mut arena = NewArena::new();
    let a = arena.insert(&segs(&["d", "f"]), 1).unwrap();
    let b = arena.insert(&segs(&["d", "f"]), 2).unwrap();
    assert_eq!(a, b);
    assert_eq!(arena.get(a).unwrap().inner(), Some(1));
    assert_eq!(arena.len(), 3);
}

#[test]
fn arena_name_conflict() {
    let mut arena = NewArena::new();
    arena.insert(&segs(&["a"]), 1).unwrap();
    assert_eq!(arena.insert(&segs(&["a", "b"]), 2), Err(ArenaError::NameConflict));
    arena.insert(&segs(&["d", "x"]), 3).unwrap();
    assert_eq!(arena.insert(&segs(&["d"]), 4), Err(ArenaError::NameConflict));
    assert_eq!(arena.len(), 4);
}

#[test]
fn arena_remove() {
    let mut arena = NewArena::new();
    arena.insert(&segs(&["d", "x"]), 3).unwrap();
    assert!(arena.remove(&segs(&["d", "x"])));
    assert_eq!(arena.find(&segs(&["d", "x"])), None);
    assert!(arena.find(&segs(&["d"])).is_some());
    assert!(!arena.remove(&segs(&["d", "x"])));
    assert!(!arena.remove(&segs(&[])));
    assert_eq!(arena.len(), 2);
}

#[test]
fn test() {
    let mut store = TreeStorage::new("/{meta}/{size}/");
    store.add_entry(entry("present", "0 B", "text_plain")).unwrap();
    store.add_entry(entry("present", "10 B", "text_plain")).unwrap();
    assert_eq!(store.len(), 2);
    assert!(store.find("/text_plain/10 B/present").is_some());
    assert!(store.find("/text_plain/0 B/present").is_some());
    assert_eq!(store.node_count(), 6);
}

#[test]
fn get_pattern() {
    let store = TreeStorage::new("/");
    assert_eq!("/", store.get_pattern());
}

#[test]
fn set_pattern() {
    let mut store = TreeStorage::new("/");
    store.add_entry(entry("present", "0 B", "text_plain")).unwrap();
    store.set_pattern("/s/../t/{meta}/").unwrap();
    assert_eq!("/t/{meta}", store.get_pattern());
    assert_eq!(store.len(), 1);
    let e = store.find("/t/text_plain/present");
    assert!(e.is_some_and(|e| e.is_file()));
}

#[test]
fn len_and_is_empty() {
    let mut store = TreeStorage::new("/t/{meta}/{size}/");
    assert_eq!(store.len(), 0);
    assert!(store.is_empty());
    assert_eq!(store.node_count(), 1);
    store.add_entry(entry("example.file", "size", "meta")).unwrap();
    assert_eq!(store.len(), 1);
    assert!(!store.is_empty());
    assert_eq!(store.node_count(), 5);
}

#[test]
fn scenario_single_entry_shape() {
    let mut store = TreeStorage::new("/{meta}/{size}/");
    store.add_entry(entry("present", "0 B", "text_plain")).unwrap();
    let e = store.find("/text_plain/0 B/present").unwrap();
    assert!(e.is_file());
    assert!(!e.is_directory());
    assert_eq!(store.node_count(), 4);
}

#[test]
fn scenario_same_attributes_two_names() {
    let mut store = TreeStorage::new("/{meta}/{size}/{meta}_{size}");
    store.add_entry(entry("a", "1 B", "text_plain")).unwrap();
    store.add_entry(entry("b", "1 B", "text_plain")).unwrap();
    let a = store.find("/text_plain/1 B/text_plain_1 B/a").unwrap();
    let b = store.find("/text_plain/1 B/text_plain_1 B/b").unwrap();
    assert!(a.is_file() && b.is_file());
    assert_ne!(a.host_path(), b.host_path());
    assert_eq!(store.len(), 2);
}

#[test]
fn scenario_pattern_change() {
    let mut store = TreeStorage::new("/{meta}/{size}/");
    store.add_entry(entry("present", "0 B", "text_plain")).unwrap();
    let before = store.len();
    store.set_pattern("/{size}/{meta}/").unwrap();
    assert!(store.find("/text_plain/0 B/present").is_none());
    let e = store.find("/0 B/text_plain/present").unwrap();
    assert!(e.is_file());
    assert_eq!(e.host_path(), "/present");
    assert_eq!(store.len(), before);
    assert_eq!(store.get_pattern(), "/{size}/{meta}");
}

#[test]
fn set_pattern_keeps_count() {
    let mut store = TreeStorage::new("/{meta}");
    for (n, s, m) in [("a", "1", "x"), ("b", "2", "x"), ("c", "2", "y")] {
        store.add_entry(entry(n, s, m)).unwrap();
    }
    for p in ["/{size}", "/", "/{size}/{meta}/{mdate}", "/fixed/{meta}"] {
        store.set_pattern(p).unwrap();
        assert_eq!(store.len(), 3);
    }
    assert_eq!(store.node_count(), 3 + 1 + 1 + 2);
}

#[test]
fn set_pattern_collision_keeps_old_tree() {
    let mut store = TreeStorage::new("/{size}");
    store.add_entry(entry("same", "1", "x")).unwrap();
    store.add_entry(entry("same", "2", "x")).unwrap();
    assert_eq!(store.set_pattern("/"), Err(ArenaError::Occupied));
    assert_eq!(store.get_pattern(), "/{size}");
    assert!(store.find("/1/same").is_some());
    assert!(store.find("/2/same").is_some());
    assert_eq!(store.len(), 2);
}

#[test]
fn add_entry_occupied() {
    let mut store = TreeStorage::new("/{meta}");
    store.add_entry(entry("f", "1", "x")).unwrap();
    assert_eq!(store.add_entry(entry("f", "2", "x")), Err(ArenaError::Occupied));
    assert_eq!(store.len(), 1);
    assert_eq!(store.node_count(), 3);
}

#[test]
fn round_trip_local_path() {
    let mut store = TreeStorage::new("/m_{meta}/{size}");
    let e = entry("doc.txt", "3 kB", "text_plain");
    store.add_entry(e.clone()).unwrap();
    let e = store.find("/m_text_plain/3 kB/doc.txt").unwrap();
    assert!(e.is_file());
    assert_eq!(e.host_path(), "/doc.txt");
}

#[test]
fn find_normalizes_path() {
    let mut store = TreeStorage::new("/{meta}");
    store.add_entry(entry("f", "1", "x")).unwrap();
    assert!(store.find("//x/./g/../f").unwrap().is_file());
    assert!(store.find("/").unwrap().is_directory());
    assert!(store.find("/x/").unwrap().is_directory());
}

#[test]
fn remove_then_find_none() {
    let mut store = TreeStorage::new("/{meta}");
    store.add_entry(entry("f", "1", "x")).unwrap();
    store.add_entry(entry("g", "1", "x")).unwrap();
    assert!(store.remove("/x/f"));
    assert!(store.find("/x/f").is_none());
    assert!(store.find("/x/g").unwrap().is_file());
    assert_eq!(store.len(), 1);
    assert_eq!(store.node_count(), 3);
}

#[test]
fn remove_missing_changes_nothing() {
    let mut store = TreeStorage::new("/{meta}");
    store.add_entry(entry("f", "1", "x")).unwrap();
    assert!(!store.remove("/x/nothing"));
    assert!(!store.remove("/x"));
    assert!(!store.remove("/"));
    assert_eq!(store.len(), 1);
    assert_eq!(store.node_count(), 3);
}

#[test]
fn children_of_directory() {
    let mut store = TreeStorage::new("/{meta}");
    store.add_entry(entry("f", "1", "x")).unwrap();
    store.add_entry(entry("g", "1", "y")).unwrap();
    let root = store.find("/").unwrap();
    let mut names: Vec<String> = root.children().into_iter().map(|(n, e)| {
        assert!(e.is_directory());
        n
    }).collect();
    names.sort();
    assert_eq!(names, vec!["x".to_string(), "y".to_string()]);
    let file = store.find("/x/f").unwrap();
    assert!(file.children().is_empty());
}

#[test]
fn empty_attribute_leaves_no_segment() {
    let mut store = TreeStorage::new("/{meta}/{size}/");
    store.add_entry(entry("file", "3 B", "")).unwrap();
    let e = store.find("/3 B/file").unwrap();
    assert!(e.is_file());
    assert_eq!(e.host_path(), "/file");
    assert_eq!(store.node_count(), 3);
}

#[test]
fn set_pattern_same_normal_form_keeps_tree() {
    let mut store = TreeStorage::new("/{meta}/{size}/");
    store.add_entry(entry("present", "0 B", "text_plain")).unwrap();
    let nodes = store.node_count();
    store.set_pattern("/x/../{meta}/./{size}").unwrap();
    assert_eq!(store.node_count(), nodes);
    assert!(store.find("/text_plain/0 B/present").unwrap().is_file());
}

#[test]
fn entry_with_empty_virtual_path_is_refused() {
    let mut store = TreeStorage::new("/");
    assert_eq!(store.add_entry(entry("..", "1", "x")), Err(ArenaError::NameConflict));
    assert_eq!(store.len(), 0);
}

#[test]
fn remove_keeps_parent_directory() {
    let mut store = TreeStorage::new("/{meta}");
    store.add_entry(entry("f", "1", "x")).unwrap();
    assert!(store.remove("/x/f"));
    assert!(store.find("/x").unwrap().is_directory());
    assert_eq!(store.len(), 0);
    assert_eq!(store.node_count(), 2);
}
