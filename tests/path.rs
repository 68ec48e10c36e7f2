use organizefs::{split_path, Normalize};

#[test]
fn normalize() {
    let input = "/../s/../t/./m_{meta}/s_{size}/{meta}_{size}";
    let result = organizefs::normalize(input);
    assert_eq!("/t/m_{meta}/s_{size}/{meta}_{size}", result);
}

#[test]
fn normalize_doc_example() {
    assert_eq!(organizefs::normalize("/test/a/./b/../../"), "/test");
}

#[test]
fn normalize_twice_is_once() {
    for p in ["/../s/../t/./{meta}/", "a//b/../c/", "", "/", "..", "/x/./../../y/z/"] {
        let once = organizefs::normalize(p);
        assert_eq!(organizefs::normalize(&once), once);
    }
}

#[test]
fn normalize_is_rooted() {
    assert_eq!(organizefs::normalize(""), "/");
    assert_eq!(organizefs::normalize("a/b"), "/a/b");
    assert_eq!(organizefs::normalize("/.."), "/");
    assert_eq!(organizefs::normalize("//a///b//"), "/a/b");
}

#[test]
fn normalize_trait_on_string() {
    let p = String::from("/t/./x/../y");
    assert_eq!(p.normalize(), "/t/y");
}

#[test]
fn split_path_drops_empty_segments() {
    assert_eq!(split_path("//a/b//c/"), vec!["a".to_string(), "b".to_string(), "c".to_string()]);
    assert!(split_path("/").is_empty());
}
