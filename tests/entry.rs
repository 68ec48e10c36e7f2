use organizefs::{expand, get_child_files, FsFile, OrganizeFSEntry};

fn file(name: &str, meta: &str, size: &str) -> OrganizeFSEntry {
    OrganizeFSEntry {
        name: name.to_string(),
        host_path: format!("/host/{name}"),
        size: size.to_string(),
        mime: meta.to_string(),
        modified_date: "2023-08-04".to_string(),
    }
}

fn names(files: &[OrganizeFSEntry]) -> Vec<String> {
    files.iter().map(|f| f.name.clone()).collect()
}

#[test]
fn one() {
    let one = file("one", "m", "s");
    assert_eq!(one.attr("meta"), Some("m"));
    assert_eq!(one.attr("size"), Some("s"));
}

#[test]
fn two() {
    let two = file("two", "joint", "joint");
    assert_eq!(two.attr("meta"), Some("joint"));
    assert_eq!(two.attribute("size"), Some("joint"));
}

#[test]
fn attribute_unknown_key() {
    let f = file("f", "m", "s");
    assert_eq!(f.attr("mdate"), Some("2023-08-04"));
    assert_eq!(f.attr("colour"), None);
}

#[test]
fn expand_replaces_each_placeholder() {
    let f = file("present", "text_plain", "0 B");
    assert_eq!(expand("{meta}", &f), "text_plain");
    assert_eq!(expand("m_{meta}/s_{size}", &f), "m_text_plain/s_0 B");
    assert_eq!(expand("{meta}_{size}_{mdate}", &f), "text_plain_0 B_2023-08-04");
    assert_eq!(expand("{other}{meta", &f), "{other}{meta");
    assert_eq!(expand("", &f), "");
}

#[test]
fn expand_does_not_rescan_values() {
    let f = file("x", "{size}", "7");
    assert_eq!(expand("{meta}", &f), "{size}");
}

#[test]
fn local_path_appends_name() {
    let f = file("present", "text_plain", "0 B");
    let pattern = vec!["{meta}".to_string(), "{size}".to_string()];
    assert_eq!(
        f.local_path(&pattern),
        vec!["text_plain".to_string(), "0 B".to_string(), "present".to_string()]
    );
}

#[test]
fn get_child_files_root() {
    let files = vec![file("0", "1", "1"), file("1", "1", "2")];
    let children = get_child_files(&files, "/{meta}/{size}", "/");
    assert_eq!(2, children.len());
    assert!(children.iter().any(|c| c.name == "0"));
    assert!(children.iter().any(|c| c.name == "1"));
}

#[test]
fn get_child_files_meta() {
    let files = vec![file("0", "1", "1"), file("1", "1", "2"), file("2", "2", "0")];
    let children = get_child_files(&files, "/{meta}", "/1");
    assert_eq!(2, children.len());
    assert!(children.iter().any(|c| c.name == "0"));
    assert!(children.iter().any(|c| c.name == "1"));
}

#[test]
fn get_child_files_meta_size() {
    let files = vec![
        file("0", "1", "1"),
        file("1", "1", "2"),
        file("2", "1", "2"),
        file("3", "2", "0"),
    ];
    let children = get_child_files(&files, "/{meta}/{size}", "/1/2");
    assert_eq!(2, children.len());
    assert!(children.iter().any(|c| c.name == "1"));
    assert!(children.iter().any(|c| c.name == "2"));

    let children = get_child_files(&files, "/{meta}/{size}", "/2/0");
    assert_eq!(1, children.len());
    assert!(children.iter().any(|c| c.name == "3"));

    let children = get_child_files(&files, "/{meta}/{size}", "/2/2");
    assert_eq!(0, children.len());
}

#[test]
fn get_child_files_keeps_order() {
    let files = vec![file("a", "1", "1"), file("b", "2", "1"), file("c", "1", "3")];
    let children = get_child_files(&files, "/{meta}", "/1/anything");
    assert_eq!(names(&children), vec!["a".to_string(), "c".to_string()]);
}

#[test]
fn entry_new_from_host_attributes() {
    let e = OrganizeFSEntry::new(
        "/data/./in/../photo.jpg",
        "photo.jpg".to_string(),
        12000,
        Some("image/jpeg".to_string()),
        Some(1691150400),
    );
    assert_eq!(e.host_path, "/data/photo.jpg");
    assert_eq!(e.name, "photo.jpg");
    assert_eq!(e.mime, "image_jpeg");
    assert_eq!(e.modified_date, "2023-08-04");
    let expected = humansize::format_size(
        12000u64,
        humansize::DECIMAL.space_after_value(false).decimal_zeroes(2),
    );
    assert_eq!(e.size, expected);
    assert_ne!(e.size, "12000");
}

#[test]
fn entry_new_without_mime_or_time() {
    let e = OrganizeFSEntry::new("/a/b", "b".to_string(), 0, None, None);
    assert_eq!(e.mime, "");
    assert_eq!(e.modified_date, "1970-01-01");
}

#[test]
fn entry_new_before_epoch() {
    let e = OrganizeFSEntry::new("/a/b", "b".to_string(), 0, None, Some(-86400 * 365 * 3));
    assert_eq!(e.modified_date, "1967-01-02");
}

#[test]
fn entry_new_out_of_range_time() {
    let e = OrganizeFSEntry::new("/a/b", "b".to_string(), 0, None, Some(i64::MAX));
    assert_eq!(e.modified_date, "1970-01-01");
}

#[test]
fn format_date_pads() {
    assert_eq!(organizefs::attrs::format_date(7, 3, 9), "0007-03-09");
    assert_eq!(organizefs::attrs::format_date(-44, 12, 31), "-0044-12-31");
    assert_eq!(organizefs::attrs::format_date(2023, 8, 4), "2023-08-04");
}
