use organizefs::{
    errno_of, flush, getattr_target, handle_fd, open_reply, open_target,
    opendir, read_request, readdir, release_request, rename, unlink_commit, unlink_target,
    FileKind, OrganizeFSEntry, StatTarget, TreeStorage, EINVAL, ENOENT, ENOSYS,
};

fn entry(name: &str) -> OrganizeFSEntry {
    OrganizeFSEntry {
        name: name.to_string(),
        host_path: format!("/host/{name}"),
        size: "0 B".to_string(),
        mime: "text_plain".to_string(),
        modified_date: "2023-08-04".to_string(),
    }
}

fn store_with(names: &[&str]) -> TreeStorage {
    let mut store = TreeStorage::new("/");
    for n in names {
        store.add_entry(entry(n)).unwrap();
    }
    store
}

fn listing(store: &TreeStorage, path: &str) -> Vec<(String, FileKind)> {
    readdir(store, path).unwrap().into_iter().map(|d| (d.name, d.kind)).collect()
}

#[test]
fn mode_to_filetype() {
    let perm = 0o644;
    assert_eq!(organizefs::mode_to_filetype(libc::S_IFDIR + perm), Some(FileKind::Directory));
    assert_eq!(organizefs::mode_to_filetype(libc::S_IFREG + perm), Some(FileKind::RegularFile));
    assert_eq!(organizefs::mode_to_filetype(libc::S_IFLNK + perm), Some(FileKind::Symlink));
    assert_eq!(organizefs::mode_to_filetype(libc::S_IFBLK + perm), Some(FileKind::BlockDevice));
    assert_eq!(organizefs::mode_to_filetype(libc::S_IFCHR + perm), Some(FileKind::CharDevice));
    assert_eq!(organizefs::mode_to_filetype(libc::S_IFIFO + perm), Some(FileKind::NamedPipe));
    assert_eq!(organizefs::mode_to_filetype(libc::S_IFSOCK + perm), Some(FileKind::Socket));
}

#[test]
fn mode_to_filetype_unknown() {
    assert_eq!(organizefs::mode_to_filetype(0), None);
}

#[test]
fn constants_match_libc() {
    assert_eq!(ENOENT, libc::ENOENT);
    assert_eq!(ENOSYS, libc::ENOSYS);
    assert_eq!(EINVAL, libc::EINVAL);
    assert_eq!(organizefs::adapter::S_IFMT, libc::S_IFMT);
    assert_eq!(organizefs::adapter::S_IFDIR, libc::S_IFDIR);
    assert_eq!(organizefs::adapter::S_IFREG, libc::S_IFREG);
}

#[test]
fn errno_fallback() {
    assert_eq!(errno_of(Some(libc::EACCES)), libc::EACCES);
    assert_eq!(errno_of(None), ENOENT);
}

#[test]
fn opendir_present() {
    let store = store_with(&["test"]);
    assert_eq!(opendir(&store, "/"), Ok((0, 0)));
}

#[test]
fn opendir_missing() {
    let store = store_with(&["test"]);
    assert_eq!(opendir(&store, "/missing"), Err(ENOENT));
    assert_eq!(opendir(&store, "/test"), Err(ENOENT));
}

#[test]
fn getattr_withfh() {
    let store = store_with(&[]);
    assert!(matches!(getattr_target(&store, "/root", "/test", Some(1)), Ok(StatTarget::Handle(1))));
}

#[test]
fn getattr_nofh_missing() {
    let store = store_with(&[]);
    assert!(matches!(getattr_target(&store, "/root", "/test", None), Err(e) if e == ENOENT));
}

#[test]
fn getattr_nofh_file() {
    let store = store_with(&["test"]);
    match getattr_target(&store, "/root", "/test", None) {
        Ok(StatTarget::Path(p)) => assert_eq!(p, "/host/test"),
        _ => panic!("expected the host path"),
    }
}

#[test]
fn getattr_nofh_dir() {
    let store = store_with(&["test"]);
    match getattr_target(&store, "/root", "/", None) {
        Ok(StatTarget::Path(p)) => assert_eq!(p, "/root"),
        _ => panic!("expected the host root"),
    }
}

#[test]
fn open_missing() {
    let store = store_with(&[]);
    assert_eq!(open_target(&store, "/missing"), Err(ENOENT));
}

#[test]
fn open_present() {
    let store = store_with(&["present"]);
    assert_eq!(open_target(&store, "/present"), Ok("/host/present".to_string()));
    assert_eq!(open_reply(Ok(1), 0), Ok((1, 0)));
}

#[test]
fn open_no_access() {
    assert_eq!(open_reply(Err(Some(libc::EACCES)), 0), Err(libc::EACCES));
    assert_eq!(open_reply(Err(None), 0), Err(ENOENT));
}

#[test]
fn flush_unimplemented() {
    assert_eq!(flush(), Err(ENOSYS));
}

#[test]
fn rename_unimplemented() {
    assert_eq!(rename(), Err(ENOSYS));
}

#[test]
fn release_no_filehandle() {
    assert_eq!(release_request(0), Err(ENOENT));
}

#[test]
fn release_handle() {
    assert_eq!(release_request(1), Ok(1));
    assert_eq!(handle_fd(u64::MAX), None);
}

#[test]
fn read_request_checks() {
    assert_eq!(read_request(0, 0), Err(ENOENT));
    assert_eq!(read_request(3, 10), Ok((3, 10)));
    assert_eq!(read_request(3, u64::MAX), Err(EINVAL));
}

#[test]
fn unlink_missing() {
    let store = store_with(&[]);
    assert_eq!(unlink_target(&store, "/", "missing"), Err(ENOENT));
}

#[test]
fn unlink_present() {
    let mut store = store_with(&["present"]);
    assert_eq!(store.len(), 1);
    assert!(!store.is_empty());
    let (host, path) = unlink_target(&store, "/", "present").unwrap();
    assert_eq!(host, "/host/present");
    assert_eq!(unlink_commit(&mut store, &path, Ok(())), Ok(()));
    assert_eq!(store.len(), 0);
    assert!(store.is_empty());
}

#[test]
fn unlink_no_access() {
    let mut store = store_with(&["present"]);
    let (_, path) = unlink_target(&store, "/", "present").unwrap();
    assert_eq!(unlink_commit(&mut store, &path, Err(Some(libc::EACCES))), Err(libc::EACCES));
    assert_eq!(store.len(), 1);
}

#[test]
fn scenario_unlink_leaves_listing() {
    let mut store = TreeStorage::new("/{meta}");
    store.add_entry(entry("a")).unwrap();
    store.add_entry(entry("b")).unwrap();
    let before = listing(&store, "/text_plain");
    assert_eq!(before.len(), 4);
    let (_, path) = unlink_target(&store, "/text_plain", "a").unwrap();
    unlink_commit(&mut store, &path, Ok(())).unwrap();
    let after = listing(&store, "/text_plain");
    assert!(!after.iter().any(|(n, _)| n == "a"));
    assert!(after.iter().any(|(n, k)| n == "b" && *k == FileKind::RegularFile));
    assert_eq!(after.len(), 3);
}

#[test]
fn scenario_readdir_empty_root() {
    let store = TreeStorage::new("/{meta}/{size}/");
    assert_eq!(
        listing(&store, "/"),
        vec![(".".to_string(), FileKind::Directory), ("..".to_string(), FileKind::Directory)]
    );
}

#[test]
fn readdir_kinds_and_errors() {
    let mut store = TreeStorage::new("/{meta}");
    store.add_entry(entry("a")).unwrap();
    let root = listing(&store, "/");
    assert_eq!(root[2], ("text_plain".to_string(), FileKind::Directory));
    assert_eq!(readdir(&store, "/text_plain/a").err(), Some(ENOENT));
    assert_eq!(readdir(&store, "/nothing").err(), Some(ENOENT));
}
