use vstd::prelude::*;

use crate::arena::{detached, is_branch, is_leaf, kids, lookup, names_unique, NodeView};
use crate::path::{resolve, split};
use crate::store::{leaf_key, listing_ids, TreeStorage};

verus! {

/// No such file or directory.
pub const ENOENT: i32 = 2;

/// Invalid argument.
pub const EINVAL: i32 = 22;

/// Function not implemented.
pub const ENOSYS: i32 = 38;

/// The bits of a mode that give the file type.
pub const S_IFMT: u32 = 0o170000;

/// File type bits: Socket.
pub const S_IFSOCK: u32 = 0o140000;

/// File type bits: Symbolic link.
pub const S_IFLNK: u32 = 0o120000;

/// File type bits: Regular file.
pub const S_IFREG: u32 = 0o100000;

/// File type bits: Block device.
pub const S_IFBLK: u32 = 0o060000;

/// File type bits: Directory.
pub const S_IFDIR: u32 = 0o040000;

/// File type bits: Character device.
pub const S_IFCHR: u32 = 0o020000;

/// File type bits: Named pipe.
pub const S_IFIFO: u32 = 0o010000;

/// The kind of a file, as a directory listing or an attribute reply gives it.
#[derive(Debug, Clone, Copy, PartialEq, Eq, Structural)]
pub enum FileKind {
    Directory,
    RegularFile,
    Symlink,
    BlockDevice,
    CharDevice,
    NamedPipe,
    Socket,
}

/// One line of a directory listing.
pub struct DirectoryEntry {
    pub name: String,
    pub kind: FileKind,
}

/// What `getattr` asks the host for.
pub enum StatTarget {
    /// The attributes of an open file handle.
    Handle(u64),
    /// The attributes of a host path (not following a last symbolic link).
    Path(String),
}

/// The kind of the file whose mode is `mode`, if the type bits name one.
pub open spec fn mode_kind(mode: u32) -> Option<FileKind> {
    let t = mode & S_IFMT;
    if t == S_IFDIR {
        Some(FileKind::Directory)
    } else if t == S_IFREG {
        Some(FileKind::RegularFile)
    } else if t == S_IFLNK {
        Some(FileKind::Symlink)
    } else if t == S_IFBLK {
        Some(FileKind::BlockDevice)
    } else if t == S_IFCHR {
        Some(FileKind::CharDevice)
    } else if t == S_IFIFO {
        Some(FileKind::NamedPipe)
    } else if t == S_IFSOCK {
        Some(FileKind::Socket)
    } else {
        None
    }
}

/// The kind of the file whose mode is `mode`; none where the type bits
/// name no kind.
pub fn mode_to_filetype(mode: u32) -> (r: Option<FileKind>)
    ensures
        r == mode_kind(mode),
{
    let t = mode & S_IFMT;
    if t == S_IFDIR {
        Some(FileKind::Directory)
    } else if t == S_IFREG {
        Some(FileKind::RegularFile)
    } else if t == S_IFLNK {
        Some(FileKind::Symlink)
    } else if t == S_IFBLK {
        Some(FileKind::BlockDevice)
    } else if t == S_IFCHR {
        Some(FileKind::CharDevice)
    } else if t == S_IFIFO {
        Some(FileKind::NamedPipe)
    } else if t == S_IFSOCK {
        Some(FileKind::Socket)
    } else {
        None
    }
}

/// The error code for a failed host call: its own code, or `ENOENT` where
/// it has none.
pub fn errno_of(code: Option<i32>) -> (r: i32)
    ensures
        r == match code {
            Some(c) => c,
            None => ENOENT,
        },
{
    match code {
        Some(c) => c,
        None => ENOENT,
    }
}

/// The error code for a failed host call, as `errno_of` gives it.
pub open spec fn errno_of_spec(code: Option<i32>) -> i32 {
    match code {
        Some(c) => c,
        None => ENOENT,
    }
}

/// What `getattr` looks at: the handle when one is given; otherwise the
/// host root for a directory, the host file for a file, and `ENOENT` for a
/// path that names nothing.
pub fn getattr_target(store: &TreeStorage, root: &str, path: &str, fh: Option<u64>) -> (r: Result<
    StatTarget,
    i32,
>)
    requires
        store.wf(),
    ensures
        match fh {
            Some(h) => r matches Ok(StatTarget::Handle(x)) && x == h,
            None => match store.find_spec(path@) {
                Some(id) => if is_branch(store.tree(), id) {
                    r matches Ok(StatTarget::Path(p)) && p@ == root@
                } else {
                    r matches Ok(StatTarget::Path(p)) && p@ == store.table()[leaf_key(
                        store.tree(),
                        id,
                    )].host_path@
                },
                None => r == Err::<StatTarget, i32>(ENOENT),
            },
        },
{
    proof {
        store.lemma_node_kinds();
    }
    match fh {
        Some(h) => Ok(StatTarget::Handle(h)),
        None => match store.find(path) {
            Some(e) => {
                proof {
                    assert(store.find_spec(path@).is_some());
                    assert(store.tree().contains_key(e.node()));
                }
                if e.is_directory() {
                    Ok(StatTarget::Path(root.to_owned()))
                } else {
                    Ok(StatTarget::Path(e.host_path()))
                }
            },
            None => Err(ENOENT),
        },
    }
}

/// `opendir`: succeeds with an empty handle pair exactly on a directory.
pub fn opendir(store: &TreeStorage, path: &str) -> (r: Result<(u64, u32), i32>)
    requires
        store.wf(),
    ensures
        r == if store.find_spec(path@) matches Some(id) && is_branch(store.tree(), id) {
            Ok::<(u64, u32), i32>((0, 0))
        } else {
            Err(ENOENT)
        },
{
    match store.find(path) {
        Some(e) => {
            if e.is_directory() {
                Ok((0, 0))
            } else {
                Err(ENOENT)
            }
        },
        None => Err(ENOENT),
    }
}

/// The kind under which node `id` of `m` is listed.
pub open spec fn node_kind(m: Map<u64, NodeView>, id: u64) -> FileKind {
    if is_branch(m, id) {
        FileKind::Directory
    } else {
        FileKind::RegularFile
    }
}

/// The listing line `.`.
pub open spec fn is_dot_entry(e: DirectoryEntry) -> bool {
    e.name@ == seq!['.'] && e.kind == FileKind::Directory
}

/// The listing line `..`.
pub open spec fn is_dot_dot_entry(e: DirectoryEntry) -> bool {
    e.name@ == seq!['.', '.'] && e.kind == FileKind::Directory
}

/// `readdir`: for a directory, `.` and `..` and then each child once, with
/// its kind; `ENOENT` for anything else.
pub fn readdir(store: &TreeStorage, path: &str) -> (r: Result<Vec<DirectoryEntry>, i32>)
    requires
        store.wf(),
    ensures
        match store.find_spec(path@) {
            Some(id) => if is_branch(store.tree(), id) {
                r matches Ok(v) && {
                    let ks = kids(store.tree(), id);
                    &&& v.len() == ks.len() + 2
                    &&& is_dot_entry(v@[0])
                    &&& is_dot_dot_entry(v@[1])
                    &&& forall|i: int|
                        2 <= i < v.len() ==> ks.contains_key((#[trigger] v@[i]).name@) && v@[i].kind
                            == node_kind(store.tree(), ks[v@[i].name@])
                    &&& forall|i: int, j: int|
                        2 <= i < j < v.len() ==> (#[trigger] v@[i]).name@ != (#[trigger] v@[j]).name@
                    &&& forall|n: Seq<char>| #[trigger]
                        ks.contains_key(n) ==> exists|i: int| 2 <= i < v.len() && v@[i].name@ == n
                }
            } else {
                r == Err::<Vec<DirectoryEntry>, i32>(ENOENT)
            },
            None => r == Err::<Vec<DirectoryEntry>, i32>(ENOENT),
        },
{
    let e = match store.find(path) {
        Some(e) => e,
        None => {
            return Err(ENOENT);
        },
    };
    if !e.is_directory() {
        return Err(ENOENT);
    }
    proof {
        store.lemma_node_kinds();
    }
    let children = e.children();
    let ghost ids = listing_ids(children@);
    let ghost ks = kids(store.tree(), e.node());
    let mut v: Vec<DirectoryEntry> = Vec::new();
    v.push(DirectoryEntry { name: ".".to_owned(), kind: FileKind::Directory });
    v.push(DirectoryEntry { name: "..".to_owned(), kind: FileKind::Directory });
    proof {
        reveal_strlit(".");
        reveal_strlit("..");
        assert(v@[0].name@ =~= seq!['.']);
        assert(v@[1].name@ =~= seq!['.', '.']);
    }
    let mut j: usize = 0;
    while j < children.len()
        invariant
            store.wf(),
            ids == listing_ids(children@),
            names_unique(ids),
            crate::arena::child_map(ids) == ks,
            ks == kids(store.tree(), e.node()),
            forall|i: int| 0 <= i < children.len() ==> (#[trigger] children@[i]).1.store() == *store,
            crate::arena::tree_ok(store.tree(), store.next_node()),
            j <= children.len(),
            v.len() == j + 2,
            is_dot_entry(v@[0]),
            is_dot_dot_entry(v@[1]),
            forall|i: int| 2 <= i < j + 2 ==> (#[trigger] v@[i]).name@ == ids[i - 2].0@,
            forall|i: int|
                2 <= i < j + 2 ==> (#[trigger] v@[i]).kind == node_kind(store.tree(), ids[i - 2].1),
        decreases children.len() - j,
    {
        let child = &children[j].1;
        let kind = if child.is_directory() {
            FileKind::Directory
        } else {
            FileKind::RegularFile
        };
        let name = children[j].0.clone();
        proof {
            assert(ids[j as int].0 == children@[j as int].0);
            assert(ids[j as int].1 == child.node());
        }
        v.push(DirectoryEntry { name, kind });
        j = j + 1;
    }
    proof {
        assert(ids.len() == children.len());
        assert forall|i: int| 2 <= i < v.len() implies ks.contains_key((#[trigger] v@[i]).name@)
            && v@[i].kind == node_kind(store.tree(), ks[v@[i].name@]) by {
            crate::arena::lemma_child_map_index(ids, i - 2);
        }
        assert forall|i: int, j2: int| 2 <= i < j2 < v.len() implies (#[trigger] v@[i]).name@ != (
        #[trigger] v@[j2]).name@ by {
            assert(v@[i].name@ == ids[i - 2].0@);
            assert(v@[j2].name@ == ids[j2 - 2].0@);
            assert(ids[i - 2].0@ != ids[j2 - 2].0@);
        }
        assert forall|n: Seq<char>| #[trigger] ks.contains_key(n) implies exists|i: int|
            2 <= i < v.len() && v@[i].name@ == n by {
            crate::arena::lemma_child_map_names(ids, n);
            let k = choose|k: int| 0 <= k < ids.len() && (#[trigger] ids[k]).0@ == n;
            let i = k + 2;
            assert(v@[i].name@ == ids[i - 2].0@);
            assert(v@[i].name@ == n);
        }
        crate::arena::lemma_child_map_len(ids);
    }
    Ok(v)
}

/// The host file that `open` opens: the file at `path`; `ENOENT` where
/// `path` names no file.
pub fn open_target(store: &TreeStorage, path: &str) -> (r: Result<String, i32>)
    requires
        store.wf(),
    ensures
        match r {
            Ok(h) => {
                &&& store.find_spec(path@) matches Some(id)
                &&& is_leaf(store.tree(), id)
                &&& h@ == store.table()[leaf_key(store.tree(), id)].host_path@
            },
            Err(e) => e == ENOENT && !(store.find_spec(path@) matches Some(id) && is_leaf(
                store.tree(),
                id,
            )),
        },
{
    match store.find(path) {
        Some(e) => {
            if e.is_file() {
                Ok(e.host_path())
            } else {
                Err(ENOENT)
            }
        },
        None => Err(ENOENT),
    }
}

/// The reply to `open` once the host has answered: the descriptor as the
/// handle, with the flags given; or the host's error.
pub fn open_reply(opened: Result<i32, Option<i32>>, flags: u32) -> (r: Result<(u64, u32), i32>)
    ensures
        r == match opened {
            Ok(fd) => Ok::<(u64, u32), i32>((fd as u64, flags)),
            Err(code) => Err(errno_of_spec(code)),
        },
{
    match opened {
        Ok(fd) => Ok((fd as u64, flags)),
        Err(code) => Err(errno_of(code)),
    }
}

/// The descriptor behind the handle `fh`: none for the null handle `0` or
/// one too large to be a descriptor.
pub fn handle_fd(fh: u64) -> (r: Option<i32>)
    ensures
        r == if 0 < fh <= i32::MAX {
            Some(fh as i32)
        } else {
            None::<i32>
        },
{
    if fh > 0 && fh <= i32::MAX as u64 {
        Some(fh as i32)
    } else {
        None
    }
}

/// What `read` passes to the host: the descriptor and the offset; `ENOENT`
/// for a handle that is no descriptor, `EINVAL` for an offset past the
/// largest file offset.
pub fn read_request(fh: u64, offset: u64) -> (r: Result<(i32, i64), i32>)
    ensures
        r == if !(0 < fh <= i32::MAX) {
            Err::<(i32, i64), i32>(ENOENT)
        } else if offset > i64::MAX {
            Err(EINVAL)
        } else {
            Ok((fh as i32, offset as i64))
        },
{
    match handle_fd(fh) {
        None => Err(ENOENT),
        Some(fd) => {
            if offset > i64::MAX as u64 {
                Err(EINVAL)
            } else {
                Ok((fd, offset as i64))
            }
        },
    }
}

/// What `release` closes: the descriptor behind `fh`; `ENOENT` for a handle
/// that is no descriptor.
pub fn release_request(fh: u64) -> (r: Result<i32, i32>)
    ensures
        r == if 0 < fh <= i32::MAX {
            Ok::<i32, i32>(fh as i32)
        } else {
            Err(ENOENT)
        },
{
    match handle_fd(fh) {
        Some(fd) => Ok(fd),
        None => Err(ENOENT),
    }
}

/// The virtual path of `name` in the directory `parent`.
pub fn child_path(parent: &str, name: &str) -> (r: String)
    ensures
        r@ == parent@ + seq!['/'] + name@,
{
    let mut r = parent.to_owned();
    r.append("/");
    r.append(name);
    proof {
        reveal_strlit("/");
    }
    r
}

/// What `unlink` removes on the host: the file `name` in `parent`, with its
/// virtual path; `ENOENT` where that names no file.
pub fn unlink_target(store: &TreeStorage, parent: &str, name: &str) -> (r: Result<
    (String, String),
    i32,
>)
    requires
        store.wf(),
    ensures
        ({
            let p = parent@ + seq!['/'] + name@;
            match r {
                Ok((host, path)) => {
                    &&& path@ == p
                    &&& store.find_spec(p) matches Some(id)
                    &&& is_leaf(store.tree(), id)
                    &&& host@ == store.table()[leaf_key(store.tree(), id)].host_path@
                },
                Err(e) => e == ENOENT && !(store.find_spec(p) matches Some(id) && is_leaf(
                    store.tree(),
                    id,
                )),
            }
        }),
{
    let path = child_path(parent, name);
    match open_target(store, path.as_str()) {
        Ok(host) => Ok((host, path)),
        Err(e) => Err(e),
    }
}

/// Ends `unlink` once the host has answered for `path`: on success the file
/// leaves the store; on failure the store is kept and the host's error is
/// the reply.
pub fn unlink_commit(store: &mut TreeStorage, path: &str, unlinked: Result<(), Option<i32>>) -> (r:
    Result<(), i32>)
    requires
        old(store).wf(),
    ensures
        final(store).wf(),
        final(store).pattern_segs() == old(store).pattern_segs(),
        match unlinked {
            Ok(()) => {
                &&& r == Ok::<(), i32>(())
                &&& if old(store).find_spec(path@) matches Some(x) && is_leaf(old(store).tree(), x) {
                    &&& final(store).find_spec(path@).is_none()
                    &&& final(store).table() == old(store).table().remove(
                        leaf_key(old(store).tree(), old(store).find_spec(path@).unwrap()),
                    )
                    &&& final(store).tree() == detached(
                        old(store).tree(),
                        lookup(old(store).tree(), 0, resolve(split(path@)).drop_last()).unwrap(),
                        resolve(split(path@)).last(),
                    )
                    &&& forall|q: Seq<char>| #[trigger]
                        old(store).find_spec(q).is_some() && old(store).find_spec(q) != old(
                            store,
                        ).find_spec(path@) ==> final(store).find_spec(q) == old(store).find_spec(q)
                } else {
                    &&& final(store).tree() == old(store).tree()
                    &&& final(store).table() == old(store).table()
                }
            },
            Err(code) => {
                &&& r == Err::<(), i32>(errno_of_spec(code))
                &&& final(store).tree() == old(store).tree()
                &&& final(store).table() == old(store).table()
            },
        },
{
    match unlinked {
        Ok(()) => {
            let _ = store.remove(path);
            Ok(())
        },
        Err(code) => Err(errno_of(code)),
    }
}

/// `rename` is not supported.
pub fn rename() -> (r: Result<(), i32>)
    ensures
        r == Err::<(), i32>(ENOSYS),
{
    Err(ENOSYS)
}

/// `flush` is not supported.
pub fn flush() -> (r: Result<(), i32>)
    ensures
        r == Err::<(), i32>(ENOSYS),
{
    Err(ENOSYS)
}

} // verus!
