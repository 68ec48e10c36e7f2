//! A virtual file tree that shows a flat set of host files in directories
//! named after their attributes, shaped by a path pattern such as
//! `/{meta}/{size}/`, and the decisions of the file system calls made on it.
pub mod adapter;
pub mod arena;
pub mod attrs;
pub mod entry;
pub mod path;
pub mod store;

pub use adapter::{
    child_path, errno_of, flush, getattr_target, handle_fd, mode_to_filetype, open_reply,
    open_target, opendir, read_request, readdir, release_request, rename, unlink_commit,
    unlink_target, DirectoryEntry, FileKind, StatTarget, EINVAL, ENOENT, ENOSYS,
};
pub use arena::{ArenaError, NewArena, NewArenaElement};
pub use entry::{expand, get_child_files, FsFile, OrganizeFSEntry};
pub use path::{normalize, split_path, Normalize};
pub use store::{StorageEntry, TreeStorage};
