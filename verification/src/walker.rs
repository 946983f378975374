//! The entries that a directory walk produces, as plain values.

use vstd::prelude::*;
use crate::filter::{keeps, Filter};
use crate::text::str_eq;
use crate::tree::{strip_path_prefix, strip_prefix_of};

verus! {

/// A point in time as the filesystem reports it: whole seconds since the
/// Unix epoch (negative before it) and the nanoseconds within that second.
#[derive(Debug, Clone, Copy, PartialEq, Eq, Structural)]
pub struct FileTime {
    pub secs: i64,
    pub nanos: u32,
}

/// `a` is strictly earlier than `b`.
pub open spec fn time_before(a: FileTime, b: FileTime) -> bool {
    a.secs < b.secs || (a.secs == b.secs && a.nanos < b.nanos)
}

/// One path found by the walk, with the metadata the renderers show.
/// `path` and `symlink_target` are the paths as displayed text.
#[derive(Debug, Clone)]
pub struct Entry {
    pub path: String,
    pub is_dir: bool,
    pub is_symlink: bool,
    pub size: u64,
    pub mtime: Option<FileTime>,
    pub mode: Option<u32>,
    pub symlink_target: Option<String>,
}

impl Default for Entry {
    fn default() -> (e: Entry)
        ensures
            e.path@ == Seq::<char>::empty(),
            !e.is_dir,
            !e.is_symlink,
            e.size == 0,
            e.mtime is None,
            e.mode is None,
            e.symlink_target is None,
    {
        Entry {
            path: String::new(),
            is_dir: false,
            is_symlink: false,
            size: 0,
            mtime: None,
            mode: None,
            symlink_target: None,
        }
    }
}

/// The path of an entry relative to the walk root: the path with the root
/// stripped when it starts with the root, the whole path otherwise.
pub open spec fn relative_to(root: Seq<char>, path: Seq<char>) -> Seq<char> {
    match strip_path_prefix(path, root) {
        Some(rest) => rest,
        None => path,
    }
}

/// Whether the walk descends into an entry while ignore files are
/// honoured: a `.git` directory below the root is skipped.
pub fn passes_git_filter(depth: usize, file_name: &str) -> (b: bool)
    ensures
        b == (depth == 0 || file_name@ != ".git"@),
{
    if depth == 0 {
        return true;
    }
    let git = ".git";
    proof {
        reveal_strlit(".git");
    }
    !str_eq(file_name, git)
}

/// Whether the walk reports an entry found at `path` (at `depth` below
/// `root`): not the root itself; only directories when `directories_only`;
/// and only what the filter keeps, judged by the path relative to the root.
pub fn admits(filter: &Filter, root: &str, path: &str, depth: usize, is_dir: bool, directories_only: bool) -> (b: bool)
    ensures
        b == (depth != 0 && (is_dir || !directories_only) && keeps(filter@, relative_to(root@, path@), is_dir)),
{
    if depth == 0 {
        return false;
    }
    if directories_only && !is_dir {
        return false;
    }
    match strip_prefix_of(path, root) {
        Some(rel) => filter.keep(rel.as_str(), is_dir),
        None => filter.keep(path, is_dir),
    }
}

} // verus!
