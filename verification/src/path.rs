//! Paths: from the root to an inode, one component at a time.

use crate::directory::{lookup, lookup_dir};
use crate::disk::Disk;
use crate::error::{agrees, Failure, FsError};
use crate::inode::{find_inode, read_inode, InodeType};
use crate::superblock::Superblock;
use crate::text::{components, split_components, texts};
use vstd::prelude::*;

verus! {

/// The components of a path, which has to begin with `/`.
pub open spec fn parts_of(path: Seq<char>) -> Result<Seq<Seq<char>>, Failure> {
    if path.len() == 0 || path[0] != '/' {
        Err(Failure::InvalidPath(path))
    } else {
        Ok(components(path))
    }
}

/// The inode reached from inode `cur` by the components from `i` on.
pub open spec fn walk(
    b: Seq<u8>,
    sb: Superblock,
    cur: u32,
    parts: Seq<Seq<char>>,
    i: int,
    path: Seq<char>,
) -> Result<u32, Failure>
    decreases parts.len() - i,
{
    if i >= parts.len() {
        Ok(cur)
    } else {
        match lookup(b, sb, cur, parts[i]) {
            Ok(Some(id)) => walk(b, sb, id, parts, i + 1, path),
            Ok(None) => Err(Failure::NotFound(path)),
            Err(e) => Err(e),
        }
    }
}

/// The inode that a path names.
pub open spec fn resolve(b: Seq<u8>, sb: Superblock, path: Seq<char>) -> Result<u32, Failure> {
    match parts_of(path) {
        Ok(parts) => walk(b, sb, 0, parts, 0, path),
        Err(e) => Err(e),
    }
}

/// The directory reached from inode `cur` by the components from `i` up to the last one, each
/// of which has to name a directory.
pub open spec fn walk_dirs(
    b: Seq<u8>,
    sb: Superblock,
    cur: u32,
    parts: Seq<Seq<char>>,
    i: int,
    path: Seq<char>,
) -> Result<u32, Failure>
    decreases parts.len() - i,
{
    if i >= parts.len() - 1 {
        Ok(cur)
    } else {
        match lookup(b, sb, cur, parts[i]) {
            Ok(Some(id)) => match find_inode(b, sb, id) {
                Ok(inode) => if inode.kind != InodeType::Dir {
                    Err(Failure::NotDir(path))
                } else {
                    walk_dirs(b, sb, id, parts, i + 1, path)
                },
                Err(e) => Err(e),
            },
            Ok(None) => Err(Failure::NotFound(path)),
            Err(e) => Err(e),
        }
    }
}

/// The directory in which a path ends, and its last component. The root has neither.
pub open spec fn parent_of(b: Seq<u8>, sb: Superblock, path: Seq<char>) -> Result<
    (u32, Seq<char>),
    Failure,
> {
    match parts_of(path) {
        Ok(parts) => if parts.len() == 0 {
            Err(Failure::InvalidPath(path))
        } else {
            match walk_dirs(b, sb, 0, parts, 0, path) {
                Ok(id) => Ok((id, parts.last())),
                Err(e) => Err(e),
            }
        },
        Err(e) => Err(e),
    }
}

/// Splits an absolute path into its components; repeated and trailing separators do not count.
pub fn split_path(path: &str) -> (r: Result<Vec<String>, FsError>)
    ensures
        match (r, parts_of(path@)) {
            (Ok(v), Ok(parts)) => texts(v@) == parts,
            (Err(e), Err(f)) => e@ == f,
            _ => false,
        },
{
    if path.is_empty() || path.get_char(0) != '/' {
        return Err(FsError::InvalidPath(path.to_owned()));
    }
    Ok(split_components(path))
}

/// Finds the inode that `path` names.
pub fn resolve_path(disk: &Disk, sb: &Superblock, path: &str) -> (r: Result<u32, FsError>)
    requires
        disk.wf(),
    ensures
        agrees(r, resolve(disk@.bytes, *sb, path@)),
{
    let parts = split_path(path)?;
    let mut cur: u32 = 0;
    let mut i: usize = 0;
    while i < parts.len()
        invariant
            i <= parts.len(),
            disk.wf(),
            resolve(disk@.bytes, *sb, path@) == walk(
                disk@.bytes,
                *sb,
                cur,
                texts(parts@),
                i as int,
                path@,
            ),
        decreases parts.len() - i,
    {
        match lookup_dir(disk, sb, cur, parts[i].as_str())? {
            Some(id) => {
                cur = id;
            },
            None => {
                return Err(FsError::NotFound(path.to_owned()));
            },
        }
        i = i + 1;
    }
    Ok(cur)
}

/// Finds the directory in which `path` ends and its last component.
pub fn resolve_parent(disk: &Disk, sb: &Superblock, path: &str) -> (r: Result<
    (u32, String),
    FsError,
>)
    requires
        disk.wf(),
    ensures
        agrees(r, parent_of(disk@.bytes, *sb, path@)),
{
    let parts = split_path(path)?;
    if parts.len() == 0 {
        return Err(FsError::InvalidPath(path.to_owned()));
    }
    let last: usize = parts.len() - 1;
    let mut cur: u32 = 0;
    let mut i: usize = 0;
    while i < last
        invariant
            i <= last,
            last == parts.len() - 1,
            disk.wf(),
            parts_of(path@) == Ok::<Seq<Seq<char>>, Failure>(texts(parts@)),
            walk_dirs(disk@.bytes, *sb, 0, texts(parts@), 0, path@) == walk_dirs(
                disk@.bytes,
                *sb,
                cur,
                texts(parts@),
                i as int,
                path@,
            ),
        decreases last - i,
    {
        match lookup_dir(disk, sb, cur, parts[i].as_str())? {
            Some(id) => {
                cur = id;
            },
            None => {
                return Err(FsError::NotFound(path.to_owned()));
            },
        }
        let inode = read_inode(disk, sb, cur)?;
        if inode.kind != InodeType::Dir {
            return Err(FsError::NotDir(path.to_owned()));
        }
        i = i + 1;
    }
    Ok((cur, parts[last].as_str().to_owned()))
}

} // verus!
