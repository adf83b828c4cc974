//! Names, paths and files that a change does not concern.

use crate::directory::lookup;
use crate::disk::{block, lemma_block_len, readable};
use crate::entries::{entries, lemma_lookup};
use crate::error::Failure;
use crate::file::{file_bytes, gather};
use crate::inode::{find_inode, InodeType};
use crate::path::{parent_of, parts_of, resolve, walk, walk_dirs};
use crate::sound::{dir_fits, held, intact, lemma_find_inode, node_kept, numbered, pointer, table};
use crate::superblock::Superblock;
use crate::text::decimal;
use vstd::prelude::*;

verus! {

/// Whether every name leads to the same inode in two images.
pub open spec fn names_kept(b: Seq<u8>, c: Seq<u8>, sb: Superblock) -> bool {
    forall|d: u32, name: Seq<char>|
        d < 1024 ==> #[trigger] lookup(c, sb, d, name) == lookup(b, sb, d, name)
}

/// A directory that was kept gives the same for every name, and has the same entries.
pub proof fn lemma_lookup_kept(b: Seq<u8>, c: Seq<u8>, sb: Superblock, d: u32, name: Seq<char>)
    requires
        intact(b, sb),
        intact(c, sb),
        d < 1024,
        node_kept(b, c, sb, d as int),
    ensures
        lookup(c, sb, d, name) == lookup(b, sb, d, name),
        table(b, sb)[d as int].kind == InodeType::Dir ==> entries(c, table(c, sb)[d as int])
            == entries(b, table(b, sb)[d as int]),
{
    let t = table(b, sb);
    lemma_lookup(b, sb, d, name);
    lemma_lookup(c, sb, d, name);
    if t[d as int].kind == InodeType::Dir {
        assert(dir_fits(b, t, t[d as int]));
        assert(pointer(t, d as int, 0) == t[d as int].direct[0]);
    }
}

/// Bytes gathered from blocks that are the same in two images.
proof fn lemma_gather_kept(b: Seq<u8>, c: Seq<u8>, direct: Seq<u32>, i: int, want: int)
    requires
        0 <= i,
        forall|j: int|
            0 <= j < direct.len() && #[trigger] direct[j] != 0 ==> {
                &&& readable(b, direct[j] as int)
                &&& readable(c, direct[j] as int)
                &&& block(c, direct[j] as int) == block(b, direct[j] as int)
            },
    ensures
        gather(c, direct, i, want) == gather(b, direct, i, want),
    decreases direct.len() - i,
{
    if i < direct.len() && want > 0 {
        if direct[i] == 0 {
            lemma_gather_kept(b, c, direct, i + 1, want);
        } else if want > 4096 {
            lemma_gather_kept(b, c, direct, i + 1, want - 4096);
        }
    }
}

/// A file that was kept has the same contents.
pub proof fn lemma_file_kept(b: Seq<u8>, c: Seq<u8>, sb: Superblock, id: u32)
    requires
        intact(b, sb),
        intact(c, sb),
        id < 1024,
        node_kept(b, c, sb, id as int),
    ensures
        file_bytes(c, sb, id) == file_bytes(b, sb, id),
{
    let t = table(b, sb);
    let u = table(c, sb);
    let inode = t[id as int];
    lemma_find_inode(b, sb, id);
    lemma_find_inode(c, sb, id);
    assert forall|j: int| 0 <= j < inode.direct.len() && #[trigger] inode.direct[j] != 0 implies {
        &&& readable(b, inode.direct[j] as int)
        &&& readable(c, inode.direct[j] as int)
        &&& block(c, inode.direct[j] as int) == block(b, inode.direct[j] as int)
    } by {
        assert(pointer(t, id as int, j) == inode.direct[j]);
        assert(pointer(u, id as int, j) == inode.direct[j]);
        assert(held(b, sb, inode.direct[j]));
        assert(held(c, sb, inode.direct[j]));
    }
    lemma_gather_kept(b, c, inode.direct, 0, inode.size as int);
}

/// The contents of every file of an intact image can be read.
pub proof fn lemma_file_readable(b: Seq<u8>, sb: Superblock, id: u32)
    requires
        intact(b, sb),
        id < 1024,
    ensures
        table(b, sb)[id as int].kind != InodeType::Dir ==> {
            &&& file_bytes(b, sb, id) is Ok
            &&& file_bytes(b, sb, id)->Ok_0.len() == table(b, sb)[id as int].size
        },
        table(b, sb)[id as int].kind == InodeType::Dir ==> file_bytes(b, sb, id) == Err::<
            Seq<u8>,
            Failure,
        >(Failure::IsDir(decimal(id as nat))),
{
    let t = table(b, sb);
    let inode = t[id as int];
    lemma_find_inode(b, sb, id);
    assert forall|j: int| 0 <= j < inode.direct.len() && #[trigger] inode.direct[j]
        != 0 implies readable(b, inode.direct[j] as int) by {
        assert(pointer(t, id as int, j) == inode.direct[j]);
        assert(held(b, sb, inode.direct[j]));
    }
    lemma_gather_readable(b, inode.direct, 0, inode.size as int);
}

/// Bytes gathered from blocks that are present.
proof fn lemma_gather_readable(b: Seq<u8>, direct: Seq<u32>, i: int, want: int)
    requires
        0 <= i,
        0 <= want,
        forall|j: int|
            0 <= j < direct.len() && #[trigger] direct[j] != 0 ==> readable(b, direct[j] as int),
    ensures
        gather(b, direct, i, want) is Ok,
        gather(b, direct, i, want)->Ok_0.len() == want,
    decreases direct.len() - i,
{
    if i < direct.len() && want > 0 {
        if direct[i] == 0 {
            lemma_gather_readable(b, direct, i + 1, want);
        } else {
            lemma_block_len(b, direct[i] as int);
            if want > 4096 {
                lemma_gather_readable(b, direct, i + 1, want - 4096);
            }
        }
    }
}

/// Bytes gathered from whatever blocks are as many as wanted.
proof fn lemma_gather_len(b: Seq<u8>, direct: Seq<u32>, i: int, want: int)
    requires
        0 <= i,
        0 <= want,
    ensures
        gather(b, direct, i, want) matches Ok(data) ==> data.len() == want,
    decreases direct.len() - i,
{
    if i < direct.len() && want > 0 {
        if direct[i] == 0 {
            lemma_gather_len(b, direct, i + 1, want);
        } else if readable(b, direct[i] as int) {
            lemma_block_len(b, direct[i] as int);
            if want > 4096 {
                lemma_gather_len(b, direct, i + 1, want - 4096);
            }
        }
    }
}

/// The contents of a file have the length that its inode says.
pub proof fn lemma_file_len(b: Seq<u8>, sb: Superblock, id: u32)
    ensures
        file_bytes(b, sb, id) matches Ok(data) ==> data.len() == find_inode(b, sb, id)->Ok_0.size,
{
    if let Ok(inode) = find_inode(b, sb, id) {
        lemma_gather_len(b, inode.direct, 0, inode.size as int);
    }
}

/// Where a walk over an intact image ends, and why it fails.
pub proof fn lemma_walk(
    b: Seq<u8>,
    sb: Superblock,
    cur: u32,
    parts: Seq<Seq<char>>,
    i: int,
    path: Seq<char>,
)
    requires
        intact(b, sb),
        numbered(table(b, sb), cur),
        0 <= i,
    ensures
        match walk(b, sb, cur, parts, i, path) {
            Ok(id) => numbered(table(b, sb), id),
            Err(e) => e == Failure::NotFound(path) || e is NotDir,
        },
    decreases parts.len() - i,
{
    if i < parts.len() {
        lemma_lookup(b, sb, cur, parts[i]);
        if let Ok(Some(id)) = lookup(b, sb, cur, parts[i]) {
            lemma_walk(b, sb, id, parts, i + 1, path);
        }
    }
}

/// Where a walk to the last directory of a path ends, and why it fails.
pub proof fn lemma_walk_dirs(
    b: Seq<u8>,
    sb: Superblock,
    cur: u32,
    parts: Seq<Seq<char>>,
    i: int,
    path: Seq<char>,
)
    requires
        intact(b, sb),
        numbered(table(b, sb), cur),
        0 <= i,
    ensures
        match walk_dirs(b, sb, cur, parts, i, path) {
            Ok(id) => numbered(table(b, sb), id),
            Err(e) => e == Failure::NotFound(path) || e is NotDir,
        },
    decreases parts.len() - i,
{
    if i < parts.len() - 1 {
        lemma_lookup(b, sb, cur, parts[i]);
        if let Ok(Some(id)) = lookup(b, sb, cur, parts[i]) {
            lemma_find_inode(b, sb, id);
            lemma_walk_dirs(b, sb, id, parts, i + 1, path);
        }
    }
}

/// What a path names on an intact image, and why it names nothing.
pub proof fn lemma_resolve(b: Seq<u8>, sb: Superblock, path: Seq<char>)
    requires
        intact(b, sb),
    ensures
        match resolve(b, sb, path) {
            Ok(id) => numbered(table(b, sb), id),
            Err(e) => e == Failure::NotFound(path) || e == Failure::InvalidPath(path)
                || e is NotDir,
        },
        match parent_of(b, sb, path) {
            Ok(found) => numbered(table(b, sb), found.0),
            Err(e) => e == Failure::NotFound(path) || e == Failure::InvalidPath(path)
                || e is NotDir,
        },
{
    assert(numbered(table(b, sb), 0));
    if let Ok(parts) = parts_of(path) {
        lemma_walk(b, sb, 0, parts, 0, path);
        lemma_walk_dirs(b, sb, 0, parts, 0, path);
    }
}

/// A walk ends at the same inode in two images in which names lead to the same.
proof fn lemma_walk_kept(
    b: Seq<u8>,
    c: Seq<u8>,
    sb: Superblock,
    cur: u32,
    parts: Seq<Seq<char>>,
    i: int,
    path: Seq<char>,
)
    requires
        intact(b, sb),
        names_kept(b, c, sb),
        numbered(table(b, sb), cur),
        0 <= i,
    ensures
        walk(c, sb, cur, parts, i, path) == walk(b, sb, cur, parts, i, path),
    decreases parts.len() - i,
{
    if i < parts.len() {
        lemma_lookup(b, sb, cur, parts[i]);
        assert(lookup(c, sb, cur, parts[i]) == lookup(b, sb, cur, parts[i]));
        if let Ok(Some(id)) = lookup(b, sb, cur, parts[i]) {
            lemma_walk_kept(b, c, sb, id, parts, i + 1, path);
        }
    }
}

/// A path names the same inode in two images in which names lead to the same.
pub proof fn lemma_resolve_kept(b: Seq<u8>, c: Seq<u8>, sb: Superblock, path: Seq<char>)
    requires
        intact(b, sb),
        names_kept(b, c, sb),
    ensures
        resolve(c, sb, path) == resolve(b, sb, path),
{
    assert(numbered(table(b, sb), 0));
    if let Ok(parts) = parts_of(path) {
        lemma_walk_kept(b, c, sb, 0, parts, 0, path);
    }
}

} // verus!
