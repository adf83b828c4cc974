//! What holds of reading, writing and truncating files.

use crate::contents::{
    blocks_left, lemma_chunks_fit, lemma_release_from, lemma_store_chunks, lemma_write_file,
    lemma_write_file_marks, repointed,
};
use crate::directory::lookup;
use crate::disk::{block, padded, Image};
use crate::entries::lemma_lookup;
use crate::error::Failure;
use crate::file::{blocks_for, chunk, file_bytes, release_from, store_chunks, write_file};
use crate::fs::{no_such_fd, overwritten, replace_contents, resized, FsView, OpenHandle};
use crate::inode::{InodeType, InodeView};
use crate::journal::{mark, TX_BEGIN, TX_COMMIT};
use crate::mount_laws::healthy;
use crate::path::resolve;
use crate::sound::{
    addressable, data_bits, held, inode_marked, intact, lemma_find_inode, marked_outside,
    no_block_left, node_kept, numbered, pointer, table,
};
use crate::steps::{lemma_mark, lemma_put_inode};
use crate::superblock::{superblock_of, Superblock};
use crate::text::decimal;
use crate::tree::lemma_mark_intact;
use crate::walks::{
    lemma_file_kept, lemma_file_len, lemma_file_readable, lemma_lookup_kept, lemma_resolve,
    lemma_resolve_kept, names_kept,
};
use vstd::prelude::*;

verus! {

/// Whether two images agree in what every path names and in the contents of every file but
/// `id`.
pub open spec fn only_file(b: Seq<u8>, c: Seq<u8>, sb: Superblock, id: u32) -> bool {
    &&& names_kept(b, c, sb)
    &&& forall|path: Seq<char>| #[trigger] resolve(c, sb, path) == resolve(b, sb, path)
    &&& forall|other: u32|
        other < 1024 && other != id ==> #[trigger] file_bytes(c, sb, other) == file_bytes(
            b,
            sb,
            other,
        )
}

/// The outcome of replacing the contents of a file of an intact image.
pub proof fn lemma_replace_contents(img: Image, sb: Superblock, id: u32, data: Seq<u8>)
    requires
        intact(img.bytes, sb),
        numbered(table(img.bytes, sb), id),
        table(img.bytes, sb)[id as int].kind != InodeType::Dir,
    ensures
        ({
            let (out, r) = replace_contents(img, sb, id, data);
            let b = img.bytes;
            let c = out.bytes;
            let t = table(b, sb);
            &&& intact(c, sb)
            &&& superblock_of(c) == superblock_of(b)
            &&& only_file(b, c, sb, id)
            &&& forall|i: int| 0 <= i < 1024 && i != id ==> #[trigger] node_kept(b, c, sb, i)
            &&& forall|i: int| #[trigger] inode_marked(c, sb, i) == inode_marked(b, sb, i)
            &&& table(c, sb)[id as int].id == id
            &&& table(c, sb)[id as int].kind == t[id as int].kind
            &&& match r {
                Ok(_) => {
                    &&& blocks_for(data.len() as int) <= 12
                    &&& file_bytes(c, sb, id) == Ok::<Seq<u8>, Failure>(data)
                    &&& table(c, sb)[id as int].links == t[id as int].links
                    &&& table(c, sb)[id as int].size == data.len()
                    &&& forall|j: int|
                        0 <= j < 12 ==> (#[trigger] table(c, sb)[id as int].direct[j] != 0) == (
                        4096 * j < data.len())
                    &&& forall|j: int|
                        0 <= j < 12 && #[trigger] t[id as int].direct[j] != 0 && 4096 * j
                            < data.len() ==> table(c, sb)[id as int].direct[j]
                            == t[id as int].direct[j]
                    &&& forall|k: int|
                        0 <= k < data_bits(sb) ==> #[trigger] marked_outside(
                            c,
                            sb,
                            table(c, sb)[id as int].direct,
                            k,
                        ) == marked_outside(b, sb, t[id as int].direct, k)
                },
                Err(e) => {
                    &&& e == Failure::NoSpace || e == Failure::Fault && !addressable(sb)
                    &&& table(c, sb) == t
                    &&& blocks_for(data.len() as int) > 12 || no_block_left(c, sb)
                    &&& forall|j: int|
                        0 <= j < 12 && 4096 * j < data.len() && (forall|k: int|
                            0 <= k <= j ==> t[id as int].direct[k] != 0) ==> block(
                            c,
                            (#[trigger] t[id as int].direct[j]) as int,
                        ) == padded(chunk(data, j))
                },
            }
        }),
{
    let b = img.bytes;
    let t = table(b, sb);
    let i = id as int;
    lemma_mark_intact(img, sb, TX_BEGIN@);
    let begun = mark(img, sb, TX_BEGIN@).0;
    let b1 = begun.bytes;
    lemma_write_file(begun, sb, id, data);
    let (written, r) = write_file(begun, sb, id, data);
    let b2 = written.bytes;
    let (out, _) = replace_contents(img, sb, id, data);
    let c = out.bytes;
    if r is Ok {
        lemma_mark_intact(written, sb, TX_COMMIT@);
        lemma_write_file_marks(begun, sb, id, data);
        assert forall|k: int| 0 <= k < data_bits(sb) implies #[trigger] marked_outside(
            c,
            sb,
            table(c, sb)[i].direct,
            k,
        ) == marked_outside(b, sb, t[i].direct, k) by {
            assert(marked_outside(b2, sb, table(b2, sb)[i].direct, k) == marked_outside(
                b1,
                sb,
                t[i].direct,
                k,
            ));
        }
        assert(node_kept(b2, c, sb, i)) by {
            assert forall|j: int| 0 <= j < 12 && #[trigger] pointer(table(b2, sb), i, j)
                != 0 implies block(c, pointer(table(b2, sb), i, j) as int) == block(
                b2,
                pointer(table(b2, sb), i, j) as int,
            ) by {
                assert(held(b2, sb, pointer(table(b2, sb), i, j)));
            }
        }
        lemma_file_kept(b2, c, sb, id);
    }
    assert forall|k: int| 0 <= k < 1024 && k != id implies #[trigger] node_kept(b, c, sb, k) by {
        assert forall|j: int| 0 <= j < 12 && #[trigger] pointer(t, k, j) != 0 implies block(
            c,
            pointer(t, k, j) as int,
        ) == block(b, pointer(t, k, j) as int) by {
            assert(held(b, sb, pointer(t, k, j)));
            assert(pointer(table(b2, sb), k, j) == pointer(t, k, j));
            assert(held(b2, sb, pointer(t, k, j)));
        }
    }
    assert forall|d: u32, name: Seq<char>| d < 1024 implies #[trigger] lookup(c, sb, d, name)
        == lookup(b, sb, d, name) by {
        if d == id {
            lemma_lookup(b, sb, d, name);
            lemma_lookup(c, sb, d, name);
        } else {
            assert(node_kept(b, c, sb, d as int));
            lemma_lookup_kept(b, c, sb, d, name);
        }
    }
    assert forall|path: Seq<char>| #[trigger] resolve(c, sb, path) == resolve(b, sb, path) by {
        lemma_resolve_kept(b, c, sb, path);
    }
    assert forall|other: u32| other < 1024 && other != id implies #[trigger] file_bytes(c, sb, other)
        == file_bytes(b, sb, other) by {
        assert(node_kept(b, c, sb, other as int));
        lemma_file_kept(b, c, sb, other);
    }
}

/// Writing through a descriptor of a healthy filesystem keeps it healthy and changes no other
/// file and no name. Where it succeeds, the file holds the data at the place of the cursor and
/// what it held before elsewhere, with zeros in a gap, and the cursor has moved behind the
/// data; else the cursor has not moved.
pub proof fn writing(fs: FsView, fd: i32, data: Seq<u8>)
    requires
        healthy(fs),
        fs.open.contains_key(fd),
    ensures
        ({
            let (next, r) = fs.written_at_cursor(fd, data);
            let id = fs.open[fd].inode_id;
            let pos = fs.open[fd].offset;
            let old = file_bytes(fs.disk.bytes, fs.sb, id);
            &&& healthy(next)
            &&& next.sb == fs.sb
            &&& next.next_fd == fs.next_fd
            &&& only_file(fs.disk.bytes, next.disk.bytes, fs.sb, id)
            &&& match r {
                Ok(n) => {
                    &&& n == data.len()
                    &&& old is Ok
                    &&& overwritten(old->Ok_0, pos as int, data).len() <= 12 * 4096
                    &&& file_bytes(next.disk.bytes, next.sb, id) == Ok::<Seq<u8>, Failure>(
                        overwritten(old->Ok_0, pos as int, data),
                    )
                    &&& next.open == fs.open.insert(
                        fd,
                        OpenHandle { inode_id: id, offset: (pos + data.len()) as usize },
                    )
                },
                Err(e) => {
                    &&& next.open == fs.open
                    &&& e == Failure::NoSpace || e == Failure::IsDir(decimal(id as nat)) || e
                        == Failure::Fault
                    &&& e == Failure::Fault ==> pos + data.len() > usize::MAX || !addressable(fs.sb)
                    &&& e == Failure::NoSpace ==> blocks_for(
                        overwritten(old->Ok_0, pos as int, data).len() as int,
                    ) > 12 || no_block_left(next.disk.bytes, fs.sb)
                    &&& e != Failure::NoSpace && addressable(fs.sb) ==> next == fs
                },
            }
        }),
{
    let id = fs.open[fd].inode_id;
    let pos = fs.open[fd].offset;
    let b = fs.disk.bytes;
    lemma_file_readable(b, fs.sb, id);
    if let Ok(old) = file_bytes(b, fs.sb, id) {
        if pos + data.len() <= usize::MAX {
            lemma_replace_contents(fs.disk, fs.sb, id, overwritten(old, pos as int, data));
            let (next, r) = fs.written_at_cursor(fd, data);
            let t = table(b, fs.sb);
            let u = table(next.disk.bytes, fs.sb);
            assert forall|k: u32| numbered(t, k) implies #[trigger] numbered(u, k) by {
                if k != id {
                    assert(node_kept(b, next.disk.bytes, fs.sb, k as int));
                }
            }
        }
    }
}

/// What was written through one descriptor is what any descriptor of that file reads from
/// there.
pub proof fn written_is_read(fs: FsView, fd: i32, data: Seq<u8>, reader: i32)
    requires
        healthy(fs),
        fs.open.contains_key(fd),
        fs.open.contains_key(reader),
        reader != fd,
        fs.open[reader] == fs.open[fd],
        fs.written_at_cursor(fd, data).1 is Ok,
    ensures
        fs.written_at_cursor(fd, data).0.read_at_cursor(reader, data.len() as usize).1 == Ok::<
            Seq<u8>,
            Failure,
        >(data),
{
    writing(fs, fd, data);
    let next = fs.written_at_cursor(fd, data).0;
    let id = fs.open[fd].inode_id;
    let pos = fs.open[fd].offset as int;
    let old = file_bytes(fs.disk.bytes, fs.sb, id)->Ok_0;
    assert(next.open[reader] == fs.open[reader]);
    assert(overwritten(old, pos, data).subrange(pos, pos + data.len()) =~= data);
}

/// What was written to a file from its front on is what a descriptor reads that is opened
/// afterwards at a path that names the file.
pub proof fn written_is_read_at_path(fs: FsView, fd: i32, data: Seq<u8>, path: Seq<char>)
    requires
        healthy(fs),
        fs.open.contains_key(fd),
        fs.open[fd].offset == 0,
        fs.file_at(path) == Ok::<u32, Failure>(fs.open[fd].inode_id),
        fs.written_at_cursor(fd, data).1 is Ok,
        fs.next_fd < i32::MAX,
    ensures
        ({
            let (opened, r) = fs.written_at_cursor(fd, data).0.opened(path);
            &&& r == Ok::<i32, Failure>(fs.next_fd)
            &&& opened.read_at_cursor(fs.next_fd, data.len() as usize).1 == Ok::<Seq<u8>, Failure>(
                data,
            )
        }),
{
    writing(fs, fd, data);
    let next = fs.written_at_cursor(fd, data).0;
    let id = fs.open[fd].inode_id;
    let old = file_bytes(fs.disk.bytes, fs.sb, id)->Ok_0;
    lemma_find_inode(next.disk.bytes, fs.sb, id);
    lemma_find_inode(fs.disk.bytes, fs.sb, id);
    assert(resolve(next.disk.bytes, fs.sb, path) == resolve(fs.disk.bytes, fs.sb, path));
    lemma_file_readable(next.disk.bytes, fs.sb, id);
    assert(table(next.disk.bytes, fs.sb)[id as int].kind != InodeType::Dir);
    assert(overwritten(old, 0, data).subrange(0, data.len() as int) =~= data);
}

/// Truncating a file of a healthy filesystem keeps it healthy and changes no other file, no
/// name and no descriptor. Where it succeeds, the file holds what it held before up to the new
/// size, with zeros behind it.
pub proof fn truncating(fs: FsView, path: Seq<char>, size: usize)
    requires
        healthy(fs),
    ensures
        ({
            let (next, r) = fs.truncated(path, size);
            &&& healthy(next)
            &&& next == (FsView { disk: next.disk, ..fs })
            &&& match r {
                Ok(_) => {
                    &&& fs.file_at(path) matches Ok(id)
                    &&& size <= 12 * 4096
                    &&& only_file(fs.disk.bytes, next.disk.bytes, fs.sb, id)
                    &&& file_bytes(fs.disk.bytes, fs.sb, id) is Ok
                    &&& file_bytes(next.disk.bytes, fs.sb, id) == Ok::<Seq<u8>, Failure>(
                        resized(file_bytes(fs.disk.bytes, fs.sb, id)->Ok_0, size as nat),
                    )
                },
                Err(e) => match fs.file_at(path) {
                    Ok(id) => {
                        &&& only_file(fs.disk.bytes, next.disk.bytes, fs.sb, id)
                        &&& e == Failure::NoSpace || e == Failure::Fault
                        &&& e == Failure::Fault ==> size > isize::MAX || !addressable(fs.sb)
                        &&& e == Failure::NoSpace ==> blocks_for(size as int) > 12
                            || no_block_left(next.disk.bytes, fs.sb)
                    },
                    Err(f) => e == f && next == fs,
                },
            }
        }),
{
    let b = fs.disk.bytes;
    lemma_resolve(b, fs.sb, path);
    if let Ok(id) = resolve(b, fs.sb, path) {
        lemma_find_inode(b, fs.sb, id);
        lemma_file_readable(b, fs.sb, id);
        if let Ok(old) = file_bytes(b, fs.sb, id) {
            lemma_replace_contents(fs.disk, fs.sb, id, resized(old, size as nat));
            let next = fs.truncated(path, size).0;
            let t = table(b, fs.sb);
            let u = table(next.disk.bytes, fs.sb);
            assert forall|k: u32| numbered(t, k) implies #[trigger] numbered(u, k) by {
                if k != id && next.disk != fs.disk {
                    assert(node_kept(b, next.disk.bytes, fs.sb, k as int));
                }
            }
        }
    }
}

/// Reading changes nothing but the cursor, and reads of a healthy filesystem fail only where
/// the descriptor is not open or stands for a directory. A read gives what the file holds from
/// the cursor on, fewer bytes than asked for only at the end of the file, and none behind it.
pub proof fn reading(fs: FsView, fd: i32, length: usize)
    requires
        healthy(fs),
    ensures
        ({
            let (next, r) = fs.read_at_cursor(fd, length);
            &&& healthy(next)
            &&& next.disk == fs.disk
            &&& match r {
                Ok(data) => {
                    &&& fs.open.contains_key(fd)
                    &&& file_bytes(fs.disk.bytes, fs.sb, fs.open[fd].inode_id) matches Ok(all)
                    &&& data.len() <= length
                    &&& fs.open[fd].offset > all.len() ==> data.len() == 0 && next == fs
                    &&& fs.open[fd].offset <= all.len() ==> {
                        &&& data == all.subrange(
                            fs.open[fd].offset as int,
                            fs.open[fd].offset + data.len(),
                        )
                        &&& next.open == fs.open.insert(
                            fd,
                            OpenHandle {
                                inode_id: fs.open[fd].inode_id,
                                offset: (fs.open[fd].offset + data.len()) as usize,
                            },
                        )
                        &&& data.len() < length ==> fs.open[fd].offset + data.len() == all.len()
                    }
                },
                Err(e) => {
                    &&& next == fs
                    &&& if !fs.open.contains_key(fd) {
                        e == no_such_fd(fd)
                    } else {
                        &&& table(fs.disk.bytes, fs.sb)[fs.open[fd].inode_id as int].kind
                            == InodeType::Dir
                        &&& e == Failure::IsDir(decimal(fs.open[fd].inode_id as nat))
                    }
                },
            }
        }),
{
    if fs.open.contains_key(fd) {
        lemma_file_readable(fs.disk.bytes, fs.sb, fs.open[fd].inode_id);
    }
}

/// Two reads in a row give together what one read of both lengths gives.
pub proof fn reads_join(fs: FsView, fd: i32, first: usize, second: usize)
    requires
        first + second <= usize::MAX,
        fs.read_at_cursor(fd, (first + second) as usize).1 is Ok,
    ensures
        ({
            let (mid, r1) = fs.read_at_cursor(fd, first);
            let (last, r2) = mid.read_at_cursor(fd, second);
            let (whole, r) = fs.read_at_cursor(fd, (first + second) as usize);
            &&& r1 is Ok
            &&& r2 is Ok
            &&& r == Ok::<Seq<u8>, Failure>(r1->Ok_0 + r2->Ok_0)
            &&& last == whole
        }),
{
    let (mid, r1) = fs.read_at_cursor(fd, first);
    let (last, r2) = mid.read_at_cursor(fd, second);
    let (whole, r) = fs.read_at_cursor(fd, (first + second) as usize);
    lemma_file_len(fs.disk.bytes, fs.sb, fs.open[fd].inode_id);
    assert(r->Ok_0 =~= r1->Ok_0 + r2->Ok_0);
    assert(last.open =~= whole.open);
}

/// Contents of up to twelve blocks can be stored where as many data blocks are left.
proof fn lemma_contents_fit(img: Image, sb: Superblock, id: u32, data: Seq<u8>)
    requires
        intact(img.bytes, sb),
        numbered(table(img.bytes, sb), id),
        table(img.bytes, sb)[id as int].kind != InodeType::Dir,
        blocks_for(data.len() as int) <= 12,
        blocks_left(img.bytes, sb).len() >= blocks_for(data.len() as int),
    ensures
        replace_contents(img, sb, id, data).1 is Ok,
{
    let b = img.bytes;
    let t = table(b, sb);
    let i = id as int;
    lemma_mark_intact(img, sb, TX_BEGIN@);
    let begun = mark(img, sb, TX_BEGIN@).0;
    assert(blocks_left(begun.bytes, sb) =~= blocks_left(b, sb));
    lemma_find_inode(begun.bytes, sb, id);
    assert forall|j: int| 0 <= j < 12 implies #[trigger] t[i].direct[j] == 0 || t[i].direct[j]
        >= sb.data_start by {
        assert(pointer(t, i, j) == t[i].direct[j]);
        if t[i].direct[j] != 0 {
            assert(held(b, sb, t[i].direct[j]));
        }
    }
    lemma_chunks_fit(begun, sb, t[i].direct, data, 0);
    lemma_write_file(begun, sb, id, data);
    let d1 = store_chunks(begun, sb, t[i].direct, data, 0).1->Ok_0;
    assert(repointed(t, i, t[i].direct) =~= t);
    lemma_store_chunks(begun, sb, t, i, t[i].direct, data, 0);
    let stored = store_chunks(begun, sb, t[i].direct, data, 0).0;
    lemma_release_from(stored, sb, t, i, d1, blocks_for(data.len() as int));
    let (trimmed, rest) = release_from(
        stored,
        sb,
        d1,
        blocks_for(data.len() as int),
    );
    let v = InodeView { size: data.len() as u32, direct: rest->Ok_0, ..t[i] };
    lemma_put_inode(trimmed, sb, v);
    let written = write_file(begun, sb, id, data).0;
    lemma_mark(written, sb, TX_COMMIT@);
}

/// A write succeeds where the file stays within twelve blocks and as many data blocks are left
/// as the new contents take.
pub proof fn small_writes_succeed(fs: FsView, fd: i32, data: Seq<u8>)
    requires
        healthy(fs),
        fs.open.contains_key(fd),
        file_bytes(fs.disk.bytes, fs.sb, fs.open[fd].inode_id) is Ok,
        fs.open[fd].offset + data.len() <= usize::MAX,
        ({
            let old = file_bytes(fs.disk.bytes, fs.sb, fs.open[fd].inode_id)->Ok_0;
            let n = overwritten(old, fs.open[fd].offset as int, data).len() as int;
            n <= 12 * 4096 && blocks_left(fs.disk.bytes, fs.sb).len() >= blocks_for(n)
        }),
    ensures
        fs.written_at_cursor(fd, data).1 == Ok::<usize, Failure>(data.len() as usize),
{
    let id = fs.open[fd].inode_id;
    let old = file_bytes(fs.disk.bytes, fs.sb, id)->Ok_0;
    lemma_file_readable(fs.disk.bytes, fs.sb, id);
    lemma_contents_fit(
        fs.disk,
        fs.sb,
        id,
        overwritten(old, fs.open[fd].offset as int, data),
    );
}

/// A truncation succeeds where the new size is within twelve blocks and as many data blocks are
/// left as it takes.
pub proof fn small_truncations_succeed(fs: FsView, path: Seq<char>, size: usize)
    requires
        healthy(fs),
        fs.file_at(path) is Ok,
        size <= 12 * 4096,
        blocks_left(fs.disk.bytes, fs.sb).len() >= blocks_for(size as int),
    ensures
        fs.truncated(path, size).1 == Ok::<(), Failure>(()),
{
    let b = fs.disk.bytes;
    lemma_resolve(b, fs.sb, path);
    let id = fs.file_at(path)->Ok_0;
    lemma_find_inode(b, fs.sb, id);
    lemma_file_readable(b, fs.sb, id);
    let old = file_bytes(b, fs.sb, id)->Ok_0;
    lemma_contents_fit(fs.disk, fs.sb, id, resized(old, size as nat));
    truncating(fs, path, size);
}

} // verus!
