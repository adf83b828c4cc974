//! What a file holds after it was written to or truncated, and when that succeeds.

use crate::contents::{
    blocks_left, lemma_chunks_exactly, lemma_release_from, lemma_store_chunks, lemma_write_file,
    missing, repointed,
};
use crate::disk::{block, padded, Image};
use crate::error::Failure;
use crate::file::{blocks_for, chunk, file_bytes, release_from, store_chunks, write_file};
use crate::file_laws::lemma_replace_contents;
use crate::format_laws::blocks;
use crate::fs::{overwritten, replace_contents, resized, FsView};
use crate::inode::{InodeType, InodeView};
use crate::journal::{interrupted, mark, markers, TX_BEGIN, TX_COMMIT};
use crate::journal_laws::{begin_text, commit_text, marker_texts, recorded, recording};
use crate::mount_laws::healthy;
use crate::path::resolve;
use crate::reading_laws::{file_reading, pointing};
use crate::sound::{
    addressable, held, intact, lemma_data_pointers, lemma_find_inode, lemma_framed, lemma_standard,
    numbered, pointer, table,
};
use crate::steps::{lemma_mark, lemma_put_inode};
use crate::superblock::Superblock;
use crate::text::decimal;
use crate::tree::lemma_mark_intact;
use crate::walks::{lemma_file_readable, lemma_resolve};
use vstd::prelude::*;

verus! {

/// Whether the blocks of a file reach up to its size without a gap.
pub open spec fn gapless(v: InodeView) -> bool {
    forall|j: int| 0 <= j && 4096 * j < v.size ==> j < 12 && #[trigger] v.direct[j] != 0
}

/// The blocks that `size` bytes take.
pub open spec fn blocks_taken(size: int) -> int {
    if size % 4096 == 0 {
        size / 4096
    } else {
        size / 4096 + 1
    }
}

/// Whether a file with the inode `v` can take `size` bytes: it has twelve blocks at most, and a
/// free block is needed for each of them that it does not have yet.
pub open spec fn fits(b: Seq<u8>, sb: Superblock, v: InodeView, size: int) -> bool {
    &&& size <= 49152
    &&& missing(v.direct, 0, blocks_taken(size)) <= blocks_left(b, sb).len()
}

/// Replacing the contents of a file succeeds exactly where they fit.
proof fn lemma_fits_exactly(img: Image, sb: Superblock, id: u32, data: Seq<u8>)
    requires
        intact(img.bytes, sb),
        numbered(table(img.bytes, sb), id),
        table(img.bytes, sb)[id as int].kind != InodeType::Dir,
    ensures
        replace_contents(img, sb, id, data).1 is Ok <==> fits(
            img.bytes,
            sb,
            table(img.bytes, sb)[id as int],
            data.len() as int,
        ),
{
    let b = img.bytes;
    let t = table(b, sb);
    let i = id as int;
    let n = blocks_for(data.len() as int);
    assert(n == blocks_taken(data.len() as int));
    lemma_mark_intact(img, sb, TX_BEGIN@);
    let begun = mark(img, sb, TX_BEGIN@).0;
    assert(blocks_left(begun.bytes, sb) =~= blocks_left(b, sb));
    lemma_find_inode(begun.bytes, sb, id);
    lemma_data_pointers(begun.bytes, sb, t, i);
    lemma_chunks_exactly(begun, sb, t[i].direct, data, 0);
    let (stored, r) = store_chunks(begun, sb, t[i].direct, data, 0);
    if let Ok(d1) = r {
        assert(repointed(t, i, t[i].direct) =~= t);
        lemma_store_chunks(begun, sb, t, i, t[i].direct, data, 0);
        lemma_release_from(stored, sb, t, i, d1, n);
        let (trimmed, rest) = release_from(stored, sb, d1, n);
        let v = InodeView { size: data.len() as u32, direct: rest->Ok_0, ..t[i] };
        lemma_put_inode(trimmed, sb, v);
        lemma_write_file(begun, sb, id, data);
        lemma_mark(write_file(begun, sb, id, data).0, sb, TX_COMMIT@);
    }
}

/// The pointers that point anywhere begin with those in front of the first that does not.
proof fn lemma_pointing_front(direct: Seq<u32>, m: int)
    requires
        0 <= m <= direct.len(),
        forall|k: int| 0 <= k < m ==> #[trigger] direct[k] != 0,
    ensures
        pointing(direct).len() >= m,
        forall|k: int| 0 <= k < m ==> #[trigger] pointing(direct)[k] == direct[k],
    decreases direct.len(),
{
    reveal(Seq::filter);
    if direct.len() > 0 {
        let front = direct.drop_last();
        let all = pointing(direct);
        if m < direct.len() {
            assert forall|k: int| 0 <= k < m implies #[trigger] front[k] != 0 by {
                assert(front[k] == direct[k]);
            }
            lemma_pointing_front(front, m);
            assert forall|k: int| 0 <= k < m implies #[trigger] all[k] == direct[k] by {
                assert(pointing(front)[k] == front[k]);
            }
        } else {
            assert forall|k: int| 0 <= k < m - 1 implies #[trigger] front[k] != 0 by {
                assert(front[k] == direct[k]);
            }
            lemma_pointing_front(front, m - 1);
            front.lemma_filter_len(|p: u32| p != 0);
            assert(direct[m - 1] != 0);
            assert(pointing(front).len() == m - 1);
            assert(all == pointing(front).push(direct.last()));
            assert forall|k: int| 0 <= k < m implies #[trigger] all[k] == direct[k] by {
                if k < m - 1 {
                    assert(pointing(front)[k] == front[k]);
                }
            }
        }
    }
}

/// Byte `x` of a file without gaps stands in block `x / 4096` of it.
proof fn lemma_gapless_reading(b: Seq<u8>, sb: Superblock, id: u32)
    requires
        intact(b, sb),
        id < 1024,
        table(b, sb)[id as int].kind != InodeType::Dir,
        gapless(table(b, sb)[id as int]),
    ensures
        ({
            let v = table(b, sb)[id as int];
            &&& file_bytes(b, sb, id) matches Ok(data)
            &&& data.len() == v.size
            &&& forall|x: int|
                0 <= x < v.size ==> #[trigger] data[x] == block(b, v.direct[x / 4096] as int)[x
                    % 4096]
        }),
{
    let t = table(b, sb);
    let v = t[id as int];
    let n = blocks_taken(v.size as int);
    lemma_find_inode(b, sb, id);
    lemma_file_readable(b, sb, id);
    file_reading(b, sb, id);
    let data = file_bytes(b, sb, id)->Ok_0;
    assert(n <= 12) by {
        if n > 0 {
            assert(v.direct[n - 1] != 0);
        }
    }
    assert forall|k: int| 0 <= k < n implies #[trigger] v.direct[k] != 0 by {
        assert(4096 * k < v.size);
    }
    lemma_pointing_front(v.direct, n);
    assert forall|x: int| 0 <= x < v.size implies #[trigger] data[x] == block(
        b,
        v.direct[x / 4096] as int,
    )[x % 4096] by {
        let k = x / 4096;
        assert(k < n);
        let p = v.direct[k];
        assert(pointing(v.direct)[k] == p);
        assert(pointer(t, id as int, k) == p);
        assert(held(b, sb, p));
        blocks(b, p);
        assert(block(b, p as int)[x % 4096] == b[4096 * p + x % 4096]);
    }
}

/// What a file without gaps holds after a change that did not fit: the new contents as far as
/// the file reached.
proof fn lemma_failed_contents(img: Image, sb: Superblock, id: u32, data: Seq<u8>)
    requires
        intact(img.bytes, sb),
        numbered(table(img.bytes, sb), id),
        table(img.bytes, sb)[id as int].kind != InodeType::Dir,
        gapless(table(img.bytes, sb)[id as int]),
        replace_contents(img, sb, id, data).1 is Err,
        data.len() >= table(img.bytes, sb)[id as int].size,
    ensures
        file_bytes(replace_contents(img, sb, id, data).0.bytes, sb, id) == Ok::<Seq<u8>, Failure>(
            data.take(table(img.bytes, sb)[id as int].size as int),
        ),
{
    let t = table(img.bytes, sb);
    let v = t[id as int];
    lemma_replace_contents(img, sb, id, data);
    let c = replace_contents(img, sb, id, data).0.bytes;
    lemma_gapless_reading(c, sb, id);
    let after = file_bytes(c, sb, id)->Ok_0;
    assert forall|x: int| 0 <= x < v.size implies #[trigger] after[x] == data[x] by {
        let k = x / 4096;
        assert(4096 * k < v.size);
        assert(v.direct[k] != 0);
        assert forall|j: int| 0 <= j <= k implies v.direct[j] != 0 by {
            assert(4096 * j < v.size);
        }
        assert(block(c, v.direct[k] as int) == padded(chunk(data, k)));
    }
    assert(after =~= data.take(v.size as int));
}

/// A file without gaps that shrinks needs no block.
proof fn lemma_nothing_missing(v: InodeView, i: int, n: int)
    requires
        0 <= i,
        forall|j: int| i <= j < n ==> #[trigger] v.direct[j] != 0,
    ensures
        missing(v.direct, i, n) == 0,
    decreases n - i,
{
    if i < n {
        lemma_nothing_missing(v, i + 1, n);
    }
}

/// What the journal tells after the contents of a file were replaced, or were not.
proof fn lemma_replace_journal(img: Image, sb: Superblock, id: u32, data: Seq<u8>)
    requires
        intact(img.bytes, sb),
        numbered(table(img.bytes, sb), id),
        table(img.bytes, sb)[id as int].kind != InodeType::Dir,
    ensures
        ({
            let ms = markers(block(img.bytes, 1), 0);
            let (next, r) = replace_contents(img, sb, id, data);
            let now = markers(block(next.bytes, 1), 0);
            &&& r is Ok ==> now == recorded(recorded(ms, begin_text()), commit_text())
            &&& r is Err ==> now == recorded(ms, begin_text())
            &&& interrupted(block(next.bytes, 1)) == (r is Err)
        }),
{
    lemma_standard(sb);
    marker_texts();
    lemma_framed(img.bytes, sb, 1);
    recording(img, sb, TX_BEGIN@);
    lemma_mark_intact(img, sb, TX_BEGIN@);
    let begun = mark(img, sb, TX_BEGIN@).0;
    lemma_write_file(begun, sb, id, data);
    let written = write_file(begun, sb, id, data).0;
    if write_file(begun, sb, id, data).1 is Ok {
        lemma_framed(written.bytes, sb, 1);
        recording(written, sb, TX_COMMIT@);
    }
}

/// Writing at a cursor of a healthy filesystem. Descriptors of directories are refused. A write
/// succeeds exactly where the longer of what the file held and what reaches up to the end of the
/// data fits. The file then has that length; it holds the data at the place of the cursor, what
/// it held before everywhere else, and zeros in a gap behind what it held.
pub proof fn write_results(fs: FsView, fd: i32, data: Seq<u8>)
    requires
        healthy(fs),
        fs.open.contains_key(fd),
    ensures
        ({
            let (next, r) = fs.written_at_cursor(fd, data);
            let id = fs.open[fd].inode_id;
            let pos = fs.open[fd].offset as int;
            let end = pos + data.len();
            let v = table(fs.disk.bytes, fs.sb)[id as int];
            if v.kind == InodeType::Dir {
                next == fs && r == Err::<usize, Failure>(Failure::IsDir(decimal(id as nat)))
            } else if end > usize::MAX {
                next == fs && r == Err::<usize, Failure>(Failure::Fault)
            } else {
                let size = if v.size > end {
                    v.size as int
                } else {
                    end
                };
                &&& file_bytes(fs.disk.bytes, fs.sb, id) matches Ok(old)
                &&& old.len() == v.size
                &&& r is Ok <==> fits(fs.disk.bytes, fs.sb, v, size)
                &&& next.sb == fs.sb
                &&& next.next_fd == fs.next_fd
                &&& next.open.dom() == fs.open.dom()
                &&& next.open[fd].inode_id == id
                &&& next.open[fd].offset == if r is Ok {
                    end
                } else {
                    pos
                }
                &&& forall|other: i32|
                    other != fd && fs.open.contains_key(other) ==> #[trigger] next.open[other]
                        == fs.open[other]
                &&& r matches Err(e) ==> e == Failure::NoSpace || e == Failure::Fault
                    && !addressable(fs.sb)
                &&& r matches Ok(n) ==> {
                    &&& n == data.len()
                    &&& file_bytes(next.disk.bytes, fs.sb, id) matches Ok(new)
                    &&& new.len() == size
                    &&& forall|i: int| 0 <= i < data.len() ==> new[pos + i] == #[trigger] data[i]
                    &&& forall|i: int|
                        0 <= i < old.len() && !(pos <= i < end) ==> new[i] == #[trigger] old[i]
                    &&& forall|i: int| old.len() <= i < pos ==> #[trigger] new[i] == 0
                }
            }
        }),
{
    let id = fs.open[fd].inode_id;
    let pos = fs.open[fd].offset as int;
    let b = fs.disk.bytes;
    let next = fs.written_at_cursor(fd, data).0;
    lemma_file_readable(b, fs.sb, id);
    if let Ok(old) = file_bytes(b, fs.sb, id) {
        if pos + data.len() <= usize::MAX {
            let new = overwritten(old, pos, data);
            lemma_replace_contents(fs.disk, fs.sb, id, new);
            lemma_fits_exactly(fs.disk, fs.sb, id, new);
            assert(next.open.dom() =~= fs.open.dom());
        }
    }
}

/// Truncating a file of a healthy filesystem succeeds exactly where the new size fits. The file
/// then has that size; it holds what it held before up to there, and zeros behind that. The
/// descriptors stay as they were.
pub proof fn truncate_results(fs: FsView, path: Seq<char>, size: usize)
    requires
        healthy(fs),
    ensures
        ({
            let (next, r) = fs.truncated(path, size);
            let b = fs.disk.bytes;
            &&& next.sb == fs.sb
            &&& next.next_fd == fs.next_fd
            &&& next.open == fs.open
            &&& match resolve(b, fs.sb, path) {
                Err(e) => next == fs && r == Err::<(), Failure>(e),
                Ok(id) => {
                    let v = table(b, fs.sb)[id as int];
                    if v.kind == InodeType::Dir {
                        next == fs && r == Err::<(), Failure>(Failure::IsDir(path))
                    } else if size > isize::MAX {
                        next == fs && r == Err::<(), Failure>(Failure::Fault)
                    } else {
                        &&& file_bytes(b, fs.sb, id) matches Ok(old)
                        &&& old.len() == v.size
                        &&& r is Ok <==> fits(b, fs.sb, v, size as int)
                        &&& r matches Err(e) ==> e == Failure::NoSpace || e == Failure::Fault
                            && !addressable(fs.sb)
                        &&& r is Ok ==> {
                            &&& file_bytes(next.disk.bytes, fs.sb, id) matches Ok(new)
                            &&& new.len() == size
                            &&& forall|i: int|
                                0 <= i < size && i < old.len() ==> new[i] == #[trigger] old[i]
                            &&& forall|i: int| old.len() <= i < size ==> #[trigger] new[i] == 0
                        }
                    }
                },
            }
        }),
{
    let b = fs.disk.bytes;
    lemma_resolve(b, fs.sb, path);
    if let Ok(id) = resolve(b, fs.sb, path) {
        lemma_find_inode(b, fs.sb, id);
        lemma_file_readable(b, fs.sb, id);
        if let Ok(old) = file_bytes(b, fs.sb, id) {
            lemma_replace_contents(fs.disk, fs.sb, id, resized(old, size as nat));
            lemma_fits_exactly(fs.disk, fs.sb, id, resized(old, size as nat));
        }
    }
}

/// What a change of the contents of a file leaves in the image: the journal tells of one more
/// change, which is complete exactly where the call succeeded; the inode keeps its kind and
/// links; where the call succeeded, it has a block for each 4096 bytes, keeps the blocks that it
/// had as far as they are needed, and has no others.
pub open spec fn file_changed(fs: FsView, next: FsView, id: u32, ok: bool) -> bool {
    let v = table(fs.disk.bytes, fs.sb)[id as int];
    let w = table(next.disk.bytes, fs.sb)[id as int];
    let ms = markers(block(fs.disk.bytes, 1), 0);
    let now = markers(block(next.disk.bytes, 1), 0);
    &&& w.id == v.id
    &&& w.kind == v.kind
    &&& w.links == v.links
    &&& interrupted(block(next.disk.bytes, 1)) == !ok
    &&& ok ==> {
        &&& now == recorded(recorded(ms, begin_text()), commit_text())
        &&& gapless(w)
        &&& forall|j: int| 0 <= j < 12 && 4096 * j >= w.size ==> #[trigger] w.direct[j] == 0
        &&& forall|j: int|
            0 <= j < 12 && 4096 * j < w.size && #[trigger] v.direct[j] != 0 ==> w.direct[j]
                == v.direct[j]
    }
    &&& !ok ==> now == recorded(ms, begin_text()) && w == v
}

/// What a write leaves in the image. Where it does not fit, a file without gaps holds what it
/// would hold, cut to the length that it has.
pub proof fn write_traces(fs: FsView, fd: i32, data: Seq<u8>)
    requires
        healthy(fs),
        fs.open.contains_key(fd),
        table(fs.disk.bytes, fs.sb)[fs.open[fd].inode_id as int].kind != InodeType::Dir,
        fs.open[fd].offset + data.len() <= usize::MAX,
    ensures
        ({
            let (next, r) = fs.written_at_cursor(fd, data);
            let id = fs.open[fd].inode_id;
            let pos = fs.open[fd].offset as int;
            &&& file_changed(fs, next, id, r is Ok)
            &&& r is Err && gapless(table(fs.disk.bytes, fs.sb)[id as int]) ==> {
                &&& file_bytes(fs.disk.bytes, fs.sb, id) matches Ok(old)
                &&& file_bytes(next.disk.bytes, fs.sb, id) matches Ok(new)
                &&& new.len() == old.len()
                &&& forall|i: int|
                    0 <= i < old.len() ==> #[trigger] new[i] == if pos <= i < pos + data.len() {
                        data[i - pos]
                    } else {
                        old[i]
                    }
            }
        }),
{
    let id = fs.open[fd].inode_id;
    let pos = fs.open[fd].offset as int;
    let b = fs.disk.bytes;
    lemma_file_readable(b, fs.sb, id);
    let old = file_bytes(b, fs.sb, id)->Ok_0;
    let new = overwritten(old, pos, data);
    lemma_replace_contents(fs.disk, fs.sb, id, new);
    lemma_replace_journal(fs.disk, fs.sb, id, new);
    let next = fs.written_at_cursor(fd, data).0;
    if fs.written_at_cursor(fd, data).1 is Ok {
        lemma_gapless_now(table(next.disk.bytes, fs.sb)[id as int], new.len() as int);
    } else if gapless(table(b, fs.sb)[id as int]) {
        lemma_failed_contents(fs.disk, fs.sb, id, new);
    }
}

/// An inode that has a block for each 4096 bytes has no gap.
proof fn lemma_gapless_now(w: InodeView, size: int)
    requires
        w.size == size,
        size <= 49152,
        forall|j: int| 0 <= j < 12 ==> (#[trigger] w.direct[j] != 0) == (4096 * j < size),
    ensures
        gapless(w),
{
    assert forall|j: int| 0 <= j && 4096 * j < w.size implies j < 12 && #[trigger] w.direct[j]
        != 0 by {}
}

/// What a truncation leaves in the image. Where it does not fit, a file without gaps holds what
/// it held.
pub proof fn truncate_traces(fs: FsView, path: Seq<char>, size: usize)
    requires
        healthy(fs),
        fs.file_at(path) is Ok,
        size <= isize::MAX,
    ensures
        ({
            let (next, r) = fs.truncated(path, size);
            let id = fs.file_at(path)->Ok_0;
            &&& file_changed(fs, next, id, r is Ok)
            &&& r is Err && gapless(table(fs.disk.bytes, fs.sb)[id as int]) ==> file_bytes(
                next.disk.bytes,
                fs.sb,
                id,
            ) == file_bytes(fs.disk.bytes, fs.sb, id)
        }),
{
    let b = fs.disk.bytes;
    lemma_resolve(b, fs.sb, path);
    let id = fs.file_at(path)->Ok_0;
    lemma_find_inode(b, fs.sb, id);
    lemma_file_readable(b, fs.sb, id);
    let old = file_bytes(b, fs.sb, id)->Ok_0;
    let new = resized(old, size as nat);
    let v = table(b, fs.sb)[id as int];
    lemma_replace_contents(fs.disk, fs.sb, id, new);
    lemma_replace_journal(fs.disk, fs.sb, id, new);
    let next = fs.truncated(path, size).0;
    if fs.truncated(path, size).1 is Ok {
        lemma_gapless_now(table(next.disk.bytes, fs.sb)[id as int], new.len() as int);
    } else if gapless(v) {
        lemma_fits_exactly(fs.disk, fs.sb, id, new);
        if size < v.size {
            let n = blocks_taken(size as int);
            assert(size <= 49152) by {
                if v.size > 49152 {
                    assert(v.direct[12] != 0);
                }
            }
            assert forall|j: int| 0 <= j < n implies #[trigger] v.direct[j] != 0 by {
                assert(4096 * j < v.size);
            }
            lemma_nothing_missing(v, 0, n);
        }
        lemma_failed_contents(fs.disk, fs.sb, id, new);
        assert(new.take(v.size as int) =~= old);
    }
}

} // verus!
