//! What is refused, in every state, and that nothing changes then.

use crate::bitmap::{claim_block, claim_from, claim_inode, first_clear, switch_bit};
use crate::directory::{dir_entries, lookup, records_in_block, unlink, unlink_from};
use crate::dirent::DirentView;
use crate::disk::{load, Image};
use crate::error::Failure;
use crate::file::{
    blocks_for, chunk, file_bytes, free_from, release_block, release_from, store_chunks, write_file,
};
use crate::format_laws::blocks;
use crate::fs::{overwritten, replace_contents, resized, FsView};
use crate::image_laws::trimming_any;
use crate::inode::{find_inode, put_inode, InodeType};
use crate::journal::{mark, TX_BEGIN, TX_COMMIT};
use crate::node::{discard, free_slot, listed_names, occupied};
use crate::path::{parent_of, resolve};
use crate::superblock::Superblock;
use vstd::prelude::*;

verus! {

/// What makes a node impossible, in every state: a path that leads nowhere, a name that is
/// taken, no inode that is free.
pub proof fn making_refused(fs: FsView, path: Seq<char>, kind: InodeType)
    ensures
        ({
            let b = fs.disk.bytes;
            let (next, r) = fs.made(path, kind);
            &&& next == (FsView { disk: next.disk, ..fs })
            &&& match parent_of(b, fs.sb, path) {
                Err(e) => next == fs && r == Err::<(), Failure>(e),
                Ok((p, leaf)) => match lookup(b, fs.sb, p, leaf) {
                    Err(e) => next == fs && r == Err::<(), Failure>(e),
                    Ok(Some(_)) => next == fs && r == Err::<(), Failure>(
                        Failure::AlreadyExists(path),
                    ),
                    Ok(None) => claim_inode(fs.disk, fs.sb).1 matches Err(e) ==> {
                        &&& next.disk == claim_inode(fs.disk, fs.sb).0
                        &&& r == Err::<(), Failure>(e)
                    },
                },
            }
        }),
{
}

/// What cannot be removed, in every state: what a path does not lead to, and a directory that
/// has an entry other than `.` and `..`. Whatever else a path leads to, the journal is told.
pub proof fn removing_refused(fs: FsView, path: Seq<char>)
    ensures
        ({
            let b = fs.disk.bytes;
            let (next, r) = fs.removed(path);
            &&& next == (FsView { disk: next.disk, ..fs })
            &&& match parent_of(b, fs.sb, path) {
                Err(e) => next == fs && r == Err::<(), Failure>(e),
                Ok((p, leaf)) => match lookup(b, fs.sb, p, leaf) {
                    Err(e) => next == fs && r == Err::<(), Failure>(e),
                    Ok(None) => next == fs && r == Err::<(), Failure>(Failure::NotFound(path)),
                    Ok(Some(id)) => match find_inode(b, fs.sb, id) {
                        Err(e) => next == fs && r == Err::<(), Failure>(e),
                        Ok(v) => if v.kind != InodeType::Dir {
                            begun_in_journal(fs, next, r is Ok)
                        } else {
                            match dir_entries(b, v) {
                                Err(e) => next == fs && r == Err::<(), Failure>(e),
                                Ok(es) => if exists|k: int|
                                    0 <= k < es.len() && (#[trigger] es[k]).name != seq!['.']
                                        && es[k].name != seq!['.', '.'] {
                                    next == fs && r == Err::<(), Failure>(
                                        Failure::InvalidPath("directory not empty"@),
                                    )
                                } else {
                                    begun_in_journal(fs, next, r is Ok)
                                },
                            }
                        },
                    },
                },
            }
        }),
{
    let b = fs.disk.bytes;
    if let Ok((p, leaf)) = parent_of(b, fs.sb, path) {
        if let Ok(Some(id)) = lookup(b, fs.sb, p, leaf) {
            if let Ok(v) = find_inode(b, fs.sb, id) {
                if v.kind != InodeType::Dir {
                    lemma_removal_begins(fs, path);
                } else if let Ok(es) = dir_entries(b, v) {
                    lemma_nothing_listed(es);
                    if listed_names(es).len() == 0 {
                        lemma_removal_begins(fs, path);
                    }
                }
            }
        }
    }
}

/// Whether a change went as far as the journal: where the journal block lies behind the end of
/// the image, nothing was written; else the first write went there.
pub open spec fn begun_in_journal(fs: FsView, next: FsView, ok: bool) -> bool {
    let n = fs.disk.writes.len() as int;
    if 4096 * (fs.sb.journal_start + 1) > fs.disk.bytes.len() {
        next.disk == fs.disk && !ok
    } else {
        &&& next.disk.writes.len() > n
        &&& next.disk.writes[n].0 == fs.sb.journal_start
        &&& forall|k: int| 0 <= k < n ==> #[trigger] next.disk.writes[k] == fs.disk.writes[k]
    }
}

/// No name is listed exactly where there is no entry but `.` and `..`.
proof fn lemma_nothing_listed(es: Seq<DirentView>)
    ensures
        listed_names(es).len() > 0 <==> exists|k: int|
            0 <= k < es.len() && (#[trigger] es[k]).name != seq!['.'] && es[k].name != seq![
                '.',
                '.',
            ],
    decreases es.len(),
{
    reveal_strlit(".");
    reveal_strlit("..");
    assert("."@ =~= seq!['.']);
    assert(".."@ =~= seq!['.', '.']);
    if es.len() > 0 {
        let front = es.drop_last();
        lemma_nothing_listed(front);
        assert forall|k: int| 0 <= k < front.len() implies #[trigger] front[k] == es[k] by {}
        if listed_names(es).len() > 0 {
            if es.last().name == "."@ || es.last().name == ".."@ {
                let k = choose|k: int|
                    0 <= k < front.len() && (#[trigger] front[k]).name != seq!['.']
                        && front[k].name != seq!['.', '.'];
                assert(es[k] == front[k]);
            } else {
                assert(es[es.len() - 1] == es.last());
            }
        } else {
            assert forall|k: int| 0 <= k < es.len() implies (#[trigger] es[k]).name == seq!['.']
                || es[k].name == seq!['.', '.'] by {
                if k < front.len() {
                    assert(front[k] == es[k]);
                }
            }
        }
    }
}

/// Whether `z` comes from `a` by further writes.
spec fn more_written(a: Image, z: Image) -> bool {
    &&& a.writes.len() <= z.writes.len()
    &&& forall|k: int| 0 <= k < a.writes.len() ==> #[trigger] z.writes[k] == a.writes[k]
}

/// Further writes on further writes are further writes.
proof fn lemma_more_trans(a: Image, m: Image, z: Image)
    requires
        more_written(a, m),
        more_written(m, z),
    ensures
        more_written(a, z),
{
    assert forall|k: int| 0 <= k < a.writes.len() implies #[trigger] z.writes[k] == a.writes[k] by {
        assert(z.writes[k] == m.writes[k]);
        assert(m.writes[k] == a.writes[k]);
    }
}

/// Claiming a bit takes no write back.
proof fn lemma_more_claim(img: Image, start: u32, count: u32, bi: u32)
    ensures
        more_written(img, claim_from(img, start, count, bi).0),
    decreases count - bi,
{
    if bi < count && start + bi <= u32::MAX {
        if let Ok(b) = load(img.bytes, (start + bi) as u32) {
            if first_clear(b, 0) is None {
                lemma_more_claim(img, start, count, (bi + 1) as u32);
            }
        }
    }
}

/// Switching off an entry takes no write back.
proof fn lemma_more_unlink(img: Image, direct: Seq<u32>, i: int, remaining: int, name: Seq<char>)
    ensures
        more_written(img, unlink_from(img, direct, i, remaining, name).0),
    decreases direct.len() - i,
{
    if i < direct.len() {
        if direct[i] == 0 {
            lemma_more_unlink(img, direct, i + 1, remaining, name);
        } else {
            let n = records_in_block(remaining);
            lemma_more_unlink(img, direct, i + 1, remaining - 264 * n, name);
        }
    }
}

/// Giving back blocks takes no write back.
proof fn lemma_more_free(img: Image, sb: Superblock, direct: Seq<u32>, i: int)
    ensures
        more_written(img, free_from(img, sb, direct, i).0),
    decreases direct.len() - i,
{
    if i < direct.len() {
        if direct[i] == 0 {
            lemma_more_free(img, sb, direct, i + 1);
        } else {
            let next = release_block(img, sb, direct[i]).0;
            lemma_more_free(next, sb, direct, i + 1);
            lemma_more_trans(img, next, free_from(next, sb, direct, i + 1).0);
        }
    }
}

/// Storing data takes no write back, and data that takes more than twelve blocks is refused.
proof fn lemma_more_store(img: Image, sb: Superblock, direct: Seq<u32>, data: Seq<u8>, i: int)
    requires
        0 <= i,
        direct.len() == 12,
    ensures
        more_written(img, store_chunks(img, sb, direct, data, i).0),
        i <= 12 < blocks_for(data.len() as int) ==> store_chunks(img, sb, direct, data, i).1 is Err,
        store_chunks(img, sb, direct, data, i).1 matches Ok(d) ==> d.len() == 12,
    decreases blocks_for(data.len() as int) - i,
{
    if i < blocks_for(data.len() as int) && i < 12 {
        if direct[i] != 0 {
            let next = img.write(direct[i], chunk(data, i));
            lemma_more_store(next, sb, direct, data, i + 1);
            lemma_more_trans(img, next, store_chunks(next, sb, direct, data, i + 1).0);
        } else {
            lemma_more_claim(img, sb.block_bitmap_start, sb.block_bitmap_blocks, 0);
            let (claimed, r) = claim_block(img, sb);
            if let Ok(n) = r {
                let next = claimed.write(n, chunk(data, i));
                let now = direct.update(i, n);
                lemma_more_trans(img, claimed, next);
                lemma_more_store(next, sb, now, data, i + 1);
                lemma_more_trans(img, next, store_chunks(next, sb, now, data, i + 1).0);
            }
        }
    }
}

/// A removal that is not refused is told to the journal first.
proof fn lemma_removal_begins(fs: FsView, path: Seq<char>)
    requires
        parent_of(fs.disk.bytes, fs.sb, path) is Ok,
        ({
            let b = fs.disk.bytes;
            let (p, leaf) = parent_of(b, fs.sb, path)->Ok_0;
            &&& lookup(b, fs.sb, p, leaf) matches Ok(Some(id))
            &&& find_inode(b, fs.sb, id) matches Ok(v)
            &&& occupied(b, v) == Ok::<bool, Failure>(false)
        }),
    ensures
        begun_in_journal(fs, fs.removed(path).0, fs.removed(path).1 is Ok),
{
    let img = fs.disk;
    let sb = fs.sb;
    let b = img.bytes;
    let (p, leaf) = parent_of(b, sb, path)->Ok_0;
    let id = lookup(b, sb, p, leaf)->Ok_0->Some_0;
    let target = find_inode(b, sb, id)->Ok_0;
    blocks(b, sb.journal_start);
    let (begun, r) = mark(img, sb, TX_BEGIN@);
    let (z, out) = discard(img, sb, p, leaf, id, target);
    if r is Ok {
        if let Ok(dir) = find_inode(begun.bytes, sb, p) {
            lemma_more_unlink(begun, dir.direct, 0, dir.size as int, leaf);
        }
        let (unlinked, r) = unlink(begun, sb, p, leaf);
        if r is Ok {
            lemma_more_free(unlinked, sb, target.direct, 0);
            let (freed, r) = free_from(unlinked, sb, target.direct, 0);
            lemma_more_trans(begun, unlinked, freed);
            if r is Ok {
                let (cleared, r) = switch_bit(freed, sb.inode_bitmap_start, id, false);
                lemma_more_trans(begun, freed, cleared);
                if r is Ok {
                    let (written, r) = put_inode(cleared, sb, free_slot(id));
                    lemma_more_trans(begun, cleared, written);
                    lemma_more_trans(begun, written, mark(written, sb, TX_COMMIT@).0);
                }
            }
        }
        assert(more_written(begun, z));
        lemma_begun(fs, begun, z);
    }
}

/// What comes behind the first marker does not change that it came first.
proof fn lemma_begun(fs: FsView, begun: Image, z: Image)
    requires
        4096 * (fs.sb.journal_start + 1) <= fs.disk.bytes.len(),
        begun == mark(fs.disk, fs.sb, TX_BEGIN@).0,
        mark(fs.disk, fs.sb, TX_BEGIN@).1 is Ok,
        more_written(begun, z),
    ensures
        forall|next: FsView, ok: bool|
            next.disk == z ==> #[trigger] begun_in_journal(fs, next, ok),
{
    let n = fs.disk.writes.len() as int;
    assert(z.writes[n] == begun.writes[n]);
    assert forall|k: int| 0 <= k < n implies #[trigger] z.writes[k] == fs.disk.writes[k] by {
        assert(z.writes[k] == begun.writes[k]);
    }
}

/// Replacing the contents of a file is told to the journal first, and fails where they take more
/// than twelve blocks.
proof fn lemma_replacing_begins(fs: FsView, id: u32, data: Seq<u8>)
    ensures
        forall|next: FsView, ok: bool|
            next.disk == replace_contents(fs.disk, fs.sb, id, data).0 && ok == (replace_contents(
                fs.disk,
                fs.sb,
                id,
                data,
            ).1 is Ok) ==> #[trigger] begun_in_journal(fs, next, ok),
        data.len() > 49152 ==> replace_contents(fs.disk, fs.sb, id, data).1 is Err,
{
    let img = fs.disk;
    let sb = fs.sb;
    blocks(img.bytes, sb.journal_start);
    let (begun, r) = mark(img, sb, TX_BEGIN@);
    let z = replace_contents(img, sb, id, data).0;
    if r is Ok {
        if let Ok(v) = find_inode(begun.bytes, sb, id) {
            lemma_more_store(begun, sb, v.direct, data, 0);
            let (stored, s) = store_chunks(begun, sb, v.direct, data, 0);
            if let Ok(d) = s {
                let n = blocks_for(data.len() as int);
                if n <= 12 {
                    trimming_any(stored, sb, d, d, n);
                    lemma_more_free(stored, sb, d, n);
                    let (trimmed, t) = release_from(stored, sb, d, n);
                    lemma_more_trans(begun, stored, trimmed);
                    let (written, q) = write_file(begun, sb, id, data);
                    if t is Ok && v.kind != InodeType::Dir {
                        lemma_more_trans(begun, trimmed, written);
                    }
                    lemma_more_trans(begun, written, mark(written, sb, TX_COMMIT@).0);
                }
            }
        }
        assert(more_written(begun, z));
        lemma_begun(fs, begun, z);
    }
}

/// What a write refuses, in every state: a descriptor that is not open, a file that cannot be
/// read, an end that has no number, more than twelve blocks. Where the data might fit, the
/// journal is told first. Only the cursor of the descriptor moves, and only where the write
/// succeeds.
pub proof fn writing_refused(fs: FsView, fd: i32, data: Seq<u8>)
    requires
        fs.open.contains_key(fd),
    ensures
        ({
            let (next, r) = fs.written_at_cursor(fd, data);
            let pos = fs.open[fd].offset as int;
            match file_bytes(fs.disk.bytes, fs.sb, fs.open[fd].inode_id) {
                Err(e) => next == fs && r == Err::<usize, Failure>(e),
                Ok(old) => if pos + data.len() > usize::MAX {
                    next == fs && r == Err::<usize, Failure>(Failure::Fault)
                } else {
                    &&& begun_in_journal(fs, next, r is Ok)
                    &&& old.len() > 49152 || pos + data.len() > 49152 ==> r is Err
                    &&& next.sb == fs.sb
                    &&& next.next_fd == fs.next_fd
                    &&& r is Err ==> next.open == fs.open
                    &&& r matches Ok(n) ==> {
                        &&& n == data.len()
                        &&& next.open.dom() == fs.open.dom()
                        &&& next.open[fd].inode_id == fs.open[fd].inode_id
                        &&& next.open[fd].offset == pos + data.len()
                        &&& forall|other: i32|
                            other != fd && fs.open.contains_key(other)
                                ==> #[trigger] next.open[other] == fs.open[other]
                    }
                },
            }
        }),
{
    let (next, r) = fs.written_at_cursor(fd, data);
    let id = fs.open[fd].inode_id;
    if let Ok(old) = file_bytes(fs.disk.bytes, fs.sb, id) {
        let pos = fs.open[fd].offset as int;
        if pos + data.len() <= usize::MAX {
            lemma_replacing_begins(fs, id, overwritten(old, pos, data));
            assert(begun_in_journal(fs, next, r is Ok));
            if r is Ok {
                assert(next.open.dom() =~= fs.open.dom());
            }
        }
    }
}

/// What a truncation refuses, in every state: what a path does not lead to, a directory, a file
/// that cannot be read, a size without a number, more than twelve blocks. Where the size might
/// fit, the journal is told first. The descriptors stay as they were.
pub proof fn truncating_refused(fs: FsView, path: Seq<char>, size: usize)
    ensures
        ({
            let b = fs.disk.bytes;
            let (next, r) = fs.truncated(path, size);
            &&& next == (FsView { disk: next.disk, ..fs })
            &&& match resolve(b, fs.sb, path) {
                Err(e) => next == fs && r == Err::<(), Failure>(e),
                Ok(id) => match find_inode(b, fs.sb, id) {
                    Err(e) => next == fs && r == Err::<(), Failure>(e),
                    Ok(v) => if v.kind == InodeType::Dir {
                        next == fs && r == Err::<(), Failure>(Failure::IsDir(path))
                    } else {
                        match file_bytes(b, fs.sb, id) {
                            Err(e) => next == fs && r == Err::<(), Failure>(e),
                            Ok(_) => if size > isize::MAX {
                                next == fs && r == Err::<(), Failure>(Failure::Fault)
                            } else {
                                &&& begun_in_journal(fs, next, r is Ok)
                                &&& size > 49152 ==> r is Err
                            },
                        }
                    },
                },
            }
        }),
{
    let b = fs.disk.bytes;
    if let Ok(id) = resolve(b, fs.sb, path) {
        if let Ok(old) = file_bytes(b, fs.sb, id) {
            lemma_replacing_begins(fs, id, resized(old, size as nat));
            let (next, r) = fs.truncated(path, size);
            if fs.file_at(path) is Ok && size <= isize::MAX {
                assert(begun_in_journal(fs, next, r is Ok));
            }
        }
    }
}

} // verus!
