//! Directories: lists of records in the blocks of a directory inode.

use crate::bitmap::{alloc_data_block, claim_block};
use crate::bytes::{put, splice};
use crate::dirent::{decode_dirent, dirent_bytes, encode_dirent, parse_dirent, Dirent, DirentView};
use crate::disk::{load, Disk, Image};
use crate::error::{agrees, Failure, FsError};
use crate::inode::{find_inode, put_inode, read_inode, write_inode, Inode, InodeType, InodeView};
use crate::layout::{BLOCK_SIZE, DIRECT_PTRS, DIRENTS_PER_BLOCK, DIRENT_SIZE};
use crate::superblock::Superblock;
use crate::text::same_text;
use vstd::prelude::*;

verus! {

/// The bytes of record `k` of a directory block.
pub open spec fn raw_record(b: Seq<u8>, k: int) -> Seq<u8> {
    b.subrange(264 * k, 264 * k + 264)
}

/// Record `k` of a directory block.
pub open spec fn record(b: Seq<u8>, k: int) -> Result<DirentView, Failure> {
    parse_dirent(raw_record(b, k))
}

/// The first `n` records of a directory block.
pub open spec fn block_records(b: Seq<u8>, n: int) -> Result<Seq<DirentView>, Failure>
    decreases n,
{
    if n <= 0 {
        Ok(Seq::empty())
    } else {
        match block_records(b, n - 1) {
            Ok(before) => match record(b, n - 1) {
                Ok(e) => Ok(before.push(e)),
                Err(e) => Err(e),
            },
            Err(e) => Err(e),
        }
    }
}

/// How many records a block holds of a directory with `remaining` bytes to come.
pub open spec fn records_in_block(remaining: int) -> int {
    if remaining / 264 < DIRENTS_PER_BLOCK {
        remaining / 264
    } else {
        DIRENTS_PER_BLOCK as int
    }
}

/// `found` with `before` put in front of it.
pub open spec fn preceded<T>(before: Seq<T>, found: Result<Seq<T>, Failure>) -> Result<
    Seq<T>,
    Failure,
> {
    match found {
        Ok(rest) => Ok(before + rest),
        Err(e) => Err(e),
    }
}

/// The records in the blocks from pointer `i` on, of which `remaining` bytes belong to the
/// directory.
pub open spec fn records_from(b: Seq<u8>, direct: Seq<u32>, i: int, remaining: int) -> Result<
    Seq<DirentView>,
    Failure,
>
    decreases direct.len() - i,
{
    if i >= direct.len() {
        Ok(Seq::empty())
    } else if direct[i] == 0 {
        records_from(b, direct, i + 1, remaining)
    } else {
        match load(b, direct[i]) {
            Ok(blk) => {
                let n = records_in_block(remaining);
                match block_records(blk, n) {
                    Ok(here) => if remaining - 264 * n == 0 {
                        Ok(here)
                    } else {
                        preceded(here, records_from(b, direct, i + 1, remaining - 264 * n))
                    },
                    Err(e) => Err(e),
                }
            },
            Err(e) => Err(e),
        }
    }
}

/// The entries that count.
pub open spec fn active_only(es: Seq<DirentView>) -> Seq<DirentView>
    decreases es.len(),
{
    if es.len() == 0 {
        Seq::empty()
    } else if es.last().active == 1 {
        active_only(es.drop_last()).push(es.last())
    } else {
        active_only(es.drop_last())
    }
}

/// The active entries of a directory.
pub open spec fn dir_entries(b: Seq<u8>, dir: InodeView) -> Result<Seq<DirentView>, Failure> {
    match records_from(b, dir.direct, 0, dir.size as int) {
        Ok(es) => Ok(active_only(es)),
        Err(e) => Err(e),
    }
}

/// The inode that the first entry called `name` from entry `i` on stands for.
pub open spec fn find_name(es: Seq<DirentView>, i: int, name: Seq<char>) -> Option<u32>
    decreases es.len() - i,
{
    if i >= es.len() {
        None
    } else if es[i].name == name {
        Some(es[i].inode_id)
    } else {
        find_name(es, i + 1, name)
    }
}

/// The outcome of looking for `name` in the directory `dir_id`.
pub open spec fn lookup(b: Seq<u8>, sb: Superblock, dir_id: u32, name: Seq<char>) -> Result<
    Option<u32>,
    Failure,
> {
    match find_inode(b, sb, dir_id) {
        Ok(dir) => if dir.kind != InodeType::Dir {
            Err(Failure::NotDir(name))
        } else {
            match dir_entries(b, dir) {
                Ok(es) => Ok(find_name(es, 0, name)),
                Err(e) => Err(e),
            }
        },
        Err(e) => Err(e),
    }
}

/// The outcome of putting `ent` behind the records of a directory of which the last block is
/// present.
pub open spec fn link_in_block(
    img: Image,
    sb: Superblock,
    parent: InodeView,
    ent: DirentView,
) -> (Image, Result<(), Failure>) {
    let n = parent.direct[parent.size as int / 4096];
    let pos = parent.size as int % 4096;
    match load(img.bytes, n) {
        Ok(blk) => if pos + DIRENT_SIZE > BLOCK_SIZE {
            (img, Err(Failure::NoSpace))
        } else {
            put_inode(
                img.write(n, splice(blk, pos, dirent_bytes(ent))),
                sb,
                InodeView { size: (parent.size + DIRENT_SIZE) as u32, ..parent },
            )
        },
        Err(e) => (img, Err(e)),
    }
}

/// The outcome of adding `ent` to the directory `parent_id`. The block for the record is
/// claimed where the directory does not have it yet.
pub open spec fn link(img: Image, sb: Superblock, parent_id: u32, ent: DirentView) -> (
    Image,
    Result<(), Failure>,
) {
    match find_inode(img.bytes, sb, parent_id) {
        Ok(parent) => {
            let index = parent.size as int / 4096;
            if index >= DIRECT_PTRS {
                (img, Err(Failure::NoSpace))
            } else if parent.direct[index] != 0 {
                link_in_block(img, sb, parent, ent)
            } else {
                let (next, claimed) = claim_block(img, sb);
                match claimed {
                    Ok(n) => link_in_block(
                        next,
                        sb,
                        InodeView { direct: parent.direct.update(index, n), ..parent },
                        ent,
                    ),
                    Err(e) => (next, Err(e)),
                }
            }
        },
        Err(e) => (img, Err(e)),
    }
}

/// The first of the records from `k` up to `n` that is active and called `name`.
pub open spec fn seek(b: Seq<u8>, k: int, n: int, name: Seq<char>) -> Result<
    Option<int>,
    Failure,
>
    decreases n - k,
{
    if k >= n {
        Ok(None)
    } else {
        match record(b, k) {
            Ok(d) => if d.active == 1 && d.name == name {
                Ok(Some(k))
            } else {
                seek(b, k + 1, n, name)
            },
            Err(e) => Err(e),
        }
    }
}

/// A directory block in which record `k` counts no longer.
pub open spec fn without_record(b: Seq<u8>, k: int) -> Seq<u8> {
    splice(b, 264 * k, dirent_bytes(DirentView { active: 0, ..record(b, k)->Ok_0 }))
}

/// The outcome of switching off the entry `name` in the blocks from pointer `i` on.
pub open spec fn unlink_from(
    img: Image,
    direct: Seq<u32>,
    i: int,
    remaining: int,
    name: Seq<char>,
) -> (Image, Result<(), Failure>)
    decreases direct.len() - i,
{
    if i >= direct.len() {
        (img, Err(Failure::NotFound(name)))
    } else if direct[i] == 0 {
        unlink_from(img, direct, i + 1, remaining, name)
    } else {
        match load(img.bytes, direct[i]) {
            Ok(blk) => {
                let n = records_in_block(remaining);
                match seek(blk, 0, n, name) {
                    Ok(Some(k)) => (img.write(direct[i], without_record(blk, k)), Ok(())),
                    Ok(None) => unlink_from(img, direct, i + 1, remaining - 264 * n, name),
                    Err(e) => (img, Err(e)),
                }
            },
            Err(e) => (img, Err(e)),
        }
    }
}

/// The outcome of switching off the entry `name` of the directory `parent_id`.
pub open spec fn unlink(img: Image, sb: Superblock, parent_id: u32, name: Seq<char>) -> (
    Image,
    Result<(), Failure>,
) {
    match find_inode(img.bytes, sb, parent_id) {
        Ok(parent) => unlink_from(img, parent.direct, 0, parent.size as int, name),
        Err(e) => (img, Err(e)),
    }
}

/// What each of the entries means.
pub open spec fn dirent_views(v: Seq<Dirent>) -> Seq<DirentView> {
    v.map_values(|e: Dirent| e@)
}

/// Active entries of a list and of one that follows it.
pub proof fn lemma_active_only_push(es: Seq<DirentView>, e: DirentView)
    ensures
        active_only(es.push(e)) == if e.active == 1 {
            active_only(es).push(e)
        } else {
            active_only(es)
        },
{
    assert(es.push(e).drop_last() =~= es);
}

/// Reads the active entries of a directory, up to its size.
pub fn read_dir_entries(disk: &Disk, dir: &Inode) -> (r: Result<Vec<Dirent>, FsError>)
    requires
        disk.wf(),
    ensures
        match (r, dir_entries(disk@.bytes, dir@)) {
            (Ok(v), Ok(es)) => dirent_views(v@) == es,
            (Err(e), Err(f)) => e@ == f,
            _ => false,
        },
{
    let mut out: Vec<Dirent> = Vec::new();
    let mut remaining: usize = dir.size as usize;
    let ghost mut seen: Seq<DirentView> = Seq::empty();
    let ghost all = records_from(disk@.bytes, dir.direct@, 0, dir.size as int);
    assert(dirent_views(out@) =~= active_only(seen));
    proof {
        if all is Ok {
            assert(seen + all->Ok_0 =~= all->Ok_0);
        }
    }
    let mut i: usize = 0;
    while i < DIRECT_PTRS
        invariant_except_break
            all == preceded(
                seen,
                records_from(disk@.bytes, dir.direct@, i as int, remaining as int),
            ),
        invariant
            i <= DIRECT_PTRS,
            disk.wf(),
            all == records_from(disk@.bytes, dir.direct@, 0, dir.size as int),
            dirent_views(out@) == active_only(seen),
        ensures
            all == Ok::<Seq<DirentView>, Failure>(seen),
        decreases DIRECT_PTRS - i,
    {
        let ptr: u32 = dir.direct[i];
        if ptr != 0 {
            let blk = disk.read_block(ptr)?;
            let ghost start = seen;
            let ghost rem0 = remaining as int;
            let ghost n = records_in_block(rem0);
            let mut off: usize = 0;
            let ghost mut k: int = 0;
            let ghost mut part: Seq<DirentView> = Seq::empty();
            assert(start + part =~= seen);
            while remaining >= DIRENT_SIZE && off + DIRENT_SIZE <= BLOCK_SIZE
                invariant
                    blk@.len() == BLOCK_SIZE,
                    ptr != 0,
                    i < DIRECT_PTRS,
                    ptr == dir.direct@[i as int],
                    load(disk@.bytes, ptr) == Ok::<Seq<u8>, Failure>(blk@),
                    disk.wf(),
                    all == records_from(disk@.bytes, dir.direct@, 0, dir.size as int),
                    all == preceded(
                        start,
                        records_from(disk@.bytes, dir.direct@, i as int, rem0),
                    ),
                    0 <= k <= 15,
                    off == 264 * k,
                    remaining == rem0 - 264 * k,
                    n == records_in_block(rem0),
                    k <= n,
                    block_records(blk@, k) == Ok::<Seq<DirentView>, Failure>(part),
                    seen == start + part,
                    dirent_views(out@) == active_only(seen),
                decreases BLOCK_SIZE - off,
            {
                let raw = vstd::slice::slice_subrange(blk.as_slice(), off, off + DIRENT_SIZE);
                assert(raw@ =~= raw_record(blk@, k));
                let entry = match decode_dirent(raw) {
                    Ok(d) => d,
                    Err(e) => {
                        proof {
                            lemma_bad_record(blk@, k, n);
                        }
                        return Err(e);
                    },
                };
                proof {
                    assert(k < n);
                    lemma_active_only_push(seen, entry@);
                    assert(seen.push(entry@) =~= start + part.push(entry@));
                    assert(block_records(blk@, k + 1) == Ok::<Seq<DirentView>, Failure>(
                        part.push(entry@),
                    ));
                    part = part.push(entry@);
                    seen = seen.push(entry@);
                    k = k + 1;
                }
                if entry.active == 1 {
                    let ghost before = out@;
                    out.push(entry);
                    assert(dirent_views(out@) =~= dirent_views(before).push(entry@));
                }
                off = off + DIRENT_SIZE;
                remaining = remaining - DIRENT_SIZE;
            }
            assert(k == n);
            if remaining == 0 {
                break;
            }
            proof {
                let rest = records_from(disk@.bytes, dir.direct@, i + 1, remaining as int);
                if rest is Ok {
                    assert(start + (part + rest->Ok_0) =~= seen + rest->Ok_0);
                }
            }
        }
        i = i + 1;
        proof {
            if i == DIRECT_PTRS {
                assert(seen + Seq::<DirentView>::empty() =~= seen);
            }
        }
    }
    Ok(out)
}

/// A record that cannot be read spoils the list of records that it belongs to.
proof fn lemma_bad_record(b: Seq<u8>, k: int, n: int)
    requires
        0 <= k < n,
        block_records(b, k) is Ok,
        record(b, k) is Err,
    ensures
        block_records(b, n) == Err::<Seq<DirentView>, Failure>(record(b, k)->Err_0),
    decreases n,
{
    if k < n - 1 {
        lemma_bad_record(b, k, n - 1);
    }
}

/// Looks for `name` in the directory `dir_inode`.
pub fn lookup_dir(disk: &Disk, sb: &Superblock, dir_inode: u32, name: &str) -> (r: Result<
    Option<u32>,
    FsError,
>)
    requires
        disk.wf(),
    ensures
        agrees(r, lookup(disk@.bytes, *sb, dir_inode, name@)),
{
    let inode = read_inode(disk, sb, dir_inode)?;
    if inode.kind != InodeType::Dir {
        return Err(FsError::NotDir(name.to_owned()));
    }
    let entries = read_dir_entries(disk, &inode)?;
    let mut i: usize = 0;
    while i < entries.len()
        invariant
            i <= entries.len(),
            find_name(dirent_views(entries@), 0, name@) == find_name(
                dirent_views(entries@),
                i as int,
                name@,
            ),
            lookup(disk@.bytes, *sb, dir_inode, name@) == Ok::<Option<u32>, Failure>(
                find_name(dirent_views(entries@), 0, name@),
            ),
        decreases entries.len() - i,
    {
        if same_text(entries[i].name.as_str(), name) {
            return Ok(Some(entries[i].inode_id));
        }
        i = i + 1;
    }
    Ok(None)
}

/// Adds a record behind those of the directory `parent_id`.
pub fn insert_dirent(disk: &mut Disk, sb: &Superblock, parent_id: u32, ent: &Dirent) -> (r: Result<
    (),
    FsError,
>)
    requires
        old(disk).wf(),
    ensures
        final(disk).wf(),
        final(disk)@ == link(old(disk)@, *sb, parent_id, ent@).0,
        agrees(r, link(old(disk)@, *sb, parent_id, ent@).1),
{
    let mut parent = read_inode(disk, sb, parent_id)?;
    let ghost before = parent@;
    let block_index: usize = parent.size as usize / 4096;
    let offset_in_block: usize = parent.size as usize % 4096;
    if block_index >= DIRECT_PTRS {
        return Err(FsError::NoSpace);
    }
    if parent.direct[block_index] == 0 {
        let fresh: u32 = alloc_data_block(disk, sb)?;
        parent.direct[block_index] = fresh;
        assert(parent@ =~= InodeView {
            direct: before.direct.update(block_index as int, fresh),
            ..before
        });
    }
    let ghost known = parent@;
    let ptr: u32 = parent.direct[block_index];
    let mut blk = disk.read_block(ptr)?;
    let bytes = encode_dirent(ent);
    if offset_in_block + DIRENT_SIZE > BLOCK_SIZE {
        return Err(FsError::NoSpace);
    }
    put(&mut blk, offset_in_block, bytes.as_slice());
    disk.write_block(ptr, blk.as_slice());
    parent.size = parent.size + DIRENT_SIZE as u32;
    assert(parent@ =~= InodeView { size: (known.size + DIRENT_SIZE) as u32, ..known });
    write_inode(disk, sb, &parent)
}

/// Switches off the active record called `name` of the directory `parent_id`, in place.
pub fn remove_dirent(disk: &mut Disk, sb: &Superblock, parent_id: u32, name: &str) -> (r: Result<
    (),
    FsError,
>)
    requires
        old(disk).wf(),
    ensures
        final(disk).wf(),
        final(disk)@ == unlink(old(disk)@, *sb, parent_id, name@).0,
        agrees(r, unlink(old(disk)@, *sb, parent_id, name@).1),
{
    let parent = read_inode(disk, sb, parent_id)?;
    let mut remaining: usize = parent.size as usize;
    let ghost img = disk@;
    let mut i: usize = 0;
    while i < DIRECT_PTRS
        invariant
            i <= DIRECT_PTRS,
            disk.wf(),
            disk@ == img,
            img == old(disk)@,
            unlink(old(disk)@, *sb, parent_id, name@) == unlink_from(
                img,
                parent.direct@,
                i as int,
                remaining as int,
                name@,
            ),
        decreases DIRECT_PTRS - i,
    {
        let ptr: u32 = parent.direct[i];
        if ptr != 0 {
            let mut blk = disk.read_block(ptr)?;
            let ghost b = blk@;
            let ghost rem0 = remaining as int;
            let ghost n = records_in_block(rem0);
            let mut off: usize = 0;
            let ghost mut k: int = 0;
            while remaining >= DIRENT_SIZE && off + DIRENT_SIZE <= BLOCK_SIZE
                invariant
                    i < DIRECT_PTRS,
                    disk.wf(),
                    disk@ == img,
                    img == old(disk)@,
                    blk@ == b,
                    b.len() == BLOCK_SIZE,
                    ptr == parent.direct@[i as int],
                    ptr != 0,
                    load(img.bytes, ptr) == Ok::<Seq<u8>, Failure>(b),
                    unlink(old(disk)@, *sb, parent_id, name@) == unlink_from(
                        img,
                        parent.direct@,
                        i as int,
                        rem0,
                        name@,
                    ),
                    0 <= k <= 15,
                    off == 264 * k,
                    remaining == rem0 - 264 * k,
                    n == records_in_block(rem0),
                    k <= n,
                    seek(b, 0, n, name@) == seek(b, k, n, name@),
                decreases BLOCK_SIZE - off,
            {
                let raw = vstd::slice::slice_subrange(blk.as_slice(), off, off + DIRENT_SIZE);
                assert(raw@ =~= raw_record(b, k));
                let mut d = decode_dirent(raw)?;
                if d.active == 1 && same_text(d.name.as_str(), name) {
                    d.active = 0;
                    let bytes = encode_dirent(&d);
                    put(&mut blk, off, bytes.as_slice());
                    assert(blk@ == without_record(b, k));
                    disk.write_block(ptr, blk.as_slice());
                    return Ok(());
                }
                off = off + DIRENT_SIZE;
                remaining = remaining - DIRENT_SIZE;
                proof {
                    k = k + 1;
                }
            }
            assert(k == n);
        }
        i = i + 1;
    }
    Err(FsError::NotFound(name.to_owned()))
}

} // verus!
