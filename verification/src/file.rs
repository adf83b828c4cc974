//! Files: bytes in the blocks of a file inode.

use crate::bitmap::{alloc_data_block, claim_block, set_bitmap_bit, switch_bit};
use crate::bytes::{put, zeroed, zeros};
use crate::directory::preceded;
use crate::disk::{load, Disk, Image};
use crate::error::{agrees, Failure, FsError};
use crate::inode::{find_inode, put_inode, read_inode, write_inode, Inode, InodeType, InodeView};
use crate::layout::{BLOCK_SIZE, DIRECT_PTRS};
use crate::superblock::Superblock;
use crate::text::{decimal, u32_text};
use vstd::prelude::*;

verus! {

/// The next `want` bytes of a file, taken from the blocks from pointer `i` on. Pointers that
/// point nowhere are passed over; where the blocks are used up, zeros follow.
pub open spec fn gather(b: Seq<u8>, direct: Seq<u32>, i: int, want: int) -> Result<
    Seq<u8>,
    Failure,
>
    decreases direct.len() - i,
{
    if i >= direct.len() || want <= 0 {
        Ok(zeros(want as nat))
    } else if direct[i] == 0 {
        gather(b, direct, i + 1, want)
    } else {
        match load(b, direct[i]) {
            Ok(blk) => if want <= 4096 {
                Ok(blk.take(want))
            } else {
                preceded(blk, gather(b, direct, i + 1, want - 4096))
            },
            Err(e) => Err(e),
        }
    }
}

/// The outcome of reading the whole file `id`.
pub open spec fn file_bytes(b: Seq<u8>, sb: Superblock, id: u32) -> Result<Seq<u8>, Failure> {
    match find_inode(b, sb, id) {
        Ok(inode) => if inode.kind == InodeType::Dir {
            Err(Failure::IsDir(decimal(id as nat)))
        } else {
            gather(b, inode.direct, 0, inode.size as int)
        },
        Err(e) => Err(e),
    }
}

/// The number of blocks that `len` bytes take.
pub open spec fn blocks_for(len: int) -> int {
    (len + 4095) / 4096
}

/// The part of `data` that goes into block `i` of a file.
pub open spec fn chunk(data: Seq<u8>, i: int) -> Seq<u8> {
    data.subrange(
        4096 * i,
        if 4096 * (i + 1) < data.len() {
            4096 * (i + 1)
        } else {
            data.len() as int
        },
    )
}

/// The outcome of storing `data` from its block `i` on. Blocks that the pointers do not name
/// yet are claimed one by one. The result is the new pointers.
pub open spec fn store_chunks(
    img: Image,
    sb: Superblock,
    direct: Seq<u32>,
    data: Seq<u8>,
    i: int,
) -> (Image, Result<Seq<u32>, Failure>)
    decreases blocks_for(data.len() as int) - i,
{
    if i >= blocks_for(data.len() as int) {
        (img, Ok(direct))
    } else if i >= DIRECT_PTRS {
        (img, Err(Failure::NoSpace))
    } else if direct[i] != 0 {
        store_chunks(img.write(direct[i], chunk(data, i)), sb, direct, data, i + 1)
    } else {
        let (next, claimed) = claim_block(img, sb);
        match claimed {
            Ok(n) => store_chunks(
                next.write(n, chunk(data, i)),
                sb,
                direct.update(i, n),
                data,
                i + 1,
            ),
            Err(e) => (next, Err(e)),
        }
    }
}

/// The outcome of giving a data block back.
pub open spec fn release_block(img: Image, sb: Superblock, n: u32) -> (Image, Result<
    (),
    Failure,
>) {
    if n < sb.data_start {
        (img, Err(Failure::Fault))
    } else {
        switch_bit(img, sb.block_bitmap_start, (n - sb.data_start) as u32, false)
    }
}

/// The outcome of giving back the blocks from pointer `i` on. The result is the pointers with
/// these set to zero.
pub open spec fn release_from(img: Image, sb: Superblock, direct: Seq<u32>, i: int) -> (
    Image,
    Result<Seq<u32>, Failure>,
)
    decreases DIRECT_PTRS - i,
{
    if i >= DIRECT_PTRS {
        (img, Ok(direct))
    } else if direct[i] == 0 {
        release_from(img, sb, direct, i + 1)
    } else {
        let (next, released) = release_block(img, sb, direct[i]);
        match released {
            Ok(_) => release_from(next, sb, direct.update(i, 0), i + 1),
            Err(e) => (next, Err(e)),
        }
    }
}

/// The outcome of replacing the contents of file `id` by `data`: store the data, give back the
/// blocks behind it, then write the inode.
pub open spec fn write_file(img: Image, sb: Superblock, id: u32, data: Seq<u8>) -> (Image, Result<
    (),
    Failure,
>) {
    match find_inode(img.bytes, sb, id) {
        Ok(inode) => if inode.kind == InodeType::Dir {
            (img, Err(Failure::IsDir(decimal(id as nat))))
        } else {
            let (stored, pointers) = store_chunks(img, sb, inode.direct, data, 0);
            match pointers {
                Ok(direct) => {
                    let (trimmed, rest) = release_from(
                        stored,
                        sb,
                        direct,
                        blocks_for(data.len() as int),
                    );
                    match rest {
                        Ok(direct) => put_inode(
                            trimmed,
                            sb,
                            InodeView { size: data.len() as u32, direct, ..inode },
                        ),
                        Err(e) => (trimmed, Err(e)),
                    }
                },
                Err(e) => (stored, Err(e)),
            }
        },
        Err(e) => (img, Err(e)),
    }
}

/// Reads the whole contents of a file.
pub fn read_file_bytes(disk: &Disk, sb: &Superblock, inode_id: u32) -> (r: Result<
    Vec<u8>,
    FsError,
>)
    requires
        disk.wf(),
    ensures
        agrees(r, file_bytes(disk@.bytes, *sb, inode_id)),
{
    let inode = read_inode(disk, sb, inode_id)?;
    if inode.kind == InodeType::Dir {
        return Err(FsError::IsDir(u32_text(inode_id)));
    }
    let size: usize = inode.size as usize;
    let mut out = zeroed(size);
    let mut copied: usize = 0;
    let ghost all = gather(disk@.bytes, inode.direct@, 0, size as int);
    proof {
        if all is Ok {
            assert(out@.take(0) + all->Ok_0 =~= all->Ok_0);
        }
    }
    let mut i: usize = 0;
    while i < DIRECT_PTRS && copied < size
        invariant
            i <= DIRECT_PTRS,
            disk.wf(),
            copied <= size,
            out@.len() == size,
            forall|j: int| copied <= j < size ==> out@[j] == 0,
            file_bytes(disk@.bytes, *sb, inode_id) == all,
            all == preceded(
                out@.take(copied as int),
                gather(disk@.bytes, inode.direct@, i as int, size - copied),
            ),
        decreases DIRECT_PTRS - i,
    {
        let ptr: u32 = inode.direct[i];
        if ptr != 0 {
            let blk = disk.read_block(ptr)?;
            let left: usize = size - copied;
            let take: usize = if left < BLOCK_SIZE {
                left
            } else {
                BLOCK_SIZE
            };
            let ghost before = out@;
            put(&mut out, copied, vstd::slice::slice_subrange(blk.as_slice(), 0, take));
            proof {
                let now = out@.take(copied + take);
                assert(now =~= before.take(copied as int) + blk@.take(take as int));
                if left > 4096 {
                    let rest = gather(disk@.bytes, inode.direct@, i + 1, left - 4096);
                    assert(blk@.take(take as int) =~= blk@);
                    if rest is Ok {
                        assert(before.take(copied as int) + (blk@ + rest->Ok_0) =~= now
                            + rest->Ok_0);
                    }
                } else {
                    assert(now + zeros(0) =~= now);
                    assert(gather(disk@.bytes, inode.direct@, i + 1, left - take) == Ok::<
                        Seq<u8>,
                        Failure,
                    >(zeros(0)));
                }
            }
            copied = copied + take;
        }
        i = i + 1;
    }
    assert(out@.take(copied as int) + zeros((size - copied) as nat) =~= out@);
    Ok(out)
}

/// Replaces the contents of a file, claiming and giving back blocks as its length asks.
pub fn write_file_bytes(disk: &mut Disk, sb: &Superblock, inode_id: u32, data: &[u8]) -> (r: Result<
    (),
    FsError,
>)
    requires
        old(disk).wf(),
    ensures
        final(disk).wf(),
        final(disk)@ == write_file(old(disk)@, *sb, inode_id, data@).0,
        agrees(r, write_file(old(disk)@, *sb, inode_id, data@).1),
{
    let mut inode = read_inode(disk, sb, inode_id)?;
    if inode.kind == InodeType::Dir {
        return Err(FsError::IsDir(u32_text(inode_id)));
    }
    let ghost found = inode@;
    let len: usize = data.len();
    let needed: usize = len / 4096 + (if len % 4096 != 0 {
        1usize
    } else {
        0usize
    });
    let mut i: usize = 0;
    while i < needed
        invariant
            i <= needed,
            i <= DIRECT_PTRS,
            len == data@.len(),
            needed == blocks_for(data@.len() as int),
            disk.wf(),
            inode@ == (InodeView { direct: inode.direct@, ..found }),
            find_inode(old(disk)@.bytes, *sb, inode_id) == Ok::<InodeView, Failure>(found),
            found.kind != InodeType::Dir,
            store_chunks(old(disk)@, *sb, found.direct, data@, 0) == store_chunks(
                disk@,
                *sb,
                inode.direct@,
                data@,
                i as int,
            ),
        decreases needed - i,
    {
        if i >= DIRECT_PTRS {
            return Err(FsError::NoSpace);
        }
        if inode.direct[i] == 0 {
            let fresh: u32 = alloc_data_block(disk, sb)?;
            inode.direct[i] = fresh;
        }
        let start: usize = i * 4096;
        let end: usize = if len - start > 4096 {
            start + 4096
        } else {
            len
        };
        let part = vstd::slice::slice_subrange(data, start, end);
        assert(part@ == chunk(data@, i as int));
        disk.write_block(inode.direct[i], part);
        i = i + 1;
    }
    let ghost stored = disk@;
    let ghost pointers = inode.direct@;
    let mut j: usize = needed;
    while j < DIRECT_PTRS
        invariant
            needed <= j <= DIRECT_PTRS,
            disk.wf(),
            inode@ == (InodeView { direct: inode.direct@, ..found }),
            find_inode(old(disk)@.bytes, *sb, inode_id) == Ok::<InodeView, Failure>(found),
            found.kind != InodeType::Dir,
            needed == blocks_for(data@.len() as int),
            store_chunks(old(disk)@, *sb, found.direct, data@, 0) == (
                stored,
                Ok::<Seq<u32>, Failure>(pointers),
            ),
            release_from(stored, *sb, pointers, needed as int) == release_from(
                disk@,
                *sb,
                inode.direct@,
                j as int,
            ),
        decreases DIRECT_PTRS - j,
    {
        let ptr: u32 = inode.direct[j];
        if ptr != 0 {
            match ptr.checked_sub(sb.data_start) {
                Some(index) => {
                    set_bitmap_bit(disk, sb.block_bitmap_start, index, false)?;
                },
                None => {
                    return Err(FsError::Fault);
                },
            }
            inode.direct[j] = 0;
        }
        j = j + 1;
    }
    inode.size = len as u32;
    write_inode(disk, sb, &inode)
}

/// The outcome of giving back all blocks that the pointers from `i` on name.
pub open spec fn free_from(img: Image, sb: Superblock, direct: Seq<u32>, i: int) -> (
    Image,
    Result<(), Failure>,
)
    decreases direct.len() - i,
{
    if i >= direct.len() {
        (img, Ok(()))
    } else if direct[i] == 0 {
        free_from(img, sb, direct, i + 1)
    } else {
        let (next, released) = release_block(img, sb, direct[i]);
        match released {
            Ok(_) => free_from(next, sb, direct, i + 1),
            Err(e) => (next, Err(e)),
        }
    }
}

/// Gives back all blocks of an inode.
pub fn free_inode_data(disk: &mut Disk, sb: &Superblock, inode: &Inode) -> (r: Result<
    (),
    FsError,
>)
    requires
        old(disk).wf(),
    ensures
        final(disk).wf(),
        final(disk)@ == free_from(old(disk)@, *sb, inode@.direct, 0).0,
        agrees(r, free_from(old(disk)@, *sb, inode@.direct, 0).1),
{
    let mut i: usize = 0;
    while i < DIRECT_PTRS
        invariant
            i <= DIRECT_PTRS,
            disk.wf(),
            free_from(old(disk)@, *sb, inode.direct@, 0) == free_from(
                disk@,
                *sb,
                inode.direct@,
                i as int,
            ),
        decreases DIRECT_PTRS - i,
    {
        let ptr: u32 = inode.direct[i];
        if ptr != 0 {
            match ptr.checked_sub(sb.data_start) {
                Some(index) => {
                    set_bitmap_bit(disk, sb.block_bitmap_start, index, false)?;
                },
                None => {
                    return Err(FsError::Fault);
                },
            }
        }
        i = i + 1;
    }
    Ok(())
}

} // verus!
