//! Inodes: fixed-size records in the inode table.

use crate::bytes::{
    copy_range, le32, le32_bytes, lemma_le32_bytes_len, lemma_word_at, put, read_u32, splice,
    write_u32, zeroed,
};
use crate::disk::{load, Disk, Image};
use crate::error::{agrees, Failure, FsError};
use crate::layout::{DIRECT_PTRS, INODE_SIZE};
use crate::superblock::Superblock;
use vstd::prelude::*;

verus! {

/// What an inode stands for.
#[derive(Clone, Copy, Debug, PartialEq, Eq, Structural)]
pub enum InodeType {
    Free,
    File,
    Dir,
}

/// The byte by which a kind is stored.
pub open spec fn kind_code(kind: InodeType) -> u8 {
    match kind {
        InodeType::Free => 0,
        InodeType::File => 1,
        InodeType::Dir => 2,
    }
}

/// The kind that a byte stands for.
pub open spec fn kind_of_code(code: u8) -> InodeType {
    if code == 1 {
        InodeType::File
    } else if code == 2 {
        InodeType::Dir
    } else {
        InodeType::Free
    }
}

impl InodeType {
    /// The byte by which this kind is stored.
    pub fn code(self) -> (c: u8)
        ensures
            c == kind_code(self),
    {
        match self {
            InodeType::Free => 0,
            InodeType::File => 1,
            InodeType::Dir => 2,
        }
    }

    /// The kind that a byte stands for.
    pub fn from_code(code: u8) -> (k: InodeType)
        ensures
            k == kind_of_code(code),
    {
        match code {
            1 => InodeType::File,
            2 => InodeType::Dir,
            _ => InodeType::Free,
        }
    }
}

/// An inode: a file, a directory or a free slot, and the blocks that hold its contents.
/// A pointer of zero points nowhere.
#[derive(Debug)]
pub struct Inode {
    pub id: u32,
    pub kind: InodeType,
    pub links: u8,
    pub size: u32,
    pub direct: [u32; 12],
}

/// The meaning of an `Inode`.
#[verifier::ext_equal]
pub struct InodeView {
    pub id: u32,
    pub kind: InodeType,
    pub links: u8,
    pub size: u32,
    pub direct: Seq<u32>,
}

impl View for Inode {
    type V = InodeView;

    open spec fn view(&self) -> InodeView {
        InodeView {
            id: self.id,
            kind: self.kind,
            links: self.links,
            size: self.size,
            direct: self.direct@,
        }
    }
}

/// Twelve pointers that point nowhere.
pub open spec fn no_blocks() -> Seq<u32> {
    Seq::new(DIRECT_PTRS as nat, |i: int| 0u32)
}

/// The record of an inode: its number, kind, link count, size and pointers at fixed places,
/// and zeros elsewhere.
pub open spec fn inode_bytes(v: InodeView) -> Seq<u8> {
    Seq::new(
        INODE_SIZE as nat,
        |i: int|
            if i < 4 {
                le32_bytes(v.id)[i]
            } else if i == 4 {
                kind_code(v.kind)
            } else if i == 5 {
                v.links
            } else if 8 <= i < 12 {
                le32_bytes(v.size)[i - 8]
            } else if 16 <= i < 64 {
                le32_bytes(v.direct[(i - 16) / 4])[(i - 16) % 4]
            } else {
                0u8
            },
    )
}

/// The inode that a record stands for.
pub open spec fn parse_inode(raw: Seq<u8>) -> InodeView {
    InodeView {
        id: le32(raw, 0),
        kind: kind_of_code(raw[4]),
        links: raw[5],
        size: le32(raw, 8),
        direct: Seq::new(DIRECT_PTRS as nat, |k: int| le32(raw, 16 + 4 * k)),
    }
}

/// The block of the inode table that holds inode `id`.
pub open spec fn inode_block(sb: Superblock, id: u32) -> int {
    sb.inode_table_start + id as int / 32
}

/// Where the record of inode `id` begins in its block.
pub open spec fn inode_pos(id: u32) -> int {
    (id as int % 32) * 128
}

/// The inode `id` in a block of the inode table.
pub open spec fn inode_in(table: Seq<u8>, id: u32) -> InodeView {
    parse_inode(table.subrange(inode_pos(id), inode_pos(id) + INODE_SIZE))
}

/// The outcome of reading inode `id`.
pub open spec fn find_inode(b: Seq<u8>, sb: Superblock, id: u32) -> Result<InodeView, Failure> {
    if inode_block(sb, id) > u32::MAX {
        Err(Failure::Fault)
    } else {
        match load(b, inode_block(sb, id) as u32) {
            Ok(table) => Ok(inode_in(table, id)),
            Err(e) => Err(e),
        }
    }
}

/// The outcome of writing an inode, at the place that its own number gives.
pub open spec fn put_inode(img: Image, sb: Superblock, v: InodeView) -> (Image, Result<
    (),
    Failure,
>) {
    if inode_block(sb, v.id) > u32::MAX {
        (img, Err(Failure::Fault))
    } else {
        let n = inode_block(sb, v.id) as u32;
        match load(img.bytes, n) {
            Ok(table) => (img.write(n, splice(table, inode_pos(v.id), inode_bytes(v))), Ok(())),
            Err(e) => (img, Err(e)),
        }
    }
}

/// What is stored as an inode record is read back as the same inode.
pub proof fn inode_round_trip(v: InodeView)
    requires
        v.direct.len() == DIRECT_PTRS,
    ensures
        parse_inode(inode_bytes(v)) == v,
{
    let b = inode_bytes(v);
    lemma_word_at(b, 0, v.id);
    lemma_word_at(b, 8, v.size);
    assert forall|k: int| 0 <= k < 12 implies #[trigger] v.direct[k] == le32(b, 16 + 4 * k) by {
        lemma_word_at(b, 16 + 4 * k, v.direct[k]);
    }
    assert(parse_inode(b).direct =~= v.direct);
}

/// The block and the position in it of inode `inode_id`. The block number may be too large.
pub fn inode_offset(sb: &Superblock, inode_id: u32) -> (r: Result<(u32, usize), FsError>)
    ensures
        match r {
            Ok(p) => inode_block(*sb, inode_id) == p.0 && inode_pos(inode_id) == p.1,
            Err(e) => inode_block(*sb, inode_id) > u32::MAX && e@ == Failure::Fault,
        },
{
    match sb.inode_table_start.checked_add(inode_id / 32) {
        Some(blk) => Ok((blk, (inode_id % 32) as usize * 128)),
        None => Err(FsError::Fault),
    }
}

/// Reads inode `inode_id`.
pub fn read_inode(disk: &Disk, sb: &Superblock, inode_id: u32) -> (r: Result<Inode, FsError>)
    requires
        disk.wf(),
    ensures
        agrees(r, find_inode(disk@.bytes, *sb, inode_id)),
{
    let (blk_no, off) = inode_offset(sb, inode_id)?;
    let blk = disk.read_block(blk_no)?;
    let record = copy_range(blk.as_slice(), off, off + INODE_SIZE);
    let raw = record.as_slice();
    let mut direct: [u32; 12] = [0u32;12];
    let mut i: usize = 0;
    while i < DIRECT_PTRS
        invariant
            i <= DIRECT_PTRS,
            raw@.len() == INODE_SIZE,
            forall|k: int| 0 <= k < i ==> #[trigger] direct@[k] == le32(raw@, 16 + 4 * k),
        decreases DIRECT_PTRS - i,
    {
        direct[i] = read_u32(raw, 16 + i * 4);
        i = i + 1;
    }
    let inode = Inode {
        id: read_u32(raw, 0),
        kind: InodeType::from_code(raw[4]),
        links: raw[5],
        size: read_u32(raw, 8),
        direct,
    };
    assert(inode@ =~= parse_inode(raw@));
    Ok(inode)
}

/// The record of an inode.
fn encode_inode(inode: &Inode) -> (raw: Vec<u8>)
    ensures
        raw@ == inode_bytes(inode@),
{
    broadcast use lemma_le32_bytes_len;

    let mut raw = zeroed(INODE_SIZE);
    write_u32(&mut raw, 0, inode.id);
    raw[4] = inode.kind.code();
    raw[5] = inode.links;
    write_u32(&mut raw, 8, inode.size);
    let ghost head = raw@;
    let mut i: usize = 0;
    while i < DIRECT_PTRS
        invariant
            i <= DIRECT_PTRS,
            raw.len() == INODE_SIZE,
            raw@ == Seq::new(
                INODE_SIZE as nat,
                |j: int|
                    if 16 <= j < 16 + 4 * i {
                        le32_bytes(inode.direct@[(j - 16) / 4])[(j - 16) % 4]
                    } else {
                        head[j]
                    },
            ),
        decreases DIRECT_PTRS - i,
    {
        broadcast use lemma_le32_bytes_len;

        write_u32(&mut raw, 16 + i * 4, inode.direct[i]);
        i = i + 1;
    }
    assert(raw@ =~= inode_bytes(inode@));
    raw
}

/// Writes an inode at the place that its own number gives.
pub fn write_inode(disk: &mut Disk, sb: &Superblock, inode: &Inode) -> (r: Result<(), FsError>)
    requires
        old(disk).wf(),
    ensures
        final(disk).wf(),
        final(disk)@ == put_inode(old(disk)@, *sb, inode@).0,
        agrees(r, put_inode(old(disk)@, *sb, inode@).1),
{
    let (blk_no, off) = inode_offset(sb, inode.id)?;
    let mut blk = disk.read_block(blk_no)?;
    let raw = encode_inode(inode);
    put(&mut blk, off, raw.as_slice());
    disk.write_block(blk_no, blk.as_slice());
    Ok(())
}

} // verus!
