//! The superblock: block 0, which says where everything else is.

use crate::bytes::{
    le32, le32_bytes, lemma_le32_bytes_len, lemma_word_at, read_u32, write_u32, zeroed,
};
use crate::disk::{load, padded, read_after_write, Disk, Image};
use crate::error::{agrees, Failure, FsError};
use crate::layout::{BLOCK_SIZE, INODE_COUNT, JOURNAL_BLOCKS, MAGIC, VERSION};
use vstd::prelude::*;

verus! {

/// Where the regions of an image begin and how many blocks each has, whether the image was
/// left clean, and how often that has changed.
#[derive(Clone, Copy, Debug, PartialEq, Eq)]
pub struct Superblock {
    pub total_blocks: u32,
    pub journal_start: u32,
    pub journal_blocks: u32,
    pub inode_bitmap_start: u32,
    pub inode_bitmap_blocks: u32,
    pub block_bitmap_start: u32,
    pub block_bitmap_blocks: u32,
    pub inode_table_start: u32,
    pub inode_table_blocks: u32,
    pub data_start: u32,
    pub clean: u32,
    pub sequence: u32,
}

impl View for Superblock {
    type V = Superblock;

    open spec fn view(&self) -> Superblock {
        *self
    }
}

/// The words at the front of block 0.
pub open spec fn superblock_words(sb: Superblock) -> Seq<u32> {
    seq![
        MAGIC,
        VERSION,
        BLOCK_SIZE as u32,
        sb.total_blocks,
        sb.journal_start,
        sb.journal_blocks,
        sb.inode_bitmap_start,
        sb.inode_bitmap_blocks,
        sb.block_bitmap_start,
        sb.block_bitmap_blocks,
        sb.inode_table_start,
        sb.inode_table_blocks,
        sb.data_start,
        sb.clean,
        sb.sequence,
    ]
}

/// Block 0: the words, then zeros.
pub open spec fn superblock_bytes(sb: Superblock) -> Seq<u8> {
    words_then_zeros(superblock_words(sb), 15)
}

/// A block that begins with the first `n` of `words` and is zero otherwise.
pub open spec fn words_then_zeros(words: Seq<u32>, n: int) -> Seq<u8> {
    Seq::new(
        BLOCK_SIZE as nat,
        |i: int|
            if i < 4 * n {
                le32_bytes(words[i / 4])[i % 4]
            } else {
                0u8
            },
    )
}

/// The superblock in the bytes of block 0, where they carry the right magic and version.
pub open spec fn parse_superblock(b: Seq<u8>) -> Result<Superblock, Failure> {
    if le32(b, 0) != MAGIC || le32(b, 4) != VERSION {
        Err(Failure::Corrupt)
    } else {
        Ok(
            Superblock {
                total_blocks: le32(b, 12),
                journal_start: le32(b, 16),
                journal_blocks: le32(b, 20),
                inode_bitmap_start: le32(b, 24),
                inode_bitmap_blocks: le32(b, 28),
                block_bitmap_start: le32(b, 32),
                block_bitmap_blocks: le32(b, 36),
                inode_table_start: le32(b, 40),
                inode_table_blocks: le32(b, 44),
                data_start: le32(b, 48),
                clean: le32(b, 52),
                sequence: le32(b, 56),
            },
        )
    }
}

/// The superblock of an image.
pub open spec fn superblock_of(b: Seq<u8>) -> Result<Superblock, Failure> {
    match load(b, 0) {
        Ok(first) => parse_superblock(first),
        Err(e) => Err(e),
    }
}

/// The image with the superblock `sb`.
pub open spec fn with_superblock(img: Image, sb: Superblock) -> Image {
    img.write(0, superblock_bytes(sb))
}

/// The blocks that a bitmap with a bit for each of `n` blocks takes.
pub open spec fn bitmap_blocks_for(n: u32) -> int {
    (n + 32767) / 32768
}

/// The superblock of a new image of `total_blocks` blocks: block 0, then the journal, one
/// block of inode bitmap, the block bitmap, the inode table, and data up to the end.
pub open spec fn fresh_superblock(total_blocks: u32) -> Superblock {
    let bitmap = bitmap_blocks_for(total_blocks);
    let table = INODE_COUNT as int / 32;
    Superblock {
        total_blocks,
        journal_start: 1,
        journal_blocks: JOURNAL_BLOCKS,
        inode_bitmap_start: (1 + JOURNAL_BLOCKS) as u32,
        inode_bitmap_blocks: 1,
        block_bitmap_start: (2 + JOURNAL_BLOCKS) as u32,
        block_bitmap_blocks: bitmap as u32,
        inode_table_start: (2 + JOURNAL_BLOCKS + bitmap) as u32,
        inode_table_blocks: table as u32,
        data_start: (2 + JOURNAL_BLOCKS + bitmap + table) as u32,
        clean: 1,
        sequence: 1,
    }
}

/// What is written as a superblock is read back as the same superblock.
pub proof fn superblock_round_trip(sb: Superblock)
    ensures
        parse_superblock(superblock_bytes(sb)) == Ok::<Superblock, Failure>(sb),
{
    let b = superblock_bytes(sb);
    let w = superblock_words(sb);
    assert forall|k: int| 0 <= k < 15 implies #[trigger] w[k] == le32(b, 4 * k) by {
        lemma_word_at(b, 4 * k, w[k]);
    }
    assert(w[0] == le32(b, 0) && w[1] == le32(b, 4) && w[2] == le32(b, 8));
    assert(w[3] == le32(b, 12) && w[4] == le32(b, 16) && w[5] == le32(b, 20));
    assert(w[6] == le32(b, 24) && w[7] == le32(b, 28) && w[8] == le32(b, 32));
    assert(w[9] == le32(b, 36) && w[10] == le32(b, 40) && w[11] == le32(b, 44));
    assert(w[12] == le32(b, 48) && w[13] == le32(b, 52) && w[14] == le32(b, 56));
}

/// An image has the superblock that was last written to it.
pub proof fn superblock_read_after_write(img: Image, sb: Superblock)
    ensures
        superblock_of(with_superblock(img, sb).bytes) == Ok::<Superblock, Failure>(sb),
{
    superblock_round_trip(sb);
    read_after_write(img.bytes, 0, superblock_bytes(sb));
    assert(padded(superblock_bytes(sb)) =~= superblock_bytes(sb));
}

/// Reads and checks the superblock.
pub fn read_superblock(disk: &Disk) -> (r: Result<Superblock, FsError>)
    requires
        disk.wf(),
    ensures
        agrees(r, superblock_of(disk@.bytes)),
{
    let first = disk.read_block(0)?;
    let b = first.as_slice();
    if read_u32(b, 0) != MAGIC || read_u32(b, 4) != VERSION {
        return Err(FsError::Corrupt);
    }
    Ok(
        Superblock {
            total_blocks: read_u32(b, 12),
            journal_start: read_u32(b, 16),
            journal_blocks: read_u32(b, 20),
            inode_bitmap_start: read_u32(b, 24),
            inode_bitmap_blocks: read_u32(b, 28),
            block_bitmap_start: read_u32(b, 32),
            block_bitmap_blocks: read_u32(b, 36),
            inode_table_start: read_u32(b, 40),
            inode_table_blocks: read_u32(b, 44),
            data_start: read_u32(b, 48),
            clean: read_u32(b, 52),
            sequence: read_u32(b, 56),
        },
    )
}

/// Writes the superblock.
pub fn write_superblock(disk: &mut Disk, sb: &Superblock)
    requires
        old(disk).wf(),
    ensures
        final(disk).wf(),
        final(disk)@ == with_superblock(old(disk)@, *sb),
{
    let words: [u32; 15] = [
        MAGIC,
        VERSION,
        BLOCK_SIZE as u32,
        sb.total_blocks,
        sb.journal_start,
        sb.journal_blocks,
        sb.inode_bitmap_start,
        sb.inode_bitmap_blocks,
        sb.block_bitmap_start,
        sb.block_bitmap_blocks,
        sb.inode_table_start,
        sb.inode_table_blocks,
        sb.data_start,
        sb.clean,
        sb.sequence,
    ];
    broadcast use lemma_le32_bytes_len;

    assert(words@ =~= superblock_words(*sb));
    let mut blk = zeroed(BLOCK_SIZE);
    assert(blk@ =~= words_then_zeros(words@, 0));
    let mut k: usize = 0;
    while k < 15
        invariant
            k <= 15,
            blk.len() == BLOCK_SIZE,
            blk@ == words_then_zeros(words@, k as int),
        decreases 15 - k,
    {
        broadcast use lemma_le32_bytes_len;

        write_u32(&mut blk, 4 * k, words[k]);
        assert(blk@ =~= words_then_zeros(words@, k + 1));
        k = k + 1;
    }
    disk.write_block(0, blk.as_slice());
}

/// Lays out a new image of `total_blocks` blocks.
pub fn plan(total_blocks: u32) -> (sb: Superblock)
    ensures
        sb == fresh_superblock(total_blocks),
{
    let block_bitmap_blocks: u32 = ((total_blocks as u64 + 32767)
        / 32768) as u32;
    let inode_table_blocks: u32 = INODE_COUNT / 32;
    Superblock {
        total_blocks,
        journal_start: 1,
        journal_blocks: JOURNAL_BLOCKS,
        inode_bitmap_start: 1 + JOURNAL_BLOCKS,
        inode_bitmap_blocks: 1,
        block_bitmap_start: 2 + JOURNAL_BLOCKS,
        block_bitmap_blocks,
        inode_table_start: 2 + JOURNAL_BLOCKS + block_bitmap_blocks,
        inode_table_blocks,
        data_start: 2 + JOURNAL_BLOCKS + block_bitmap_blocks + inode_table_blocks,
        clean: 1,
        sequence: 1,
    }
}

} // verus!
