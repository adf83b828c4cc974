//! Bitmaps: which inodes and which data blocks are in use.

use crate::disk::{block, lemma_block_len, lemma_store, load, padded, readable, store, Disk, Image};
use crate::error::{agrees, Failure, FsError};
use crate::layout::BLOCK_SIZE;
use crate::superblock::Superblock;
use vstd::prelude::*;

verus! {

/// Whether bit `i` is set. Bit 0 is the least significant bit of the first byte.
pub open spec fn bit_set(b: Seq<u8>, i: int) -> bool {
    (b[i / 8] >> ((i % 8) as u8)) & 1u8 == 1u8
}

/// `b` with bit `i` switched on or off.
pub open spec fn with_bit(b: Seq<u8>, i: int, on: bool) -> Seq<u8> {
    let mask = 1u8 << ((i % 8) as u8);
    b.update(
        i / 8,
        if on {
            b[i / 8] | mask
        } else {
            b[i / 8] & !mask
        },
    )
}

/// The lowest clear bit at or above `i`.
pub open spec fn first_clear(b: Seq<u8>, i: int) -> Option<int>
    decreases 8 * b.len() - i,
{
    if i >= 8 * b.len() {
        None
    } else if !bit_set(b, i) {
        Some(i)
    } else {
        first_clear(b, i + 1)
    }
}

/// The outcome of claiming the first clear bit in the bitmap of `blocks` blocks that begins at
/// block `start`, from its block `bi` on.
pub open spec fn claim_from(img: Image, start: u32, blocks: u32, bi: u32) -> (Image, Result<
    u64,
    Failure,
>)
    decreases blocks - bi,
{
    if bi >= blocks {
        (img, Err(Failure::NoSpace))
    } else if start + bi > u32::MAX {
        (img, Err(Failure::Fault))
    } else {
        let n = (start + bi) as u32;
        match load(img.bytes, n) {
            Ok(b) => match first_clear(b, 0) {
                Some(k) => (
                    img.write(n, with_bit(b, k, true)),
                    Ok((bi * 32768 + k) as u64),
                ),
                None => claim_from(img, start, blocks, (bi + 1) as u32),
            },
            Err(e) => (img, Err(e)),
        }
    }
}

/// The outcome of claiming an inode number.
pub open spec fn claim_inode(img: Image, sb: Superblock) -> (Image, Result<u32, Failure>) {
    let (next, r) = claim_from(img, sb.inode_bitmap_start, sb.inode_bitmap_blocks, 0);
    match r {
        Ok(v) => (next, Ok((v % 0x1_0000_0000) as u32)),
        Err(e) => (next, Err(e)),
    }
}

/// The outcome of claiming a data block: the number of the block that goes with the bit.
pub open spec fn claim_block(img: Image, sb: Superblock) -> (Image, Result<u32, Failure>) {
    let (next, r) = claim_from(img, sb.block_bitmap_start, sb.block_bitmap_blocks, 0);
    match r {
        Ok(v) => if sb.data_start + v % 0x1_0000_0000 > u32::MAX {
            (next, Err(Failure::Fault))
        } else {
            (next, Ok((sb.data_start + v % 0x1_0000_0000) as u32))
        },
        Err(e) => (next, Err(e)),
    }
}

/// The outcome of switching bit `index` of the bitmap that begins at block `start`.
pub open spec fn switch_bit(img: Image, start: u32, index: u32, on: bool) -> (Image, Result<
    (),
    Failure,
>) {
    let n = start + index as int / 32768;
    if n > u32::MAX {
        (img, Err(Failure::Fault))
    } else {
        match load(img.bytes, n as u32) {
            Ok(b) => (
                img.write(n as u32, with_bit(b, index as int % 32768, on)),
                Ok(()),
            ),
            Err(e) => (img, Err(e)),
        }
    }
}

/// Setting or clearing one bit of a byte leaves the others.
proof fn lemma_byte_bits(x: u8, j: u8, k: u8)
    by (bit_vector)
    requires
        j < 8,
        k < 8,
    ensures
        ((x | (1u8 << k)) >> j) & 1u8 == (if j == k {
            1u8
        } else {
            (x >> j) & 1u8
        }),
        ((x & !(1u8 << k)) >> j) & 1u8 == (if j == k {
            0u8
        } else {
            (x >> j) & 1u8
        }),
{
}

/// Switching a bit changes that bit and no other.
pub proof fn switched_bit(b: Seq<u8>, i: int, on: bool, j: int)
    requires
        0 <= i < 8 * b.len(),
        0 <= j < 8 * b.len(),
    ensures
        with_bit(b, i, on).len() == b.len(),
        bit_set(with_bit(b, i, on), j) == (if i == j {
            on
        } else {
            bit_set(b, j)
        }),
{
    lemma_byte_bits(b[i / 8], (j % 8) as u8, (i % 8) as u8);
}

/// The lowest clear bit is clear, and every bit below it is set.
pub proof fn first_clear_is_lowest(b: Seq<u8>, i: int)
    requires
        0 <= i,
    ensures
        match first_clear(b, i) {
            Some(k) => i <= k < 8 * b.len() && !bit_set(b, k) && forall|j: int|
                i <= j < k ==> bit_set(b, j),
            None => forall|j: int| i <= j < 8 * b.len() ==> bit_set(b, j),
        },
    decreases 8 * b.len() - i,
{
    if i < 8 * b.len() && bit_set(b, i) {
        first_clear_is_lowest(b, i + 1);
    }
}

/// Skipping over set bits does not change the lowest clear bit.
proof fn lemma_skip_set(b: Seq<u8>, i: int, k: int)
    requires
        0 <= i <= k <= 8 * b.len(),
        forall|j: int| i <= j < k ==> bit_set(b, j),
    ensures
        first_clear(b, i) == first_clear(b, k),
    decreases k - i,
{
    if i < k {
        lemma_skip_set(b, i + 1, k);
    }
}

/// Switching a bit of a byte twice, or setting a bit that is clear and clearing it again.
proof fn lemma_byte_again(x: u8, k: u8)
    by (bit_vector)
    requires
        k < 8,
    ensures
        (x | (1u8 << k)) | (1u8 << k) == x | (1u8 << k),
        (x & !(1u8 << k)) & !(1u8 << k) == x & !(1u8 << k),
        (x >> k) & 1u8 == 0u8 ==> (x | (1u8 << k)) & !(1u8 << k) == x,
        (x >> k) & 1u8 == 0u8 || (x >> k) & 1u8 == 1u8,
{
}

/// Switching a bit the same way again changes nothing, and clearing a bit that was set undoes
/// setting it.
pub proof fn switched_again(b: Seq<u8>, i: int, on: bool)
    requires
        0 <= i < 8 * b.len(),
    ensures
        with_bit(with_bit(b, i, on), i, on) == with_bit(b, i, on),
        !bit_set(b, i) ==> with_bit(with_bit(b, i, true), i, false) == b,
{
    lemma_byte_again(b[i / 8], (i % 8) as u8);
    assert(with_bit(with_bit(b, i, on), i, on) =~= with_bit(b, i, on));
    if !bit_set(b, i) {
        assert(with_bit(with_bit(b, i, true), i, false) =~= b);
    }
}

/// Of two writes to one block the second counts; and writing what a block holds changes
/// nothing.
proof fn lemma_rewritten(b: Seq<u8>, n: u32, x: Seq<u8>, y: Seq<u8>)
    requires
        readable(b, n as int),
        x.len() == 4096,
        y.len() == 4096,
    ensures
        store(store(b, n as int, x), n as int, y) == store(b, n as int, y),
        store(b, n as int, block(b, n as int)) == b,
{
    reveal(store);
    reveal(block);
    assert(store(store(b, n as int, x), n as int, y) =~= store(b, n as int, y));
    assert(store(b, n as int, block(b, n as int)) =~= b);
}

/// Switching a bit of a bitmap gives that bit the value and changes no other bit of any block
/// of the bitmap; and switching it the same way again changes nothing.
pub proof fn switching_a_bit(img: Image, start: u32, index: u32, on: bool)
    requires
        switch_bit(img, start, index, on).1 is Ok,
    ensures
        ({
            let once = switch_bit(img, start, index, on).0;
            let twice = switch_bit(once, start, index, on);
            &&& forall|j: int|
                0 <= j && readable(img.bytes, start + j / 32768) ==> #[trigger] bit_set(
                    block(once.bytes, start + j / 32768),
                    j % 32768,
                ) == (if j == index {
                    on
                } else {
                    bit_set(block(img.bytes, start + j / 32768), j % 32768)
                })
            &&& twice.1 is Ok
            &&& twice.0.bytes == once.bytes
        }),
{
    let n = (start + index as int / 32768) as u32;
    let k = index as int % 32768;
    let b = block(img.bytes, n as int);
    let d = with_bit(b, k, on);
    let once = switch_bit(img, start, index, on).0;
    lemma_block_len(img.bytes, n as int);
    switched_again(b, k, on);
    assert(padded(d) =~= d);
    lemma_store(img.bytes, n, d);
    lemma_rewritten(img.bytes, n, d, d);
    assert forall|j: int| 0 <= j && readable(img.bytes, start + j / 32768) implies
        #[trigger] bit_set(block(once.bytes, start + j / 32768), j % 32768) == (if j == index {
        on
    } else {
        bit_set(block(img.bytes, start + j / 32768), j % 32768)
    }) by {
        if start + j / 32768 == n {
            switched_bit(b, k, on, j % 32768);
        }
    }
}

/// What is claimed depends on the bytes of the image alone.
proof fn lemma_claim_by_bytes(a: Image, z: Image, start: u32, blocks: u32, bi: u32)
    requires
        a.bytes == z.bytes,
    ensures
        claim_from(a, start, blocks, bi).1 == claim_from(z, start, blocks, bi).1,
    decreases blocks - bi,
{
    if bi < blocks && start + bi <= u32::MAX {
        if let Ok(b) = load(a.bytes, (start + bi) as u32) {
            if first_clear(b, 0) is None {
                lemma_claim_by_bytes(a, z, start, blocks, (bi + 1) as u32);
            }
        }
    }
}

/// The bit that was claimed can be cleared again, from block `bi` of the bitmap on.
proof fn lemma_claim_undone(img: Image, start: u32, blocks: u32, bi: u32)
    ensures
        claim_from(img, start, blocks, bi).1 matches Ok(v) ==> v <= u32::MAX ==> {
            let cleared = switch_bit(
                claim_from(img, start, blocks, bi).0,
                start,
                v as u32,
                false,
            );
            cleared.1 is Ok && cleared.0.bytes == img.bytes
        },
    decreases blocks - bi,
{
    if bi < blocks && start + bi <= u32::MAX {
        let n = (start + bi) as u32;
        if let Ok(b) = load(img.bytes, n) {
            lemma_block_len(img.bytes, n as int);
            first_clear_is_lowest(b, 0);
            match first_clear(b, 0) {
                Some(k) => {
                    assert((bi * 32768 + k) / 32768 == bi);
                    assert((bi * 32768 + k) % 32768 == k);
                    let d = with_bit(b, k, true);
                    assert(padded(d) =~= d);
                    assert(padded(b) =~= b);
                    switched_again(b, k, true);
                    lemma_store(img.bytes, n, d);
                    lemma_rewritten(img.bytes, n, d, b);
                },
                None => lemma_claim_undone(img, start, blocks, (bi + 1) as u32),
            }
        }
    }
}

/// Clearing the bit that was just claimed gives back the image as it was, and the next claim
/// returns the same bit again.
pub proof fn clearing_undoes_claiming(img: Image, start: u32, blocks: u32)
    ensures
        claim_from(img, start, blocks, 0).1 matches Ok(v) ==> v <= u32::MAX ==> {
            let cleared = switch_bit(
                claim_from(img, start, blocks, 0).0,
                start,
                v as u32,
                false,
            );
            &&& cleared.1 is Ok
            &&& cleared.0.bytes == img.bytes
            &&& claim_from(cleared.0, start, blocks, 0).1 == Ok::<u64, Failure>(v)
        },
{
    lemma_claim_undone(img, start, blocks, 0);
    if let Ok(v) = claim_from(img, start, blocks, 0).1 {
        if v <= u32::MAX {
            let cleared = switch_bit(
                claim_from(img, start, blocks, 0).0,
                start,
                v as u32,
                false,
            ).0;
            lemma_claim_by_bytes(img, cleared, start, blocks, 0);
        }
    }
}

/// Claims the first clear bit of a bitmap of `blocks` blocks that begins at block `start`.
pub fn alloc_from_bitmap(disk: &mut Disk, start: u32, blocks: u32) -> (r: Result<u64, FsError>)
    requires
        old(disk).wf(),
    ensures
        final(disk).wf(),
        final(disk)@ == claim_from(old(disk)@, start, blocks, 0).0,
        agrees(r, claim_from(old(disk)@, start, blocks, 0).1),
{
    let mut bi: u32 = 0;
    while bi < blocks
        invariant
            bi <= blocks,
            disk.wf(),
            disk@ == old(disk)@,
            claim_from(old(disk)@, start, blocks, 0) == claim_from(old(disk)@, start, blocks, bi),
        decreases blocks - bi,
    {
        let n: u32 = match start.checked_add(bi) {
            Some(n) => n,
            None => {
                return Err(FsError::Fault);
            },
        };
        let mut blk = disk.read_block(n)?;
        let ghost b = blk@;
        let mut i: usize = 0;
        while i < BLOCK_SIZE
            invariant
                i <= BLOCK_SIZE,
                blk@ == b,
                b.len() == BLOCK_SIZE,
                bi < blocks,
                n == start + bi,
                disk.wf(),
                disk@ == old(disk)@,
                load(disk@.bytes, n) == Ok::<Seq<u8>, Failure>(b),
                claim_from(old(disk)@, start, blocks, 0) == claim_from(
                    old(disk)@,
                    start,
                    blocks,
                    bi,
                ),
                forall|j: int| 0 <= j < 8 * i ==> bit_set(b, j),
            decreases BLOCK_SIZE - i,
        {
            let byte: u8 = blk[i];
            if byte != 0xFF {
                let mut bit: u8 = 0;
                while bit < 8
                    invariant
                        bit <= 8,
                        i < BLOCK_SIZE,
                        blk@ == b,
                        byte == b[i as int],
                        b.len() == BLOCK_SIZE,
                        bi < blocks,
                        n == start + bi,
                        disk.wf(),
                        disk@ == old(disk)@,
                        load(disk@.bytes, n) == Ok::<Seq<u8>, Failure>(b),
                        claim_from(old(disk)@, start, blocks, 0) == claim_from(
                            old(disk)@,
                            start,
                            blocks,
                            bi,
                        ),
                        forall|j: int| 0 <= j < 8 * i + bit ==> bit_set(b, j),
                    decreases 8 - bit,
                {
                    if (byte >> bit) & 1 == 0 {
                        let ghost k = 8 * i + bit;
                        proof {
                            assert(k / 8 == i && k % 8 == bit);
                            assert(!bit_set(b, k));
                            lemma_skip_set(b, 0, k);
                            assert(first_clear(b, 0) == Some(k));
                        }
                        blk[i] = byte | (1u8 << bit);
                        assert(blk@ == with_bit(b, k, true));
                        disk.write_block(n, blk.as_slice());
                        let found: u64 = (bi as u64 * 4096 + i as u64) * 8
                            + bit as u64;
                        return Ok(found);
                    }
                    assert((byte >> bit) & 1 == 0 || (byte >> bit) & 1 == 1) by (bit_vector);
                    assert forall|j: int| 0 <= j < 8 * i + bit + 1 implies bit_set(b, j) by {
                        if j == 8 * i + bit {
                            assert(j / 8 == i && j % 8 == bit);
                        }
                    }
                    bit = bit + 1;
                }
            } else {
                assert forall|j: int| 0 <= j < 8 * (i + 1) implies bit_set(b, j) by {
                    if j >= 8 * i {
                        let k = (j % 8) as u8;
                        assert((0xFFu8 >> k) & 1u8 == 1u8) by (bit_vector)
                            requires
                                k < 8,
                        ;
                    }
                }
            }
            i = i + 1;
        }
        proof {
            first_clear_is_lowest(b, 0);
        }
        bi = bi + 1;
    }
    Err(FsError::NoSpace)
}

/// Claims an inode number.
pub fn alloc_inode(disk: &mut Disk, sb: &Superblock) -> (r: Result<u32, FsError>)
    requires
        old(disk).wf(),
    ensures
        final(disk).wf(),
        final(disk)@ == claim_inode(old(disk)@, *sb).0,
        agrees(r, claim_inode(old(disk)@, *sb).1),
{
    let v: u64 = alloc_from_bitmap(disk, sb.inode_bitmap_start, sb.inode_bitmap_blocks)?;
    Ok((v % 0x1_0000_0000) as u32)
}

/// Claims a data block.
pub fn alloc_data_block(disk: &mut Disk, sb: &Superblock) -> (r: Result<u32, FsError>)
    requires
        old(disk).wf(),
    ensures
        final(disk).wf(),
        final(disk)@ == claim_block(old(disk)@, *sb).0,
        agrees(r, claim_block(old(disk)@, *sb).1),
{
    let v: u64 = alloc_from_bitmap(disk, sb.block_bitmap_start, sb.block_bitmap_blocks)?;
    let index: u32 = (v % 0x1_0000_0000) as u32;
    match sb.data_start.checked_add(index) {
        Some(n) => Ok(n),
        None => Err(FsError::Fault),
    }
}

/// Switches bit `index` of the bitmap that begins at block `start_block`.
pub fn set_bitmap_bit(disk: &mut Disk, start_block: u32, index: u32, on: bool) -> (r: Result<
    (),
    FsError,
>)
    requires
        old(disk).wf(),
    ensures
        final(disk).wf(),
        final(disk)@ == switch_bit(old(disk)@, start_block, index, on).0,
        agrees(r, switch_bit(old(disk)@, start_block, index, on).1),
{
    let byte: usize = index as usize / 8;
    let bit: u8 = (index % 8) as u8;
    let blk_no: u32 = match start_block.checked_add((byte / 4096) as u32) {
        Some(n) => n,
        None => {
            return Err(FsError::Fault);
        },
    };
    let off: usize = byte % 4096;
    let mut blk = disk.read_block(blk_no)?;
    let mask: u8 = 1u8 << bit;
    if on {
        blk[off] = blk[off] | mask;
    } else {
        blk[off] = blk[off] & !mask;
    }
    disk.write_block(blk_no, blk.as_slice());
    Ok(())
}

} // verus!
