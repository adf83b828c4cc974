//! When an image is sound: the regions lie where a new image has them, blocks in use are
//! marked and have one owner, and directories can be read and name existing inodes.

use crate::bitmap::bit_set;
use crate::directory::record;
use crate::dirent::DirentView;
use crate::disk::{block, readable};
use crate::error::Failure;
use crate::inode::{find_inode, inode_block, inode_in, InodeType, InodeView};
use crate::journal::tidy;
use crate::superblock::{fresh_superblock, superblock_of, Superblock};
use vstd::prelude::*;

verus! {

/// Whether the regions lie where a new image of that many blocks has them.
pub open spec fn standard(sb: Superblock) -> bool {
    &&& sb == Superblock {
        clean: sb.clean,
        sequence: sb.sequence,
        ..fresh_superblock(sb.total_blocks)
    }
    &&& sb.data_start < sb.total_blocks
}

/// The number of bits in the block bitmap.
pub open spec fn data_bits(sb: Superblock) -> int {
    32768 * sb.block_bitmap_blocks
}

/// Whether every bit of the block bitmap stands for a block that has a number.
pub open spec fn addressable(sb: Superblock) -> bool {
    sb.data_start + data_bits(sb) <= 0x1_0000_0000
}

/// Whether all data blocks that have a number are in use.
pub open spec fn no_block_left(b: Seq<u8>, sb: Superblock) -> bool {
    forall|i: int|
        0 <= i < data_bits(sb) && sb.data_start + i <= u32::MAX ==> #[trigger] block_marked(
            b,
            sb,
            i,
        )
}

/// Whether the blocks before the data blocks are all present.
pub open spec fn framed(b: Seq<u8>, sb: Superblock) -> bool {
    &&& standard(sb)
    &&& readable(b, sb.data_start - 1)
}

/// The inode table.
pub open spec fn table(b: Seq<u8>, sb: Superblock) -> Seq<InodeView> {
    Seq::new(1024, |id: int| slot(b, sb, id))
}

/// The inode in slot `id` of the inode table.
pub open spec fn slot(b: Seq<u8>, sb: Superblock, id: int) -> InodeView {
    inode_in(block(b, sb.inode_table_start + id / 32), id as u32)
}

/// Whether inode `id` is marked as in use.
pub open spec fn inode_marked(b: Seq<u8>, sb: Superblock, id: int) -> bool {
    bit_set(block(b, sb.inode_bitmap_start as int), id)
}

/// Whether the data block that goes with bit `i` is marked as in use.
pub open spec fn block_marked(b: Seq<u8>, sb: Superblock, i: int) -> bool {
    bit_set(block(b, sb.block_bitmap_start + i / 32768), i % 32768)
}

/// Whether `n` is a data block that is present and marked as in use.
pub open spec fn held(b: Seq<u8>, sb: Superblock, n: u32) -> bool {
    &&& sb.data_start <= n < sb.data_start + data_bits(sb)
    &&& block_marked(b, sb, n - sb.data_start)
    &&& readable(b, n as int)
}

/// Whether the data block that goes with bit `k` is marked as in use and none of `direct`
/// points to it.
pub open spec fn marked_outside(b: Seq<u8>, sb: Superblock, direct: Seq<u32>, k: int) -> bool {
    &&& block_marked(b, sb, k)
    &&& forall|j: int| 0 <= j < direct.len() ==> #[trigger] direct[j] != sb.data_start + k
}

/// Whether all pointers that point anywhere point to data blocks.
pub open spec fn data_pointers(sb: Superblock, direct: Seq<u32>) -> bool {
    &&& direct.len() == 12
    &&& forall|j: int|
        0 <= j < 12 ==> #[trigger] direct[j] == 0 || sb.data_start <= direct[j] < sb.data_start
            + data_bits(sb)
}

/// Pointer `j` of inode `id`.
pub open spec fn pointer(t: Seq<InodeView>, id: int, j: int) -> u32 {
    t[id].direct[j]
}

/// Whether the inode table has 1024 slots with twelve pointers each.
pub open spec fn shaped(t: Seq<InodeView>) -> bool {
    &&& t.len() == 1024
    &&& forall|id: int| 0 <= id < 1024 ==> (#[trigger] t[id]).direct.len() == 12
}

/// Whether every pointer leads to a block in use.
pub open spec fn pointers_held(b: Seq<u8>, sb: Superblock, t: Seq<InodeView>) -> bool {
    forall|id: int, j: int|
        0 <= id < 1024 && 0 <= j < 12 && #[trigger] pointer(t, id, j) != 0 ==> held(
            b,
            sb,
            pointer(t, id, j),
        )
}

/// Whether no block has two owners.
pub open spec fn single_owner(t: Seq<InodeView>) -> bool {
    forall|id: int, j: int, id2: int, j2: int|
        0 <= id < 1024 && 0 <= j < 12 && 0 <= id2 < 1024 && 0 <= j2 < 12 && (id != id2 || j
            != j2) && #[trigger] pointer(t, id, j) != 0 ==> pointer(t, id, j) != #[trigger] pointer(
            t,
            id2,
            j2,
        )
}

/// Whether every inode that is not free knows its number and is marked as in use.
pub open spec fn inodes_marked(b: Seq<u8>, sb: Superblock, t: Seq<InodeView>) -> bool {
    forall|id: int|
        0 <= id < 1024 && (#[trigger] t[id]).kind != InodeType::Free ==> t[id].id == id
            && inode_marked(b, sb, id)
}

/// Whether `id` is the number of a slot that knows it.
pub open spec fn numbered(t: Seq<InodeView>, id: u32) -> bool {
    id < 1024 && t[id as int].id == id
}

/// Whether a directory record can be read and, where it counts, names a slot that exists.
pub open spec fn record_fits(t: Seq<InodeView>, r: Result<DirentView, Failure>) -> bool {
    r matches Ok(d) && (d.active == 1 ==> numbered(t, d.inode_id))
}

/// Whether a directory keeps its records in one block and all of them can be used.
pub open spec fn dir_fits(b: Seq<u8>, t: Seq<InodeView>, dir: InodeView) -> bool {
    &&& dir.direct[0] != 0
    &&& forall|j: int| 1 <= j < 12 ==> dir.direct[j] == 0
    &&& dir.size % 264 == 0
    &&& dir.size <= 15 * 264
    &&& forall|k: int|
        0 <= k < dir.size as int / 264 ==> record_fits(
            t,
            #[trigger] record(block(b, dir.direct[0] as int), k),
        )
}

/// Whether all directories can be used.
pub open spec fn dirs_fit(b: Seq<u8>, t: Seq<InodeView>) -> bool {
    forall|id: int|
        0 <= id < 1024 && (#[trigger] t[id]).kind == InodeType::Dir ==> dir_fits(b, t, t[id])
}

/// Whether the inodes `t` go together with the bitmaps and the data blocks of an image.
pub open spec fn consistent(b: Seq<u8>, sb: Superblock, t: Seq<InodeView>) -> bool {
    &&& shaped(t)
    &&& pointers_held(b, sb, t)
    &&& single_owner(t)
    &&& inodes_marked(b, sb, t)
    &&& dirs_fit(b, t)
    &&& t[0].id == 0
}

/// Whether everything but the superblock of an image is in order.
pub open spec fn intact(b: Seq<u8>, sb: Superblock) -> bool {
    &&& framed(b, sb)
    &&& tidy(block(b, 1))
    &&& consistent(b, sb, table(b, sb))
}

/// Whether an image with superblock `sb` is sound.
pub open spec fn sound(b: Seq<u8>, sb: Superblock) -> bool {
    &&& intact(b, sb)
    &&& superblock_of(b) == Ok::<Superblock, Failure>(sb)
}

/// Whether inode `id` and its data blocks are the same in two images.
pub open spec fn node_kept(b: Seq<u8>, c: Seq<u8>, sb: Superblock, id: int) -> bool {
    &&& table(c, sb)[id] == table(b, sb)[id]
    &&& forall|j: int|
        0 <= j < 12 && #[trigger] pointer(table(b, sb), id, j) != 0 ==> block(
            c,
            pointer(table(b, sb), id, j) as int,
        ) == block(b, pointer(table(b, sb), id, j) as int)
}

/// Whether two images are the same but for block `n`.
pub open spec fn only_block(b: Seq<u8>, c: Seq<u8>, n: int) -> bool {
    &&& forall|m: int| #[trigger] readable(b, m) ==> readable(c, m)
    &&& forall|m: int| readable(b, m) && m != n ==> #[trigger] block(c, m) == block(b, m)
}

/// Where the regions lie.
pub proof fn lemma_standard(sb: Superblock)
    requires
        standard(sb),
    ensures
        sb.journal_start == 1,
        sb.inode_bitmap_start == 65,
        sb.inode_bitmap_blocks == 1,
        sb.block_bitmap_start == 66,
        1 <= sb.block_bitmap_blocks <= 131072,
        sb.inode_table_start == 66 + sb.block_bitmap_blocks,
        sb.data_start == 98 + sb.block_bitmap_blocks,
        data_bits(sb) == 32768 * sb.block_bitmap_blocks,
        sb.total_blocks <= data_bits(sb),
{
}

/// The blocks before the data blocks are all present.
pub proof fn lemma_framed(b: Seq<u8>, sb: Superblock, n: int)
    requires
        framed(b, sb),
        0 <= n < sb.data_start,
    ensures
        readable(b, n),
{
}

/// Changing one block leaves the regions that it does not lie in as they were.
pub proof fn lemma_only(b: Seq<u8>, c: Seq<u8>, sb: Superblock, n: int)
    requires
        framed(b, sb),
        only_block(b, c, n),
    ensures
        framed(c, sb),
        n < sb.inode_table_start || n >= sb.data_start ==> table(c, sb) == table(b, sb),
        n != 65 ==> forall|i: int| #[trigger] inode_marked(c, sb, i) == inode_marked(b, sb, i),
        n < 66 || n >= sb.inode_table_start ==> forall|i: int|
            0 <= i < data_bits(sb) ==> #[trigger] block_marked(c, sb, i) == block_marked(b, sb, i),
        n != 1 ==> block(c, 1) == block(b, 1),
        n != 0 ==> superblock_of(c) == superblock_of(b),
{
    lemma_standard(sb);
    lemma_framed(b, sb, 0);
    lemma_framed(b, sb, 1);
    lemma_framed(b, sb, 65);
    if n < sb.inode_table_start || n >= sb.data_start {
        assert forall|id: int| 0 <= id < 1024 implies slot(c, sb, id) == slot(b, sb, id) by {
            lemma_framed(b, sb, sb.inode_table_start + id / 32);
        }
        assert(table(c, sb) =~= table(b, sb));
    }
    if n < 66 || n >= sb.inode_table_start {
        assert forall|i: int| 0 <= i < data_bits(sb) implies #[trigger] block_marked(c, sb, i)
            == block_marked(b, sb, i) by {
            lemma_framed(b, sb, 66 + i / 32768);
        }
    }
}

/// Inodes stay consistent with an image as long as what they refer to stays.
pub proof fn lemma_keeps_consistent(
    b: Seq<u8>,
    c: Seq<u8>,
    sb: Superblock,
    t: Seq<InodeView>,
)
    requires
        consistent(b, sb, t),
        pointers_held(c, sb, t),
        inodes_marked(c, sb, t),
        forall|id: int|
            0 <= id < 1024 && (#[trigger] t[id]).kind == InodeType::Dir ==> block(
                c,
                t[id].direct[0] as int,
            ) == block(b, t[id].direct[0] as int),
    ensures
        consistent(c, sb, t),
{
    assert forall|id: int|
        0 <= id < 1024 && (#[trigger] t[id]).kind == InodeType::Dir implies dir_fits(
        c,
        t,
        t[id],
    ) by {
        assert(dir_fits(b, t, t[id]));
    }
}

/// Whether the pointers of `v` lead to blocks in use, each to another one, and to none that a
/// slot other than `id` owns.
pub open spec fn owns_alone(
    b: Seq<u8>,
    sb: Superblock,
    t: Seq<InodeView>,
    id: int,
    v: InodeView,
) -> bool {
    &&& v.direct.len() == 12
    &&& forall|j: int| 0 <= j < 12 && #[trigger] v.direct[j] != 0 ==> held(b, sb, v.direct[j])
    &&& forall|j: int, k: int|
        0 <= j < 12 && 0 <= k < 12 && j != k && #[trigger] v.direct[j] != 0 ==> v.direct[j]
            != #[trigger] v.direct[k]
    &&& forall|j: int, id2: int, k: int|
        0 <= j < 12 && 0 <= id2 < 1024 && 0 <= k < 12 && id2 != id && #[trigger] v.direct[j] != 0
            ==> v.direct[j] != #[trigger] pointer(t, id2, k)
}

/// Consistent inodes stay consistent when a slot is given another inode that fits in.
pub proof fn lemma_replace_slot(
    b: Seq<u8>,
    sb: Superblock,
    t: Seq<InodeView>,
    id: int,
    v: InodeView,
)
    requires
        consistent(b, sb, t),
        0 <= id < 1024,
        v.id == id,
        owns_alone(b, sb, t, id, v),
        v.kind != InodeType::Free ==> inode_marked(b, sb, id),
        v.kind == InodeType::Dir ==> dir_fits(b, t, v) || dir_fits(b, t.update(id, v), v),
    ensures
        consistent(b, sb, t.update(id, v)),
{
    let u = t.update(id, v);
    assert forall|i: int, j: int| 0 <= i < 1024 implies #[trigger] pointer(u, i, j) == (if i == id {
        v.direct[j]
    } else {
        pointer(t, i, j)
    }) by {}
    assert(pointers_held(b, sb, u));
    assert(single_owner(u)) by {
        assert forall|i: int, j: int, i2: int, j2: int|
            0 <= i < 1024 && 0 <= j < 12 && 0 <= i2 < 1024 && 0 <= j2 < 12 && (i != i2 || j != j2)
                && #[trigger] pointer(u, i, j) != 0 implies pointer(u, i, j) != #[trigger] pointer(
            u,
            i2,
            j2,
        ) by {
            if i == id && i2 == id {
                assert(v.direct[j] != v.direct[j2]);
            } else if i == id {
                assert(v.direct[j] != pointer(t, i2, j2));
            } else if i2 == id {
                if v.direct[j2] != 0 {
                    assert(v.direct[j2] != pointer(t, i, j));
                }
            } else {
                assert(pointer(t, i, j) != pointer(t, i2, j2));
            }
        }
    }
    assert forall|k: u32| numbered(t, k) implies #[trigger] numbered(u, k) by {}
    assert forall|r: Result<DirentView, Failure>| record_fits(t, r) implies #[trigger] record_fits(
        u,
        r,
    ) by {}
    assert forall|i: int| 0 <= i < 1024 && (#[trigger] u[i]).kind == InodeType::Dir implies dir_fits(
        b,
        u,
        u[i],
    ) by {
        if i != id {
            assert(t[i].kind == InodeType::Dir);
            assert(dir_fits(b, t, t[i]));
        }
    }
}

/// Every slot of the inode table of a framed image can be read.
pub proof fn lemma_find_inode(b: Seq<u8>, sb: Superblock, id: u32)
    requires
        framed(b, sb),
        id < 1024,
    ensures
        find_inode(b, sb, id) == Ok::<InodeView, Failure>(table(b, sb)[id as int]),
        table(b, sb)[id as int].direct.len() == 12,
{
    lemma_standard(sb);
    lemma_framed(b, sb, inode_block(sb, id));
}

/// The pointers of an inode that is consistent with an image point to data blocks.
pub proof fn lemma_data_pointers(b: Seq<u8>, sb: Superblock, t: Seq<InodeView>, id: int)
    requires
        consistent(b, sb, t),
        0 <= id < 1024,
    ensures
        data_pointers(sb, t[id].direct),
{
    assert forall|j: int| 0 <= j < 12 implies #[trigger] t[id].direct[j] == 0 || sb.data_start
        <= t[id].direct[j] < sb.data_start + data_bits(sb) by {
        assert(pointer(t, id, j) == t[id].direct[j]);
        if t[id].direct[j] != 0 {
            assert(held(b, sb, t[id].direct[j]));
        }
    }
}

} // verus!
