//! What a new image holds.

use crate::bitmap::{bit_set, claim_block, switch_bit};
use crate::bytes::{lemma_zero_word, zeros};
use crate::contents::lemma_same_metadata;
use crate::directory::record;
use crate::disk::{block, readable};
use crate::entries::entries;
use crate::error::Failure;
use crate::inode::{inode_in, inode_pos, no_blocks, InodeView};
use crate::journal::empty_journal;
use crate::node::{blank, first_records, free_slot, new_dir, new_image};
use crate::sound::{
    block_marked, consistent, data_bits, dir_fits, held, inode_marked, intact, lemma_only,
    lemma_replace_slot, lemma_standard, no_block_left, numbered, owns_alone, pointer, record_fits,
    slot, sound, standard, table,
};
use crate::steps::{
    lemma_claim_block, lemma_claim_block_consistent, lemma_inode_bits_consistent,
    lemma_switch_inode, lemma_write, lemma_write_consistent,
};
use crate::superblock::{
    fresh_superblock, superblock_bytes, superblock_round_trip, with_superblock, Superblock,
};
use crate::tree::{lemma_first_records, lemma_put_intact, parent_entry, self_entry};
use vstd::prelude::*;

verus! {

/// The inode table of a new image: the root directory and free slots.
pub open spec fn fresh_table(sb: Superblock) -> Seq<InodeView> {
    Seq::new(1024, |i: int| free_slot(0)).update(0, new_dir(0, sb.data_start))
}

/// No bit is set in a block of zeros.
proof fn lemma_zero_bit(i: int)
    requires
        0 <= i < 32768,
    ensures
        !bit_set(zeros(4096), i),
{
    let k = (i % 8) as u8;
    assert((0u8 >> k) & 1u8 == 0u8) by (bit_vector);
}

/// A record of zeros is a free slot.
proof fn lemma_zero_inode(id: u32)
    ensures
        inode_in(zeros(4096), id) == free_slot(0),
{
    let raw = zeros(4096).subrange(inode_pos(id), inode_pos(id) + 128);
    lemma_zero_word(raw, 0);
    lemma_zero_word(raw, 8);
    let direct = inode_in(zeros(4096), id).direct;
    assert forall|k: int| 0 <= k < 12 implies #[trigger] direct[k] == 0 by {
        lemma_zero_word(raw, 16 + 4 * k);
    }
    assert(direct =~= no_blocks());
}

/// An image of zeros is intact, holds nothing and has nothing marked.
proof fn lemma_blank(total_blocks: u32)
    requires
        fresh_superblock(total_blocks).data_start < total_blocks,
    ensures
        ({
            let sb = fresh_superblock(total_blocks);
            let b = blank(total_blocks).bytes;
            &&& intact(b, sb)
            &&& table(b, sb) == Seq::new(1024, |i: int| free_slot(0))
            &&& block(b, 1) == zeros(4096)
            &&& forall|i: int| 0 <= i < 32768 ==> !#[trigger] inode_marked(b, sb, i)
            &&& forall|i: int| 0 <= i < data_bits(sb) ==> !#[trigger] block_marked(b, sb, i)
            &&& forall|n: int| 0 <= n < total_blocks ==> readable(b, n)
        }),
{
    let sb = fresh_superblock(total_blocks);
    let b = blank(total_blocks).bytes;
    let t = Seq::new(1024, |i: int| free_slot(0));
    assert(standard(sb));
    lemma_standard(sb);
    assert forall|n: int| 0 <= n < total_blocks implies readable(b, n) && #[trigger] block(b, n)
        == zeros(4096) by {
        reveal(block);
        assert(block(b, n) =~= zeros(4096));
    }
    assert forall|id: int| 0 <= id < 1024 implies slot(b, sb, id) == free_slot(0) by {
        lemma_zero_inode(id as u32);
        assert(block(b, sb.inode_table_start + id / 32) == zeros(4096));
    }
    assert(table(b, sb) =~= t);
    assert forall|i: int| 0 <= i < 32768 implies !#[trigger] inode_marked(b, sb, i) by {
        lemma_zero_bit(i);
    }
    assert forall|i: int| 0 <= i < data_bits(sb) implies !#[trigger] block_marked(b, sb, i) by {
        lemma_zero_bit(i % 32768);
        assert(block(b, 66 + i / 32768) == zeros(4096));
    }
    empty_journal();
    assert(block(b, 1) == zeros(4096));
    assert(readable(b, sb.data_start - 1));
    assert forall|id: int, j: int| 0 <= id < 1024 && 0 <= j < 12 implies #[trigger] pointer(t, id, j)
        == 0 by {}
    assert(consistent(b, sb, t));
}

/// A new image is sound; it holds an empty root directory and nothing else.
pub proof fn lemma_new_image(total_blocks: u32)
    requires
        fresh_superblock(total_blocks).data_start < total_blocks,
    ensures
        ({
            let sb = fresh_superblock(total_blocks);
            let (img, r) = new_image(total_blocks);
            &&& r == Ok::<(), Failure>(())
            &&& sound(img.bytes, sb)
            &&& table(img.bytes, sb) == fresh_table(sb)
            &&& entries(img.bytes, fresh_table(sb)[0]) == seq![self_entry(0), parent_entry(0)]
            &&& block(img.bytes, 1) == zeros(4096)
            &&& forall|i: int|
                0 <= i < 32768 ==> #[trigger] inode_marked(img.bytes, sb, i) == (i == 0)
            &&& forall|i: int|
                0 <= i < data_bits(sb) ==> #[trigger] block_marked(img.bytes, sb, i) == (i == 0)
        }),
{
    let sb = fresh_superblock(total_blocks);
    let img = blank(total_blocks);
    let b = img.bytes;
    let t = table(b, sb);
    lemma_blank(total_blocks);
    assert(standard(sb));
    lemma_standard(sb);
    let named = with_superblock(img, sb);
    let b1 = named.bytes;
    lemma_write(img, 0, superblock_bytes(sb));
    superblock_round_trip(sb);
    lemma_only(b, b1, sb, 0);
    lemma_write_consistent(b, b1, sb, 0, t);
    lemma_switch_inode(named, sb, 0, true);
    let reserved = switch_bit(named, sb.inode_bitmap_start, 0, true).0;
    let b2 = reserved.bytes;
    lemma_only(b1, b2, sb, 65);
    lemma_inode_bits_consistent(b1, b2, sb, t);
    assert(!block_marked(b2, sb, 0));
    lemma_claim_block(reserved, sb);
    lemma_claim_block_consistent(reserved, sb, t);
    let (claimed, r) = claim_block(reserved, sb);
    assert(!no_block_left(b2, sb));
    let n = r->Ok_0;
    assert(n == sb.data_start);
    let b3 = claimed.bytes;
    lemma_same_metadata(b2, b3, sb, 66 + (n - sb.data_start) / 32768);
    let rooted = claimed.write(n, first_records(0, 0));
    let b4 = rooted.bytes;
    lemma_write(claimed, n, first_records(0, 0));
    lemma_same_metadata(b3, b4, sb, n as int);
    lemma_only(b3, b4, sb, n as int);
    lemma_write_consistent(b3, b4, sb, n as int, t);
    assert(held(b4, sb, n));
    let node = new_dir(0, n);
    let w = t.update(0, node);
    lemma_first_records(0, 0);
    assert(owns_alone(b4, sb, t, 0, node)) by {
        assert forall|j: int| 0 <= j < 12 implies #[trigger] node.direct[j] == (if j == 0 {
            n
        } else {
            0
        }) by {}
        assert forall|id: int, j: int| 0 <= id < 1024 && 0 <= j < 12 implies #[trigger] pointer(
            t,
            id,
            j,
        ) == 0 by {}
    }
    assert(dir_fits(b4, w, node)) by {
        let blk = block(b4, n as int);
        assert(numbered(w, 0));
        assert forall|k: int| 0 <= k < 2 implies record_fits(w, #[trigger] record(blk, k)) by {
            assert(k == 0 || k == 1);
        }
    }
    lemma_replace_slot(b4, sb, t, 0, node);
    lemma_put_intact(rooted, sb, node);
    assert(fresh_table(sb) =~= w);
}

} // verus!
