//! What the elementary steps of a change do to a framed image: writing a block, adding a
//! journal marker, claiming and releasing bits, writing an inode.

use crate::bitmap::{
    bit_set, claim_block, claim_from, claim_inode, first_clear, first_clear_is_lowest, switch_bit,
    switched_bit, with_bit,
};
use crate::bytes::splice;
use crate::disk::{block, lemma_block_len, lemma_store, padded, readable, Image};
use crate::error::Failure;
use crate::file::release_block;
use crate::inode::{
    inode_block, inode_bytes, inode_pos, inode_round_trip, put_inode, InodeType, InodeView,
};
use crate::journal::{mark, marker_added, tidy, with_marker};
use crate::sound::{
    addressable, block_marked, consistent, data_bits, framed, held, inode_marked, lemma_framed,
    lemma_keeps_consistent, lemma_only, lemma_standard, no_block_left, only_block, pointer, slot,
    table,
};
use crate::superblock::Superblock;
use vstd::prelude::*;

verus! {

/// Writing a block changes that block only.
pub proof fn lemma_write(img: Image, n: u32, data: Seq<u8>)
    ensures
        only_block(img.bytes, img.write(n, data).bytes, n as int),
        readable(img.write(n, data).bytes, n as int),
        block(img.write(n, data).bytes, n as int) == padded(data),
        data.len() == 4096 ==> padded(data) == data,
{
    lemma_store(img.bytes, n, padded(data));
    if data.len() == 4096 {
        assert(padded(data) =~= data);
    }
}

/// A marker can always be added to the journal, and only the journal block changes.
pub proof fn lemma_mark(img: Image, sb: Superblock, marker: Seq<u8>)
    requires
        framed(img.bytes, sb),
        tidy(block(img.bytes, 1)),
        0 < marker.len() <= 4092,
    ensures
        mark(img, sb, marker).1 == Ok::<(), Failure>(()),
        mark(img, sb, marker).0 == img.write(1, with_marker(block(img.bytes, 1), marker)),
        only_block(img.bytes, mark(img, sb, marker).0.bytes, 1),
        block(mark(img, sb, marker).0.bytes, 1) == with_marker(block(img.bytes, 1), marker),
        tidy(block(mark(img, sb, marker).0.bytes, 1)),
{
    lemma_standard(sb);
    lemma_framed(img.bytes, sb, 1);
    lemma_block_len(img.bytes, 1);
    let b = block(img.bytes, 1);
    marker_added(b, marker);
    lemma_write(img, 1, with_marker(b, marker));
    assert(with_marker(b, marker).len() == 4096);
}

/// Claiming gives the lowest clear bit of the bitmap from block `bi` on, sets it and changes
/// nothing else; it fails only where there is none.
pub proof fn first_free_bit_wins(img: Image, start: u32, blocks: u32, bi: u32)
    requires
        bi <= blocks,
        start + blocks <= 0x1_0000_0000,
        forall|n: int| start <= n < start + blocks ==> readable(img.bytes, n),
    ensures
        match claim_from(img, start, blocks, bi).1 {
            Ok(v) => {
                let q = v as int / 32768;
                &&& bi <= q < blocks
                &&& !bit_set(block(img.bytes, start + q), v as int % 32768)
                &&& claim_from(img, start, blocks, bi).0 == img.write(
                    (start + q) as u32,
                    with_bit(block(img.bytes, start + q), v as int % 32768, true),
                )
                &&& forall|j: int|
                    32768 * bi <= j < v ==> #[trigger] bit_set(
                        block(img.bytes, start + j / 32768),
                        j % 32768,
                    )
            },
            Err(e) => {
                &&& e == Failure::NoSpace
                &&& claim_from(img, start, blocks, bi).0 == img
                &&& forall|j: int|
                    32768 * bi <= j < 32768 * blocks ==> #[trigger] bit_set(
                        block(img.bytes, start + j / 32768),
                        j % 32768,
                    )
            },
        },
    decreases blocks - bi,
{
    if bi < blocks {
        let n = start + bi;
        assert(readable(img.bytes, n));
        lemma_block_len(img.bytes, n);
        let b = block(img.bytes, n);
        first_clear_is_lowest(b, 0);
        match first_clear(b, 0) {
            Some(k) => {
                assert((bi * 32768 + k) / 32768 == bi);
                assert((bi * 32768 + k) % 32768 == k);
                assert forall|j: int| 32768 * bi <= j < bi * 32768 + k implies
                    #[trigger] bit_set(block(img.bytes, start + j / 32768), j % 32768)
                by {
                    assert(j / 32768 == bi && j % 32768 == j - 32768 * bi);
                }
            },
            None => {
                first_free_bit_wins(img, start, blocks, (bi + 1) as u32);
                assert forall|j: int| 32768 * bi <= j < 32768 * (bi + 1) implies
                    #[trigger] bit_set(block(img.bytes, start + j / 32768), j % 32768)
                by {
                    assert(j / 32768 == bi && j % 32768 == j - 32768 * bi);
                }
            },
        }
    }
}

/// Claiming an inode gives the lowest number that is not in use and marks it; it fails only
/// where all are in use.
pub proof fn lemma_claim_inode(img: Image, sb: Superblock)
    requires
        framed(img.bytes, sb),
    ensures
        only_block(img.bytes, claim_inode(img, sb).0.bytes, 65),
        match claim_inode(img, sb).1 {
            Ok(id) => {
                &&& id < 32768
                &&& !inode_marked(img.bytes, sb, id as int)
                &&& forall|i: int| 0 <= i < id ==> #[trigger] inode_marked(img.bytes, sb, i)
                &&& forall|i: int|
                    0 <= i < 32768 ==> #[trigger] inode_marked(claim_inode(img, sb).0.bytes, sb, i)
                        == (i == id || inode_marked(img.bytes, sb, i))
            },
            Err(e) => {
                &&& e == Failure::NoSpace
                &&& claim_inode(img, sb).0 == img
                &&& forall|i: int| 0 <= i < 32768 ==> #[trigger] inode_marked(img.bytes, sb, i)
            },
        },
{
    lemma_standard(sb);
    first_free_bit_wins(img, 65, 1, 0);
    lemma_framed(img.bytes, sb, 65);
    lemma_block_len(img.bytes, 65);
    let b = block(img.bytes, 65);
    match claim_from(img, 65, 1, 0).1 {
        Ok(v) => {
            assert(v as int / 32768 == 0);
            assert(v as int % 32768 == v);
            let c = with_bit(b, v as int, true);
            lemma_write(img, 65, c);
            assert forall|i: int| 0 <= i < 32768 implies #[trigger] inode_marked(
                claim_inode(img, sb).0.bytes,
                sb,
                i,
            ) == (i == v || inode_marked(img.bytes, sb, i)) by {
                switched_bit(b, v as int, true, i);
            }
            assert forall|i: int| 0 <= i < v implies #[trigger] inode_marked(img.bytes, sb, i) by {
                assert(i / 32768 == 0 && i % 32768 == i);
                assert(bit_set(block(img.bytes, 65 + i / 32768), i % 32768));
            }
        },
        Err(_) => {
            assert forall|i: int| 0 <= i < 32768 implies #[trigger] inode_marked(
                img.bytes,
                sb,
                i,
            ) by {
                assert(i / 32768 == 0 && i % 32768 == i);
                assert(bit_set(block(img.bytes, 65 + i / 32768), i % 32768));
            }
        },
    }
}

/// Claiming a data block gives one that is not in use and marks it; it fails only where all
/// are in use that have a number.
pub proof fn lemma_claim_block(img: Image, sb: Superblock)
    requires
        framed(img.bytes, sb),
    ensures
        match claim_block(img, sb).1 {
            Ok(n) => {
                &&& sb.data_start <= n < sb.data_start + data_bits(sb)
                &&& !block_marked(img.bytes, sb, n - sb.data_start)
                &&& only_block(
                    img.bytes,
                    claim_block(img, sb).0.bytes,
                    66 + (n - sb.data_start) / 32768,
                )
                &&& forall|i: int|
                    0 <= i < data_bits(sb) ==> #[trigger] block_marked(
                        claim_block(img, sb).0.bytes,
                        sb,
                        i,
                    ) == (i == n - sb.data_start || block_marked(img.bytes, sb, i))
                &&& forall|i: int|
                    0 <= i < n - sb.data_start ==> #[trigger] block_marked(img.bytes, sb, i)
            },
            Err(e) => {
                &&& no_block_left(img.bytes, sb)
                &&& e == Failure::NoSpace && claim_block(img, sb).0 == img || e == Failure::Fault
                    && !addressable(sb)
                &&& exists|m: int|
                    66 <= m < sb.inode_table_start && #[trigger] only_block(
                        img.bytes,
                        claim_block(img, sb).0.bytes,
                        m,
                    )
                &&& forall|i: int|
                    0 <= i < data_bits(sb) && block_marked(img.bytes, sb, i)
                        ==> #[trigger] block_marked(claim_block(img, sb).0.bytes, sb, i)
            },
        },
        claim_block(img, sb).1 is Err <==> no_block_left(img.bytes, sb),
{
    lemma_standard(sb);
    let blocks = sb.block_bitmap_blocks;
    assert forall|n: int| 66 <= n < 66 + blocks implies readable(img.bytes, n) by {
        lemma_framed(img.bytes, sb, n);
    }
    first_free_bit_wins(img, 66, blocks, 0);
    match claim_from(img, 66, blocks, 0).1 {
        Ok(v) => {
            let q = v as int / 32768;
            let k = v as int % 32768;
            assert(v < data_bits(sb));
            assert(v % 0x1_0000_0000 == v);
            lemma_framed(img.bytes, sb, 66 + q);
            lemma_block_len(img.bytes, 66 + q);
            let b = block(img.bytes, 66 + q);
            lemma_write(img, (66 + q) as u32, with_bit(b, k, true));
            let c = claim_block(img, sb).0.bytes;
            assert forall|i: int| 0 <= i < data_bits(sb) implies #[trigger] block_marked(c, sb, i)
                == (i == v || block_marked(img.bytes, sb, i)) by {
                lemma_framed(img.bytes, sb, 66 + i / 32768);
                if i / 32768 == q {
                    switched_bit(b, k, true, i % 32768);
                }
            }
            assert(!block_marked(img.bytes, sb, v as int));
            assert(only_block(img.bytes, c, 66 + q));
        },
        Err(_) => {
            assert(only_block(img.bytes, img.bytes, 66));
        },
    }
}

/// A data block can always be given back, and only its bit changes.
pub proof fn lemma_release_block(img: Image, sb: Superblock, n: u32)
    requires
        framed(img.bytes, sb),
        sb.data_start <= n < sb.data_start + data_bits(sb),
    ensures
        release_block(img, sb, n).1 == Ok::<(), Failure>(()),
        only_block(
            img.bytes,
            release_block(img, sb, n).0.bytes,
            66 + (n - sb.data_start) / 32768,
        ),
        forall|i: int|
            0 <= i < data_bits(sb) ==> #[trigger] block_marked(
                release_block(img, sb, n).0.bytes,
                sb,
                i,
            ) == (i != n - sb.data_start && block_marked(img.bytes, sb, i)),
{
    lemma_standard(sb);
    let v = n - sb.data_start;
    let q = v / 32768;
    let k = v % 32768;
    lemma_framed(img.bytes, sb, 66 + q);
    lemma_block_len(img.bytes, 66 + q);
    let b = block(img.bytes, 66 + q);
    lemma_write(img, (66 + q) as u32, with_bit(b, k, false));
    let c = release_block(img, sb, n).0.bytes;
    assert forall|i: int| 0 <= i < data_bits(sb) implies #[trigger] block_marked(c, sb, i) == (i
        != v && block_marked(img.bytes, sb, i)) by {
        lemma_framed(img.bytes, sb, 66 + i / 32768);
        if i / 32768 == q {
            switched_bit(b, k, false, i % 32768);
        }
    }
}

/// The mark of an inode can always be switched, and only its bit changes.
pub proof fn lemma_switch_inode(img: Image, sb: Superblock, id: u32, on: bool)
    requires
        framed(img.bytes, sb),
        id < 32768,
    ensures
        switch_bit(img, sb.inode_bitmap_start, id, on).1 == Ok::<(), Failure>(()),
        only_block(img.bytes, switch_bit(img, sb.inode_bitmap_start, id, on).0.bytes, 65),
        forall|i: int|
            0 <= i < 32768 ==> #[trigger] inode_marked(
                switch_bit(img, sb.inode_bitmap_start, id, on).0.bytes,
                sb,
                i,
            ) == (if i == id {
                on
            } else {
                inode_marked(img.bytes, sb, i)
            }),
{
    lemma_standard(sb);
    lemma_framed(img.bytes, sb, 65);
    lemma_block_len(img.bytes, 65);
    assert(id as int / 32768 == 0 && id as int % 32768 == id);
    let b = block(img.bytes, 65);
    lemma_write(img, 65, with_bit(b, id as int, on));
    let c = switch_bit(img, sb.inode_bitmap_start, id, on).0.bytes;
    assert forall|i: int| 0 <= i < 32768 implies #[trigger] inode_marked(c, sb, i) == (if i == id {
        on
    } else {
        inode_marked(img.bytes, sb, i)
    }) by {
        switched_bit(b, id as int, on, i);
    }
}

/// An inode can always be written to its slot, and no other slot changes.
pub proof fn lemma_put_inode(img: Image, sb: Superblock, v: InodeView)
    requires
        framed(img.bytes, sb),
        v.id < 1024,
        v.direct.len() == 12,
    ensures
        put_inode(img, sb, v).1 == Ok::<(), Failure>(()),
        only_block(img.bytes, put_inode(img, sb, v).0.bytes, inode_block(sb, v.id)),
        sb.inode_table_start <= inode_block(sb, v.id) < sb.data_start,
        table(put_inode(img, sb, v).0.bytes, sb) == table(img.bytes, sb).update(v.id as int, v),
{
    lemma_standard(sb);
    let n = inode_block(sb, v.id);
    lemma_framed(img.bytes, sb, n);
    lemma_block_len(img.bytes, n);
    let b = block(img.bytes, n);
    let d = splice(b, inode_pos(v.id), inode_bytes(v));
    lemma_write(img, n as u32, d);
    let c = put_inode(img, sb, v).0.bytes;
    assert(block(c, n) == d);
    assert forall|id: int| 0 <= id < 1024 implies slot(c, sb, id) == (if id == v.id {
        v
    } else {
        slot(img.bytes, sb, id)
    }) by {
        lemma_framed(img.bytes, sb, sb.inode_table_start + id / 32);
        let pos = inode_pos(id as u32);
        if id == v.id {
            inode_round_trip(v);
            assert(d.subrange(pos, pos + 128) =~= inode_bytes(v));
        } else if id / 32 == v.id as int / 32 {
            assert(pos + 128 <= inode_pos(v.id) || inode_pos(v.id) + 128 <= pos);
            assert(d.subrange(pos, pos + 128) =~= b.subrange(pos, pos + 128));
        }
    }
    assert(table(c, sb) =~= table(img.bytes, sb).update(v.id as int, v));
}

/// Inodes stay consistent with an image in which a block was written that is neither part of
/// a bitmap nor holds the records of a directory.
pub proof fn lemma_write_consistent(
    b: Seq<u8>,
    c: Seq<u8>,
    sb: Superblock,
    n: int,
    t: Seq<InodeView>,
)
    requires
        framed(b, sb),
        consistent(b, sb, t),
        only_block(b, c, n),
        n < 65 || sb.inode_table_start <= n,
        forall|id: int|
            0 <= id < 1024 && (#[trigger] t[id]).kind == InodeType::Dir ==> t[id].direct[0] != n,
    ensures
        framed(c, sb),
        consistent(c, sb, t),
{
    lemma_standard(sb);
    lemma_only(b, c, sb, n);
    assert forall|id: int| 0 <= id < 1024 && (#[trigger] t[id]).kind == InodeType::Dir implies block(
        c,
        t[id].direct[0] as int,
    ) == block(b, t[id].direct[0] as int) by {
        assert(held(b, sb, pointer(t, id, 0)));
    }
    assert forall|id: int, j: int|
        0 <= id < 1024 && 0 <= j < 12 && #[trigger] pointer(t, id, j) != 0 implies held(
        c,
        sb,
        pointer(t, id, j),
    ) by {
        assert(held(b, sb, pointer(t, id, j)));
    }
    lemma_keeps_consistent(b, c, sb, t);
}

/// Inodes stay consistent with an image in which bits of the block bitmap were switched that
/// none of them depends on.
proof fn lemma_block_bits_consistent(
    b: Seq<u8>,
    c: Seq<u8>,
    sb: Superblock,
    q: int,
    t: Seq<InodeView>,
)
    requires
        framed(b, sb),
        consistent(b, sb, t),
        0 <= q < sb.block_bitmap_blocks,
        only_block(b, c, 66 + q),
        forall|id: int, j: int|
            0 <= id < 1024 && 0 <= j < 12 && #[trigger] pointer(t, id, j) != 0 ==> block_marked(
                c,
                sb,
                pointer(t, id, j) - sb.data_start,
            ),
    ensures
        framed(c, sb),
        consistent(c, sb, t),
{
    lemma_standard(sb);
    lemma_only(b, c, sb, 66 + q);
    assert forall|id: int| 0 <= id < 1024 && (#[trigger] t[id]).kind == InodeType::Dir implies block(
        c,
        t[id].direct[0] as int,
    ) == block(b, t[id].direct[0] as int) by {
        assert(held(b, sb, pointer(t, id, 0)));
    }
    assert forall|id: int, j: int|
        0 <= id < 1024 && 0 <= j < 12 && #[trigger] pointer(t, id, j) != 0 implies held(
        c,
        sb,
        pointer(t, id, j),
    ) by {
        assert(held(b, sb, pointer(t, id, j)));
    }
    lemma_keeps_consistent(b, c, sb, t);
}

/// Claiming a data block keeps inodes consistent, and none of them points to the block.
pub proof fn lemma_claim_block_consistent(img: Image, sb: Superblock, t: Seq<InodeView>)
    requires
        framed(img.bytes, sb),
        consistent(img.bytes, sb, t),
    ensures
        framed(claim_block(img, sb).0.bytes, sb),
        consistent(claim_block(img, sb).0.bytes, sb, t),
        claim_block(img, sb).1 matches Ok(n) ==> forall|id: int, j: int|
            0 <= id < 1024 && 0 <= j < 12 ==> #[trigger] pointer(t, id, j) != n,
{
    lemma_standard(sb);
    lemma_claim_block(img, sb);
    let c = claim_block(img, sb).0.bytes;
    match claim_block(img, sb).1 {
        Ok(n) => {
            assert forall|id: int, j: int|
                0 <= id < 1024 && 0 <= j < 12 && #[trigger] pointer(t, id, j)
                    != 0 implies block_marked(c, sb, pointer(t, id, j) - sb.data_start) && pointer(
                t,
                id,
                j,
            ) != n by {
                assert(held(img.bytes, sb, pointer(t, id, j)));
            }
            lemma_block_bits_consistent(img.bytes, c, sb, (n - sb.data_start) / 32768, t);
        },
        Err(_) => {
            let m = choose|m: int|
                66 <= m < sb.inode_table_start && #[trigger] only_block(img.bytes, c, m);
            assert forall|id: int, j: int|
                0 <= id < 1024 && 0 <= j < 12 && #[trigger] pointer(t, id, j)
                    != 0 implies block_marked(c, sb, pointer(t, id, j) - sb.data_start) by {
                assert(held(img.bytes, sb, pointer(t, id, j)));
            }
            lemma_block_bits_consistent(img.bytes, c, sb, m - 66, t);
        },
    }
}

/// Giving back a block that no inode points to keeps inodes consistent.
pub proof fn lemma_release_consistent(img: Image, sb: Superblock, t: Seq<InodeView>, n: u32)
    requires
        framed(img.bytes, sb),
        consistent(img.bytes, sb, t),
        sb.data_start <= n < sb.data_start + data_bits(sb),
        forall|id: int, j: int|
            0 <= id < 1024 && 0 <= j < 12 ==> #[trigger] pointer(t, id, j) != n,
    ensures
        framed(release_block(img, sb, n).0.bytes, sb),
        consistent(release_block(img, sb, n).0.bytes, sb, t),
{
    lemma_standard(sb);
    lemma_release_block(img, sb, n);
    let c = release_block(img, sb, n).0.bytes;
    assert forall|id: int, j: int|
        0 <= id < 1024 && 0 <= j < 12 && #[trigger] pointer(t, id, j) != 0 implies block_marked(
        c,
        sb,
        pointer(t, id, j) - sb.data_start,
    ) by {
        assert(held(img.bytes, sb, pointer(t, id, j)));
    }
    lemma_block_bits_consistent(img.bytes, c, sb, (n - sb.data_start) / 32768, t);
}

/// Inodes stay consistent with an image in which only marks of free inodes were switched.
pub proof fn lemma_inode_bits_consistent(
    b: Seq<u8>,
    c: Seq<u8>,
    sb: Superblock,
    t: Seq<InodeView>,
)
    requires
        framed(b, sb),
        consistent(b, sb, t),
        only_block(b, c, 65),
        forall|id: int|
            0 <= id < 1024 && (#[trigger] t[id]).kind != InodeType::Free ==> inode_marked(
                c,
                sb,
                id,
            ),
    ensures
        framed(c, sb),
        consistent(c, sb, t),
{
    lemma_standard(sb);
    lemma_only(b, c, sb, 65);
    assert forall|id: int| 0 <= id < 1024 && (#[trigger] t[id]).kind == InodeType::Dir implies block(
        c,
        t[id].direct[0] as int,
    ) == block(b, t[id].direct[0] as int) by {
        assert(held(b, sb, pointer(t, id, 0)));
    }
    assert forall|id: int, j: int|
        0 <= id < 1024 && 0 <= j < 12 && #[trigger] pointer(t, id, j) != 0 implies held(
        c,
        sb,
        pointer(t, id, j),
    ) by {
        assert(held(b, sb, pointer(t, id, j)));
    }
    lemma_keeps_consistent(b, c, sb, t);
}

} // verus!
