//! What the parts of a change do on every image: bitmaps, pointers and directory records.

use crate::bitmap::{
    bit_set, claim_block, claim_from, claim_inode, first_clear, first_clear_is_lowest, switch_bit,
    switched_bit, with_bit,
};
use crate::bytes::splice;
use crate::directory::{
    link, link_in_block, raw_record, record, records_in_block, seek, unlink, unlink_from,
    without_record,
};
use crate::dirent::{dirent_bytes, DirentView};
use crate::disk::{block, lemma_store, load, padded, readable, Image};
use crate::error::Failure;
use crate::file::{free_from, release_block, release_from};
use crate::format_laws::{
    block_writes, blocks, inode_reading, inode_stands_at, inode_writing, record_writing,
};
use crate::inode::{find_inode, put_inode, InodeView};
use crate::reading_laws::{lemma_pointing_step, nth_record, pointing, record_count};
use crate::superblock::Superblock;
use vstd::prelude::*;

verus! {

/// What a read behind the end of an image reports.
pub open spec fn cut_off() -> Failure {
    Failure::Io("failed to fill whole buffer"@)
}

/// Bit `k` of the bitmap that begins at block `start`.
pub open spec fn mark_at(b: Seq<u8>, start: int, k: int) -> bool {
    bit_set(block(b, start + k / 32768), k % 32768)
}

/// Whether `z` comes from `a` by one write, to block `n`, which lies inside the image, and which
/// gives its bit `k` the value `on` and leaves its other bits.
pub open spec fn bit_written(a: Image, z: Image, n: int, k: int, on: bool) -> bool {
    &&& z.base == a.base
    &&& z.bytes.len() == a.bytes.len()
    &&& z.writes.len() == a.writes.len() + 1
    &&& z.writes.drop_last() == a.writes
    &&& z.writes.last().0 == n
    &&& forall|i: int|
        0 <= i < a.bytes.len() && i != 4096 * n + k / 8 ==> #[trigger] z.bytes[i] == a.bytes[i]
    &&& forall|j: int|
        0 <= j < 32768 ==> #[trigger] bit_set(block(z.bytes, n), j) == if j == k {
            on
        } else {
            bit_set(block(a.bytes, n), j)
        }
}

/// Writing a block with one bit switched.
proof fn lemma_bit_written(img: Image, n: u32, k: int, on: bool)
    requires
        readable(img.bytes, n as int),
        0 <= k < 32768,
    ensures
        bit_written(
            img,
            img.write(n, with_bit(block(img.bytes, n as int), k, on)),
            n as int,
            k,
            on,
        ),
{
    let b = block(img.bytes, n as int);
    blocks(img.bytes, n);
    let d = with_bit(b, k, on);
    let z = img.write(n, d);
    block_writes(img, n, d);
    assert(padded(d) =~= d);
    lemma_store(img.bytes, n, d);
    assert forall|i: int| 0 <= i < img.bytes.len() && i != 4096 * n + k / 8 implies
        #[trigger] z.bytes[i] == img.bytes[i] by {
        if 4096 * n <= i < 4096 * n + 4096 {
            assert(b[i - 4096 * n] == img.bytes[4096 * n + (i - 4096 * n)]);
        }
    }
    assert forall|j: int| 0 <= j < 32768 implies #[trigger] bit_set(block(z.bytes, n as int), j)
        == if j == k {
        on
    } else {
        bit_set(b, j)
    } by {
        switched_bit(b, k, on, j);
    }
}

/// Switching a bit of a bitmap, on every image: it fails where the block has no number or lies
/// behind the end of the image, and else writes that block with that bit switched.
pub proof fn switching_any(img: Image, start: u32, index: u32, on: bool)
    ensures
        ({
            let n = start + index as int / 32768;
            let (z, r) = switch_bit(img, start, index, on);
            if n > u32::MAX {
                z == img && r == Err::<(), Failure>(Failure::Fault)
            } else if 4096 * (n + 1) > img.bytes.len() {
                z == img && r == Err::<(), Failure>(cut_off())
            } else {
                r == Ok::<(), Failure>(()) && bit_written(img, z, n, index as int % 32768, on)
            }
        }),
{
    let n = start + index as int / 32768;
    if n <= u32::MAX {
        blocks(img.bytes, n as u32);
        if readable(img.bytes, n) {
            lemma_bit_written(img, n as u32, index as int % 32768, on);
        }
    }
}

/// Whether block `n` lies inside the image and all of its bits are set.
pub open spec fn block_full(b: Seq<u8>, n: int) -> bool {
    &&& 4096 * (n + 1) <= b.len()
    &&& forall|k: int| 0 <= k < 32768 ==> #[trigger] bit_set(block(b, n), k)
}

/// Whether a claim in the `count` blocks from `start` on fails with `e` at the `q`-th of them.
pub open spec fn claim_stops(b: Seq<u8>, start: int, count: int, q: int, e: Failure) -> bool {
    &&& q == count ==> e == Failure::NoSpace
    &&& q < count && start + q > u32::MAX ==> e == Failure::Fault
    &&& q < count && start + q <= u32::MAX ==> e == cut_off() && 4096 * (start + q + 1) > b.len()
}

/// Claiming in a bitmap, on every image. The lowest clear bit is claimed, where all blocks up to
/// it can be read. Else nothing changes: there is no space where all blocks are full, and the
/// first block that has no number or lies behind the end of the image makes it fail.
pub proof fn claiming_any(img: Image, start: u32, count: u32, bi: u32)
    requires
        bi <= count,
    ensures
        ({
            let b = img.bytes;
            let (z, r) = claim_from(img, start, count, bi);
            match r {
                Ok(v) => {
                    let q = v as int / 32768;
                    let k = v as int % 32768;
                    &&& bi <= q < count
                    &&& forall|n: int| start + bi <= n < start + q ==> #[trigger] block_full(b, n)
                    &&& start + q <= u32::MAX
                    &&& 4096 * (start + q + 1) <= b.len()
                    &&& !bit_set(block(b, start + q), k)
                    &&& forall|j: int| 0 <= j < k ==> #[trigger] bit_set(block(b, start + q), j)
                    &&& bit_written(img, z, start + q, k, true)
                },
                Err(e) => {
                    &&& z == img
                    &&& exists|q: int|
                        {
                            &&& bi <= q <= count
                            &&& #[trigger] claim_stops(b, start as int, count as int, q, e)
                            &&& forall|n: int|
                                start + bi <= n < start + q ==> #[trigger] block_full(b, n)
                        }
                },
            }
        }),
    decreases count - bi,
{
    let b = img.bytes;
    if bi < count && start + bi <= u32::MAX {
        let n = (start + bi) as u32;
        blocks(b, n);
        if let Ok(blk) = load(b, n) {
            first_clear_is_lowest(blk, 0);
            match first_clear(blk, 0) {
                Some(k) => {
                    assert((bi * 32768 + k) / 32768 == bi);
                    assert((bi * 32768 + k) % 32768 == k);
                    lemma_bit_written(img, n, k, true);
                },
                None => {
                    claiming_any(img, start, count, (bi + 1) as u32);
                    assert(block_full(b, n as int));
                    if let Err(e) = claim_from(img, start, count, bi).1 {
                        let q = choose|q: int|
                            {
                                &&& bi + 1 <= q <= count
                                &&& #[trigger] claim_stops(b, start as int, count as int, q, e)
                                &&& forall|n: int|
                                    start + bi + 1 <= n < start + q ==> #[trigger] block_full(b, n)
                            };
                        assert(claim_stops(b, start as int, count as int, q, e));
                    }
                },
            }
        } else {
            assert(claim_stops(b, start as int, count as int, bi as int, cut_off()));
        }
    } else {
        let e = if bi == count {
            Failure::NoSpace
        } else {
            Failure::Fault
        };
        assert(claim_stops(b, start as int, count as int, bi as int, e));
    }
}

/// The number that goes with a claimed bit, on every image: that of the inode is the bit, that
/// of a data block is counted from the first one. Numbers have 32 bits. A bit whose block has no
/// number stays claimed.
pub proof fn claimed_numbers(img: Image, sb: Superblock)
    ensures
        ({
            let (z, r) = claim_from(img, sb.inode_bitmap_start, sb.inode_bitmap_blocks, 0);
            claim_inode(img, sb) == (
                z,
                match r {
                    Ok(v) => Ok::<u32, Failure>((v as int % 4294967296) as u32),
                    Err(e) => Err(e),
                },
            )
        }),
        ({
            let (z, r) = claim_from(img, sb.block_bitmap_start, sb.block_bitmap_blocks, 0);
            claim_block(img, sb) == (
                z,
                match r {
                    Ok(v) => {
                        let n = sb.data_start + v as int % 4294967296;
                        if n <= 4294967295 {
                            Ok::<u32, Failure>(n as u32)
                        } else {
                            Err(Failure::Fault)
                        }
                    },
                    Err(e) => Err(e),
                },
            )
        }),
{
}

/// Whether the bit of data block `p` can be cleared.
pub open spec fn releasable(b: Seq<u8>, sb: Superblock, p: int) -> bool {
    let n = sb.block_bitmap_start + (p - sb.data_start) / 32768;
    p >= sb.data_start && n <= u32::MAX && 4096 * (n + 1) <= b.len()
}

/// Why the bit of data block `p` cannot be cleared.
pub open spec fn release_failure(sb: Superblock, p: int) -> Failure {
    if p < sb.data_start || sb.block_bitmap_start + (p - sb.data_start) / 32768 > u32::MAX {
        Failure::Fault
    } else {
        cut_off()
    }
}

/// Whether pointer `j` is the first from `i` on whose block cannot be given back.
pub open spec fn first_stuck(b: Seq<u8>, sb: Superblock, direct: Seq<u32>, i: int, j: int) -> bool {
    &&& i <= j < direct.len()
    &&& direct[j] != 0
    &&& !releasable(b, sb, direct[j] as int)
    &&& forall|h: int|
        i <= h < j && #[trigger] direct[h] != 0 ==> releasable(b, sb, direct[h] as int)
}

/// Giving back the blocks of pointers, on every image. It succeeds where the bit of each of them
/// can be cleared; these bits are then clear and all others as they were. The first that cannot
/// makes it fail.
pub proof fn releasing_any(img: Image, sb: Superblock, direct: Seq<u32>, i: int)
    requires
        0 <= i <= direct.len(),
    ensures
        ({
            let b = img.bytes;
            let (z, r) = free_from(img, sb, direct, i);
            &&& z.bytes.len() == b.len()
            &&& r is Ok <==> forall|j: int|
                i <= j < direct.len() && #[trigger] direct[j] != 0 ==> releasable(
                    b,
                    sb,
                    direct[j] as int,
                )
            &&& r matches Err(e) ==> exists|j: int|
                #[trigger] first_stuck(b, sb, direct, i, j) && e == release_failure(
                    sb,
                    direct[j] as int,
                )
            &&& r is Ok ==> forall|k: int|
                0 <= k && 4096 * (sb.block_bitmap_start + k / 32768 + 1) <= b.len()
                    ==> #[trigger] mark_at(z.bytes, sb.block_bitmap_start as int, k) == (mark_at(
                    b,
                    sb.block_bitmap_start as int,
                    k,
                ) && forall|j: int|
                    i <= j < direct.len() && #[trigger] direct[j] != 0 ==> direct[j]
                        != sb.data_start + k)
        }),
    decreases direct.len() - i,
{
    let b = img.bytes;
    let start = sb.block_bitmap_start as int;
    if i < direct.len() {
        if direct[i] == 0 {
            releasing_any(img, sb, direct, i + 1);
            lemma_stuck_later(b, sb, direct, i);
        } else {
            let p = direct[i];
            let (next, r) = release_block(img, sb, p);
            if p >= sb.data_start {
                switching_any(img, sb.block_bitmap_start, (p - sb.data_start) as u32, false);
            }
            if r is Ok {
                releasing_any(next, sb, direct, i + 1);
                assert forall|q: int| #[trigger] releasable(next.bytes, sb, q) == releasable(
                    b,
                    sb,
                    q,
                ) by {}
                lemma_stuck_same(b, next.bytes, sb, direct, i + 1);
                lemma_stuck_later(b, sb, direct, i);
                assert forall|k: int|
                    0 <= k && 4096 * (start + k / 32768 + 1) <= b.len() implies #[trigger] mark_at(
                    next.bytes,
                    start,
                    k,
                ) == (mark_at(b, start, k) && k != p - sb.data_start) by {
                    lemma_mark_switched(img, next, sb, p, k);
                }
            } else {
                assert(first_stuck(b, sb, direct, i, i));
            }
        }
    }
}

/// A bit of the bitmap after the bit of data block `p` was cleared.
proof fn lemma_mark_switched(img: Image, next: Image, sb: Superblock, p: u32, k: int)
    requires
        p >= sb.data_start,
        0 <= k,
        4096 * (sb.block_bitmap_start + k / 32768 + 1) <= img.bytes.len(),
        bit_written(
            img,
            next,
            sb.block_bitmap_start + (p - sb.data_start) / 32768,
            (p - sb.data_start) % 32768,
            false,
        ),
    ensures
        mark_at(next.bytes, sb.block_bitmap_start as int, k) == (mark_at(
            img.bytes,
            sb.block_bitmap_start as int,
            k,
        ) && k != p - sb.data_start),
{
    let n = sb.block_bitmap_start + (p - sb.data_start) / 32768;
    let at = sb.block_bitmap_start + k / 32768;
    if at != n {
        reveal(block);
        assert(block(next.bytes, at) =~= block(img.bytes, at));
    } else {
        assert(k == p - sb.data_start <==> k % 32768 == (p - sb.data_start) % 32768);
    }
}

/// The first pointer that is stuck, where pointer `i` is not.
proof fn lemma_stuck_later(b: Seq<u8>, sb: Superblock, direct: Seq<u32>, i: int)
    requires
        0 <= i < direct.len(),
        direct[i] != 0 ==> releasable(b, sb, direct[i] as int),
    ensures
        forall|j: int| #[trigger]
            first_stuck(b, sb, direct, i + 1, j) ==> first_stuck(b, sb, direct, i, j),
{
}

/// The first pointer that is stuck depends on the length of the image alone.
proof fn lemma_stuck_same(b: Seq<u8>, c: Seq<u8>, sb: Superblock, direct: Seq<u32>, i: int)
    requires
        b.len() == c.len(),
        0 <= i,
    ensures
        forall|j: int| #[trigger]
            first_stuck(c, sb, direct, i, j) ==> first_stuck(b, sb, direct, i, j),
{
    assert forall|q: int| #[trigger] releasable(c, sb, q) == releasable(b, sb, q) by {}
}

/// Trimming the pointers of a file gives back the blocks of all pointers from `i` on, which then
/// point nowhere; those before are kept.
pub proof fn trimming_any(
    img: Image,
    sb: Superblock,
    direct: Seq<u32>,
    others: Seq<u32>,
    i: int,
)
    requires
        direct.len() == 12,
        others.len() == 12,
        0 <= i <= 12,
        forall|j: int| i <= j < 12 ==> #[trigger] direct[j] == others[j],
    ensures
        ({
            let (z, r) = release_from(img, sb, direct, i);
            let (y, s) = free_from(img, sb, others, i);
            &&& z == y
            &&& match r {
                Ok(d) => {
                    &&& s is Ok
                    &&& d.len() == 12
                    &&& forall|j: int|
                        0 <= j < 12 ==> #[trigger] d[j] == if j < i {
                            direct[j]
                        } else {
                            0
                        }
                },
                Err(e) => s == Err::<(), Failure>(e),
            }
        }),
    decreases 12 - i,
{
    if i < 12 {
        assert(direct[i] == others[i]);
        if direct[i] == 0 {
            trimming_any(img, sb, direct, others, i + 1);
        } else {
            let (next, r) = release_block(img, sb, direct[i]);
            if r is Ok {
                trimming_any(next, sb, direct.update(i, 0), others, i + 1);
            }
        }
    }
}

/// Whether `z` comes from `a` by two writes, to block `n` and then to the inode table: the
/// record of `ent` stands at byte `pos` of the block, and the inode `v` at its place. No other
/// byte changes.
pub open spec fn record_linked(
    a: Image,
    z: Image,
    sb: Superblock,
    n: u32,
    pos: int,
    ent: DirentView,
    v: InodeView,
) -> bool {
    let at = 4096 * n + pos;
    let slot = 4096 * sb.inode_table_start + 128 * v.id;
    &&& z.bytes.len() == a.bytes.len()
    &&& z.writes.len() == a.writes.len() + 2
    &&& z.writes.drop_last().drop_last() == a.writes
    &&& z.writes.drop_last().last().0 == n
    &&& z.writes.last().0 == sb.inode_table_start + v.id as int / 32
    &&& z.bytes.subrange(at, at + 264) == dirent_bytes(ent)
    &&& inode_stands_at(z.bytes, slot, v)
    &&& forall|i: int|
        0 <= i < a.bytes.len() && !(at <= i < at + 264) && !(slot <= i < slot + 128)
            ==> #[trigger] z.bytes[i] == a.bytes[i]
}

/// What putting a record behind those of a directory does, where the block is present.
proof fn lemma_link_block(img: Image, sb: Superblock, dir: InodeView, ent: DirentView)
    requires
        dir.direct.len() == 12,
        dir.size as int / 4096 < 12,
        sb.inode_table_start + dir.id as int / 32 <= u32::MAX,
        4096 * (sb.inode_table_start + dir.id as int / 32 + 1) <= img.bytes.len(),
        dir.direct[dir.size as int / 4096] != sb.inode_table_start + dir.id as int / 32,
    ensures
        ({
            let n = dir.direct[dir.size as int / 4096];
            let pos = dir.size as int % 4096;
            let (z, r) = link_in_block(img, sb, dir, ent);
            if 4096 * (n + 1) > img.bytes.len() {
                z == img && r == Err::<(), Failure>(cut_off())
            } else if pos > 3832 {
                z == img && r == Err::<(), Failure>(Failure::NoSpace)
            } else {
                &&& r == Ok::<(), Failure>(())
                &&& record_linked(
                    img,
                    z,
                    sb,
                    n,
                    pos,
                    ent,
                    InodeView { size: (dir.size + 264) as u32, ..dir },
                )
            }
        }),
{
    let n = dir.direct[dir.size as int / 4096];
    let pos = dir.size as int % 4096;
    let b = img.bytes;
    blocks(b, n);
    if 4096 * (n + 1) <= b.len() && pos <= 3832 {
        let blk = load(b, n)->Ok_0;
        record_writing(ent);
        let raw = dirent_bytes(ent);
        let d = splice(blk, pos, raw);
        let y = img.write(n, d);
        block_writes(img, n, d);
        let v = InodeView { size: (dir.size + 264) as u32, ..dir };
        inode_writing(y, sb, v);
        let z = put_inode(y, sb, v).0;
        let at = 4096 * n + pos;
        let slot = 4096 * sb.inode_table_start + 128 * v.id;
        let t = sb.inode_table_start + v.id as int / 32;
        assert(4096 * t <= slot && slot + 128 <= 4096 * t + 4096);
        assert(4096 * n + 4096 <= 4096 * t || 4096 * t + 4096 <= 4096 * n);
        assert forall|i: int| 0 <= i < 264 implies #[trigger] z.bytes[at + i] == raw[i] by {
            assert(y.bytes[at + i] == d[pos + i]);
        }
        assert(z.bytes.subrange(at, at + 264) =~= raw) by {
            assert forall|i: int| 0 <= i < 264 implies z.bytes.subrange(at, at + 264)[i]
                == raw[i] by {
                assert(z.bytes[at + i] == raw[i]);
            }
        }
        assert forall|i: int|
            0 <= i < b.len() && !(at <= i < at + 264) && !(slot <= i < slot + 128) implies
            #[trigger] z.bytes[i] == b[i] by {
            assert(z.bytes[i] == y.bytes[i]);
            if 4096 * n <= i < 4096 * n + 4096 {
                assert(y.bytes[i] == d[i - 4096 * n]);
                assert(blk[i - 4096 * n] == b[4096 * n + (i - 4096 * n)]);
            }
        }
    }
}

/// Adding an entry to a directory, on every image on which the directory's inode has its number
/// and no pointer of it points into the inode table. The record goes behind the others, at the
/// byte that the size gives, into a claimed block where the directory has none there. There is
/// no space behind twelve blocks, or where the block has fewer than 264 bytes left.
pub proof fn linking_any(img: Image, sb: Superblock, id: u32, ent: DirentView)
    requires
        find_inode(img.bytes, sb, id) matches Ok(dir) ==> {
            let t = sb.inode_table_start + id as int / 32;
            &&& dir.id == id
            &&& forall|j: int| 0 <= j < 12 ==> #[trigger] dir.direct[j] != t
            &&& claim_block(img, sb).1 != Ok::<u32, Failure>(t as u32)
        },
    ensures
        ({
            let (z, r) = link(img, sb, id, ent);
            match find_inode(img.bytes, sb, id) {
                Err(e) => z == img && r == Err::<(), Failure>(e),
                Ok(dir) => {
                    let index = dir.size as int / 4096;
                    let pos = dir.size as int % 4096;
                    let grown = InodeView { size: (dir.size + 264) as u32, ..dir };
                    if index >= 12 {
                        z == img && r == Err::<(), Failure>(Failure::NoSpace)
                    } else if dir.direct[index] != 0 {
                        let n = dir.direct[index];
                        if 4096 * (n + 1) > img.bytes.len() {
                            z == img && r == Err::<(), Failure>(cut_off())
                        } else if pos > 3832 {
                            z == img && r == Err::<(), Failure>(Failure::NoSpace)
                        } else {
                            &&& r == Ok::<(), Failure>(())
                            &&& record_linked(img, z, sb, n, pos, ent, grown)
                        }
                    } else {
                        let (y, s) = claim_block(img, sb);
                        match s {
                            Err(e) => z == y && r == Err::<(), Failure>(e),
                            Ok(n) => if 4096 * (n + 1) > img.bytes.len() {
                                z == y && r == Err::<(), Failure>(cut_off())
                            } else if pos > 3832 {
                                z == y && r == Err::<(), Failure>(Failure::NoSpace)
                            } else {
                                &&& r == Ok::<(), Failure>(())
                                &&& record_linked(
                                    y,
                                    z,
                                    sb,
                                    n,
                                    pos,
                                    ent,
                                    InodeView { direct: dir.direct.update(index, n), ..grown },
                                )
                            },
                        }
                    }
                },
            }
        }),
{
    inode_reading(img.bytes, sb, id);
    if let Ok(dir) = find_inode(img.bytes, sb, id) {
        let index = dir.size as int / 4096;
        if index < 12 {
            if dir.direct[index] != 0 {
                lemma_link_block(img, sb, dir, ent);
            } else {
                claimed_numbers(img, sb);
                claiming_any(img, sb.block_bitmap_start, sb.block_bitmap_blocks, 0);
                let (y, s) = claim_block(img, sb);
                if let Ok(n) = s {
                    let wider = InodeView { direct: dir.direct.update(index, n), ..dir };
                    lemma_link_block(y, sb, wider, ent);
                }
            }
        }
    }
}

/// Whether record `k` is the first of a directory, in its blocks `ps`, at which the search for
/// the active entry `name` ends.
pub open spec fn search_ends(b: Seq<u8>, ps: Seq<u32>, name: Seq<char>, k: int) -> bool {
    &&& ended_by(nth_record(b, ps, k), name)
    &&& forall|j: int| 0 <= j < k ==> !ended_by(#[trigger] nth_record(b, ps, j), name)
}

/// Whether a record ends the search for the active entry `name`: it is that entry, or it cannot
/// be read.
pub open spec fn ended_by(found: Result<DirentView, Failure>, name: Seq<char>) -> bool {
    match found {
        Ok(e) => e.active == 1 && e.name == name,
        Err(_) => true,
    }
}

/// Whether `z` comes from `a` by one write, to block `n`: `raw` stands at byte `pos` of it. No
/// other byte changes.
pub open spec fn record_rewritten(a: Image, z: Image, n: u32, pos: int, raw: Seq<u8>) -> bool {
    let at = 4096 * n + pos;
    &&& z.bytes.len() == a.bytes.len()
    &&& z.writes.len() == a.writes.len() + 1
    &&& z.writes.drop_last() == a.writes
    &&& z.writes.last().0 == n
    &&& z.bytes.subrange(at, at + 264) == raw
    &&& forall|i: int|
        0 <= i < a.bytes.len() && !(at <= i < at + 264) ==> #[trigger] z.bytes[i] == a.bytes[i]
}

/// Whether record `m` of a block is the first from `k` on that ends the search for `name`.
spec fn stops_at(b: Seq<u8>, k: int, m: int, name: Seq<char>) -> bool {
    &&& ended_by(record(b, m), name)
    &&& forall|j: int| k <= j < m ==> !ended_by(#[trigger] record(b, j), name)
}

/// A record that cannot be read is corrupt.
proof fn lemma_unread(b: Seq<u8>, k: int)
    ensures
        record(b, k) matches Err(e) ==> e == Failure::Corrupt,
{
}

/// Where the search in one block ends.
#[verifier::spinoff_prover]
proof fn lemma_seek_any(b: Seq<u8>, k: int, n: int, name: Seq<char>)
    requires
        0 <= k <= n,
    ensures
        match seek(b, k, n, name) {
            Ok(Some(m)) => k <= m < n && record(b, m) is Ok && stops_at(b, k, m, name),
            Ok(None) => forall|j: int| k <= j < n ==> !ended_by(#[trigger] record(b, j), name),
            Err(e) => e == Failure::Corrupt && exists|m: int|
                k <= m < n && record(b, m) is Err && #[trigger] stops_at(b, k, m, name),
        },
    decreases n - k,
{
    if k < n {
        lemma_unread(b, k);
        match record(b, k) {
            Ok(d) => {
                if d.active == 1 && d.name == name {
                    assert(stops_at(b, k, k, name));
                } else {
                    lemma_seek_any(b, k + 1, n, name);
                    assert(!ended_by(record(b, k), name));
                    assert forall|m: int| #[trigger] stops_at(b, k + 1, m, name) implies stops_at(
                        b,
                        k,
                        m,
                        name,
                    ) by {}
                }
            },
            Err(_) => {
                assert(stops_at(b, k, k, name));
            },
        }
    }
}

/// What switching off a record does to the image.
proof fn lemma_switch_off(img: Image, n: u32, k: int)
    requires
        4096 * (n + 1) <= img.bytes.len(),
        0 <= k < 15,
        record(block(img.bytes, n as int), k) is Ok,
    ensures
        ({
            let blk = block(img.bytes, n as int);
            let e = record(blk, k)->Ok_0;
            record_rewritten(
                img,
                img.write(n, without_record(blk, k)),
                n,
                264 * k,
                dirent_bytes(DirentView { active: 0, ..e }),
            )
        }),
{
    let b = img.bytes;
    blocks(b, n);
    let blk = load(b, n)->Ok_0;
    let off = DirentView { active: 0, ..record(blk, k)->Ok_0 };
    record_writing(off);
    let raw = dirent_bytes(off);
    let d = without_record(blk, k);
    block_writes(img, n, d);
    let z = img.write(n, d);
    let at = 4096 * n + 264 * k;
    assert(z.bytes.subrange(at, at + 264) =~= raw) by {
        assert forall|i: int| 0 <= i < 264 implies z.bytes.subrange(at, at + 264)[i] == raw[i] by {
            assert(z.bytes[at + i] == d[264 * k + i]);
        }
    }
    assert forall|i: int| 0 <= i < b.len() && !(at <= i < at + 264) implies #[trigger] z.bytes[i]
        == b[i] by {
        if 4096 * n <= i < 4096 * n + 4096 {
            assert(z.bytes[i] == d[i - 4096 * n]);
            assert(blk[i - 4096 * n] == b[4096 * n + (i - 4096 * n)]);
        }
    }
}

/// Whether the records of the blocks `ps` are the `m` records of a block followed by those of the
/// blocks `rest`.
spec fn records_split(
    b: Seq<u8>,
    blk: Seq<u8>,
    ps: Seq<u32>,
    rest: Seq<u32>,
    size: int,
    m: int,
) -> bool {
    &&& 0 <= m <= 15
    &&& 0 <= size - 264 * m
    &&& ps.len() == rest.len() + 1
    &&& record_count(ps, size) == m + record_count(rest, size - 264 * m)
    &&& forall|k: int| 0 <= k < m ==> #[trigger] record(blk, k) == nth_record(b, ps, k)
    &&& forall|k: int|
        0 <= k < record_count(rest, size - 264 * m) ==> m == 15 && #[trigger] nth_record(b, rest, k)
            == nth_record(b, ps, k + m) && ps[(k + m) / 15] == rest[k / 15]
}

/// The records of the block of pointer `i` come before those of the later ones.
proof fn lemma_records_split(b: Seq<u8>, direct: Seq<u32>, i: int, size: int)
    requires
        0 <= i < direct.len(),
        0 <= size,
        direct[i] != 0,
        4096 * (direct[i] + 1) <= b.len(),
    ensures
        load(b, direct[i]) is Ok,
        pointing(direct.skip(i))[0] == direct[i],
        records_split(
            b,
            load(b, direct[i])->Ok_0,
            pointing(direct.skip(i)),
            pointing(direct.skip(i + 1)),
            size,
            records_in_block(size),
        ),
{
    let ps = pointing(direct.skip(i));
    let rest = pointing(direct.skip(i + 1));
    lemma_pointing_step(direct, i);
    assert forall|k: int| 0 < k < ps.len() implies #[trigger] ps[k] == rest[k - 1] by {}
    blocks(b, direct[i]);
    let blk = load(b, direct[i])->Ok_0;
    let m = records_in_block(size);
    let left = size - 264 * m;
    assert(left / 264 == size / 264 - m);
    assert forall|k: int| 0 <= k < m implies #[trigger] record(blk, k) == nth_record(b, ps, k) by {
        assert(k / 15 == 0 && k % 15 == k);
        assert(raw_record(blk, k) =~= b.subrange(
            4096 * direct[i] + 264 * k,
            4096 * direct[i] + 264 * k + 264,
        ));
    }
    assert forall|k: int| 0 <= k < record_count(rest, left) implies m == 15
        && #[trigger] nth_record(b, rest, k) == nth_record(b, ps, k + m) && ps[(k + m) / 15]
        == rest[k / 15] by {
        assert(m == 15);
        assert((k + 15) / 15 == k / 15 + 1 && (k + 15) % 15 == k % 15);
        assert(ps[k / 15 + 1] == rest[k / 15]);
    }
}

/// A search that does not end in the first block goes on in the later ones.
proof fn lemma_unlinked_later(
    img: Image,
    outcome: (Image, Result<(), Failure>),
    blk: Seq<u8>,
    ps: Seq<u32>,
    rest: Seq<u32>,
    size: int,
    m: int,
    name: Seq<char>,
)
    requires
        records_split(img.bytes, blk, ps, rest, size, m),
        forall|j: int| 0 <= j < m ==> !ended_by(#[trigger] record(blk, j), name),
        unlinked_as(img, outcome, rest, size - 264 * m, name),
    ensures
        unlinked_as(img, outcome, ps, size, name),
{
    let b = img.bytes;
    let n2 = record_count(rest, size - 264 * m);
    assert forall|j: int| 0 <= j < m implies !ended_by(#[trigger] nth_record(b, ps, j), name) by {
        assert(record(blk, j) == nth_record(b, ps, j));
    }
    if exists|k: int| 0 <= k < n2 && #[trigger] search_ends(b, rest, name, k) {
        let k = choose|k: int| 0 <= k < n2 && #[trigger] search_ends(b, rest, name, k);
        assert(nth_record(b, rest, k) == nth_record(b, ps, k + m));
        assert((k + 15) % 15 == k % 15);
        assert forall|j: int| 0 <= j < k + m implies !ended_by(
            #[trigger] nth_record(b, ps, j),
            name,
        ) by {
            if j >= m {
                assert(nth_record(b, rest, j - m) == nth_record(b, ps, j - m + m));
            }
        }
        assert(search_ends(b, ps, name, k + m));
        assert forall|h: int| 0 <= h < n2 && #[trigger] search_ends(b, rest, name, h) implies h
            == k by {
            if h < k {
                assert(!ended_by(nth_record(b, rest, h), name));
            }
            if k < h {
                assert(!ended_by(nth_record(b, rest, k), name));
            }
        }
        assert(!(forall|j: int|
            0 <= j < n2 ==> !ended_by(#[trigger] nth_record(b, rest, j), name))) by {
            assert(ended_by(nth_record(b, rest, k), name));
        }
    } else {
        assert forall|j: int| 0 <= j < m + n2 implies !ended_by(
            #[trigger] nth_record(b, ps, j),
            name,
        ) by {
            if j >= m {
                assert(nth_record(b, rest, j - m) == nth_record(b, ps, j - m + m));
            }
        }
    }
}

/// Where the search ends, from pointer `i` on.
proof fn lemma_unlink_any(img: Image, direct: Seq<u32>, i: int, remaining: int, name: Seq<char>)
    requires
        0 <= i <= direct.len(),
        0 <= remaining,
        forall|j: int|
            0 <= j < direct.len() && #[trigger] direct[j] != 0 ==> 4096 * (direct[j] + 1)
                <= img.bytes.len(),
    ensures
        unlinked_as(
            img,
            unlink_from(img, direct, i, remaining, name),
            pointing(direct.skip(i)),
            remaining,
            name,
        ),
    decreases direct.len() - i,
{
    let b = img.bytes;
    let ps = pointing(direct.skip(i));
    let outcome = unlink_from(img, direct, i, remaining, name);
    if i == direct.len() {
        assert(direct.skip(i) =~= Seq::empty());
        reveal(Seq::filter);
        assert(ps.len() == 0);
    } else if direct[i] == 0 {
        lemma_pointing_step(direct, i);
        lemma_unlink_any(img, direct, i + 1, remaining, name);
    } else {
        lemma_records_split(b, direct, i, remaining);
        let blk = load(b, direct[i])->Ok_0;
        let m = records_in_block(remaining);
        lemma_seek_any(blk, 0, m, name);
        match seek(blk, 0, m, name) {
            Ok(Some(k)) => {
                lemma_switch_off(img, direct[i], k);
                lemma_search_here(b, blk, ps, m, k, name);
            },
            Ok(None) => {
                lemma_unlink_any(img, direct, i + 1, remaining - 264 * m, name);
                let rest = pointing(direct.skip(i + 1));
                lemma_unlinked_later(img, outcome, blk, ps, rest, remaining, m, name);
            },
            Err(_) => {
                let k = choose|k: int|
                    0 <= k < m && record(blk, k) is Err && #[trigger] stops_at(blk, 0, k, name);
                lemma_search_here(b, blk, ps, m, k, name);
            },
        }
    }
}

/// A search that ends in the first block.
proof fn lemma_search_here(
    b: Seq<u8>,
    blk: Seq<u8>,
    ps: Seq<u32>,
    m: int,
    k: int,
    name: Seq<char>,
)
    requires
        0 <= k < m <= 15,
        forall|j: int| 0 <= j < m ==> #[trigger] record(blk, j) == nth_record(b, ps, j),
        stops_at(blk, 0, k, name),
    ensures
        search_ends(b, ps, name, k),
        record(blk, k) == nth_record(b, ps, k),
        k / 15 == 0,
        k % 15 == k,
{
    assert forall|j: int| 0 <= j < k implies !ended_by(#[trigger] nth_record(b, ps, j), name) by {
        assert(record(blk, j) == nth_record(b, ps, j));
    }
}

/// Whether this is the outcome of switching off the entry `name` in the blocks `ps`. Where the
/// search ends at a record that can be read, the record is written again with the flag 0 and
/// nothing else changes; a record that cannot be read makes the directory corrupt. Where it
/// does not end, nothing of that name is found.
pub open spec fn unlinked_as(
    img: Image,
    outcome: (Image, Result<(), Failure>),
    ps: Seq<u32>,
    size: int,
    name: Seq<char>,
) -> bool {
    let b = img.bytes;
    let n = record_count(ps, size);
    ||| exists|k: int|
        {
            &&& 0 <= k < n
            &&& #[trigger] search_ends(b, ps, name, k)
            &&& match nth_record(b, ps, k) {
                Ok(e) => {
                    &&& outcome.1 == Ok::<(), Failure>(())
                    &&& record_rewritten(
                        img,
                        outcome.0,
                        ps[k / 15],
                        264 * (k % 15),
                        dirent_bytes(DirentView { active: 0, ..e }),
                    )
                },
                Err(_) => outcome == (img, Err::<(), Failure>(Failure::Corrupt)),
            }
        }
    ||| {
        &&& forall|j: int| 0 <= j < n ==> !ended_by(#[trigger] nth_record(b, ps, j), name)
        &&& outcome == (img, Err::<(), Failure>(Failure::NotFound(name)))
    }
}

/// Taking an entry out of a directory, on every image on which all of its blocks are present.
pub proof fn unlinking_any(img: Image, sb: Superblock, id: u32, name: Seq<char>)
    requires
        find_inode(img.bytes, sb, id) matches Ok(dir) ==> forall|j: int|
            0 <= j < dir.direct.len() && #[trigger] dir.direct[j] != 0 ==> 4096 * (dir.direct[j]
                + 1) <= img.bytes.len(),
    ensures
        match find_inode(img.bytes, sb, id) {
            Err(e) => unlink(img, sb, id, name) == (img, Err::<(), Failure>(e)),
            Ok(dir) => unlinked_as(
                img,
                unlink(img, sb, id, name),
                pointing(dir.direct),
                dir.size as int,
                name,
            ),
        },
{
    if let Ok(dir) = find_inode(img.bytes, sb, id) {
        lemma_unlink_any(img, dir.direct, 0, dir.size as int, name);
        assert(dir.direct.skip(0) =~= dir.direct);
    }
}

} // verus!
