//! What the bytes of an image mean.

use crate::bitmap::bit_set;
use crate::bytes::{le16, le16_bytes, le32, le32_bytes, splice};
use crate::dirent::{dirent_bytes, parse_dirent, stored_name, DirentView};
use crate::disk::{block, lemma_store, load, padded, replay, store, Image};
use crate::error::Failure;
use crate::inode::{
    find_inode, inode_block, inode_bytes, inode_in, inode_pos, kind_code, kind_of_code, put_inode,
    InodeType, InodeView,
};
use crate::superblock::{
    superblock_bytes, superblock_of, superblock_words, with_superblock, Superblock,
};
use crate::text::lossy_text;
use vstd::prelude::*;
use vstd::utf8::{encode_utf8, encode_utf8_decode_utf8, encode_utf8_valid_utf8, valid_utf8};

verus! {

/// The number that four bytes stand for, the first of them counting least.
pub open spec fn word(b: Seq<u8>, at: int) -> int {
    b[at] + 256 * b[at + 1] + 65536 * b[at + 2] + 16777216 * b[at + 3]
}

/// The number that two bytes stand for, the first of them counting least.
pub open spec fn half_word(b: Seq<u8>, at: int) -> int {
    b[at] + 256 * b[at + 1]
}

/// Words are read and stored with the least significant byte first.
pub proof fn words(b: Seq<u8>, at: int, v: u32, h: u16)
    ensures
        le32(b, at) == word(b, at),
        le32_bytes(v).len() == 4,
        word(le32_bytes(v), 0) == v,
        le16(b, at) == half_word(b, at),
        le16_bytes(h).len() == 2,
        half_word(le16_bytes(h), 0) == h,
{
    reveal(le32);
    reveal(le32_bytes);
}

/// A block can be read where the image reaches up to its end, and is the 4096 bytes there.
pub proof fn blocks(b: Seq<u8>, n: u32)
    ensures
        match load(b, n) {
            Ok(blk) => {
                &&& 4096 * (n + 1) <= b.len()
                &&& blk.len() == 4096
                &&& forall|i: int| 0 <= i < 4096 ==> #[trigger] blk[i] == b[4096 * n + i]
            },
            Err(e) => {
                &&& 4096 * (n + 1) > b.len()
                &&& e == Failure::Io("failed to fill whole buffer"@)
            },
        },
{
    reveal(block);
}

/// Writing a block puts the data at its place, cut or filled up with zeros to 4096 bytes. An
/// image that ended before grows, with zeros in the gap; every other byte stays. The write is
/// the last one in the log.
pub proof fn block_writes(img: Image, n: u32, data: Seq<u8>)
    ensures
        ({
            let next = img.write(n, data);
            let at = 4096 * n;
            &&& next.base == img.base
            &&& next.bytes.len() == if img.bytes.len() > at + 4096 {
                img.bytes.len() as int
            } else {
                at + 4096
            }
            &&& forall|i: int|
                0 <= i < next.bytes.len() ==> #[trigger] next.bytes[i] == if at <= i < at + 4096 {
                    if i - at < data.len() {
                        data[i - at]
                    } else {
                        0
                    }
                } else if i < img.bytes.len() {
                    img.bytes[i]
                } else {
                    0
                }
            &&& next.writes.len() == img.writes.len() + 1
            &&& next.writes.drop_last() == img.writes
            &&& next.writes.last().0 == n
            &&& next.writes.last().1 == next.bytes.subrange(at, at + 4096)
        }),
{
    reveal(store);
    let next = img.write(n, data);
    let at = 4096 * n;
    assert(next.writes.drop_last() =~= img.writes);
    assert(next.bytes.subrange(at, at + 4096) =~= padded(data));
}

/// After writes were made in order, a block holds what the last write to it put there; a block
/// that was not written holds what it held.
pub proof fn replays(base: Seq<u8>, writes: Seq<(u32, Seq<u8>)>, n: u32)
    requires
        forall|k: int| 0 <= k < writes.len() ==> (#[trigger] writes[k]).1.len() == 4096,
    ensures
        forall|k: int|
            0 <= k < writes.len() && (#[trigger] writes[k]).0 == n && (forall|j: int|
                k < j < writes.len() ==> (#[trigger] writes[j]).0 != n) ==> load(
                replay(base, writes),
                n,
            ) == Ok::<Seq<u8>, Failure>(writes[k].1),
        (forall|j: int| 0 <= j < writes.len() ==> (#[trigger] writes[j]).0 != n) && load(
            base,
            n,
        ) is Ok ==> load(replay(base, writes), n) == load(base, n),
    decreases writes.len(),
{
    if writes.len() > 0 {
        let front = writes.drop_last();
        let last = writes.last();
        let m = writes.len() - 1;
        assert(writes[m] == last);
        assert forall|k: int| 0 <= k < front.len() implies (#[trigger] front[k]).1.len()
            == 4096 by {
            assert(front[k] == writes[k]);
        }
        replays(base, front, n);
        lemma_store(replay(base, front), last.0, last.1);
        assert forall|k: int|
            0 <= k < writes.len() && (#[trigger] writes[k]).0 == n && (forall|j: int|
                k < j < writes.len() ==> (#[trigger] writes[j]).0 != n) implies load(
            replay(base, writes),
            n,
        ) == Ok::<Seq<u8>, Failure>(writes[k].1) by {
            if k < m {
                assert(front[k] == writes[k]);
                assert forall|j: int| k < j < front.len() implies (#[trigger] front[j]).0 != n by {
                    assert(front[j] == writes[j]);
                }
                assert(last.0 != n);
            }
        }
        if (forall|j: int| 0 <= j < writes.len() ==> (#[trigger] writes[j]).0 != n) && load(base, n)
            is Ok {
            assert forall|j: int| 0 <= j < front.len() implies (#[trigger] front[j]).0 != n by {
                assert(front[j] == writes[j]);
            }
        }
    }
}

/// Bit `i` of a bitmap stands in byte `i / 8`, bit 0 counting least.
pub proof fn bits(b: Seq<u8>, i: int)
    requires
        0 <= i,
    ensures
        bit_set(b, i) == ((b[i / 8] as int / weight(i % 8)) % 2 == 1),
{
    let x = b[i / 8];
    assert((x >> 0) & 1 == x % 2) by (bit_vector);
    assert((x >> 1) & 1 == (x / 2) % 2) by (bit_vector);
    assert((x >> 2) & 1 == (x / 4) % 2) by (bit_vector);
    assert((x >> 3) & 1 == (x / 8) % 2) by (bit_vector);
    assert((x >> 4) & 1 == (x / 16) % 2) by (bit_vector);
    assert((x >> 5) & 1 == (x / 32) % 2) by (bit_vector);
    assert((x >> 6) & 1 == (x / 64) % 2) by (bit_vector);
    assert((x >> 7) & 1 == (x / 128) % 2) by (bit_vector);
    let k = i % 8;
    assert(k == 0 || k == 1 || k == 2 || k == 3 || k == 4 || k == 5 || k == 6 || k == 7);
}

/// What bit `k` of a byte counts.
pub open spec fn weight(k: int) -> int {
    if k == 0 {
        1
    } else if k == 1 {
        2
    } else if k == 2 {
        4
    } else if k == 3 {
        8
    } else if k == 4 {
        16
    } else if k == 5 {
        32
    } else if k == 6 {
        64
    } else {
        128
    }
}

/// An image has a superblock where it has a first block that begins with the magic number and
/// the version; the fields are the words from byte 12 on.
pub proof fn superblock_reading(b: Seq<u8>)
    ensures
        b.len() < 4096 ==> superblock_of(b) == Err::<Superblock, Failure>(
            Failure::Io("failed to fill whole buffer"@),
        ),
        b.len() >= 4096 && (word(b, 0) != 0x5553_4653 || word(b, 4) != 1) ==> superblock_of(b)
            == Err::<Superblock, Failure>(Failure::Corrupt),
        b.len() >= 4096 && word(b, 0) == 0x5553_4653 && word(b, 4) == 1 ==> {
            &&& superblock_of(b) matches Ok(sb)
            &&& sb.total_blocks == word(b, 12)
            &&& sb.journal_start == word(b, 16)
            &&& sb.journal_blocks == word(b, 20)
            &&& sb.inode_bitmap_start == word(b, 24)
            &&& sb.inode_bitmap_blocks == word(b, 28)
            &&& sb.block_bitmap_start == word(b, 32)
            &&& sb.block_bitmap_blocks == word(b, 36)
            &&& sb.inode_table_start == word(b, 40)
            &&& sb.inode_table_blocks == word(b, 44)
            &&& sb.data_start == word(b, 48)
            &&& sb.clean == word(b, 52)
            &&& sb.sequence == word(b, 56)
        },
{
    reveal(le32);
    blocks(b, 0);
    if b.len() >= 4096 {
        let blk = load(b, 0)->Ok_0;
        assert forall|at: int| 0 <= at < 4090 implies #[trigger] word(blk, at) == word(b, at) by {
            assert(blk[at] == b[at] && blk[at + 1] == b[at + 1]);
            assert(blk[at + 2] == b[at + 2] && blk[at + 3] == b[at + 3]);
        }
        assert(word(blk, 0) == word(b, 0) && word(blk, 4) == word(b, 4));
        assert(word(blk, 12) == word(b, 12) && word(blk, 16) == word(b, 16));
        assert(word(blk, 20) == word(b, 20) && word(blk, 24) == word(b, 24));
        assert(word(blk, 28) == word(b, 28) && word(blk, 32) == word(b, 32));
        assert(word(blk, 36) == word(b, 36) && word(blk, 40) == word(b, 40));
        assert(word(blk, 44) == word(b, 44) && word(blk, 48) == word(b, 48));
        assert(word(blk, 52) == word(b, 52) && word(blk, 56) == word(b, 56));
    }
}

/// Writing a superblock writes block 0 once: the magic number, the version, the block size and
/// the fields as words, and zeros behind them.
pub proof fn superblock_writing(img: Image, sb: Superblock)
    ensures
        ({
            let c = with_superblock(img, sb).bytes;
            &&& with_superblock(img, sb).writes == img.writes.push((0, c.subrange(0, 4096)))
            &&& c.len() == if img.bytes.len() > 4096 {
                img.bytes.len() as int
            } else {
                4096
            }
            &&& word(c, 0) == 0x5553_4653
            &&& word(c, 4) == 1
            &&& word(c, 8) == 4096
            &&& word(c, 12) == sb.total_blocks
            &&& word(c, 16) == sb.journal_start
            &&& word(c, 20) == sb.journal_blocks
            &&& word(c, 24) == sb.inode_bitmap_start
            &&& word(c, 28) == sb.inode_bitmap_blocks
            &&& word(c, 32) == sb.block_bitmap_start
            &&& word(c, 36) == sb.block_bitmap_blocks
            &&& word(c, 40) == sb.inode_table_start
            &&& word(c, 44) == sb.inode_table_blocks
            &&& word(c, 48) == sb.data_start
            &&& word(c, 52) == sb.clean
            &&& word(c, 56) == sb.sequence
            &&& forall|i: int| 60 <= i < 4096 ==> #[trigger] c[i] == 0
            &&& forall|i: int| 4096 <= i < img.bytes.len() ==> #[trigger] c[i] == img.bytes[i]
        }),
{
    let d = superblock_bytes(sb);
    let w = superblock_words(sb);
    let next = with_superblock(img, sb);
    let c = next.bytes;
    block_writes(img, 0, d);
    assert(next.writes =~= img.writes.push((0, c.subrange(0, 4096))));
    assert forall|k: int| 0 <= k < 15 implies #[trigger] w[k] == word(c, 4 * k) by {
        words(le32_bytes(w[k]), 0, w[k], 0);
        assert(c[4 * k] == le32_bytes(w[k])[0]);
        assert(c[4 * k + 1] == le32_bytes(w[k])[1]);
        assert(c[4 * k + 2] == le32_bytes(w[k])[2]);
        assert(c[4 * k + 3] == le32_bytes(w[k])[3]);
    }
    assert(w[0] == word(c, 0) && w[1] == word(c, 4) && w[2] == word(c, 8));
    assert(w[3] == word(c, 12) && w[4] == word(c, 16) && w[5] == word(c, 20));
    assert(w[6] == word(c, 24) && w[7] == word(c, 28) && w[8] == word(c, 32));
    assert(w[9] == word(c, 36) && w[10] == word(c, 40) && w[11] == word(c, 44));
    assert(w[12] == word(c, 48) && w[13] == word(c, 52) && w[14] == word(c, 56));
}

/// The kinds of inode have the codes 0, 1 and 2, and any other code is read as free.
pub proof fn kinds(code: u8)
    ensures
        kind_code(InodeType::Free) == 0,
        kind_code(InodeType::File) == 1,
        kind_code(InodeType::Dir) == 2,
        kind_of_code(code) == InodeType::File <==> code == 1,
        kind_of_code(code) == InodeType::Dir <==> code == 2,
        kind_of_code(code) == InodeType::Free <==> code != 1 && code != 2,
{
}

/// Whether the 128 bytes from `at` on are the record of inode `v`.
pub open spec fn inode_stands_at(b: Seq<u8>, at: int, v: InodeView) -> bool {
    &&& v.id == word(b, at)
    &&& v.kind == if b[at + 4] == 1 {
        InodeType::File
    } else if b[at + 4] == 2 {
        InodeType::Dir
    } else {
        InodeType::Free
    }
    &&& v.links == b[at + 5]
    &&& v.size == word(b, at + 8)
    &&& v.direct.len() == 12
    &&& forall|k: int| 0 <= k < 12 ==> #[trigger] v.direct[k] == word(b, at + 16 + 4 * k)
}

/// Inode `id` stands at byte `128 * id` of the inode table.
pub proof fn inode_reading(b: Seq<u8>, sb: Superblock, id: u32)
    ensures
        ({
            let n = sb.inode_table_start + id as int / 32;
            match find_inode(b, sb, id) {
                Ok(v) => {
                    &&& n <= u32::MAX
                    &&& 4096 * (n + 1) <= b.len()
                    &&& inode_stands_at(b, 4096 * sb.inode_table_start + 128 * id, v)
                },
                Err(e) => if n > u32::MAX {
                    e == Failure::Fault
                } else {
                    &&& 4096 * (n + 1) > b.len()
                    &&& e == Failure::Io("failed to fill whole buffer"@)
                },
            }
        }),
{
    reveal(le32);
    let n = inode_block(sb, id);
    if n <= u32::MAX {
        blocks(b, n as u32);
        if let Ok(blk) = load(b, n as u32) {
            let pos = inode_pos(id);
            let raw = blk.subrange(pos, pos + 128);
            let at = 4096 * sb.inode_table_start + 128 * id;
            assert(at == 4096 * n + pos);
            assert forall|i: int| 0 <= i < 128 implies #[trigger] raw[i] == b[at + i] by {
                assert(raw[i] == blk[pos + i]);
            }
            let v = inode_in(blk, id);
            assert(v.id == word(raw, 0));
            assert(v.size == word(raw, 8));
            assert forall|k: int| 0 <= k < 12 implies #[trigger] v.direct[k] == word(
                b,
                at + 16 + 4 * k,
            ) by {
                assert(v.direct[k] == word(raw, 16 + 4 * k));
                assert(raw[16 + 4 * k] == b[at + (16 + 4 * k)]);
                assert(raw[16 + 4 * k + 1] == b[at + (16 + 4 * k + 1)]);
                assert(raw[16 + 4 * k + 2] == b[at + (16 + 4 * k + 2)]);
                assert(raw[16 + 4 * k + 3] == b[at + (16 + 4 * k + 3)]);
            }
        }
    }
}

/// Writing an inode writes one block: the record at byte `128 * id` of the inode table, for the
/// number that the inode itself has. No byte outside the record changes.
pub proof fn inode_writing(img: Image, sb: Superblock, v: InodeView)
    requires
        v.direct.len() == 12,
        sb.inode_table_start + v.id as int / 32 <= u32::MAX,
        4096 * (sb.inode_table_start + v.id as int / 32 + 1) <= img.bytes.len(),
    ensures
        ({
            let (next, r) = put_inode(img, sb, v);
            let at = 4096 * sb.inode_table_start + 128 * v.id;
            &&& r == Ok::<(), Failure>(())
            &&& next.bytes.len() == img.bytes.len()
            &&& inode_stands_at(next.bytes, at, v)
            &&& forall|i: int|
                6 <= i < 128 && !(8 <= i < 12) && !(16 <= i < 64) ==> #[trigger] next.bytes[at + i]
                    == 0
            &&& forall|i: int|
                0 <= i < img.bytes.len() && !(at <= i < at + 128) ==> #[trigger] next.bytes[i]
                    == img.bytes[i]
            &&& next.writes.len() == img.writes.len() + 1
            &&& next.writes.drop_last() == img.writes
            &&& next.writes.last().0 == sb.inode_table_start + v.id as int / 32
        }),
{
    let n = inode_block(sb, v.id) as u32;
    blocks(img.bytes, n);
    let blk = load(img.bytes, n)->Ok_0;
    let pos = inode_pos(v.id);
    let d = splice(blk, pos, inode_bytes(v));
    block_writes(img, n, d);
    let c = img.write(n, d).bytes;
    let at = 4096 * sb.inode_table_start + 128 * v.id;
    assert(at == 4096 * n + pos);
    let raw = inode_bytes(v);
    assert forall|i: int| 0 <= i < 128 implies #[trigger] c[at + i] == raw[i] by {
        assert(d[pos + i] == raw[i]);
        assert(c[4096 * n + (pos + i)] == d[pos + i]);
    }
    words(le32_bytes(v.id), 0, v.id, 0);
    words(le32_bytes(v.size), 0, v.size, 0);
    assert(c[at + 0] == raw[0] && c[at + 1] == raw[1] && c[at + 2] == raw[2] && c[at + 3]
        == raw[3]);
    assert(c[at + 4] == raw[4] && c[at + 5] == raw[5]);
    assert(c[at + 8] == raw[8] && c[at + 9] == raw[9] && c[at + 10] == raw[10] && c[at + 11]
        == raw[11]);
    assert forall|k: int| 0 <= k < 12 implies #[trigger] v.direct[k] == word(
        c,
        at + 16 + 4 * k,
    ) by {
        let p = v.direct[k];
        words(le32_bytes(p), 0, p, 0);
        assert(c[at + (16 + 4 * k)] == raw[16 + 4 * k]);
        assert(c[at + (16 + 4 * k + 1)] == raw[16 + 4 * k + 1]);
        assert(c[at + (16 + 4 * k + 2)] == raw[16 + 4 * k + 2]);
        assert(c[at + (16 + 4 * k + 3)] == raw[16 + 4 * k + 3]);
    }
}

/// An inode whose place has no block number, or lies behind the end of the image, is not written.
pub proof fn inode_without_place(img: Image, sb: Superblock, v: InodeView)
    ensures
        ({
            let n = sb.inode_table_start + v.id as int / 32;
            &&& n > u32::MAX ==> put_inode(img, sb, v) == (img, Err::<(), Failure>(Failure::Fault))
            &&& n <= u32::MAX && 4096 * (n + 1) > img.bytes.len() ==> put_inode(img, sb, v) == (
                img,
                Err::<(), Failure>(Failure::Io("failed to fill whole buffer"@)),
            )
        }),
{
    let n = inode_block(sb, v.id);
    if n <= u32::MAX {
        blocks(img.bytes, n as u32);
    }
}

/// A directory record: the flag, the kind, the length of the name, the inode and the name, which
/// has to lie inside the record.
pub proof fn record_reading(raw: Seq<u8>)
    ensures
        match parse_dirent(raw) {
            Ok(e) => {
                &&& 8 + half_word(raw, 2) <= raw.len()
                &&& e.active == raw[0]
                &&& e.kind == if raw[1] == 1 {
                    InodeType::File
                } else if raw[1] == 2 {
                    InodeType::Dir
                } else {
                    InodeType::Free
                }
                &&& e.inode_id == word(raw, 4)
                &&& e.name == lossy_text(raw.subrange(8, 8 + half_word(raw, 2)))
            },
            Err(e) => 8 + half_word(raw, 2) > raw.len() && e == Failure::Corrupt,
        },
{
    reveal(le32);
}

/// A directory record has 264 bytes and keeps at most 255 bytes of the name's UTF-8 form.
pub proof fn record_writing(e: DirentView)
    ensures
        ({
            let raw = dirent_bytes(e);
            let name = encode_utf8(e.name);
            let n = if name.len() < 255 {
                name.len() as int
            } else {
                255
            };
            &&& raw.len() == 264
            &&& raw[0] == e.active
            &&& raw[1] == if e.kind == InodeType::File {
                1
            } else if e.kind == InodeType::Dir {
                2
            } else {
                0int
            }
            &&& half_word(raw, 2) == n
            &&& word(raw, 4) == e.inode_id
            &&& raw.subrange(8, 8 + n) == name.take(n)
            &&& forall|i: int| 8 + n <= i < 264 ==> #[trigger] raw[i] == 0
            &&& stored_name(e.name) == name.take(n)
        }),
{
    let raw = dirent_bytes(e);
    let name = encode_utf8(e.name);
    let kept = stored_name(e.name);
    words(le32_bytes(e.inode_id), 0, e.inode_id, kept.len() as u16);
    assert(kept =~= name.take(kept.len() as int));
    assert(raw.subrange(8, 8 + kept.len() as int) =~= kept);
}

/// The UTF-8 form of a text is read back as the text.
pub proof fn names_are_utf8(text: Seq<char>, raw: Seq<u8>)
    ensures
        lossy_text(encode_utf8(text)) == text,
        valid_utf8(raw) ==> encode_utf8(lossy_text(raw)) == raw,
{
    encode_utf8_valid_utf8(text);
    encode_utf8_decode_utf8(text);
    if valid_utf8(raw) {
        vstd::utf8::decode_utf8_encode_utf8(raw);
    }
}

} // verus!
