//! What the journal block holds, and what mounting makes of it.

use crate::bytes::{le32, le32_bytes, zeros};
use crate::disk::{block, lemma_block_len, lemma_store, load, padded, readable, Image};
use crate::error::Failure;
use crate::format_laws::{block_writes, blocks, superblock_reading, superblock_writing, word, words};
use crate::fs::{mounted, FsView, OpenHandle};
use crate::journal::{
    interrupted, list_end, mark, marker_added, marker_bytes, marker_pairs, markers, tidy, unpaired,
    with_marker, TX_BEGIN, TX_COMMIT,
};
use crate::superblock::{superblock_of, superblock_read_after_write, with_superblock, Superblock};
use vstd::prelude::*;

verus! {

/// The bytes of `TX_BEGIN` in ASCII.
pub open spec fn begin_text() -> Seq<u8> {
    seq![84u8, 88, 95, 66, 69, 71, 73, 78]
}

/// The bytes of `TX_COMMIT` in ASCII.
pub open spec fn commit_text() -> Seq<u8> {
    seq![84u8, 88, 95, 67, 79, 77, 77, 73, 84]
}

/// The two markers are the ASCII texts `TX_BEGIN` and `TX_COMMIT`.
pub proof fn marker_texts()
    ensures
        TX_BEGIN@ == begin_text(),
        TX_COMMIT@ == commit_text(),
        begin_text() != commit_text(),
{
    assert(TX_BEGIN@ =~= begin_text());
    assert(TX_COMMIT@ =~= commit_text());
    assert(begin_text().len() != commit_text().len());
}

/// A marker as stored: its length in four bytes, least significant first, and its bytes.
pub open spec fn stored_marker(m: Seq<u8>) -> Seq<u8> {
    seq![
        (m.len() as int % 256) as u8,
        (m.len() as int / 256 % 256) as u8,
        (m.len() as int / 65536 % 256) as u8,
        (m.len() as int / 16777216) as u8,
    ] + m
}

/// Markers as stored, one behind the other.
pub open spec fn stored_markers(ms: Seq<Seq<u8>>) -> Seq<u8>
    decreases ms.len(),
{
    if ms.len() == 0 {
        Seq::empty()
    } else {
        stored_marker(ms[0]) + stored_markers(ms.drop_first())
    }
}

/// A journal block that holds these markers.
pub open spec fn journal_of(ms: Seq<Seq<u8>>) -> Seq<u8> {
    stored_markers(ms) + zeros((4096 - stored_markers(ms).len()) as nat)
}

/// The markers after `m` was recorded: behind the others, or alone where the block has no room
/// for it.
pub open spec fn recorded(ms: Seq<Seq<u8>>, m: Seq<u8>) -> Seq<Seq<u8>> {
    if stored_markers(ms).len() + 4 + m.len() > 4096 {
        seq![m]
    } else {
        ms.push(m)
    }
}

/// Whether a change is under way: the last of the two kinds of marker is a begin marker.
pub open spec fn under_way(ms: Seq<Seq<u8>>) -> bool
    decreases ms.len(),
{
    ms.len() > 0 && (ms.last() == begin_text() || (ms.last() != commit_text() && under_way(
        ms.drop_last(),
    )))
}

/// How a stored marker begins.
proof fn lemma_stored_marker(m: Seq<u8>)
    requires
        m.len() <= u32::MAX,
    ensures
        stored_marker(m) == marker_bytes(m),
        stored_marker(m).len() == 4 + m.len(),
        word(stored_marker(m), 0) == m.len(),
{
    reveal(le32_bytes);
    assert(stored_marker(m) =~= marker_bytes(m));
}

/// Markers stored behind others.
proof fn lemma_stored_push(ms: Seq<Seq<u8>>, m: Seq<u8>)
    ensures
        stored_markers(ms.push(m)) == stored_markers(ms) + stored_marker(m),
    decreases ms.len(),
{
    if ms.len() == 0 {
        assert(ms.push(m).drop_first() =~= Seq::empty());
        assert(stored_markers(ms.push(m).drop_first()) == Seq::<u8>::empty());
        assert(stored_markers(ms.push(m)) =~= stored_markers(ms) + stored_marker(m));
    } else {
        assert(ms.push(m).drop_first() =~= ms.drop_first().push(m));
        lemma_stored_push(ms.drop_first(), m);
        assert(stored_markers(ms.push(m)) =~= stored_markers(ms) + stored_marker(m));
    }
}

/// Markers that stand in a block are read from it.
proof fn lemma_markers_at(b: Seq<u8>, off: int, ms: Seq<Seq<u8>>)
    requires
        0 <= off,
        off + stored_markers(ms).len() <= b.len(),
        forall|k: int| 0 <= k < ms.len() ==> 0 < (#[trigger] ms[k]).len() <= u32::MAX,
        b.subrange(off, off + stored_markers(ms).len()) == stored_markers(ms),
        ({
            let end = off + stored_markers(ms).len();
            end + 4 > b.len() || word(b, end) == 0 || end + 4 + word(b, end) > b.len()
        }),
    ensures
        markers(b, off) == ms,
        off + stored_markers(ms).len() + 4 > b.len() || word(b, off + stored_markers(ms).len())
            == 0 ==> list_end(b, off) == off + stored_markers(ms).len(),
    decreases ms.len(),
{
    let all = stored_markers(ms);
    let part = b.subrange(off, off + all.len());
    if ms.len() == 0 {
        words(b, off, 0, 0);
        assert(markers(b, off) =~= ms);
    } else {
        let m = ms[0];
        let rest = ms.drop_first();
        lemma_stored_marker(m);
        assert forall|i: int| 0 <= i < 4 + m.len() implies #[trigger] b[off + i] == stored_marker(
            m,
        )[i] by {
            assert(part[i] == all[i]);
        }
        assert(b[off + 0] == stored_marker(m)[0] && b[off + 1] == stored_marker(m)[1]);
        assert(b[off + 2] == stored_marker(m)[2] && b[off + 3] == stored_marker(m)[3]);
        words(b, off, 0, 0);
        assert(le32(b, off) == m.len());
        let next = off + 4 + m.len();
        assert(b.subrange(off + 4, next) =~= m) by {
            assert forall|i: int| 0 <= i < m.len() implies b.subrange(off + 4, next)[i] == m[i] by {
                assert(b[off + (4 + i)] == stored_marker(m)[4 + i]);
            }
        }
        let tail = stored_markers(rest);
        assert(b.subrange(next, next + tail.len()) =~= tail) by {
            assert forall|i: int| 0 <= i < tail.len() implies b.subrange(next, next + tail.len())[i]
                == tail[i] by {
                assert(part[4 + m.len() + i] == all[4 + m.len() + i]);
            }
        }
        assert forall|k: int| 0 <= k < rest.len() implies 0 < (#[trigger] rest[k]).len()
            <= u32::MAX by {
            assert(rest[k] == ms[k + 1]);
        }
        lemma_markers_at(b, next, rest);
        assert(markers(b, off) =~= seq![m] + rest);
        assert(seq![m] + rest =~= ms);
    }
}

/// A journal block is read as the markers that stand at its front, one behind the other, up to
/// a length of zero, a length that leaves the block, or the end of the block.
pub proof fn journal_reading(b: Seq<u8>, ms: Seq<Seq<u8>>)
    requires
        b.len() == 4096,
        forall|k: int| 0 <= k < ms.len() ==> 0 < (#[trigger] ms[k]).len() <= u32::MAX,
        stored_markers(ms).len() <= 4096,
        b.take(stored_markers(ms).len() as int) == stored_markers(ms),
        ({
            let end = stored_markers(ms).len() as int;
            end + 4 > 4096 || word(b, end) == 0 || end + 4 + word(b, end) > 4096
        }),
    ensures
        markers(b, 0) == ms,
        interrupted(b) == under_way(ms),
{
    assert(b.subrange(0, stored_markers(ms).len() as int) =~= b.take(
        stored_markers(ms).len() as int,
    ));
    lemma_markers_at(b, 0, ms);
    lemma_under_way(ms);
}

/// Whether a change is under way is what pairing says.
pub proof fn lemma_under_way(ms: Seq<Seq<u8>>)
    ensures
        unpaired(ms) == under_way(ms),
    decreases ms.len(),
{
    marker_texts();
    if ms.len() == 0 {
        marker_pairs(ms, TX_BEGIN@);
        assert(ms =~= Seq::empty());
    } else {
        let front = ms.drop_last();
        lemma_under_way(front);
        marker_pairs(front, ms.last());
        assert(front.push(ms.last()) =~= ms);
    }
}

/// The list up to its end is the markers that are read.
proof fn lemma_list_is_stored(b: Seq<u8>, off: int)
    requires
        0 <= off <= b.len(),
        list_end(b, off) <= b.len(),
    ensures
        off <= list_end(b, off),
        b.subrange(off, list_end(b, off)) == stored_markers(markers(b, off)),
        forall|k: int|
            0 <= k < markers(b, off).len() ==> 0 < (#[trigger] markers(b, off)[k]).len()
                <= u32::MAX,
    decreases b.len() - off,
{
    if off + 4 > b.len() || le32(b, off) == 0 {
        assert(b.subrange(off, off) =~= Seq::empty());
    } else {
        let next = off + 4 + le32(b, off);
        lemma_list_end_behind(b, next);
        lemma_list_is_stored(b, next);
        let m = b.subrange(off + 4, next);
        let rest = markers(b, next);
        let all = markers(b, off);
        assert(all.drop_first() =~= rest);
        assert(all[0] == m);
        lemma_stored_marker(m);
        words(b, off, 0, 0);
        lemma_word_bytes(b, off, m);
        let end = list_end(b, off);
        assert(b.subrange(off, end) =~= stored_marker(m) + stored_markers(rest)) by {
            let joined = stored_marker(m) + stored_markers(rest);
            assert forall|i: int| 0 <= i < end - off implies b.subrange(off, end)[i]
                == joined[i] by {
                if i >= 4 + m.len() {
                    assert(b.subrange(next, end)[i - 4 - m.len()] == b[off + i]);
                }
            }
        }
        assert forall|k: int| 0 <= k < all.len() implies 0 < (#[trigger] all[k]).len()
            <= u32::MAX by {
            if k > 0 {
                assert(all[k] == rest[k - 1]);
            }
        }
    }
}

/// A list does not end before it begins.
proof fn lemma_list_end_behind(b: Seq<u8>, off: int)
    ensures
        off <= list_end(b, off),
    decreases b.len() + u32::MAX - off,
{
    if !(off + 4 > b.len() || le32(b, off) == 0) {
        lemma_list_end_behind(b, off + 4 + le32(b, off));
    }
}

/// Four bytes are fixed by the number that they stand for.
proof fn lemma_word_bytes(b: Seq<u8>, off: int, m: Seq<u8>)
    requires
        word(b, off) == m.len(),
        m.len() <= u32::MAX,
    ensures
        b[off] == stored_marker(m)[0],
        b[off + 1] == stored_marker(m)[1],
        b[off + 2] == stored_marker(m)[2],
        b[off + 3] == stored_marker(m)[3],
{
}

/// A tidy journal block is its markers as stored, and zeros behind them.
pub proof fn tidy_journal(b: Seq<u8>)
    requires
        b.len() == 4096,
        tidy(b),
    ensures
        b == journal_of(markers(b, 0)),
        stored_markers(markers(b, 0)).len() <= 4096,
        list_end(b, 0) == stored_markers(markers(b, 0)).len(),
        forall|k: int|
            0 <= k < markers(b, 0).len() ==> 0 < (#[trigger] markers(b, 0)[k]).len() <= u32::MAX,
{
    lemma_list_is_stored(b, 0);
    let end = list_end(b, 0);
    let ms = markers(b, 0);
    assert(b =~= journal_of(ms)) by {
        assert forall|i: int| 0 <= i < 4096 implies b[i] == journal_of(ms)[i] by {
            if i < end {
                assert(b.subrange(0, end)[i] == b[i]);
            }
        }
    }
}

/// Recording a marker on an image with a tidy journal writes the journal block once. The block
/// then holds the markers that it held and the new one, or the new one alone where there was no
/// room for it, and is tidy again.
pub proof fn recording(img: Image, sb: Superblock, m: Seq<u8>)
    requires
        readable(img.bytes, sb.journal_start as int),
        tidy(block(img.bytes, sb.journal_start as int)),
        0 < m.len() <= 4092,
    ensures
        ({
            let n = sb.journal_start;
            let (next, r) = mark(img, sb, m);
            let ms = markers(block(img.bytes, n as int), 0);
            let now = block(next.bytes, n as int);
            &&& r == Ok::<(), Failure>(())
            &&& next.writes == img.writes.push((n, now))
            &&& now == journal_of(recorded(ms, m))
            &&& tidy(now)
            &&& markers(now, 0) == recorded(ms, m)
            &&& interrupted(now) == if m == begin_text() {
                true
            } else if m == commit_text() {
                false
            } else {
                under_way(recorded(ms, m))
            }
        }),
{
    let n = sb.journal_start;
    let b = block(img.bytes, n as int);
    lemma_block_len(img.bytes, n as int);
    let ms = markers(b, 0);
    tidy_journal(b);
    marker_added(b, m);
    let d = with_marker(b, m);
    assert(d.len() == 4096);
    tidy_journal(d);
    let next = mark(img, sb, m).0;
    lemma_store(img.bytes, n, padded(d));
    assert(padded(d) =~= d);
    assert(next.writes =~= img.writes.push((n, d)));
    lemma_under_way(recorded(ms, m));
    marker_texts();
    let all = recorded(ms, m);
    assert(all.last() == m);
}

/// What mounting an image that it accepts writes.
proof fn lemma_mounted(img: Image, sb: Superblock)
    requires
        superblock_of(img.bytes) == Ok::<Superblock, Failure>(sb),
        readable(img.bytes, sb.journal_start as int),
        mounted(img) is Ok,
    ensures
        ({
            let b = img.bytes;
            let n = sb.journal_start;
            let fs = mounted(img)->Ok_0;
            let w = fs.disk.writes;
            &&& fs.disk.base == img.base
            &&& w.len() == img.writes.len() + 2
            &&& w.take(img.writes.len() as int) == img.writes
            &&& w[w.len() - 2] == (n, zeros(4096))
            &&& w[w.len() - 1].0 == 0
            &&& superblock_of(fs.disk.bytes) == Ok::<Superblock, Failure>(fs.sb)
            &&& fs.disk.bytes.len() == b.len()
            &&& forall|i: int|
                4096 <= i < b.len() ==> #[trigger] fs.disk.bytes[i] == if 4096 * n <= i < 4096 * (n
                    + 1) {
                    0
                } else {
                    b[i]
                }
        }),
{
    let n = sb.journal_start;
    let z = zeros(4096);
    let checked = img.write(n, z);
    let fs = mounted(img)->Ok_0;
    let w = fs.disk.writes;
    let k = img.writes.len() as int;
    assert(fs.disk == with_superblock(checked, fs.sb));
    block_writes(img, n, z);
    assert(checked.bytes.subrange(4096 * n, 4096 * n + 4096) =~= z);
    assert(checked.writes =~= img.writes.push((n, z)));
    superblock_read_after_write(checked, fs.sb);
    superblock_writing(checked, fs.sb);
    assert(w.len() == k + 2);
    assert(w[k] == checked.writes[k]);
    assert(w.take(k) =~= img.writes);
}

/// What mounting makes of any image. It is refused where it is too short for a superblock, does
/// not begin with the magic number and the version, has no journal block, or the journal tells of
/// a change under way; and then nothing was written. Else the journal block is emptied and the
/// superblock is written, marked as in use and with the next sequence number; no descriptor is
/// open, and the first one will be 3.
pub proof fn mounting_any_image(img: Image)
    ensures
        ({
            let b = img.bytes;
            let n = word(b, 16);
            match mounted(img) {
                Ok(fs) => {
                    let w = fs.disk.writes;
                    &&& b.len() >= 4096
                    &&& word(b, 0) == 0x5553_4653
                    &&& word(b, 4) == 1
                    &&& 4096 * (n + 1) <= b.len()
                    &&& !under_way(markers(b.subrange(4096 * n, 4096 * (n + 1)), 0))
                    &&& superblock_of(b) matches Ok(sb)
                    &&& fs.sb.clean == 0
                    &&& fs.sb.sequence == (word(b, 56) + 1) % 0x1_0000_0000
                    &&& fs.sb == Superblock { clean: 0, sequence: fs.sb.sequence, ..sb }
                    &&& fs.next_fd == 3
                    &&& fs.open == Map::<i32, OpenHandle>::empty()
                    &&& fs.disk.base == img.base
                    &&& w.len() == img.writes.len() + 2
                    &&& w.take(img.writes.len() as int) == img.writes
                    &&& w[w.len() - 2] == (n as u32, zeros(4096))
                    &&& w[w.len() - 1].0 == 0
                    &&& superblock_of(fs.disk.bytes) == Ok::<Superblock, Failure>(fs.sb)
                    &&& fs.disk.bytes.len() == b.len()
                    &&& forall|i: int|
                        4096 <= i < b.len() ==> #[trigger] fs.disk.bytes[i] == if 4096 * n <= i
                            < 4096 * (n + 1) {
                            0
                        } else {
                            b[i]
                        }
                },
                Err(e) => if b.len() < 4096 {
                    e == Failure::Io("failed to fill whole buffer"@)
                } else if word(b, 0) != 0x5553_4653 || word(b, 4) != 1 {
                    e == Failure::Corrupt
                } else if 4096 * (n + 1) > b.len() {
                    e == Failure::Io("failed to fill whole buffer"@)
                } else {
                    &&& under_way(markers(b.subrange(4096 * n, 4096 * (n + 1)), 0))
                    &&& e == Failure::Corrupt
                },
            }
        }),
{
    let b = img.bytes;
    superblock_reading(b);
    if let Ok(sb) = superblock_of(b) {
        let n = sb.journal_start;
        blocks(b, n);
        if let Ok(blk) = load(b, n) {
            assert(blk =~= b.subrange(4096 * n, 4096 * (n + 1)));
            lemma_under_way(markers(blk, 0));
            if !interrupted(blk) {
                lemma_mounted(img, sb);
            }
        }
    }
}

/// Unmounting writes block 0 and nothing else: the superblock, marked as left clean and with the
/// next sequence number. Descriptors stay.
pub proof fn unmounting_any_state(fs: FsView)
    ensures
        ({
            let next = fs.unmounted();
            &&& next.sb.clean == 1
            &&& next.sb.sequence == (fs.sb.sequence + 1) % 0x1_0000_0000
            &&& next.sb == Superblock { clean: 1, sequence: next.sb.sequence, ..fs.sb }
            &&& superblock_of(next.disk.bytes) == Ok::<Superblock, Failure>(next.sb)
            &&& next.next_fd == fs.next_fd
            &&& next.open == fs.open
            &&& next.disk.writes.len() == fs.disk.writes.len() + 1
            &&& next.disk.writes.drop_last() == fs.disk.writes
            &&& next.disk.writes.last().0 == 0
            &&& forall|i: int|
                4096 <= i < fs.disk.bytes.len() ==> #[trigger] next.disk.bytes[i]
                    == fs.disk.bytes[i]
        }),
{
    let next = fs.unmounted();
    superblock_writing(fs.disk, next.sb);
    superblock_read_after_write(fs.disk, next.sb);
    assert(next.disk.writes.drop_last() =~= fs.disk.writes);
}

} // verus!
