//! The journal: a block of markers that tell whether a change was cut short.
//!
//! A marker is stored as its length, in a word, and its bytes. A length of zero ends the list.

use crate::bytes::{
    copy_range, le32, le32_bytes, lemma_le32_bytes_len, lemma_le32_local, lemma_word_at,
    lemma_zero_word, put, read_u32, same_bytes, splice, write_u32, zeroed, zeros,
};
use crate::disk::{load, Disk, Image};
use crate::error::{agrees, Failure, FsError};
use crate::layout::BLOCK_SIZE;
use crate::superblock::Superblock;
use vstd::prelude::*;

verus! {

/// `TX_BEGIN` in ASCII: a change is under way.
pub const TX_BEGIN: [u8; 8] = [0x54, 0x58, 0x5f, 0x42, 0x45, 0x47, 0x49, 0x4e];

/// `TX_COMMIT` in ASCII: the change is complete.
pub const TX_COMMIT: [u8; 9] = [0x54, 0x58, 0x5f, 0x43, 0x4f, 0x4d, 0x4d, 0x49, 0x54];

/// Where the list of markers that has come to `off` ends.
pub open spec fn list_end(b: Seq<u8>, off: int) -> int
    decreases b.len() + u32::MAX - off,
{
    if off + 4 > b.len() || le32(b, off) == 0 {
        off
    } else {
        list_end(b, off + 4 + le32(b, off))
    }
}

/// A marker as stored.
pub open spec fn marker_bytes(marker: Seq<u8>) -> Seq<u8> {
    le32_bytes(marker.len() as u32) + marker
}

/// The journal block after a marker was added to it. Where the marker does not fit, the list
/// starts over.
pub open spec fn with_marker(b: Seq<u8>, marker: Seq<u8>) -> Seq<u8> {
    let end = list_end(b, 0);
    if end + 4 + marker.len() > b.len() {
        splice(zeros(b.len()), 0, marker_bytes(marker))
    } else {
        splice(b, end, marker_bytes(marker))
    }
}

/// The markers from `off` on that lie whole in the block.
pub open spec fn markers(b: Seq<u8>, off: int) -> Seq<Seq<u8>>
    decreases b.len() - off,
{
    if off + 4 > b.len() || le32(b, off) == 0 || off + 4 + le32(b, off) > b.len() {
        Seq::empty()
    } else {
        seq![b.subrange(off + 4, off + 4 + le32(b, off))] + markers(b, off + 4 + le32(b, off))
    }
}

/// Whether some begin marker in a list has no commit marker behind it.
pub open spec fn unpaired(ms: Seq<Seq<u8>>) -> bool {
    exists|i: int|
        0 <= i < ms.len() && #[trigger] ms[i] == TX_BEGIN@ && forall|j: int|
            i < j < ms.len() ==> ms[j] != TX_COMMIT@
}

/// Whether the markers tell of a change that began and was not completed.
pub open spec fn interrupted(b: Seq<u8>) -> bool {
    unpaired(markers(b, 0))
}

/// The outcome of adding a marker to the journal.
pub open spec fn mark(img: Image, sb: Superblock, marker: Seq<u8>) -> (Image, Result<
    (),
    Failure,
>) {
    match load(img.bytes, sb.journal_start) {
        Ok(b) => (img.write(sb.journal_start, with_marker(b, marker)), Ok(())),
        Err(e) => (img, Err(e)),
    }
}

/// The outcome of checking the journal and emptying it.
pub open spec fn check_journal(img: Image, sb: Superblock) -> (Image, Result<(), Failure>) {
    match load(img.bytes, sb.journal_start) {
        Ok(b) => if interrupted(b) {
            (img, Err(Failure::Corrupt))
        } else {
            (img.write(sb.journal_start, zeros(BLOCK_SIZE as nat)), Ok(()))
        },
        Err(e) => (img, Err(e)),
    }
}

/// Whether the list of markers ends inside the block and only zeros follow it.
pub open spec fn tidy(b: Seq<u8>) -> bool {
    &&& list_end(b, 0) <= b.len()
    &&& forall|i: int| list_end(b, 0) <= i < b.len() ==> b[i] == 0
}

/// A list does not end before it begins.
proof fn lemma_list_end_after(b: Seq<u8>, off: int)
    ensures
        off <= list_end(b, off),
    decreases b.len() + u32::MAX - off,
{
    if !(off + 4 > b.len() || le32(b, off) == 0) {
        lemma_list_end_after(b, off + 4 + le32(b, off));
    }
}

/// An empty journal block is tidy and holds no marker.
pub proof fn empty_journal()
    ensures
        tidy(zeros(BLOCK_SIZE as nat)),
        markers(zeros(BLOCK_SIZE as nat), 0) == Seq::<Seq<u8>>::empty(),
{
    lemma_zero_word(zeros(BLOCK_SIZE as nat), 0);
}

/// The list from `off` on after `marker` was put at the end of it.
proof fn lemma_append(b: Seq<u8>, c: Seq<u8>, off: int, marker: Seq<u8>)
    requires
        0 <= off,
        0 < marker.len() <= u32::MAX,
        b.len() == c.len(),
        list_end(b, off) + 4 + marker.len() <= b.len(),
        forall|i: int| list_end(b, off) <= i < b.len() ==> b[i] == 0,
        forall|i: int|
            off <= i < b.len() ==> #[trigger] c[i] == splice(
                b,
                list_end(b, off),
                marker_bytes(marker),
            )[i],
    ensures
        markers(c, off) == markers(b, off).push(marker),
        list_end(c, off) == list_end(b, off) + 4 + marker.len(),
    decreases b.len() - off,
{
    broadcast use lemma_le32_bytes_len;

    let end = list_end(b, off);
    lemma_list_end_after(b, off);
    if off + 4 > b.len() || le32(b, off) == 0 {
        lemma_word_at(c, off, marker.len() as u32);
        let next = off + 4 + marker.len();
        if next + 4 <= c.len() {
            assert(c[next] == 0 && c[next + 1] == 0 && c[next + 2] == 0 && c[next + 3] == 0);
            lemma_zero_word(c, next);
        }
        assert(list_end(c, next) == next);
        assert(c.subrange(off + 4, next) =~= marker);
        assert(markers(c, next) =~= Seq::empty());
        assert(markers(c, off) =~= seq![marker]);
        assert(markers(b, off).push(marker) =~= seq![marker]);
    } else {
        let next = off + 4 + le32(b, off);
        lemma_list_end_after(b, next);
        lemma_le32_local(c, off, b, off);
        lemma_append(b, c, next, marker);
        assert(c.subrange(off + 4, next) =~= b.subrange(off + 4, next));
        assert(markers(c, off) =~= markers(b, off).push(marker));
    }
}

/// A begin marker leaves a list unpaired, a commit marker pairs every begin marker in front of
/// it, and any other marker does not matter.
pub proof fn marker_pairs(ms: Seq<Seq<u8>>, marker: Seq<u8>)
    ensures
        unpaired(ms.push(marker)) == if marker == TX_BEGIN@ {
            true
        } else if marker == TX_COMMIT@ {
            false
        } else {
            unpaired(ms)
        },
        !unpaired(Seq::<Seq<u8>>::empty()),
{
    assert(TX_BEGIN@.len() != TX_COMMIT@.len());
    let all = ms.push(marker);
    let n = ms.len() as int;
    assert(all[n] == marker);
    if marker != TX_BEGIN@ && marker != TX_COMMIT@ {
        if unpaired(ms) {
            let i = choose|i: int|
                0 <= i < ms.len() && #[trigger] ms[i] == TX_BEGIN@ && forall|j: int|
                    i < j < ms.len() ==> ms[j] != TX_COMMIT@;
            assert(all[i] == TX_BEGIN@);
            assert forall|j: int| i < j < all.len() implies all[j] != TX_COMMIT@ by {
                if j < n {
                    assert(all[j] == ms[j]);
                }
            }
        }
        if unpaired(all) {
            let i = choose|i: int|
                0 <= i < all.len() && #[trigger] all[i] == TX_BEGIN@ && forall|j: int|
                    i < j < all.len() ==> all[j] != TX_COMMIT@;
            assert(ms[i] == TX_BEGIN@);
            assert forall|j: int| i < j < ms.len() implies ms[j] != TX_COMMIT@ by {
                assert(all[j] == ms[j]);
            }
        }
    }
}

/// A marker added to a tidy journal block stands behind the markers that were there, or alone
/// where there was no room for it; and the block is tidy again.
pub proof fn marker_added(b: Seq<u8>, marker: Seq<u8>)
    requires
        b.len() == BLOCK_SIZE,
        tidy(b),
        0 < marker.len() <= BLOCK_SIZE - 4,
    ensures
        tidy(with_marker(b, marker)),
        markers(with_marker(b, marker), 0) == if list_end(b, 0) + 4 + marker.len() > b.len() {
            seq![marker]
        } else {
            markers(b, 0).push(marker)
        },
{
    broadcast use lemma_le32_bytes_len;

    let c = with_marker(b, marker);
    lemma_list_end_after(b, 0);
    if list_end(b, 0) + 4 + marker.len() > b.len() {
        let z = zeros(BLOCK_SIZE as nat);
        empty_journal();
        lemma_zero_word(z, 0);
        lemma_append(z, c, 0, marker);
        assert(markers(z, 0).push(marker) =~= seq![marker]);
    } else {
        lemma_append(b, c, 0, marker);
    }
}

/// Adds `marker` to the journal block; where it does not fit, the block is emptied first.
pub fn append_journal_marker(disk: &mut Disk, sb: &Superblock, marker: &[u8]) -> (r: Result<
    (),
    FsError,
>)
    requires
        old(disk).wf(),
        marker@.len() <= BLOCK_SIZE - 4,
    ensures
        final(disk).wf(),
        final(disk)@ == mark(old(disk)@, *sb, marker@).0,
        agrees(r, mark(old(disk)@, *sb, marker@).1),
{
    broadcast use lemma_le32_bytes_len;

    let mut blk = disk.read_block(sb.journal_start)?;
    let ghost b = blk@;
    let mut off: u64 = 0;
    while off + 4 <= BLOCK_SIZE as u64
        invariant_except_break
            list_end(b, 0) == list_end(b, off as int),
        invariant
            blk@ == b,
            b.len() == BLOCK_SIZE,
            off <= BLOCK_SIZE + u32::MAX + 4,
        ensures
            list_end(b, 0) == off,
        decreases BLOCK_SIZE + u32::MAX - off,
    {
        let len: u32 = read_u32(blk.as_slice(), off as usize);
        if len == 0 {
            break;
        }
        off = off + 4 + len as u64;
    }
    if off + 4 + marker.len() as u64 > BLOCK_SIZE as u64 {
        blk = zeroed(BLOCK_SIZE);
        off = 0;
    }
    let ghost from = blk@;
    write_u32(&mut blk, off as usize, marker.len() as u32);
    put(&mut blk, off as usize + 4, marker);
    assert(blk@ =~= splice(from, off as int, marker_bytes(marker@)));
    disk.write_block(sb.journal_start, blk.as_slice());
    Ok(())
}

/// Checks that the journal does not tell of a change that was cut short, and empties it.
pub fn replay_journal(disk: &mut Disk, sb: &Superblock) -> (r: Result<(), FsError>)
    requires
        old(disk).wf(),
    ensures
        final(disk).wf(),
        final(disk)@ == check_journal(old(disk)@, *sb).0,
        agrees(r, check_journal(old(disk)@, *sb).1),
{
    let blk = disk.read_block(sb.journal_start)?;
    let b = blk.as_slice();
    let begin: [u8; 8] = TX_BEGIN;
    let commit: [u8; 9] = TX_COMMIT;
    let mut under_way = false;
    let mut off: usize = 0;
    let ghost mut seen: Seq<Seq<u8>> = Seq::empty();
    proof {
        marker_pairs(seen, TX_BEGIN@);
        assert(seen + markers(b@, 0) =~= markers(b@, 0));
    }
    while off + 4 <= BLOCK_SIZE
        invariant_except_break
            markers(b@, 0) == seen + markers(b@, off as int),
        invariant
            b@.len() == BLOCK_SIZE,
            off <= BLOCK_SIZE,
            begin@ == TX_BEGIN@,
            commit@ == TX_COMMIT@,
            under_way == unpaired(seen),
        ensures
            markers(b@, 0) == seen,
        decreases BLOCK_SIZE - off,
    {
        let len: u32 = read_u32(b, off);
        if len == 0 || off as u64 + 4 + len as u64 > BLOCK_SIZE as u64 {
            assert(seen + markers(b@, off as int) =~= seen);
            break;
        }
        let next: usize = off + 4 + len as usize;
        let rec = copy_range(b, off + 4, next);
        if same_bytes(rec.as_slice(), begin.as_slice()) {
            under_way = true;
        } else if same_bytes(rec.as_slice(), commit.as_slice()) {
            under_way = false;
        }
        proof {
            marker_pairs(seen, rec@);
            assert(seen + markers(b@, off as int) =~= seen.push(rec@) + markers(b@, next as int));
            seen = seen.push(rec@);
        }
        off = next;
    }
    if under_way {
        return Err(FsError::Corrupt);
    }
    let empty = zeroed(BLOCK_SIZE);
    disk.write_block(sb.journal_start, empty.as_slice());
    Ok(())
}

} // verus!
