//! What a mount finds when the block writes of a change were cut short.

use crate::bitmap::{claim_block, claim_from, claim_inode, first_clear, switch_bit, with_bit};
use crate::bytes::splice;
use crate::directory::{
    link, link_in_block, lookup, records_in_block, seek, unlink, unlink_from, without_record,
};
use crate::dirent::{dirent_bytes, DirentView};
use crate::disk::{block, lemma_block_len, lemma_store, load, padded, readable, replay, Image};
use crate::error::Failure;
use crate::file::{
    blocks_for, chunk, file_bytes, free_from, release_block, release_from, store_chunks, write_file,
};
use crate::fs::{mounted, overwritten, replace_contents, resized, FsView};
use crate::inode::{
    find_inode, inode_block, inode_bytes, inode_pos, put_inode, InodeType, InodeView,
};
use crate::journal::{
    interrupted, mark, marker_added, marker_pairs, markers, with_marker, TX_BEGIN, TX_COMMIT,
};
use crate::journal_laws::{begin_text, commit_text, recorded};
use crate::mount_laws::{healthy, mounting};
use crate::node::{first_records, free_slot, new_dir, new_file, publish};
use crate::node_laws::making;
use crate::path::parent_of;
use crate::sound::{
    block_marked, data_bits, framed, held, intact, lemma_find_inode, lemma_framed, lemma_only,
    lemma_standard, only_block, pointer, sound, standard, table,
};
use crate::steps::{
    first_free_bit_wins, lemma_claim_block, lemma_claim_inode, lemma_put_inode, lemma_write,
};
use crate::superblock::{superblock_of, Superblock};
use crate::tree::{lemma_mark_intact, slot_left};
use crate::tree_laws::lemma_changed_journal;
use crate::walks::lemma_resolve;
use vstd::prelude::*;

verus! {

/// The block writes that were made since `a`.
pub open spec fn writes_since(a: Image, z: Image) -> Seq<(u32, Seq<u8>)> {
    z.writes.skip(a.writes.len() as int)
}

/// Whether `z` comes from `a` by further block writes.
pub open spec fn extends(a: Image, z: Image) -> bool {
    &&& a.writes.len() <= z.writes.len()
    &&& a.writes == z.writes.take(a.writes.len() as int)
    &&& z.bytes == replay(a.bytes, writes_since(a, z))
    &&& forall|k: int|
        a.writes.len() <= k < z.writes.len() ==> (#[trigger] z.writes[k]).1.len() == 4096
}

/// Whether `z` comes from `a` by block writes to neither superblock nor journal.
pub open spec fn quiet(a: Image, z: Image) -> bool {
    &&& extends(a, z)
    &&& forall|k: int| a.writes.len() <= k < z.writes.len() ==> (#[trigger] z.writes[k]).0 >= 65
}

/// Whether all pointers that point anywhere point behind the journal.
pub open spec fn behind_journal(direct: Seq<u32>) -> bool {
    forall|j: int| 0 <= j < direct.len() ==> #[trigger] direct[j] == 0 || direct[j] >= 65
}

/// Writes made in two parts.
proof fn lemma_replay_add(b: Seq<u8>, x: Seq<(u32, Seq<u8>)>, y: Seq<(u32, Seq<u8>)>)
    ensures
        replay(b, x + y) == replay(replay(b, x), y),
    decreases y.len(),
{
    if y.len() == 0 {
        assert(x + y =~= x);
    } else {
        assert((x + y).drop_last() =~= x + y.drop_last());
        lemma_replay_add(b, x, y.drop_last());
    }
}

/// Further writes on further writes are further writes.
proof fn lemma_extends_trans(a: Image, m: Image, z: Image)
    requires
        extends(a, m),
        extends(m, z),
    ensures
        extends(a, z),
        writes_since(a, z) == writes_since(a, m) + writes_since(m, z),
{
    assert(writes_since(a, z) =~= writes_since(a, m) + writes_since(m, z)) by {
        assert forall|i: int| 0 <= i < writes_since(a, m).len() implies writes_since(a, z)[i]
            == writes_since(a, m)[i] by {
            assert(z.writes.take(m.writes.len() as int)[a.writes.len() + i] == m.writes[
                a.writes.len() + i]);
        }
    }
    lemma_replay_add(a.bytes, writes_since(a, m), writes_since(m, z));
    assert(a.writes =~= z.writes.take(a.writes.len() as int)) by {
        assert forall|i: int| 0 <= i < a.writes.len() implies a.writes[i] == z.writes[i] by {
            assert(m.writes.take(a.writes.len() as int)[i] == m.writes[i]);
            assert(z.writes.take(m.writes.len() as int)[i] == z.writes[i]);
        }
    }
    assert forall|k: int| a.writes.len() <= k < z.writes.len() implies (
    #[trigger] z.writes[k]).1.len() == 4096 by {
        if k < m.writes.len() {
            assert(z.writes.take(m.writes.len() as int)[k] == z.writes[k]);
            assert(m.writes[k].1.len() == 4096);
        }
    }
}

/// Quiet writes on quiet writes are quiet writes.
proof fn lemma_quiet_trans(a: Image, m: Image, z: Image)
    requires
        quiet(a, m),
        quiet(m, z),
    ensures
        quiet(a, z),
{
    lemma_extends_trans(a, m, z);
    assert forall|k: int| a.writes.len() <= k < z.writes.len() implies (#[trigger] z.writes[k]).0
        >= 65 by {
        if k < m.writes.len() {
            assert(z.writes.take(m.writes.len() as int)[k] == z.writes[k]);
            assert(m.writes[k].0 >= 65);
        }
    }
}

/// No writes are quiet writes.
proof fn lemma_quiet_same(a: Image)
    ensures
        quiet(a, a),
{
    assert(a.writes.take(a.writes.len() as int) =~= a.writes);
    assert(writes_since(a, a) =~= Seq::empty());
}

/// A block write is a further write, and a quiet one behind the journal.
proof fn lemma_extends_write(a: Image, n: u32, data: Seq<u8>)
    ensures
        extends(a, a.write(n, data)),
        writes_since(a, a.write(n, data)) == seq![(n, padded(data))],
        n >= 65 ==> quiet(a, a.write(n, data)),
{
    let z = a.write(n, data);
    assert(z.writes.take(a.writes.len() as int) =~= a.writes);
    let ws = writes_since(a, z);
    assert(ws =~= seq![(n, padded(data))]);
    assert(ws.drop_last() =~= Seq::empty());
    assert(replay(a.bytes, ws.drop_last()) == a.bytes);
}

/// Claiming a bit is quiet.
proof fn lemma_quiet_claim(img: Image, start: u32, blocks: u32, bi: u32)
    requires
        start >= 65,
    ensures
        quiet(img, claim_from(img, start, blocks, bi).0),
    decreases blocks - bi,
{
    lemma_quiet_same(img);
    if bi < blocks && start + bi <= u32::MAX {
        let n = (start + bi) as u32;
        if let Ok(b) = load(img.bytes, n) {
            match first_clear(b, 0) {
                Some(k) => lemma_extends_write(img, n, with_bit(b, k, true)),
                None => lemma_quiet_claim(img, start, blocks, (bi + 1) as u32),
            }
        }
    }
}

/// Switching a bit is quiet.
proof fn lemma_quiet_switch(img: Image, start: u32, index: u32, on: bool)
    requires
        start >= 65,
    ensures
        quiet(img, switch_bit(img, start, index, on).0),
{
    lemma_quiet_same(img);
    let n = start + index as int / 32768;
    if n <= u32::MAX {
        if let Ok(b) = load(img.bytes, n as u32) {
            lemma_extends_write(
                img,
                n as u32,
                with_bit(b, index as int % 32768, on),
            );
        }
    }
}

/// Writing an inode is quiet.
proof fn lemma_quiet_put(img: Image, sb: Superblock, v: InodeView)
    requires
        standard(sb),
    ensures
        quiet(img, put_inode(img, sb, v).0),
{
    lemma_standard(sb);
    lemma_quiet_same(img);
    if inode_block(sb, v.id) <= u32::MAX {
        let n = inode_block(sb, v.id) as u32;
        if let Ok(b) = load(img.bytes, n) {
            lemma_extends_write(
                img,
                n,
                splice(b, inode_pos(v.id), inode_bytes(v)),
            );
        }
    }
}

/// Storing chunks is quiet.
proof fn lemma_quiet_store_chunks(
    img: Image,
    sb: Superblock,
    direct: Seq<u32>,
    data: Seq<u8>,
    i: int,
)
    requires
        standard(sb),
        behind_journal(direct),
        direct.len() == 12,
        0 <= i,
    ensures
        quiet(img, store_chunks(img, sb, direct, data, i).0),
        store_chunks(img, sb, direct, data, i).1 matches Ok(d) ==> behind_journal(d) && d.len()
            == 12,
    decreases blocks_for(data.len() as int) - i,
{
    lemma_standard(sb);
    lemma_quiet_same(img);
    if i < blocks_for(data.len() as int) && i < 12 {
        let piece = chunk(data, i);
        if direct[i] != 0 {
            let next = img.write(direct[i], piece);
            lemma_extends_write(img, direct[i], piece);
            lemma_quiet_store_chunks(next, sb, direct, data, i + 1);
            lemma_quiet_trans(img, next, store_chunks(next, sb, direct, data, i + 1).0);
        } else {
            lemma_quiet_claim(img, sb.block_bitmap_start, sb.block_bitmap_blocks, 0);
            let (mid, claimed) = claim_block(img, sb);
            if let Ok(n) = claimed {
                let next = mid.write(n, piece);
                lemma_extends_write(mid, n, piece);
                lemma_quiet_trans(img, mid, next);
                let d2 = direct.update(i, n);
                lemma_quiet_store_chunks(next, sb, d2, data, i + 1);
                lemma_quiet_trans(img, next, store_chunks(next, sb, d2, data, i + 1).0);
            }
        }
    }
}

/// Giving a block back is quiet.
proof fn lemma_quiet_release(img: Image, sb: Superblock, n: u32)
    requires
        standard(sb),
    ensures
        quiet(img, release_block(img, sb, n).0),
{
    lemma_standard(sb);
    lemma_quiet_same(img);
    if n >= sb.data_start {
        lemma_quiet_switch(img, sb.block_bitmap_start, (n - sb.data_start) as u32, false);
    }
}

/// Giving back the blocks behind the data is quiet.
proof fn lemma_quiet_release_from(img: Image, sb: Superblock, direct: Seq<u32>, i: int)
    requires
        standard(sb),
    ensures
        quiet(img, release_from(img, sb, direct, i).0),
    decreases 12 - i,
{
    lemma_quiet_same(img);
    if i < 12 {
        if direct[i] == 0 {
            lemma_quiet_release_from(img, sb, direct, i + 1);
        } else {
            lemma_quiet_release(img, sb, direct[i]);
            let (next, r) = release_block(img, sb, direct[i]);
            if r is Ok {
                let d2 = direct.update(i, 0);
                lemma_quiet_release_from(next, sb, d2, i + 1);
                lemma_quiet_trans(img, next, release_from(next, sb, d2, i + 1).0);
            }
        }
    }
}

/// Giving back all blocks is quiet.
proof fn lemma_quiet_free_from(img: Image, sb: Superblock, direct: Seq<u32>, i: int)
    requires
        standard(sb),
    ensures
        quiet(img, free_from(img, sb, direct, i).0),
    decreases direct.len() - i,
{
    lemma_quiet_same(img);
    if i < direct.len() {
        if direct[i] == 0 {
            lemma_quiet_free_from(img, sb, direct, i + 1);
        } else {
            lemma_quiet_release(img, sb, direct[i]);
            let (next, r) = release_block(img, sb, direct[i]);
            if r is Ok {
                lemma_quiet_free_from(next, sb, direct, i + 1);
                lemma_quiet_trans(img, next, free_from(next, sb, direct, i + 1).0);
            }
        }
    }
}

/// Replacing the contents of a file is quiet but for the markers around it.
proof fn lemma_quiet_write_file(img: Image, sb: Superblock, id: u32, data: Seq<u8>)
    requires
        standard(sb),
        find_inode(img.bytes, sb, id) matches Ok(v) ==> behind_journal(v.direct) && v.direct.len()
            == 12,
    ensures
        quiet(img, write_file(img, sb, id, data).0),
{
    lemma_quiet_same(img);
    if let Ok(v) = find_inode(img.bytes, sb, id) {
        if v.kind != InodeType::Dir {
            lemma_quiet_store_chunks(img, sb, v.direct, data, 0);
            let (stored, pointers) = store_chunks(img, sb, v.direct, data, 0);
            if let Ok(d1) = pointers {
                let n = blocks_for(data.len() as int);
                lemma_quiet_release_from(stored, sb, d1, n);
                let (trimmed, rest) = release_from(stored, sb, d1, n);
                lemma_quiet_trans(img, stored, trimmed);
                if let Ok(d) = rest {
                    let w = InodeView { size: data.len() as u32, direct: d, ..v };
                    lemma_quiet_put(trimmed, sb, w);
                    lemma_quiet_trans(img, trimmed, put_inode(trimmed, sb, w).0);
                }
            }
        }
    }
}

/// Adding a record to a block is quiet.
proof fn lemma_quiet_link_in_block(img: Image, sb: Superblock, parent: InodeView, ent: DirentView)
    requires
        standard(sb),
        parent.direct[parent.size as int / 4096] >= 65,
    ensures
        quiet(img, link_in_block(img, sb, parent, ent).0),
{
    lemma_quiet_same(img);
    let n = parent.direct[parent.size as int / 4096];
    let pos = parent.size as int % 4096;
    if let Ok(blk) = load(img.bytes, n) {
        if pos + 264 <= 4096 {
            let rec = dirent_bytes(ent);
            let next = img.write(n, splice(blk, pos, rec));
            lemma_extends_write(img, n, splice(blk, pos, rec));
            let v = InodeView { size: (parent.size + 264) as u32, ..parent };
            lemma_quiet_put(next, sb, v);
            lemma_quiet_trans(img, next, put_inode(next, sb, v).0);
        }
    }
}

/// Adding an entry is quiet.
proof fn lemma_quiet_link(img: Image, sb: Superblock, parent_id: u32, ent: DirentView)
    requires
        standard(sb),
        find_inode(img.bytes, sb, parent_id) matches Ok(v) ==> behind_journal(v.direct)
            && v.direct.len() == 12,
    ensures
        quiet(img, link(img, sb, parent_id, ent).0),
{
    lemma_standard(sb);
    lemma_quiet_same(img);
    if let Ok(v) = find_inode(img.bytes, sb, parent_id) {
        let index = v.size as int / 4096;
        if index < 12 {
            if v.direct[index] != 0 {
                lemma_quiet_link_in_block(img, sb, v, ent);
            } else {
                lemma_quiet_claim(img, sb.block_bitmap_start, sb.block_bitmap_blocks, 0);
                let (next, claimed) = claim_block(img, sb);
                if let Ok(n) = claimed {
                    let w = InodeView { direct: v.direct.update(index, n), ..v };
                    lemma_quiet_link_in_block(next, sb, w, ent);
                    lemma_quiet_trans(img, next, link_in_block(next, sb, w, ent).0);
                }
            }
        }
    }
}

/// Switching off an entry is quiet.
proof fn lemma_quiet_unlink_from(
    img: Image,
    direct: Seq<u32>,
    i: int,
    remaining: int,
    name: Seq<char>,
)
    requires
        behind_journal(direct),
        0 <= i,
    ensures
        quiet(img, unlink_from(img, direct, i, remaining, name).0),
    decreases direct.len() - i,
{
    lemma_quiet_same(img);
    if i < direct.len() {
        if direct[i] == 0 {
            lemma_quiet_unlink_from(img, direct, i + 1, remaining, name);
        } else if let Ok(blk) = load(img.bytes, direct[i]) {
            let n = records_in_block(remaining);
            match seek(blk, 0, n, name) {
                Ok(Some(k)) => lemma_extends_write(
                    img,
                    direct[i],
                    without_record(blk, k),
                ),
                Ok(None) => lemma_quiet_unlink_from(
                    img,
                    direct,
                    i + 1,
                    remaining - 264 * n,
                    name,
                ),
                Err(_) => {},
            }
        }
    }
}

/// Whether `later` comes from `img` by writes that a begin marker and a commit marker enclose,
/// but for some in front that concern neither superblock nor journal.
pub open spec fn transaction(img: Image, later: Image, sb: Superblock) -> bool {
    exists|x: Image, y: Image|
        {
            &&& #[trigger] quiet(img, x)
            &&& #[trigger] quiet(mark(x, sb, TX_BEGIN@).0, y)
            &&& later == mark(y, sb, TX_COMMIT@).0
        }
}

/// The image file where only the first `k` of the writes from `img` to `later` were made.
pub open spec fn cut_short(img: Image, later: Image, k: int) -> Seq<u8> {
    replay(img.bytes, writes_since(img, later).take(k))
}

/// The image that is read from a file with these bytes.
pub open spec fn found(b: Seq<u8>) -> Image {
    Image { base: b, bytes: b, writes: Seq::empty() }
}

/// Whether the journal is among the first `k` blocks that were written.
pub open spec fn journal_reached(writes: Seq<(u32, Seq<u8>)>, k: int) -> bool {
    exists|j: int| 0 <= j < k && (#[trigger] writes[j]).0 == 1
}

/// Writes behind the journal leave superblock and journal as they were.
proof fn lemma_front_kept(b: Seq<u8>, ws: Seq<(u32, Seq<u8>)>)
    requires
        readable(b, 1),
        forall|k: int| 0 <= k < ws.len() ==> (#[trigger] ws[k]).0 >= 65 && ws[k].1.len() == 4096,
    ensures
        readable(replay(b, ws), 1),
        block(replay(b, ws), 0) == block(b, 0),
        block(replay(b, ws), 1) == block(b, 1),
        superblock_of(replay(b, ws)) == superblock_of(b),
    decreases ws.len(),
{
    if ws.len() > 0 {
        let front = ws.drop_last();
        let last = ws.last();
        assert forall|k: int| 0 <= k < front.len() implies (#[trigger] front[k]).0 >= 65
            && front[k].1.len() == 4096 by {
            assert(ws[k] == front[k]);
        }
        lemma_front_kept(b, front);
        assert(ws[ws.len() - 1] == last);
        let c = replay(b, front);
        lemma_store(c, last.0, last.1);
        assert(readable(c, 0));
        assert(readable(b, 0));
    }
}

/// The two markers differ.
proof fn lemma_markers_differ()
    ensures
        TX_BEGIN@ != TX_COMMIT@,
        TX_BEGIN@.len() == 8,
        TX_COMMIT@.len() == 9,
{
    assert(TX_BEGIN@.len() == 8);
    assert(TX_COMMIT@.len() == 9);
}

/// The journal of an image before and behind the markers of a transaction.
proof fn lemma_transaction_journal(img: Image, x: Image, y: Image, sb: Superblock)
    requires
        sound(img.bytes, sb),
        quiet(img, x),
        quiet(mark(x, sb, TX_BEGIN@).0, y),
    ensures
        ({
            let journal = block(img.bytes, 1);
            let begin = with_marker(journal, TX_BEGIN@);
            let commit = with_marker(begin, TX_COMMIT@);
            let begun = mark(x, sb, TX_BEGIN@).0;
            let later = mark(y, sb, TX_COMMIT@).0;
            &&& begun == x.write(1, begin)
            &&& readable(begun.bytes, 1)
            &&& block(begun.bytes, 1) == begin
            &&& superblock_of(begun.bytes) == superblock_of(img.bytes)
            &&& later == y.write(1, commit)
            &&& block(later.bytes, 1) == commit
            &&& padded(begin) == begin
            &&& padded(commit) == commit
            &&& interrupted(begin)
            &&& !interrupted(commit)
        }),
{
    let b = img.bytes;
    let journal = block(b, 1);
    lemma_standard(sb);
    lemma_markers_differ();
    lemma_framed(b, sb, 1);
    lemma_block_len(b, 1);
    let wa = writes_since(img, x);
    assert forall|j: int| 0 <= j < wa.len() implies (#[trigger] wa[j]).0 >= 65 && wa[j].1.len()
        == 4096 by {
        assert(x.writes[img.writes.len() + j] == wa[j]);
    }
    lemma_front_kept(b, wa);
    let begin = with_marker(journal, TX_BEGIN@);
    marker_added(journal, TX_BEGIN@);
    assert(begin.len() == 4096);
    assert(padded(begin) =~= begin);
    let begun = mark(x, sb, TX_BEGIN@).0;
    lemma_store(x.bytes, 1, begin);
    assert(superblock_of(begun.bytes) == superblock_of(b)) by {
        assert(readable(x.bytes, 0));
        assert(readable(b, 0));
    }
    let wb = writes_since(begun, y);
    assert forall|j: int| 0 <= j < wb.len() implies (#[trigger] wb[j]).0 >= 65 && wb[j].1.len()
        == 4096 by {
        assert(y.writes[begun.writes.len() + j] == wb[j]);
    }
    lemma_front_kept(begun.bytes, wb);
    let commit = with_marker(begin, TX_COMMIT@);
    marker_added(begin, TX_COMMIT@);
    assert(commit.len() == 4096);
    assert(padded(commit) =~= commit);
    lemma_store(y.bytes, 1, commit);
    assert(Seq::<Seq<u8>>::empty().push(TX_BEGIN@) =~= seq![TX_BEGIN@]);
    assert(Seq::<Seq<u8>>::empty().push(TX_COMMIT@) =~= seq![TX_COMMIT@]);
    marker_pairs(markers(journal, 0), TX_BEGIN@);
    marker_pairs(markers(begin, 0), TX_COMMIT@);
    marker_pairs(Seq::empty(), TX_BEGIN@);
    marker_pairs(Seq::empty(), TX_COMMIT@);
}

/// What is found of a change on a sound image where its writes were cut short. As long as the
/// journal was not reached, superblock and journal are as before. From then on and until the
/// last write the image is refused as corrupt. After the last one the journal does not tell of a
/// change that was cut short.
pub proof fn transaction_cut_short(img: Image, later: Image, sb: Superblock, k: int)
    requires
        sound(img.bytes, sb),
        transaction(img, later, sb),
        0 <= k <= writes_since(img, later).len(),
    ensures
        ({
            let ws = writes_since(img, later);
            let c = cut_short(img, later, k);
            &&& !journal_reached(ws, k) ==> block(c, 1) == block(img.bytes, 1) && superblock_of(c)
                == superblock_of(img.bytes)
            &&& journal_reached(ws, k) && k < ws.len() ==> mounted(found(c)) == Err::<
                FsView,
                Failure,
            >(Failure::Corrupt)
            &&& k == ws.len() ==> c == later.bytes && journal_reached(ws, k) && !interrupted(
                block(c, 1),
            )
        }),
{
    let (x, y) = choose|x: Image, y: Image|
        {
            &&& #[trigger] quiet(img, x)
            &&& #[trigger] quiet(mark(x, sb, TX_BEGIN@).0, y)
            &&& later == mark(y, sb, TX_COMMIT@).0
        };
    let b = img.bytes;
    let begin = with_marker(block(b, 1), TX_BEGIN@);
    let commit = with_marker(begin, TX_COMMIT@);
    let begun = mark(x, sb, TX_BEGIN@).0;
    lemma_standard(sb);
    lemma_framed(b, sb, 1);
    lemma_transaction_journal(img, x, y, sb);
    let wa = writes_since(img, x);
    assert forall|j: int| 0 <= j < wa.len() implies (#[trigger] wa[j]).0 >= 65 && wa[j].1.len()
        == 4096 by {
        assert(x.writes[img.writes.len() + j] == wa[j]);
    }
    let wb = writes_since(begun, y);
    assert forall|j: int| 0 <= j < wb.len() implies (#[trigger] wb[j]).0 >= 65 && wb[j].1.len()
        == 4096 by {
        assert(y.writes[begun.writes.len() + j] == wb[j]);
    }
    lemma_extends_write(x, 1, begin);
    lemma_extends_trans(img, x, begun);
    lemma_extends_trans(img, begun, y);
    lemma_extends_write(y, 1, commit);
    lemma_extends_trans(img, y, later);
    let ws = writes_since(img, later);
    assert(ws =~= wa + seq![(1u32, begin)] + wb + seq![(1u32, commit)]);
    let c = cut_short(img, later, k);
    assert(ws[wa.len() as int].0 == 1);
    if k <= wa.len() {
        let part = wa.take(k);
        assert(ws.take(k) =~= part);
        assert forall|j: int| 0 <= j < part.len() implies (#[trigger] part[j]).0 >= 65
            && part[j].1.len() == 4096 by {
            assert(part[j] == wa[j]);
        }
        lemma_front_kept(b, part);
        assert forall|j: int| 0 <= j < k implies (#[trigger] ws[j]).0 != 1 by {
            assert(ws[j] == wa[j]);
        }
    } else if k < ws.len() {
        let part = wb.take(k - wa.len() - 1);
        assert(ws.take(k) =~= (wa + seq![(1u32, begin)]) + part);
        lemma_replay_add(b, wa + seq![(1u32, begin)], part);
        assert(replay(b, wa + seq![(1u32, begin)]) == begun.bytes);
        assert forall|j: int| 0 <= j < part.len() implies (#[trigger] part[j]).0 >= 65
            && part[j].1.len() == 4096 by {
            assert(part[j] == wb[j]);
        }
        lemma_front_kept(begun.bytes, part);
        assert(block(c, 1) == begin);
    } else {
        assert(ws.take(k) =~= ws);
    }
}

/// The pointers of every inode of an intact image point behind the journal.
proof fn lemma_pointers_behind(b: Seq<u8>, sb: Superblock, id: u32)
    requires
        intact(b, sb),
        id < 1024,
    ensures
        find_inode(b, sb, id) == Ok::<InodeView, Failure>(table(b, sb)[id as int]),
        behind_journal(table(b, sb)[id as int].direct),
        table(b, sb)[id as int].direct.len() == 12,
{
    let t = table(b, sb);
    lemma_standard(sb);
    lemma_find_inode(b, sb, id);
    assert forall|j: int| 0 <= j < 12 implies #[trigger] t[id as int].direct[j] == 0
        || t[id as int].direct[j] >= 65 by {
        assert(pointer(t, id as int, j) == t[id as int].direct[j]);
        if t[id as int].direct[j] != 0 {
            assert(held(b, sb, t[id as int].direct[j]));
        }
    }
}

/// Replacing the contents of a file is a transaction.
proof fn lemma_replace_transaction(img: Image, sb: Superblock, id: u32, data: Seq<u8>)
    requires
        intact(img.bytes, sb),
        id < 1024,
        replace_contents(img, sb, id, data).1 is Ok,
    ensures
        transaction(img, replace_contents(img, sb, id, data).0, sb),
{
    lemma_quiet_same(img);
    lemma_mark_intact(img, sb, TX_BEGIN@);
    let begun = mark(img, sb, TX_BEGIN@).0;
    lemma_pointers_behind(begun.bytes, sb, id);
    lemma_quiet_write_file(begun, sb, id, data);
    let written = write_file(begun, sb, id, data).0;
    assert(quiet(img, img) && quiet(mark(img, sb, TX_BEGIN@).0, written));
}

/// A write that succeeds is a transaction.
pub proof fn writing_is_a_transaction(fs: FsView, fd: i32, data: Seq<u8>)
    requires
        healthy(fs),
        fs.written_at_cursor(fd, data).1 is Ok,
    ensures
        transaction(fs.disk, fs.written_at_cursor(fd, data).0.disk, fs.sb),
{
    let id = fs.open[fd].inode_id;
    let old = file_bytes(fs.disk.bytes, fs.sb, id)->Ok_0;
    lemma_replace_transaction(
        fs.disk,
        fs.sb,
        id,
        overwritten(old, fs.open[fd].offset as int, data),
    );
}

/// A truncation that succeeds is a transaction.
pub proof fn truncating_is_a_transaction(fs: FsView, path: Seq<char>, size: usize)
    requires
        healthy(fs),
        fs.truncated(path, size).1 is Ok,
    ensures
        transaction(fs.disk, fs.truncated(path, size).0.disk, fs.sb),
{
    lemma_resolve(fs.disk.bytes, fs.sb, path);
    let id = fs.file_at(path)->Ok_0;
    let old = file_bytes(fs.disk.bytes, fs.sb, id)->Ok_0;
    lemma_replace_transaction(fs.disk, fs.sb, id, resized(old, size as nat));
}

/// Publishing a node is a transaction that follows on quiet writes.
proof fn lemma_publish_transaction(
    img: Image,
    before: Image,
    sb: Superblock,
    parent: u32,
    node: InodeView,
    name: Seq<char>,
)
    requires
        quiet(img, before),
        intact(img.bytes, sb),
        framed(before.bytes, sb),
        table(before.bytes, sb) == table(img.bytes, sb),
        parent < 1024,
        node.id < 1024,
        node.id != parent,
        node.direct.len() == 12,
        publish(before, sb, parent, node, name).1 is Ok,
    ensures
        transaction(img, publish(before, sb, parent, node, name).0, sb),
{
    let begun = mark(before, sb, TX_BEGIN@).0;
    let written = put_inode(begun, sb, node).0;
    let ent = DirentView { active: 1, kind: node.kind, inode_id: node.id, name };
    lemma_standard(sb);
    lemma_framed(before.bytes, sb, 1);
    lemma_write(before, 1, with_marker(block(before.bytes, 1), TX_BEGIN@));
    lemma_only(before.bytes, begun.bytes, sb, 1);
    lemma_put_inode(begun, sb, node);
    lemma_only(begun.bytes, written.bytes, sb, inode_block(sb, node.id));
    lemma_find_inode(written.bytes, sb, parent);
    lemma_pointers_behind(img.bytes, sb, parent);
    lemma_quiet_put(begun, sb, node);
    lemma_quiet_link(written, sb, parent, ent);
    let linked = link(written, sb, parent, ent).0;
    lemma_quiet_trans(begun, written, linked);
    assert(quiet(img, before) && quiet(mark(before, sb, TX_BEGIN@).0, linked));
}

/// Making a node is, where it succeeds and an inode slot was left, a transaction.
pub proof fn making_is_a_transaction(fs: FsView, path: Seq<char>, kind: InodeType)
    requires
        healthy(fs),
        slot_left(fs.disk.bytes, fs.sb),
        kind != InodeType::Free,
        fs.made(path, kind).1 is Ok,
    ensures
        transaction(fs.disk, fs.made(path, kind).0.disk, fs.sb),
{
    let img = fs.disk;
    let sb = fs.sb;
    let b = img.bytes;
    making(fs, path, kind);
    lemma_resolve(b, sb, path);
    let (p, leaf) = parent_of(b, sb, path)->Ok_0;
    lemma_standard(sb);
    lemma_claim_inode(img, sb);
    lemma_quiet_claim(img, sb.inode_bitmap_start, sb.inode_bitmap_blocks, 0);
    let (claimed, r) = claim_inode(img, sb);
    let id = r->Ok_0;
    lemma_only(b, claimed.bytes, sb, 65);
    if kind == InodeType::Dir {
        lemma_claim_block(claimed, sb);
        lemma_quiet_claim(claimed, sb.block_bitmap_start, sb.block_bitmap_blocks, 0);
        let (spaced, r2) = claim_block(claimed, sb);
        let n = r2->Ok_0;
        lemma_only(claimed.bytes, spaced.bytes, sb, 66 + (n - sb.data_start) / 32768);
        let records = first_records(id, p);
        let before = spaced.write(n, records);
        lemma_write(spaced, n, records);
        lemma_only(spaced.bytes, before.bytes, sb, n as int);
        lemma_extends_write(spaced, n, records);
        lemma_quiet_trans(img, claimed, spaced);
        lemma_quiet_trans(img, spaced, before);
        lemma_publish_transaction(img, before, sb, p, new_dir(id, n), leaf);
    } else {
        lemma_publish_transaction(img, claimed, sb, p, new_file(id, kind), leaf);
    }
}

/// Removing a node is, where it succeeds, a transaction.
pub proof fn removing_is_a_transaction(fs: FsView, path: Seq<char>)
    requires
        healthy(fs),
        fs.removed(path).1 is Ok,
    ensures
        transaction(fs.disk, fs.removed(path).0.disk, fs.sb),
{
    let img = fs.disk;
    let sb = fs.sb;
    let b = img.bytes;
    lemma_resolve(b, sb, path);
    let (p, leaf) = parent_of(b, sb, path)->Ok_0;
    let id = lookup(b, sb, p, leaf)->Ok_0->Some_0;
    let target = find_inode(b, sb, id)->Ok_0;
    lemma_standard(sb);
    lemma_quiet_same(img);
    lemma_mark_intact(img, sb, TX_BEGIN@);
    let begun = mark(img, sb, TX_BEGIN@).0;
    lemma_pointers_behind(begun.bytes, sb, p);
    let parent = find_inode(begun.bytes, sb, p)->Ok_0;
    lemma_quiet_unlink_from(begun, parent.direct, 0, parent.size as int, leaf);
    let unlinked = unlink(begun, sb, p, leaf).0;
    lemma_quiet_free_from(unlinked, sb, target.direct, 0);
    let freed = free_from(unlinked, sb, target.direct, 0).0;
    lemma_quiet_switch(freed, sb.inode_bitmap_start, id, false);
    let cleared = switch_bit(freed, sb.inode_bitmap_start, id, false).0;
    lemma_quiet_put(cleared, sb, free_slot(id));
    let written = put_inode(cleared, sb, free_slot(id)).0;
    lemma_quiet_trans(begun, unlinked, freed);
    lemma_quiet_trans(begun, freed, cleared);
    lemma_quiet_trans(begun, cleared, written);
    assert(quiet(img, img) && quiet(mark(img, sb, TX_BEGIN@).0, written));
}

/// After a transaction on a sound image the journal tells of no change that was cut short,
/// whatever it told before.
pub proof fn completed_change_is_paired(img: Image, later: Image, sb: Superblock)
    requires
        sound(img.bytes, sb),
        transaction(img, later, sb),
    ensures
        !interrupted(block(later.bytes, 1)),
{
    let (x, y) = choose|x: Image, y: Image|
        {
            &&& #[trigger] quiet(img, x)
            &&& #[trigger] quiet(mark(x, sb, TX_BEGIN@).0, y)
            &&& later == mark(y, sb, TX_COMMIT@).0
        };
    lemma_transaction_journal(img, x, y, sb);
}

/// After a transaction on a sound image that left it sound, the image can be mounted.
pub proof fn completed_change_mounts(img: Image, later: Image, sb: Superblock)
    requires
        sound(img.bytes, sb),
        sound(later.bytes, sb),
        transaction(img, later, sb),
    ensures
        mounted(later) matches Ok(fs) && healthy(fs),
{
    completed_change_is_paired(img, later, sb);
    mounting(later, sb);
}

/// Whether `z` comes from `a` by block writes of which the last `m` are a change in the journal:
/// the first of these records in block 1 that a change began, the last that it is complete, and
/// what lies between goes to neither superblock nor journal.
pub open spec fn journalled(a: Image, z: Image, m: int) -> bool {
    let w = writes_since(a, z);
    let ms = markers(block(a.bytes, 1), 0);
    let at = w.len() - m;
    &&& a.writes.is_prefix_of(z.writes)
    &&& 2 <= m <= w.len()
    &&& w[at].0 == 1
    &&& markers(w[at].1, 0) == recorded(ms, begin_text())
    &&& interrupted(w[at].1)
    &&& w.last().0 == 1
    &&& markers(w.last().1, 0) == recorded(recorded(ms, begin_text()), commit_text())
    &&& !interrupted(w.last().1)
    &&& forall|k: int|
        0 <= k < w.len() - 1 && k != at ==> (#[trigger] w[k]).0 >= 65 && w[k].1.len() == 4096
}

/// Where writes stand among those that were made since.
proof fn lemma_write_order(
    a: Seq<(u32, Seq<u8>)>,
    x: Seq<(u32, Seq<u8>)>,
    y: Seq<(u32, Seq<u8>)>,
    begin: (u32, Seq<u8>),
    commit: (u32, Seq<u8>),
)
    requires
        a.len() <= x.len(),
        a == x.take(a.len() as int),
        x.len() + 1 <= y.len(),
        x.push(begin) == y.take(x.len() as int + 1),
    ensures
        ({
            let z = y.push(commit);
            let w = z.skip(a.len() as int);
            let at = x.len() - a.len();
            &&& a.is_prefix_of(z)
            &&& x.is_prefix_of(z)
            &&& w[at] == begin
            &&& w.last() == commit
            &&& at < w.len() - 1
            &&& forall|k: int| 0 <= k < at ==> #[trigger] w[k] == x[a.len() + k]
            &&& forall|k: int| at < k < w.len() - 1 ==> #[trigger] w[k] == y[a.len() + k]
        }),
{
    let z = y.push(commit);
    let w = z.skip(a.len() as int);
    let at = x.len() - a.len();
    assert forall|k: int| 0 <= k < x.len() + 1 implies #[trigger] x.push(begin)[k] == z[k] by {
        assert(y.take(x.len() as int + 1)[k] == y[k]);
    }
    assert forall|k: int| 0 <= k < x.len() implies #[trigger] x[k] == z[k] by {
        assert(x.push(begin)[k] == z[k]);
    }
    assert forall|k: int| 0 <= k < a.len() implies #[trigger] a[k] == z[k] by {
        assert(x.take(a.len() as int)[k] == x[k]);
    }
    assert(a =~= z.subrange(0, a.len() as int));
    assert(x =~= z.subrange(0, x.len() as int));
    assert(w[at] == z[x.len() as int]);
    assert(x.push(begin)[x.len() as int] == begin);
}

/// Where the journal stands among the writes of a change.
proof fn lemma_journalled(img: Image, x: Image, y: Image, sb: Superblock)
    requires
        sound(img.bytes, sb),
        quiet(img, x),
        quiet(mark(x, sb, TX_BEGIN@).0, y),
    ensures
        ({
            let z = mark(y, sb, TX_COMMIT@).0;
            let m = z.writes.len() - x.writes.len();
            &&& journalled(img, z, m)
            &&& x.writes.is_prefix_of(z.writes)
        }),
{
    let b = img.bytes;
    let journal = block(b, 1);
    lemma_standard(sb);
    lemma_framed(b, sb, 1);
    lemma_block_len(b, 1);
    lemma_transaction_journal(img, x, y, sb);
    let begin = with_marker(journal, TX_BEGIN@);
    let commit = with_marker(begin, TX_COMMIT@);
    let begun = mark(x, sb, TX_BEGIN@).0;
    let z = mark(y, sb, TX_COMMIT@).0;
    let n = img.writes.len();
    let w = writes_since(img, z);
    lemma_write_order(img.writes, x.writes, y.writes, (1u32, begin), (1u32, commit));
    let at = x.writes.len() - n;
    assert forall|k: int| 0 <= k < w.len() - 1 && k != at implies (#[trigger] w[k]).0 >= 65
        && w[k].1.len() == 4096 by {
        if k < at {
            assert(w[k] == x.writes[n + k]);
        } else {
            assert(w[k] == y.writes[n + k]);
        }
    }
    assert(journalled(img, z, z.writes.len() - x.writes.len())) by {
        lemma_changed_journal(journal);
    }
}

/// A write that succeeds begins with the journal and ends with it.
pub proof fn writing_in_order(fs: FsView, fd: i32, data: Seq<u8>)
    requires
        healthy(fs),
        fs.written_at_cursor(fd, data).1 is Ok,
    ensures
        ({
            let z = fs.written_at_cursor(fd, data).0.disk;
            journalled(fs.disk, z, z.writes.len() - fs.disk.writes.len())
        }),
{
    let id = fs.open[fd].inode_id;
    let old = file_bytes(fs.disk.bytes, fs.sb, id)->Ok_0;
    lemma_replace_in_order(
        fs.disk,
        fs.sb,
        id,
        overwritten(old, fs.open[fd].offset as int, data),
    );
}

/// A truncation that succeeds begins with the journal and ends with it.
pub proof fn truncating_in_order(fs: FsView, path: Seq<char>, size: usize)
    requires
        healthy(fs),
        fs.truncated(path, size).1 is Ok,
    ensures
        ({
            let z = fs.truncated(path, size).0.disk;
            journalled(fs.disk, z, z.writes.len() - fs.disk.writes.len())
        }),
{
    lemma_resolve(fs.disk.bytes, fs.sb, path);
    let id = fs.file_at(path)->Ok_0;
    let old = file_bytes(fs.disk.bytes, fs.sb, id)->Ok_0;
    lemma_replace_in_order(fs.disk, fs.sb, id, resized(old, size as nat));
}

/// Replacing the contents of a file begins with the journal and ends with it.
proof fn lemma_replace_in_order(img: Image, sb: Superblock, id: u32, data: Seq<u8>)
    requires
        sound(img.bytes, sb),
        id < 1024,
        replace_contents(img, sb, id, data).1 is Ok,
    ensures
        ({
            let z = replace_contents(img, sb, id, data).0;
            journalled(img, z, z.writes.len() - img.writes.len())
        }),
{
    lemma_quiet_same(img);
    lemma_mark_intact(img, sb, TX_BEGIN@);
    let begun = mark(img, sb, TX_BEGIN@).0;
    lemma_pointers_behind(begun.bytes, sb, id);
    lemma_quiet_write_file(begun, sb, id, data);
    lemma_journalled(img, img, write_file(begun, sb, id, data).0, sb);
}

/// A removal that succeeds begins with the journal and ends with it.
pub proof fn removing_in_order(fs: FsView, path: Seq<char>)
    requires
        healthy(fs),
        fs.removed(path).1 is Ok,
    ensures
        ({
            let z = fs.removed(path).0.disk;
            journalled(fs.disk, z, z.writes.len() - fs.disk.writes.len())
        }),
{
    let img = fs.disk;
    let sb = fs.sb;
    let b = img.bytes;
    lemma_resolve(b, sb, path);
    let (p, leaf) = parent_of(b, sb, path)->Ok_0;
    let id = lookup(b, sb, p, leaf)->Ok_0->Some_0;
    let target = find_inode(b, sb, id)->Ok_0;
    lemma_standard(sb);
    lemma_quiet_same(img);
    lemma_mark_intact(img, sb, TX_BEGIN@);
    let begun = mark(img, sb, TX_BEGIN@).0;
    lemma_pointers_behind(begun.bytes, sb, p);
    let parent = find_inode(begun.bytes, sb, p)->Ok_0;
    lemma_quiet_unlink_from(begun, parent.direct, 0, parent.size as int, leaf);
    let unlinked = unlink(begun, sb, p, leaf).0;
    lemma_quiet_free_from(unlinked, sb, target.direct, 0);
    let freed = free_from(unlinked, sb, target.direct, 0).0;
    lemma_quiet_switch(freed, sb.inode_bitmap_start, id, false);
    let cleared = switch_bit(freed, sb.inode_bitmap_start, id, false).0;
    lemma_quiet_put(cleared, sb, free_slot(id));
    let written = put_inode(cleared, sb, free_slot(id)).0;
    lemma_quiet_trans(begun, unlinked, freed);
    lemma_quiet_trans(begun, freed, cleared);
    lemma_quiet_trans(begun, cleared, written);
    lemma_journalled(img, img, written, sb);
}

/// Publishing a node begins with the journal and ends with it.
proof fn lemma_publish_in_order(
    img: Image,
    before: Image,
    sb: Superblock,
    parent: u32,
    node: InodeView,
    name: Seq<char>,
)
    requires
        sound(img.bytes, sb),
        quiet(img, before),
        framed(before.bytes, sb),
        table(before.bytes, sb) == table(img.bytes, sb),
        parent < 1024,
        node.id < 1024,
        node.id != parent,
        node.direct.len() == 12,
        publish(before, sb, parent, node, name).1 is Ok,
    ensures
        ({
            let z = publish(before, sb, parent, node, name).0;
            &&& journalled(img, z, z.writes.len() - before.writes.len())
            &&& before.writes.is_prefix_of(z.writes)
        }),
{
    let begun = mark(before, sb, TX_BEGIN@).0;
    let written = put_inode(begun, sb, node).0;
    let ent = DirentView { active: 1, kind: node.kind, inode_id: node.id, name };
    lemma_standard(sb);
    lemma_framed(before.bytes, sb, 1);
    lemma_write(before, 1, with_marker(block(before.bytes, 1), TX_BEGIN@));
    lemma_only(before.bytes, begun.bytes, sb, 1);
    lemma_put_inode(begun, sb, node);
    lemma_only(begun.bytes, written.bytes, sb, inode_block(sb, node.id));
    lemma_find_inode(written.bytes, sb, parent);
    lemma_pointers_behind(img.bytes, sb, parent);
    lemma_quiet_put(begun, sb, node);
    lemma_quiet_link(written, sb, parent, ent);
    let linked = link(written, sb, parent, ent).0;
    lemma_quiet_trans(begun, written, linked);
    lemma_journalled(img, before, linked, sb);
}

/// What is written where an inode or a block is claimed.
proof fn lemma_claim_writes(img: Image, sb: Superblock)
    requires
        framed(img.bytes, sb),
    ensures
        claim_inode(img, sb).1 is Ok ==> {
            let z = claim_inode(img, sb).0;
            &&& z.writes.drop_last() == img.writes
            &&& z.writes.len() == img.writes.len() + 1
            &&& z.writes.last().0 == 65
        },
        claim_block(img, sb).1 is Ok ==> {
            let z = claim_block(img, sb).0;
            &&& z.writes.drop_last() == img.writes
            &&& z.writes.len() == img.writes.len() + 1
            &&& 66 <= z.writes.last().0 < 66 + sb.block_bitmap_blocks
        },
{
    lemma_standard(sb);
    let blocks = sb.block_bitmap_blocks;
    assert forall|n: int| 65 <= n < 66 + blocks implies readable(img.bytes, n) by {
        lemma_framed(img.bytes, sb, n);
    }
    first_free_bit_wins(img, 65, 1, 0);
    first_free_bit_wins(img, 66, blocks, 0);
    assert(claim_inode(img, sb).1 is Ok ==> claim_inode(img, sb).0.writes.drop_last()
        =~= img.writes);
    assert(claim_block(img, sb).1 is Ok ==> claim_block(img, sb).0.writes.drop_last()
        =~= img.writes);
}

/// The order in which a directory is made, from the claimed inode on.
proof fn lemma_make_dir_in_order(
    img: Image,
    claimed: Image,
    sb: Superblock,
    p: u32,
    id: u32,
    leaf: Seq<char>,
)
    requires
        sound(img.bytes, sb),
        quiet(img, claimed),
        framed(claimed.bytes, sb),
        table(claimed.bytes, sb) == table(img.bytes, sb),
        claimed.writes.drop_last() == img.writes,
        claimed.writes.len() == img.writes.len() + 1,
        claimed.writes.last().0 == 65,
        only_block(img.bytes, claimed.bytes, 65),
        p < 1024,
        id < 1024,
        id != p,
        claim_block(claimed, sb).1 is Ok,
        ({
            let (spaced, r) = claim_block(claimed, sb);
            let before = spaced.write(r->Ok_0, first_records(id, p));
            publish(before, sb, p, new_dir(id, r->Ok_0), leaf).1 is Ok
        }),
    ensures
        ({
            let (spaced, r) = claim_block(claimed, sb);
            let before = spaced.write(r->Ok_0, first_records(id, p));
            let z = publish(before, sb, p, new_dir(id, r->Ok_0), leaf).0;
            let w = writes_since(img, z);
            &&& journalled(img, z, w.len() - 3)
            &&& w[0].0 == 65
            &&& 66 <= w[1].0 < 66 + sb.block_bitmap_blocks
            &&& sb.data_start <= w[2].0 < sb.data_start + data_bits(sb)
            &&& !block_marked(img.bytes, sb, w[2].0 - sb.data_start)
        }),
{
    lemma_standard(sb);
    lemma_claim_block(claimed, sb);
    lemma_claim_writes(claimed, sb);
    lemma_quiet_claim(claimed, sb.block_bitmap_start, sb.block_bitmap_blocks, 0);
    let (spaced, r) = claim_block(claimed, sb);
    let n = r->Ok_0;
    let k = n - sb.data_start;
    lemma_only(claimed.bytes, spaced.bytes, sb, 66 + k / 32768);
    let records = first_records(id, p);
    let before = spaced.write(n, records);
    lemma_write(spaced, n, records);
    lemma_only(spaced.bytes, before.bytes, sb, n as int);
    lemma_extends_write(spaced, n, records);
    lemma_quiet_trans(img, claimed, spaced);
    lemma_quiet_trans(img, spaced, before);
    lemma_publish_in_order(img, before, sb, p, new_dir(id, n), leaf);
    let z = publish(before, sb, p, new_dir(id, n), leaf).0;
    let w = writes_since(img, z);
    let n0 = img.writes.len() as int;
    assert(before.writes[n0 + 2].0 == n);
    assert(before.writes[n0 + 1] == spaced.writes.last());
    assert(before.writes[n0] == spaced.writes.drop_last()[n0]);
    assert(z.writes.subrange(0, before.writes.len() as int) == before.writes);
    assert(z.writes[n0] == before.writes[n0]);
    assert(z.writes[n0 + 1] == before.writes[n0 + 1]);
    assert(z.writes[n0 + 2] == before.writes[n0 + 2]);
    assert(w[0] == z.writes[n0] && w[1] == z.writes[n0 + 1] && w[2] == z.writes[n0 + 2]);
    assert(block_marked(claimed.bytes, sb, k) == block_marked(img.bytes, sb, k)) by {
        lemma_framed(img.bytes, sb, 66 + k / 32768);
    }
}

/// The order in which a node is made, where that succeeds and an inode slot was left. The inode
/// bitmap is written first. For a directory the block bitmap and a block that was free follow.
/// The rest is a change in the journal.
pub proof fn making_in_order(fs: FsView, path: Seq<char>, kind: InodeType)
    requires
        healthy(fs),
        slot_left(fs.disk.bytes, fs.sb),
        kind != InodeType::Free,
        fs.made(path, kind).1 is Ok,
    ensures
        ({
            let z = fs.made(path, kind).0.disk;
            let w = writes_since(fs.disk, z);
            let bitmap = 66 + fs.sb.block_bitmap_blocks;
            &&& journalled(fs.disk, z, w.len() - (if kind == InodeType::Dir {
                3int
            } else {
                1
            }))
            &&& w[0].0 == 65
            &&& kind == InodeType::Dir ==> {
                &&& 66 <= w[1].0 < bitmap
                &&& fs.sb.data_start <= w[2].0 < fs.sb.data_start + data_bits(fs.sb)
                &&& !block_marked(fs.disk.bytes, fs.sb, w[2].0 - fs.sb.data_start)
            }
        }),
{
    let img = fs.disk;
    let sb = fs.sb;
    let b = img.bytes;
    making(fs, path, kind);
    lemma_resolve(b, sb, path);
    let (p, leaf) = parent_of(b, sb, path)->Ok_0;
    lemma_standard(sb);
    lemma_claim_inode(img, sb);
    lemma_claim_writes(img, sb);
    lemma_quiet_claim(img, sb.inode_bitmap_start, sb.inode_bitmap_blocks, 0);
    let (claimed, r) = claim_inode(img, sb);
    let id = r->Ok_0;
    lemma_only(b, claimed.bytes, sb, 65);
    if kind == InodeType::Dir {
        lemma_make_dir_in_order(img, claimed, sb, p, id, leaf);
    } else {
        lemma_publish_in_order(img, claimed, sb, p, new_file(id, kind), leaf);
        let z = fs.made(path, kind).0.disk;
        let n0 = img.writes.len() as int;
        assert(z.writes[n0] == claimed.writes[n0]);
        assert(writes_since(img, z)[0] == z.writes[n0]);
    }
}

} // verus!
