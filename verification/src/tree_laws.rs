//! What a new image, a new node and a removed node are, in numbers.

use crate::bitmap::{bit_set, claim_block, claim_inode, first_clear, switch_bit, with_bit};
use crate::bytes::{splice, zeros};
use crate::directory::lookup;
use crate::dirent::{short_name_is_kept, DirentView};
use crate::disk::{block, lemma_block_len, load};
use crate::entries::{entries, find_index, lemma_find, lemma_lookup};
use crate::error::Failure;
use crate::format_laws::{bits, block_writes, blocks, record_writing, superblock_writing};
use crate::fresh::lemma_new_image;
use crate::fs::FsView;
use crate::inode::{inode_bytes, InodeType};
use crate::journal::{
    empty_journal, interrupted, marker_added, markers, tidy, with_marker, TX_BEGIN, TX_COMMIT,
};
use crate::journal_laws::{
    begin_text, commit_text, lemma_under_way, marker_texts, recorded, tidy_journal,
};
use crate::mount_laws::healthy;
use crate::node::{blank, dot, dot_dot, first_records, make_in, new_dir, new_image};
use crate::node_laws::{making, removing};
use crate::path::parent_of;
use crate::sound::{
    block_marked, data_bits, held, inode_marked, lemma_find_inode, lemma_framed, lemma_standard,
    no_block_left, pointer, sound, table,
};
use crate::steps::lemma_claim_inode;
use crate::superblock::{fresh_superblock, superblock_of, with_superblock, Superblock};
use crate::text::lossy_text;
use crate::tree::{
    lemma_discard, lemma_make_in, lemma_making_traces, no_inode_left, parent_entry, self_entry,
    slot_left,
};
use crate::walks::{lemma_lookup_kept, lemma_resolve};
use vstd::prelude::*;
use vstd::utf8::encode_utf8;

verus! {

/// The blocks of the block bitmap of an image of `total` blocks: one for each 32768 of them.
pub open spec fn bitmap_size(total: int) -> int {
    if total % 32768 == 0 {
        total / 32768
    } else {
        total / 32768 + 1
    }
}

/// How a new image of `total_blocks` blocks is laid out.
pub proof fn image_layout(total_blocks: u32)
    ensures
        ({
            let sb = fresh_superblock(total_blocks);
            let n = bitmap_size(total_blocks as int);
            &&& sb.total_blocks == total_blocks
            &&& sb.journal_start == 1
            &&& sb.journal_blocks == 64
            &&& sb.inode_bitmap_start == 65
            &&& sb.inode_bitmap_blocks == 1
            &&& sb.block_bitmap_start == 66
            &&& sb.block_bitmap_blocks == n
            &&& sb.inode_table_start == 66 + n
            &&& sb.inode_table_blocks == 32
            &&& sb.data_start == 98 + n
            &&& sb.clean == 1
            &&& sb.sequence == 1
        }),
{
}

/// Formatting succeeds exactly where a block is left behind the 98 blocks and the block bitmap,
/// in particular for every number of blocks from 100 to 32768. It then writes five blocks on an
/// image of zeros: the superblock, the inode bitmap, the block bitmap, the first data block and
/// the inode table, in that order. The image has as many blocks as asked for. Else the image is
/// all zeros and nothing is written.
pub proof fn formatting_in_numbers(total_blocks: u32)
    ensures
        ({
            let (img, r) = new_image(total_blocks);
            let n = bitmap_size(total_blocks as int);
            let w = img.writes;
            &&& r == if 98 + n < total_blocks {
                Ok::<(), Failure>(())
            } else {
                Err::<(), Failure>(Failure::NoSpace)
            }
            &&& 100 <= total_blocks <= 32768 ==> r is Ok
            &&& img.base == zeros((4096 * total_blocks) as nat)
            &&& img.bytes.len() == 4096 * total_blocks
            &&& r is Err ==> img.bytes == img.base && w.len() == 0
            &&& r is Ok ==> {
                &&& w.len() == 5
                &&& w[0].0 == 0
                &&& w[1].0 == 65
                &&& w[2].0 == 66
                &&& w[3].0 == 98 + n
                &&& w[4].0 == 66 + n
            }
        }),
{
    let sb = fresh_superblock(total_blocks);
    let img = blank(total_blocks);
    let n = bitmap_size(total_blocks as int);
    image_layout(total_blocks);
    assert(img.bytes =~= zeros((4096 * total_blocks) as nat));
    if 98 + n < total_blocks {
        lemma_new_image(total_blocks);
        lemma_standard(sb);
        let named = with_superblock(img, sb);
        superblock_writing(img, sb);
        blocks(named.bytes, 65);
        let b65 = load(named.bytes, 65)->Ok_0;
        block_writes(named, 65, with_bit(b65, 0, true));
        let reserved = switch_bit(named, sb.inode_bitmap_start, 0, true).0;
        lemma_fresh_claim(total_blocks);
        let claimed = claim_block(reserved, sb).0;
        blocks(reserved.bytes, 66);
        let b66 = load(reserved.bytes, 66)->Ok_0;
        block_writes(reserved, 66, with_bit(b66, 0, true));
        let m = sb.data_start;
        let rooted = claimed.write(m, first_records(0, 0));
        block_writes(claimed, m, first_records(0, 0));
        let at = sb.inode_table_start;
        blocks(rooted.bytes, at);
        let blk = load(rooted.bytes, at)->Ok_0;
        let v = new_dir(0, m);
        let d = splice(blk, 0, inode_bytes(v));
        block_writes(rooted, at, d);
        let last = rooted.write(at, d);
        assert(new_image(total_blocks).0 == last);
        let w = last.writes;
        assert(w[4].0 == at);
        assert(w.drop_last()[3] == w[3] && rooted.writes[3].0 == m);
        assert(rooted.writes.drop_last()[2] == rooted.writes[2] && claimed.writes[2].0 == 66);
        assert(claimed.writes.drop_last()[1] == claimed.writes[1] && reserved.writes[1].0 == 65);
        assert(reserved.writes.drop_last()[0] == reserved.writes[0] && named.writes[0].0 == 0);
    }
}

/// The first block that is claimed on a new image is the first data block.
proof fn lemma_fresh_claim(total_blocks: u32)
    requires
        fresh_superblock(total_blocks).data_start < total_blocks,
    ensures
        ({
            let sb = fresh_superblock(total_blocks);
            let named = with_superblock(blank(total_blocks), sb);
            let reserved = switch_bit(named, sb.inode_bitmap_start, 0, true).0;
            &&& claim_block(reserved, sb).1 == Ok::<u32, Failure>(sb.data_start)
            &&& claim_block(reserved, sb).0 == reserved.write(
                66,
                with_bit(block(reserved.bytes, 66), 0, true),
            )
        }),
{
    let sb = fresh_superblock(total_blocks);
    lemma_new_image(total_blocks);
    lemma_standard(sb);
    let img = blank(total_blocks);
    let named = with_superblock(img, sb);
    superblock_writing(img, sb);
    blocks(named.bytes, 65);
    let b65 = load(named.bytes, 65)->Ok_0;
    block_writes(named, 65, with_bit(b65, 0, true));
    let reserved = switch_bit(named, sb.inode_bitmap_start, 0, true).0;
    blocks(reserved.bytes, 66);
    let b66 = block(reserved.bytes, 66);
    assert forall|i: int| 0 <= i < 4096 implies #[trigger] b66[i] == 0 by {
        assert(b66[i] == reserved.bytes[4096 * 66 + i]);
        assert(reserved.bytes[4096 * 66 + i] == named.bytes[4096 * 66 + i]);
        assert(named.bytes[4096 * 66 + i] == img.bytes[4096 * 66 + i]);
    }
    assert(!bit_set(b66, 0)) by {
        bits(b66, 0);
    }
    assert(first_clear(b66, 0) == Some(0int));
}

/// A new image holds the root directory, inode 0, with its two own entries in the first data
/// block, and 1023 free slots. Inode 0 and the first data block are marked, and nothing else.
/// The journal holds no marker.
pub proof fn new_image_holds(total_blocks: u32)
    requires
        new_image(total_blocks).1 is Ok,
    ensures
        ({
            let b = new_image(total_blocks).0.bytes;
            &&& superblock_of(b) matches Ok(sb)
            &&& sound(b, sb)
            &&& sb == fresh_superblock(total_blocks)
            &&& ({
                let t = table(b, sb);
                let root = t[0];
                &&& root.id == 0
                &&& root.kind == InodeType::Dir
                &&& root.links == 2
                &&& root.size == 528
                &&& root.direct.len() == 12
                &&& root.direct[0] == sb.data_start
                &&& forall|j: int| 1 <= j < 12 ==> #[trigger] root.direct[j] == 0
                &&& entries(b, root).len() == 2
                &&& lookup(b, sb, 0, seq!['.']) == Ok::<Option<u32>, Failure>(Some(0))
                &&& lookup(b, sb, 0, seq!['.', '.']) == Ok::<Option<u32>, Failure>(Some(0))
                &&& forall|i: int|
                    1 <= i < 1024 ==> {
                        &&& (#[trigger] t[i]).kind == InodeType::Free
                        &&& t[i].size == 0
                        &&& t[i].links == 0
                        &&& forall|j: int| 0 <= j < 12 ==> #[trigger] t[i].direct[j] == 0
                    }
            })
            &&& markers(block(b, 1), 0) == Seq::<Seq<u8>>::empty()
            &&& forall|i: int| 0 <= i < 32768 ==> #[trigger] inode_marked(b, sb, i) == (i == 0)
            &&& forall|i: int|
                0 <= i < data_bits(sb) ==> #[trigger] block_marked(b, sb, i) == (i == 0)
        }),
{
    let sb = fresh_superblock(total_blocks);
    let b = new_image(total_blocks).0.bytes;
    formatting_in_numbers(total_blocks);
    image_layout(total_blocks);
    lemma_new_image(total_blocks);
    empty_journal();
    lemma_dot_names();
    let root = table(b, sb)[0];
    let es = entries(b, root);
    assert(es[0] == self_entry(0) && es[1] == parent_entry(0));
    lemma_lookup(b, sb, 0, seq!['.']);
    lemma_lookup(b, sb, 0, seq!['.', '.']);
    lemma_find(es, 0, seq!['.']);
    lemma_find(es, 0, seq!['.', '.']);
}

/// The names by which a directory lists itself and its parent.
proof fn lemma_dot_names()
    ensures
        dot() == seq!['.'],
        dot_dot() == seq!['.', '.'],
        seq!['.'] != seq!['.', '.'],
{
    reveal_strlit(".");
    reveal_strlit("..");
    assert("."@ =~= seq!['.']);
    assert(".."@ =~= seq!['.', '.']);
    assert(seq!['.'].len() != seq!['.', '.'].len());
}

/// What a tidy journal block holds after a marker was added.
proof fn lemma_recorded(b: Seq<u8>, m: Seq<u8>)
    requires
        b.len() == 4096,
        tidy(b),
        0 < m.len() <= 4092,
    ensures
        with_marker(b, m).len() == 4096,
        tidy(with_marker(b, m)),
        markers(with_marker(b, m), 0) == recorded(markers(b, 0), m),
{
    tidy_journal(b);
    marker_added(b, m);
}

/// What a tidy journal block tells after one change began, and after it was completed.
pub proof fn lemma_changed_journal(b: Seq<u8>)
    requires
        b.len() == 4096,
        tidy(b),
    ensures
        ({
            let ms = markers(b, 0);
            let begun = with_marker(b, TX_BEGIN@);
            let done = with_marker(begun, TX_COMMIT@);
            &&& markers(begun, 0) == recorded(ms, begin_text())
            &&& interrupted(begun)
            &&& markers(done, 0) == recorded(recorded(ms, begin_text()), commit_text())
            &&& !interrupted(done)
        }),
{
    marker_texts();
    lemma_recorded(b, TX_BEGIN@);
    let begun = with_marker(b, TX_BEGIN@);
    lemma_recorded(begun, TX_COMMIT@);
    lemma_under_way(markers(begun, 0));
    let done = with_marker(begun, TX_COMMIT@);
    lemma_under_way(markers(done, 0));
    assert(markers(begun, 0).last() == begin_text());
    assert(markers(done, 0).last() == commit_text());
}

/// Whether `id` is the lowest of the 1024 inode numbers that is not marked.
pub open spec fn lowest_slot(b: Seq<u8>, sb: Superblock, id: u32) -> bool {
    &&& id < 1024
    &&& !inode_marked(b, sb, id as int)
    &&& forall|i: int| 0 <= i < id ==> #[trigger] inode_marked(b, sb, i)
}

/// The lowest free inode number is the one that is claimed, and where a node is made.
pub proof fn lemma_made(fs: FsView, path: Seq<char>, kind: InodeType, id: u32)
    requires
        healthy(fs),
        kind != InodeType::Free,
        lowest_slot(fs.disk.bytes, fs.sb, id),
        fs.made(path, kind).1 is Ok,
    ensures
        slot_left(fs.disk.bytes, fs.sb),
        claim_inode(fs.disk, fs.sb).1 == Ok::<u32, Failure>(id),
        parent_of(fs.disk.bytes, fs.sb, path) is Ok,
        ({
            let (p, leaf) = parent_of(fs.disk.bytes, fs.sb, path)->Ok_0;
            let (out, r) = make_in(fs.disk, fs.sb, p, leaf, kind);
            &&& lookup(fs.disk.bytes, fs.sb, p, leaf) == Ok::<Option<u32>, Failure>(None)
            &&& p < 1024
            &&& p != id
            &&& table(fs.disk.bytes, fs.sb)[p as int].kind == InodeType::Dir
            &&& r is Ok
            &&& fs.made(path, kind).0.disk == out
        }),
{
    let b = fs.disk.bytes;
    let sb = fs.sb;
    lemma_standard(sb);
    assert(slot_left(b, sb));
    assert(!no_inode_left(b, sb));
    making(fs, path, kind);
    lemma_resolve(b, sb, path);
    let (p, leaf) = parent_of(b, sb, path)->Ok_0;
    lemma_lookup(b, sb, p, leaf);
    lemma_claim_inode(fs.disk, sb);
    let got = claim_inode(fs.disk, sb).1->Ok_0;
    if got < id {
        assert(inode_marked(b, sb, got as int));
    }
    if id < got {
        assert(inode_marked(b, sb, id as int));
    }
}

/// What a new node is, on a healthy filesystem: it has the lowest number that was free. A file
/// has one link, no bytes and no blocks. A directory has two links, 528 bytes and one block, the
/// first that was free.
pub proof fn new_nodes(fs: FsView, path: Seq<char>, kind: InodeType, id: u32)
    requires
        healthy(fs),
        kind != InodeType::Free,
        lowest_slot(fs.disk.bytes, fs.sb, id),
        fs.made(path, kind).1 is Ok,
    ensures
        ({
            let b = fs.disk.bytes;
            let c = fs.made(path, kind).0.disk.bytes;
            let sb = fs.sb;
            let v = table(c, sb)[id as int];
            &&& table(b, sb)[id as int].kind == InodeType::Free
            &&& inode_marked(c, sb, id as int)
            &&& v.id == id
            &&& v.kind == kind
            &&& v.direct.len() == 12
            &&& forall|j: int| 1 <= j < 12 ==> #[trigger] v.direct[j] == 0
            &&& kind == InodeType::File ==> v.links == 1 && v.size == 0 && v.direct[0] == 0
            &&& kind == InodeType::Dir ==> {
                let n = v.direct[0] - sb.data_start;
                &&& v.links == 2
                &&& v.size == 528
                &&& 0 <= n < data_bits(sb)
                &&& !block_marked(b, sb, n)
                &&& block_marked(c, sb, n)
                &&& forall|k: int| 0 <= k < n ==> #[trigger] block_marked(b, sb, k)
            }
        }),
{
    let b = fs.disk.bytes;
    let sb = fs.sb;
    lemma_made(fs, path, kind, id);
    let (p, leaf) = parent_of(b, sb, path)->Ok_0;
    making(fs, path, kind);
    lemma_making_traces(fs.disk, sb, p, leaf, kind);
    let c = fs.made(path, kind).0.disk.bytes;
    let v = table(c, sb)[id as int];
    if kind == InodeType::Dir {
        assert(held(c, sb, pointer(table(c, sb), id as int, 0)));
    }
}

/// What making a node does to the directory that gets it, on a healthy filesystem: the directory
/// has the new entry behind the others, with the name cut to 255 bytes, and has grown by its 264
/// bytes. A new directory has two entries, which name the directory itself and its parent.
pub proof fn new_entries(fs: FsView, path: Seq<char>, kind: InodeType, id: u32)
    requires
        healthy(fs),
        kind != InodeType::Free,
        lowest_slot(fs.disk.bytes, fs.sb, id),
        fs.made(path, kind).1 is Ok,
    ensures
        ({
            let b = fs.disk.bytes;
            let c = fs.made(path, kind).0.disk.bytes;
            let sb = fs.sb;
            let (p, leaf) = parent_of(b, sb, path)->Ok_0;
            let before = table(b, sb)[p as int];
            let now = table(c, sb)[p as int];
            let es = entries(c, now);
            &&& lookup(b, sb, p, leaf) == Ok::<Option<u32>, Failure>(None)
            &&& now.size == before.size + 264
            &&& now.id == before.id
            &&& now.kind == InodeType::Dir
            &&& now.links == before.links
            &&& now.direct == before.direct
            &&& es.len() == entries(b, before).len() + 1
            &&& es.drop_last() == entries(b, before)
            &&& es.last().active == 1
            &&& es.last().kind == kind
            &&& es.last().inode_id == id
            &&& es.last().name == if encode_utf8(leaf).len() <= 255 {
                leaf
            } else {
                lossy_text(encode_utf8(leaf).take(255))
            }
            &&& kind == InodeType::Dir ==> {
                &&& entries(c, table(c, sb)[id as int]).len() == 2
                &&& lookup(c, sb, id, seq!['.']) == Ok::<Option<u32>, Failure>(Some(id))
                &&& lookup(c, sb, id, seq!['.', '.']) == Ok::<Option<u32>, Failure>(Some(p))
            }
        }),
{
    let b = fs.disk.bytes;
    let sb = fs.sb;
    lemma_made(fs, path, kind, id);
    let (p, leaf) = parent_of(b, sb, path)->Ok_0;
    making(fs, path, kind);
    lemma_make_in(fs.disk, sb, p, leaf, kind);
    let c = fs.made(path, kind).0.disk.bytes;
    let es = entries(c, table(c, sb)[p as int]);
    assert(es.drop_last() =~= entries(b, table(b, sb)[p as int]));
    record_writing(DirentView { active: 1, kind, inode_id: id, name: leaf });
    if encode_utf8(leaf).len() <= 255 {
        short_name_is_kept(leaf);
    }
    if kind == InodeType::Dir {
        lemma_dot_names();
        let own = entries(c, table(c, sb)[id as int]);
        assert(own[0] == self_entry(id) && own[1] == parent_entry(p));
        lemma_lookup(c, sb, id, seq!['.']);
        lemma_lookup(c, sb, id, seq!['.', '.']);
        lemma_find(own, 0, seq!['.']);
        lemma_find(own, 0, seq!['.', '.']);
    }
}

/// A node that was made on a healthy filesystem has left one complete change in the journal.
pub proof fn making_recorded(fs: FsView, path: Seq<char>, kind: InodeType, id: u32)
    requires
        healthy(fs),
        kind != InodeType::Free,
        lowest_slot(fs.disk.bytes, fs.sb, id),
        fs.made(path, kind).1 is Ok,
    ensures
        ({
            let c = fs.made(path, kind).0.disk.bytes;
            let ms = markers(block(fs.disk.bytes, 1), 0);
            &&& markers(block(c, 1), 0) == recorded(recorded(ms, begin_text()), commit_text())
            &&& !interrupted(block(c, 1))
        }),
{
    let b = fs.disk.bytes;
    let sb = fs.sb;
    lemma_made(fs, path, kind, id);
    let (p, leaf) = parent_of(b, sb, path)->Ok_0;
    lemma_making_traces(fs.disk, sb, p, leaf, kind);
    lemma_make_in(fs.disk, sb, p, leaf, kind);
    lemma_standard(sb);
    lemma_framed(b, sb, 1);
    lemma_block_len(b, 1);
    lemma_changed_journal(block(b, 1));
}

/// What a node that could not be made leaves behind, on a healthy filesystem on which an inode
/// slot is left and the path leads to a directory that does not have the name. The inode is
/// marked though no entry names it. Where the directory was full, the new inode is there and the
/// journal tells of a change that is not complete; where no block was left for a new directory,
/// journal and inodes are as before.
pub proof fn nodes_that_failed(fs: FsView, path: Seq<char>, kind: InodeType)
    requires
        healthy(fs),
        slot_left(fs.disk.bytes, fs.sb),
        kind != InodeType::Free,
        parent_of(fs.disk.bytes, fs.sb, path) is Ok,
        ({
            let (p, leaf) = parent_of(fs.disk.bytes, fs.sb, path)->Ok_0;
            lookup(fs.disk.bytes, fs.sb, p, leaf) == Ok::<Option<u32>, Failure>(None)
        }),
        fs.made(path, kind).1 is Err,
    ensures
        ({
            let next = fs.made(path, kind).0;
            let b = fs.disk.bytes;
            let c = next.disk.bytes;
            let sb = fs.sb;
            let t = table(b, sb);
            let u = table(c, sb);
            let ms = markers(block(b, 1), 0);
            let p = parent_of(b, sb, path)->Ok_0.0;
            let id = claim_inode(fs.disk, sb).1->Ok_0;
            let full = !(kind == InodeType::Dir && no_block_left(b, sb));
            &&& full ==> t[p as int].size == 3960
            &&& inode_marked(c, sb, id as int)
            &&& entries(c, u[p as int]) == entries(b, t[p as int])
            &&& full ==> {
                &&& u[id as int].id == id
                &&& u[id as int].kind == kind
                &&& u[p as int] == t[p as int]
                &&& markers(block(c, 1), 0) == recorded(ms, begin_text())
                &&& interrupted(block(c, 1))
            }
            &&& !full ==> u == t && block(c, 1) == block(b, 1)
        }),
{
    let next = fs.made(path, kind).0;
    let b = fs.disk.bytes;
    let c = next.disk.bytes;
    let sb = fs.sb;
    let t = table(b, sb);
    making(fs, path, kind);
    lemma_resolve(b, sb, path);
    let (p, leaf) = parent_of(b, sb, path)->Ok_0;
    lemma_lookup(b, sb, p, leaf);
    lemma_claim_inode(fs.disk, sb);
    let free = choose|i: int| 0 <= i < 1024 && !#[trigger] inode_marked(b, sb, i);
    assert(!no_inode_left(b, sb));
    lemma_making_traces(fs.disk, sb, p, leaf, kind);
    lemma_standard(sb);
    lemma_framed(b, sb, 1);
    lemma_block_len(b, 1);
    lemma_changed_journal(block(b, 1));
    lemma_lookup_kept(b, c, sb, p, leaf);
}

/// What removing a node does, on a healthy filesystem, where the name leads to another inode than
/// the directory itself: the directory loses the first entry of that name and no other; the inode
/// is a free slot; its mark and those of its blocks are taken and no others; and the journal
/// tells of one more change, which is complete.
pub proof fn removed_nodes(fs: FsView, path: Seq<char>)
    requires
        healthy(fs),
        fs.removed(path).1 is Ok,
    ensures
        ({
            let next = fs.removed(path).0;
            let b = fs.disk.bytes;
            let c = next.disk.bytes;
            let sb = fs.sb;
            let t = table(b, sb);
            let u = table(c, sb);
            let ms = markers(block(b, 1), 0);
            &&& parent_of(b, sb, path) matches Ok((p, leaf))
            &&& lookup(b, sb, p, leaf) matches Ok(Some(id))
            &&& u[id as int].id == id
            &&& u[id as int].kind == InodeType::Free
            &&& u[id as int].links == 0
            &&& u[id as int].size == 0
            &&& u[id as int].direct.len() == 12
            &&& forall|j: int| 0 <= j < 12 ==> #[trigger] u[id as int].direct[j] == 0
            &&& forall|i: int| 0 <= i < 1024 && i != id ==> #[trigger] u[i] == t[i]
            &&& id != p ==> exists|k: int|
                {
                    &&& 0 <= k < entries(b, t[p as int]).len()
                    &&& (#[trigger] entries(b, t[p as int])[k]).name == leaf
                    &&& entries(b, t[p as int])[k].inode_id == id
                    &&& forall|j: int|
                        0 <= j < k ==> (#[trigger] entries(b, t[p as int])[j]).name != leaf
                    &&& entries(c, u[p as int]) == entries(b, t[p as int]).remove(k)
                }
            &&& forall|i: int|
                0 <= i < 32768 ==> #[trigger] inode_marked(c, sb, i) == (i != id && inode_marked(
                    b,
                    sb,
                    i,
                ))
            &&& forall|k: int|
                0 <= k < data_bits(sb) ==> #[trigger] block_marked(c, sb, k) == (block_marked(
                    b,
                    sb,
                    k,
                ) && forall|j: int|
                    0 <= j < 12 ==> #[trigger] t[id as int].direct[j] != sb.data_start + k)
            &&& markers(block(c, 1), 0) == recorded(recorded(ms, begin_text()), commit_text())
            &&& !interrupted(block(c, 1))
        }),
{
    let b = fs.disk.bytes;
    let sb = fs.sb;
    let t = table(b, sb);
    removing(fs, path);
    lemma_resolve(b, sb, path);
    let (p, leaf) = parent_of(b, sb, path)->Ok_0;
    lemma_lookup(b, sb, p, leaf);
    let id = lookup(b, sb, p, leaf)->Ok_0->Some_0;
    let c = fs.removed(path).0.disk.bytes;
    lemma_find_inode(b, sb, id);
    lemma_discard(fs.disk, sb, p, leaf, id);
    lemma_standard(sb);
    lemma_framed(b, sb, 1);
    lemma_block_len(b, 1);
    lemma_changed_journal(block(b, 1));
    let es = entries(b, t[p as int]);
    lemma_find(es, 0, leaf);
    let k = find_index(es, 0, leaf)->Some_0;
    assert(es[k].name == leaf);
    assert(t[id as int].direct.len() == 12);
}

} // verus!
