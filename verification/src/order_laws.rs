//! The order in which the blocks of a change are written.

use crate::bitmap::{claim_block, claim_from, claim_inode, switch_bit};
use crate::directory::{link, lookup, records_in_block, unlink, unlink_from};
use crate::dirent::DirentView;
use crate::disk::{block, readable, Image};
use crate::entries::lemma_lookup;
use crate::error::Failure;
use crate::file::{file_bytes, free_from, release_block, write_file};
use crate::fs::{overwritten, replace_contents, resized, FsView};
use crate::inode::{find_inode, put_inode, InodeType, InodeView};
use crate::journal::{mark, with_marker, TX_BEGIN, TX_COMMIT};
use crate::mount_laws::healthy;
use crate::node::{first_records, free_slot, new_dir, new_file, publish};
use crate::node_laws::removing;
use crate::path::parent_of;
use crate::sound::{
    block_marked, data_bits, dir_fits, framed, intact, lemma_find_inode, lemma_framed, lemma_only,
    lemma_standard, numbered, only_block, table,
};
use crate::steps::{
    first_free_bit_wins, lemma_claim_block, lemma_claim_inode, lemma_put_inode, lemma_write,
};
use crate::superblock::Superblock;
use crate::tree::{lemma_make_in, lemma_making_traces, lemma_mark_intact};
use crate::tree_laws::{lemma_made, lowest_slot};
use crate::walks::lemma_resolve;
use vstd::prelude::*;

verus! {

/// The block of the inode table in which inode `id` stands.
pub open spec fn slot_block(sb: Superblock, id: u32) -> int {
    sb.inode_table_start + id as int / 32
}

/// Whether the numbers of the blocks that were written since `a` are `ns`.
pub open spec fn written_blocks(a: Image, z: Image, ns: Seq<int>) -> bool {
    &&& a.writes.len() + ns.len() == z.writes.len()
    &&& forall|k: int| 0 <= k < a.writes.len() ==> #[trigger] z.writes[k] == a.writes[k]
    &&& forall|k: int| 0 <= k < ns.len() ==> z.writes[a.writes.len() + k].0 == #[trigger] ns[k]
}

/// Blocks written in two parts.
proof fn lemma_written_add(a: Image, m: Image, z: Image, x: Seq<int>, y: Seq<int>)
    requires
        written_blocks(a, m, x),
        written_blocks(m, z, y),
    ensures
        written_blocks(a, z, x + y),
{
    let ns = x + y;
    let n = a.writes.len() as int;
    assert forall|k: int| 0 <= k < n implies #[trigger] z.writes[k] == a.writes[k] by {
        assert(z.writes[k] == m.writes[k]);
        assert(m.writes[k] == a.writes[k]);
    }
    assert forall|k: int| 0 <= k < ns.len() implies z.writes[n + k].0 == #[trigger] ns[k] by {
        if k < x.len() {
            assert(ns[k] == x[k]);
            assert(z.writes[n + k] == m.writes[n + k]);
        } else {
            assert(ns[k] == y[k - x.len()]);
            assert(n + k == m.writes.len() + (k - x.len()));
        }
    }
}

/// What a marker or an inode writes.
proof fn lemma_single_writes(img: Image, sb: Superblock, m: Seq<u8>, v: InodeView)
    ensures
        mark(img, sb, m).1 is Ok ==> written_blocks(
            img,
            mark(img, sb, m).0,
            seq![sb.journal_start as int],
        ),
        put_inode(img, sb, v).1 is Ok ==> written_blocks(
            img,
            put_inode(img, sb, v).0,
            seq![slot_block(sb, v.id)],
        ),
{
}

/// Publishing a node writes five blocks: the journal, the new inode, the block with the entries
/// of the directory, the inode of the directory, and the journal again.
proof fn lemma_publish_writes(
    img: Image,
    sb: Superblock,
    p: u32,
    dir: InodeView,
    node: InodeView,
    name: Seq<char>,
)
    requires
        publish(img, sb, p, node, name).1 is Ok,
        ({
            let begun = mark(img, sb, TX_BEGIN@).0;
            let written = put_inode(begun, sb, node).0;
            find_inode(written.bytes, sb, p) == Ok::<InodeView, Failure>(dir)
        }),
        dir.size < 4096,
        dir.direct[0] != 0,
    ensures
        written_blocks(
            img,
            publish(img, sb, p, node, name).0,
            seq![
                sb.journal_start as int,
                slot_block(sb, node.id),
                dir.direct[0] as int,
                slot_block(sb, dir.id),
                sb.journal_start as int,
            ],
        ),
{
    let begun = mark(img, sb, TX_BEGIN@).0;
    let written = put_inode(begun, sb, node).0;
    let ent = DirentView { active: 1, kind: node.kind, inode_id: node.id, name };
    let linked = link(written, sb, p, ent).0;
    let z = publish(img, sb, p, node, name).0;
    lemma_single_writes(img, sb, TX_BEGIN@, node);
    lemma_single_writes(begun, sb, TX_BEGIN@, node);
    lemma_single_writes(linked, sb, TX_COMMIT@, node);
    assert(dir.size as int / 4096 == 0);
    assert(written_blocks(
        written,
        linked,
        seq![dir.direct[0] as int, slot_block(sb, dir.id)],
    ));
    let j = seq![sb.journal_start as int];
    let s = seq![slot_block(sb, node.id)];
    let l = seq![dir.direct[0] as int, slot_block(sb, dir.id)];
    lemma_written_add(img, begun, written, j, s);
    lemma_written_add(img, written, linked, j + s, l);
    lemma_written_add(img, linked, z, j + s + l, j);
    assert(j + s + l + j =~= seq![
        sb.journal_start as int,
        slot_block(sb, node.id),
        dir.direct[0] as int,
        slot_block(sb, dir.id),
        sb.journal_start as int,
    ]);
}

/// The blocks that are written where a node is made on a healthy filesystem, in order. They end
/// with the journal, the new inode, the entries of the directory, the inode of the directory and
/// the journal again. Before that come the inode bitmap and, for a directory, the block bitmap
/// and the new directory's own block.
pub proof fn blocks_of_making(fs: FsView, path: Seq<char>, kind: InodeType, id: u32)
    requires
        healthy(fs),
        kind != InodeType::Free,
        lowest_slot(fs.disk.bytes, fs.sb, id),
        fs.made(path, kind).1 is Ok,
    ensures
        ({
            let z = fs.made(path, kind).0.disk;
            let sb = fs.sb;
            let p = parent_of(fs.disk.bytes, sb, path)->Ok_0.0;
            let entries = table(fs.disk.bytes, sb)[p as int].direct[0] as int;
            let own = table(z.bytes, sb)[id as int].direct[0] as int;
            written_blocks(
                fs.disk,
                z,
                if kind == InodeType::Dir {
                    seq![
                        65,
                        66 + (own - sb.data_start) / 32768,
                        own,
                        1,
                        slot_block(sb, id),
                        entries,
                        slot_block(sb, p),
                        1,
                    ]
                } else {
                    seq![65, 1, slot_block(sb, id), entries, slot_block(sb, p), 1]
                },
            )
        }),
{
    let img = fs.disk;
    let sb = fs.sb;
    let b = img.bytes;
    lemma_made(fs, path, kind, id);
    lemma_resolve(b, sb, path);
    let (p, leaf) = parent_of(b, sb, path)->Ok_0;
    lemma_standard(sb);
    lemma_claim_inode(img, sb);
    let claimed = claim_inode(img, sb).0;
    lemma_only(b, claimed.bytes, sb, 65);
    lemma_claimed_writes(img, sb);
    let z = fs.made(path, kind).0.disk;
    let dir = table(b, sb)[p as int];
    assert(dir_fits(b, table(b, sb), dir));
    if kind == InodeType::Dir {
        lemma_claim_block(claimed, sb);
        lemma_claimed_writes(claimed, sb);
        let (spaced, r) = claim_block(claimed, sb);
        let n = r->Ok_0;
        lemma_only(claimed.bytes, spaced.bytes, sb, 66 + (n - sb.data_start) / 32768);
        let records = first_records(id, p);
        let before = spaced.write(n, records);
        lemma_write(spaced, n, records);
        lemma_only(spaced.bytes, before.bytes, sb, n as int);
        lemma_making_traces(img, sb, p, leaf, kind);
        lemma_make_in(img, sb, p, leaf, kind);
        lemma_parent_found(img, before, sb, p, new_dir(id, n));
        lemma_publish_writes(before, sb, p, dir, new_dir(id, n), leaf);
        let own = table(z.bytes, sb)[id as int].direct[0];
        lemma_first_free(b, claimed.bytes, sb, own - sb.data_start, n - sb.data_start);
        let x = seq![65int];
        let y = seq![66 + (n - sb.data_start) / 32768];
        let w = seq![n as int];
        let l = seq![1, slot_block(sb, id), dir.direct[0] as int, slot_block(sb, p), 1];
        assert(written_blocks(spaced, before, w));
        lemma_written_add(img, claimed, spaced, x, y);
        lemma_written_add(img, spaced, before, x + y, w);
        lemma_written_add(img, before, z, x + y + w, l);
        assert(x + y + w + l =~= seq![
            65,
            66 + (n - sb.data_start) / 32768,
            n as int,
            1,
            slot_block(sb, id),
            dir.direct[0] as int,
            slot_block(sb, p),
            1,
        ]);
    } else {
        lemma_parent_found(img, claimed, sb, p, new_file(id, kind));
        lemma_publish_writes(claimed, sb, p, dir, new_file(id, kind), leaf);
        let x = seq![65int];
        let l = seq![1, slot_block(sb, id), dir.direct[0] as int, slot_block(sb, p), 1];
        lemma_written_add(img, claimed, z, x, l);
        assert(x + l =~= seq![
            65,
            1,
            slot_block(sb, id),
            dir.direct[0] as int,
            slot_block(sb, p),
            1,
        ]);
    }
}

/// The inode of the directory is found as it was where a new inode was written.
proof fn lemma_parent_found(img: Image, before: Image, sb: Superblock, p: u32, node: InodeView)
    requires
        framed(before.bytes, sb),
        table(before.bytes, sb) == table(img.bytes, sb),
        p < 1024,
        node.id < 1024,
        node.id != p,
        node.direct.len() == 12,
    ensures
        ({
            let begun = mark(before, sb, TX_BEGIN@).0;
            let written = put_inode(begun, sb, node).0;
            find_inode(written.bytes, sb, p) == Ok::<InodeView, Failure>(
                table(img.bytes, sb)[p as int],
            )
        }),
{
    let begun = mark(before, sb, TX_BEGIN@).0;
    let written = put_inode(begun, sb, node).0;
    lemma_standard(sb);
    lemma_framed(before.bytes, sb, 1);
    lemma_write(
        before,
        1,
        with_marker(block(before.bytes, 1), TX_BEGIN@),
    );
    lemma_only(before.bytes, begun.bytes, sb, 1);
    lemma_put_inode(begun, sb, node);
    lemma_only(begun.bytes, written.bytes, sb, slot_block(sb, node.id));
    lemma_find_inode(written.bytes, sb, p);
}

/// What is written where an inode or a block is claimed.
proof fn lemma_claimed_writes(img: Image, sb: Superblock)
    requires
        framed(img.bytes, sb),
    ensures
        claim_inode(img, sb).1 is Ok ==> written_blocks(img, claim_inode(img, sb).0, seq![65int]),
        claim_block(img, sb).1 matches Ok(n) ==> written_blocks(
            img,
            claim_block(img, sb).0,
            seq![66 + (n - sb.data_start) / 32768],
        ),
{
    lemma_standard(sb);
    let blocks = sb.block_bitmap_blocks;
    assert forall|n: int| 65 <= n < 66 + blocks implies readable(img.bytes, n) by {
        lemma_framed(img.bytes, sb, n);
    }
    first_free_bit_wins(img, 65, 1, 0);
    first_free_bit_wins(img, 66, blocks, 0);
    if let Ok(v) = claim_from(img, 66, blocks, 0).1 {
        assert(v as int / 32768 < blocks);
        assert(v < data_bits(sb));
        assert(v % 0x1_0000_0000 == v);
    }
}

/// The first free block is the same where only the inode bitmap changed.
proof fn lemma_first_free(b: Seq<u8>, c: Seq<u8>, sb: Superblock, x: int, y: int)
    requires
        framed(b, sb),
        only_block(b, c, 65),
        0 <= x < data_bits(sb),
        0 <= y < data_bits(sb),
        !block_marked(b, sb, x),
        forall|k: int| 0 <= k < x ==> #[trigger] block_marked(b, sb, k),
        !block_marked(c, sb, y),
        forall|k: int| 0 <= k < y ==> #[trigger] block_marked(c, sb, k),
    ensures
        x == y,
{
    lemma_standard(sb);
    lemma_framed(b, sb, 66 + x / 32768);
    lemma_framed(b, sb, 66 + y / 32768);
    assert(block_marked(c, sb, x) == block_marked(b, sb, x));
    assert(block_marked(c, sb, y) == block_marked(b, sb, y));
    if x < y {
        assert(block_marked(c, sb, x));
    }
    if y < x {
        assert(block_marked(b, sb, y));
    }
}

/// Replacing the contents of a file ends with its inode and the journal.
proof fn lemma_replace_writes(img: Image, sb: Superblock, id: u32, data: Seq<u8>)
    requires
        intact(img.bytes, sb),
        numbered(table(img.bytes, sb), id),
        replace_contents(img, sb, id, data).1 is Ok,
    ensures
        ({
            let w = replace_contents(img, sb, id, data).0.writes;
            &&& w.last().0 == 1
            &&& w[w.len() - 2].0 == slot_block(sb, id)
        }),
{
    lemma_standard(sb);
    lemma_mark_intact(img, sb, TX_BEGIN@);
    let begun = mark(img, sb, TX_BEGIN@).0;
    lemma_find_inode(begun.bytes, sb, id);
    let written = write_file(begun, sb, id, data).0;
    assert(written.writes.last().0 == slot_block(sb, id));
}

/// A write that succeeds on a healthy filesystem ends with the inode and the journal.
pub proof fn blocks_of_writing(fs: FsView, fd: i32, data: Seq<u8>)
    requires
        healthy(fs),
        fs.written_at_cursor(fd, data).1 is Ok,
    ensures
        ({
            let w = fs.written_at_cursor(fd, data).0.disk.writes;
            &&& w.last().0 == 1
            &&& w[w.len() - 2].0 == slot_block(fs.sb, fs.open[fd].inode_id)
        }),
{
    let id = fs.open[fd].inode_id;
    let old = file_bytes(fs.disk.bytes, fs.sb, id)->Ok_0;
    lemma_replace_writes(
        fs.disk,
        fs.sb,
        id,
        overwritten(old, fs.open[fd].offset as int, data),
    );
}

/// A truncation that succeeds on a healthy filesystem ends with the inode and the journal.
pub proof fn blocks_of_truncating(fs: FsView, path: Seq<char>, size: usize)
    requires
        healthy(fs),
        fs.truncated(path, size).1 is Ok,
    ensures
        ({
            let w = fs.truncated(path, size).0.disk.writes;
            &&& w.last().0 == 1
            &&& w[w.len() - 2].0 == slot_block(fs.sb, fs.file_at(path)->Ok_0)
        }),
{
    lemma_resolve(fs.disk.bytes, fs.sb, path);
    let id = fs.file_at(path)->Ok_0;
    let old = file_bytes(fs.disk.bytes, fs.sb, id)->Ok_0;
    lemma_replace_writes(fs.disk, fs.sb, id, resized(old, size as nat));
}

/// The blocks of the bitmap in which the bits of the pointers from `i` on stand.
pub open spec fn bitmap_places(sb: Superblock, direct: Seq<u32>, i: int) -> Seq<int>
    decreases direct.len() - i,
{
    if i >= direct.len() {
        Seq::empty()
    } else if direct[i] == 0 {
        bitmap_places(sb, direct, i + 1)
    } else {
        seq![sb.block_bitmap_start + (direct[i] - sb.data_start) / 32768] + bitmap_places(
            sb,
            direct,
            i + 1,
        )
    }
}

/// Giving back blocks writes the bitmap once for each, in order.
proof fn lemma_free_writes(img: Image, sb: Superblock, direct: Seq<u32>, i: int)
    requires
        0 <= i,
        free_from(img, sb, direct, i).1 is Ok,
    ensures
        written_blocks(img, free_from(img, sb, direct, i).0, bitmap_places(sb, direct, i)),
    decreases direct.len() - i,
{
    if i < direct.len() {
        if direct[i] == 0 {
            lemma_free_writes(img, sb, direct, i + 1);
        } else {
            let next = release_block(img, sb, direct[i]).0;
            let n = sb.block_bitmap_start + (direct[i] - sb.data_start) / 32768;
            assert(written_blocks(img, next, seq![n]));
            lemma_free_writes(next, sb, direct, i + 1);
            lemma_written_add(
                img,
                next,
                free_from(img, sb, direct, i).0,
                seq![n],
                bitmap_places(sb, direct, i + 1),
            );
        }
    }
}

/// The blocks that are written where a node is removed from a healthy filesystem, in order: the
/// journal, the entries of the directory, the block bitmap once for each block of the node, the
/// inode bitmap, the inode and the journal again.
pub proof fn blocks_of_removing(fs: FsView, path: Seq<char>)
    requires
        healthy(fs),
        fs.removed(path).1 is Ok,
    ensures
        ({
            let sb = fs.sb;
            let b = fs.disk.bytes;
            let (p, leaf) = parent_of(b, sb, path)->Ok_0;
            let id = lookup(b, sb, p, leaf)->Ok_0->Some_0;
            let t = table(b, sb);
            written_blocks(
                fs.disk,
                fs.removed(path).0.disk,
                seq![1, t[p as int].direct[0] as int] + bitmap_places(sb, t[id as int].direct, 0)
                    + seq![65, slot_block(sb, id), 1],
            )
        }),
{
    let img = fs.disk;
    let sb = fs.sb;
    let b = img.bytes;
    let t = table(b, sb);
    lemma_standard(sb);
    removing(fs, path);
    lemma_resolve(b, sb, path);
    let (p, leaf) = parent_of(b, sb, path)->Ok_0;
    lemma_lookup(b, sb, p, leaf);
    let id = lookup(b, sb, p, leaf)->Ok_0->Some_0;
    lemma_find_inode(b, sb, id);
    let target = t[id as int];
    lemma_mark_intact(img, sb, TX_BEGIN@);
    let begun = mark(img, sb, TX_BEGIN@).0;
    lemma_find_inode(begun.bytes, sb, p);
    let dir = t[p as int];
    assert(dir_fits(b, t, dir));
    let unlinked = unlink(begun, sb, p, leaf).0;
    let freed = free_from(unlinked, sb, target.direct, 0).0;
    let cleared = switch_bit(freed, sb.inode_bitmap_start, id, false).0;
    let written = put_inode(cleared, sb, free_slot(id)).0;
    let z = fs.removed(path).0.disk;
    let j = seq![1int];
    let e = seq![dir.direct[0] as int];
    let f = bitmap_places(sb, target.direct, 0);
    lemma_single_writes(img, sb, TX_BEGIN@, free_slot(id));
    lemma_unlink_writes(begun, dir, leaf);
    lemma_free_writes(unlinked, sb, target.direct, 0);
    assert(id as int / 32768 == 0);
    assert(written_blocks(freed, cleared, seq![65int]));
    lemma_single_writes(cleared, sb, TX_BEGIN@, free_slot(id));
    lemma_single_writes(written, sb, TX_COMMIT@, free_slot(id));
    let s = seq![slot_block(sb, id)];
    lemma_written_add(img, begun, unlinked, j, e);
    lemma_written_add(img, unlinked, freed, j + e, f);
    lemma_written_add(img, freed, cleared, j + e + f, seq![65int]);
    lemma_written_add(img, cleared, written, j + e + f + seq![65int], s);
    lemma_written_add(img, written, z, j + e + f + seq![65int] + s, j);
    assert(j + e + f + seq![65int] + s + j =~= seq![1, dir.direct[0] as int] + f + seq![
        65,
        slot_block(sb, id),
        1,
    ]);
}

/// Switching off an entry of a directory of one block writes that block.
proof fn lemma_unlink_writes(img: Image, dir: InodeView, name: Seq<char>)
    requires
        dir.direct.len() == 12,
        dir.direct[0] != 0,
        forall|j: int| 1 <= j < 12 ==> #[trigger] dir.direct[j] == 0,
        unlink_from(img, dir.direct, 0, dir.size as int, name).1 is Ok,
    ensures
        written_blocks(
            img,
            unlink_from(img, dir.direct, 0, dir.size as int, name).0,
            seq![dir.direct[0] as int],
        ),
{
    let n = records_in_block(dir.size as int);
    lemma_nothing_unlinked(img, dir.direct, 1, dir.size as int - 264 * n, name);
}

/// Nothing is found where no pointer points anywhere.
proof fn lemma_nothing_unlinked(
    img: Image,
    direct: Seq<u32>,
    i: int,
    remaining: int,
    name: Seq<char>,
)
    requires
        0 <= i,
        forall|j: int| i <= j < direct.len() ==> #[trigger] direct[j] == 0,
    ensures
        unlink_from(img, direct, i, remaining, name).1 is Err,
    decreases direct.len() - i,
{
    if i < direct.len() {
        lemma_nothing_unlinked(img, direct, i + 1, remaining, name);
    }
}

} // verus!
