//! What holds of making, mounting and unmounting an image.

use crate::bytes::zeros;
use crate::directory::lookup;
use crate::disk::{block, Image};
use crate::entries::entries;
use crate::error::Failure;
use crate::file::file_bytes;
use crate::fresh::{fresh_table, lemma_new_image};
use crate::fs::{mounted, succ, FsView, OpenHandle};
use crate::inode::InodeType;
use crate::journal::{check_journal, empty_journal, interrupted, markers};
use crate::node::{listed_names, new_image};
use crate::node_laws::lemma_listing;
use crate::path::{parts_of, resolve, walk};
use crate::sound::{
    dir_fits, held, inode_marked, intact, lemma_framed, lemma_only, lemma_standard, node_kept,
    numbered, pointer, sound, standard, table,
};
use crate::steps::{lemma_write, lemma_write_consistent};
use crate::superblock::{
    fresh_superblock, superblock_bytes, superblock_of, superblock_round_trip, with_superblock,
    Superblock,
};
use crate::text::components;
use crate::tree::{parent_entry, self_entry};
use crate::walks::{
    lemma_file_kept, lemma_lookup_kept, lemma_resolve, lemma_resolve_kept, names_kept,
};
use vstd::prelude::*;

verus! {

/// Whether a mounted filesystem is healthy: the image is sound, and open descriptors were given
/// out in order and stand for inode slots that exist.
pub open spec fn healthy(fs: FsView) -> bool {
    &&& sound(fs.disk.bytes, fs.sb)
    &&& 3 <= fs.next_fd
    &&& forall|fd: i32| #[trigger]
        fs.open.contains_key(fd) ==> 3 <= fd < fs.next_fd && numbered(
            table(fs.disk.bytes, fs.sb),
            fs.open[fd].inode_id,
        )
}

/// The superblock with another flag and sequence number.
pub open spec fn relabelled(sb: Superblock, clean: u32, sequence: u32) -> Superblock {
    Superblock { clean, sequence, ..sb }
}

/// The flag and the sequence number do not matter to whether an image is intact.
proof fn lemma_relabelled(b: Seq<u8>, sb: Superblock, clean: u32, sequence: u32)
    requires
        intact(b, sb),
    ensures
        intact(b, relabelled(sb, clean, sequence)),
        table(b, relabelled(sb, clean, sequence)) == table(b, sb),
{
    let sb2 = relabelled(sb, clean, sequence);
    assert(table(b, sb2) =~= table(b, sb));
    let t = table(b, sb);
    assert(standard(sb2));
    assert forall|id: int, j: int|
        0 <= id < 1024 && 0 <= j < 12 && #[trigger] pointer(t, id, j) != 0 implies held(
        b,
        sb2,
        pointer(t, id, j),
    ) by {
        assert(held(b, sb, pointer(t, id, j)));
    }
    assert forall|id: int| 0 <= id < 1024 && (#[trigger] t[id]).kind != InodeType::Free implies t[id].id
        == id && inode_marked(b, sb2, id) by {
        assert(inode_marked(b, sb, id));
    }
}

/// Giving an intact image another superblock keeps everything else.
proof fn lemma_superblock_written(img: Image, sb: Superblock, clean: u32, sequence: u32)
    requires
        intact(img.bytes, sb),
    ensures
        ({
            let sb2 = relabelled(sb, clean, sequence);
            let c = with_superblock(img, sb2).bytes;
            &&& sound(c, sb2)
            &&& table(c, sb2) == table(img.bytes, sb)
            &&& block(c, 1) == block(img.bytes, 1)
            &&& forall|i: int| 0 <= i < 1024 ==> #[trigger] node_kept(img.bytes, c, sb, i)
        }),
{
    let b = img.bytes;
    let sb2 = relabelled(sb, clean, sequence);
    let c = with_superblock(img, sb2).bytes;
    let t = table(b, sb);
    lemma_standard(sb);
    lemma_write(img, 0, superblock_bytes(sb2));
    superblock_round_trip(sb2);
    lemma_only(b, c, sb, 0);
    assert forall|k: int| 0 <= k < 1024 && (#[trigger] t[k]).kind == InodeType::Dir implies
        t[k].direct[0] != 0 by {
        assert(dir_fits(b, t, t[k]));
    }
    lemma_write_consistent(b, c, sb, 0, t);
    lemma_relabelled(c, sb, clean, sequence);
    assert forall|i: int| 0 <= i < 1024 implies #[trigger] node_kept(b, c, sb, i) by {
        assert forall|j: int| 0 <= j < 12 && #[trigger] pointer(t, i, j) != 0 implies block(
            c,
            pointer(t, i, j) as int,
        ) == block(b, pointer(t, i, j) as int) by {
            assert(held(b, sb, pointer(t, i, j)));
        }
    }
}

/// Formatting succeeds exactly where a block is left for data, and gives a sound image that
/// holds the root directory, with its two own entries, and nothing else.
pub proof fn formatting(total_blocks: u32)
    ensures
        ({
            let sb = fresh_superblock(total_blocks);
            let (img, r) = new_image(total_blocks);
            &&& r == if sb.data_start < total_blocks {
                Ok::<(), Failure>(())
            } else {
                Err::<(), Failure>(Failure::NoSpace)
            }
            &&& r is Ok ==> sound(img.bytes, sb)
            &&& r is Ok ==> forall|i: int|
                0 <= i < 1024 ==> (#[trigger] table(img.bytes, sb)[i]).kind == if i == 0 {
                    InodeType::Dir
                } else {
                    InodeType::Free
                }
        }),
{
    if fresh_superblock(total_blocks).data_start < total_blocks {
        lemma_new_image(total_blocks);
    }
}

/// Mounting a sound image: an image of which the journal tells that a change was cut short is
/// refused as corrupt; every other is accepted, with no descriptor open, and then is marked as
/// in use and has an empty journal. All inodes and their data stay.
pub proof fn mounting(img: Image, sb: Superblock)
    requires
        sound(img.bytes, sb),
    ensures
        interrupted(block(img.bytes, 1)) ==> mounted(img) == Err::<FsView, Failure>(
            Failure::Corrupt,
        ),
        !interrupted(block(img.bytes, 1)) ==> {
            &&& mounted(img) matches Ok(fs)
            &&& healthy(fs)
            &&& fs.sb == Superblock { clean: 0, sequence: succ(sb.sequence), ..sb }
            &&& fs.next_fd == 3
            &&& fs.open == Map::<i32, OpenHandle>::empty()
            &&& markers(block(fs.disk.bytes, 1), 0) == Seq::<Seq<u8>>::empty()
            &&& forall|i: int|
                0 <= i < 1024 ==> #[trigger] node_kept(img.bytes, fs.disk.bytes, sb, i)
        },
{
    let b = img.bytes;
    let t = table(b, sb);
    lemma_standard(sb);
    lemma_framed(b, sb, 1);
    if !interrupted(block(b, 1)) {
        let checked = check_journal(img, sb).0;
        let b1 = checked.bytes;
        lemma_write(img, 1, zeros(4096));
        lemma_only(b, b1, sb, 1);
        assert forall|k: int| 0 <= k < 1024 && (#[trigger] t[k]).kind == InodeType::Dir implies
            t[k].direct[0] != 1 by {
            assert(dir_fits(b, t, t[k]));
            assert(held(b, sb, pointer(t, k, 0)));
        }
        lemma_write_consistent(b, b1, sb, 1, t);
        empty_journal();
        lemma_superblock_written(checked, sb, 0, succ(sb.sequence));
        let fs = mounted(img)->Ok_0;
        assert forall|i: int| 0 <= i < 1024 implies #[trigger] node_kept(
            b,
            fs.disk.bytes,
            sb,
            i,
        ) by {
            assert(node_kept(b1, fs.disk.bytes, sb, i));
            assert forall|j: int| 0 <= j < 12 && #[trigger] pointer(t, i, j) != 0 implies block(
                fs.disk.bytes,
                pointer(t, i, j) as int,
            ) == block(b, pointer(t, i, j) as int) by {
                assert(held(b, sb, pointer(t, i, j)));
            }
        }
    }
}

/// Unmounting a healthy filesystem marks the image as left clean, counts on, and keeps
/// everything else.
pub proof fn unmounting(fs: FsView)
    requires
        healthy(fs),
    ensures
        healthy(fs.unmounted()),
        superblock_of(fs.unmounted().disk.bytes) == Ok::<Superblock, Failure>(
            Superblock { clean: 1, sequence: succ(fs.sb.sequence), ..fs.sb },
        ),
        block(fs.unmounted().disk.bytes, 1) == block(fs.disk.bytes, 1),
        forall|i: int|
            0 <= i < 1024 ==> #[trigger] node_kept(
                fs.disk.bytes,
                fs.unmounted().disk.bytes,
                fs.sb,
                i,
            ),
{
    lemma_superblock_written(fs.disk, fs.sb, 1, succ(fs.sb.sequence));
}

/// Names lead to the same, whatever the flag and the sequence number are.
proof fn lemma_walk_relabelled(
    b: Seq<u8>,
    sb: Superblock,
    other: Superblock,
    cur: u32,
    parts: Seq<Seq<char>>,
    i: int,
    path: Seq<char>,
)
    requires
        other == relabelled(sb, other.clean, other.sequence),
        0 <= i,
    ensures
        walk(b, other, cur, parts, i, path) == walk(b, sb, cur, parts, i, path),
    decreases parts.len() - i,
{
    if i < parts.len() {
        assert(lookup(b, other, cur, parts[i]) == lookup(b, sb, cur, parts[i]));
        if let Ok(Some(id)) = lookup(b, sb, cur, parts[i]) {
            lemma_walk_relabelled(b, sb, other, id, parts, i + 1, path);
        }
    }
}

/// Where all nodes were kept, every path names the same and every file has the same contents.
proof fn lemma_all_kept(b: Seq<u8>, c: Seq<u8>, sb: Superblock, other: Superblock)
    requires
        intact(b, sb),
        intact(c, other),
        other == relabelled(sb, other.clean, other.sequence),
        forall|i: int| 0 <= i < 1024 ==> #[trigger] node_kept(b, c, sb, i),
    ensures
        forall|path: Seq<char>| #[trigger] resolve(c, other, path) == resolve(b, sb, path),
        forall|id: u32|
            id < 1024 ==> #[trigger] file_bytes(c, other, id) == file_bytes(b, sb, id),
        forall|d: u32, name: Seq<char>|
            d < 1024 ==> #[trigger] lookup(c, other, d, name) == lookup(b, sb, d, name),
        forall|id: int|
            0 <= id < 1024 && (#[trigger] table(b, sb)[id]).kind == InodeType::Dir ==> entries(
                c,
                table(b, sb)[id],
            ) == entries(b, table(b, sb)[id]),
{
    lemma_relabelled(c, other, sb.clean, sb.sequence);
    assert(relabelled(other, sb.clean, sb.sequence) == sb);
    assert forall|d: u32, name: Seq<char>| d < 1024 implies #[trigger] lookup(c, other, d, name)
        == lookup(b, sb, d, name) && lookup(c, sb, d, name) == lookup(b, sb, d, name) by {
        assert(node_kept(b, c, sb, d as int));
        lemma_lookup_kept(b, c, sb, d, name);
    }
    assert(names_kept(b, c, sb)) by {
        assert forall|d: u32, name: Seq<char>| d < 1024 implies #[trigger] lookup(c, sb, d, name)
            == lookup(b, sb, d, name) by {
            assert(lookup(c, other, d, name) == lookup(b, sb, d, name));
        }
    }
    assert forall|path: Seq<char>| #[trigger] resolve(c, other, path) == resolve(b, sb, path) by {
        lemma_resolve_kept(b, c, sb, path);
        if let Ok(parts) = parts_of(path) {
            lemma_walk_relabelled(c, sb, other, 0, parts, 0, path);
        }
    }
    assert forall|id: u32| id < 1024 implies #[trigger] file_bytes(c, other, id) == file_bytes(
        b,
        sb,
        id,
    ) by {
        assert(node_kept(b, c, sb, id as int));
        lemma_file_kept(b, c, sb, id);
        assert(file_bytes(c, other, id) == file_bytes(c, sb, id));
    }
    assert forall|id: int|
        0 <= id < 1024 && (#[trigger] table(b, sb)[id]).kind == InodeType::Dir implies entries(
        c,
        table(b, sb)[id],
    ) == entries(b, table(b, sb)[id]) by {
        assert(node_kept(b, c, sb, id));
        lemma_lookup_kept(b, c, sb, id as u32, Seq::empty());
    }
}

/// What a healthy filesystem holds is there again after it was unmounted and mounted: every
/// path names the same inode, every file has its contents, and every directory its listing.
/// The journal must not tell of a change that was cut short.
pub proof fn remounting(fs: FsView)
    requires
        healthy(fs),
        !interrupted(block(fs.disk.bytes, 1)),
    ensures
        mounted(fs.unmounted().disk) matches Ok(next) && {
            &&& healthy(next)
            &&& next.sb == Superblock {
                clean: 0,
                sequence: succ(succ(fs.sb.sequence)),
                ..fs.sb
            }
            &&& next.next_fd == 3
            &&& next.open == Map::<i32, OpenHandle>::empty()
            &&& forall|path: Seq<char>| #[trigger]
                resolve(next.disk.bytes, next.sb, path) == resolve(fs.disk.bytes, fs.sb, path)
            &&& forall|id: u32|
                id < 1024 ==> #[trigger] file_bytes(next.disk.bytes, next.sb, id) == file_bytes(
                    fs.disk.bytes,
                    fs.sb,
                    id,
                )
            &&& forall|path: Seq<char>| #[trigger] next.listing(path) == fs.listing(path)
        },
{
    unmounting(fs);
    let left = fs.unmounted();
    mounting(left.disk, left.sb);
    let next = mounted(left.disk)->Ok_0;
    let b = fs.disk.bytes;
    let m = left.disk.bytes;
    let c = next.disk.bytes;
    lemma_all_kept(b, m, fs.sb, left.sb);
    lemma_all_kept(m, c, left.sb, next.sb);
    lemma_relabelled(m, left.sb, fs.sb.clean, fs.sb.sequence);
    assert(relabelled(left.sb, fs.sb.clean, fs.sb.sequence) == fs.sb);
    lemma_relabelled(c, next.sb, fs.sb.clean, fs.sb.sequence);
    assert(relabelled(next.sb, fs.sb.clean, fs.sb.sequence) == fs.sb);
    assert(table(m, left.sb) =~= table(b, fs.sb)) by {
        assert forall|i: int| 0 <= i < 1024 implies table(m, left.sb)[i] == table(b, fs.sb)[i] by {
            assert(node_kept(b, m, fs.sb, i));
        }
    }
    assert(table(c, next.sb) =~= table(m, left.sb)) by {
        assert forall|i: int| 0 <= i < 1024 implies table(c, next.sb)[i] == table(m, left.sb)[
            i] by {
            assert(node_kept(m, c, left.sb, i));
            lemma_relabelled(c, next.sb, left.sb.clean, left.sb.sequence);
            assert(relabelled(next.sb, left.sb.clean, left.sb.sequence) == left.sb);
        }
    }
    assert forall|path: Seq<char>| #[trigger] resolve(c, next.sb, path) == resolve(
        b,
        fs.sb,
        path,
    ) by {
        assert(resolve(c, next.sb, path) == resolve(m, left.sb, path));
    }
    assert forall|id: u32| id < 1024 implies #[trigger] file_bytes(c, next.sb, id) == file_bytes(
        b,
        fs.sb,
        id,
    ) by {
        assert(file_bytes(c, next.sb, id) == file_bytes(m, left.sb, id));
    }
    assert forall|path: Seq<char>| #[trigger] next.listing(path) == fs.listing(path) by {
        lemma_listing(fs, path);
        lemma_listing(next, path);
        lemma_resolve(b, fs.sb, path);
        assert(resolve(c, next.sb, path) == resolve(b, fs.sb, path));
        if let Ok(id) = resolve(b, fs.sb, path) {
            let dir = table(b, fs.sb)[id as int];
            assert(table(m, left.sb)[id as int] == dir);
            if dir.kind == InodeType::Dir {
                assert(entries(m, dir) == entries(b, dir));
                assert(entries(c, dir) == entries(m, dir));
            }
        }
    }
}

/// An image that was just made can be mounted, and its root directory lists nothing.
pub proof fn fresh_mount(total_blocks: u32)
    requires
        fresh_superblock(total_blocks).data_start < total_blocks,
    ensures
        mounted(new_image(total_blocks).0) matches Ok(fs) && {
            &&& healthy(fs)
            &&& fs.listing("/"@) == Ok::<Seq<Seq<char>>, Failure>(Seq::empty())
            &&& entries(fs.disk.bytes, table(fs.disk.bytes, fs.sb)[0]) == seq![
                self_entry(0),
                parent_entry(0),
            ]
            &&& forall|i: int|
                1 <= i < 1024 ==> (#[trigger] table(fs.disk.bytes, fs.sb)[i]).kind
                    == InodeType::Free
        },
{
    let sb = fresh_superblock(total_blocks);
    let img = new_image(total_blocks).0;
    lemma_new_image(total_blocks);
    empty_journal();
    mounting(img, sb);
    let fs = mounted(img)->Ok_0;
    lemma_all_kept(img.bytes, fs.disk.bytes, sb, fs.sb);
    lemma_relabelled(fs.disk.bytes, fs.sb, sb.clean, sb.sequence);
    assert(relabelled(fs.sb, sb.clean, sb.sequence) == sb);
    assert forall|i: int| 0 <= i < 1024 implies #[trigger] table(fs.disk.bytes, fs.sb)[i]
        == fresh_table(sb)[i] by {
        assert(node_kept(img.bytes, fs.disk.bytes, sb, i));
    }
    reveal_strlit("/");
    assert("/"@.drop_last() =~= Seq::empty());
    assert(components("/"@.drop_last()) == Seq::<Seq<char>>::empty());
    lemma_listing(fs, "/"@);
    let root = fresh_table(sb)[0];
    assert(table(fs.disk.bytes, fs.sb)[0] == root);
    assert(table(img.bytes, sb)[0] == root);
    let es = entries(fs.disk.bytes, root);
    let one = seq![self_entry(0)];
    assert(es.drop_last() =~= one);
    assert(one.drop_last() =~= Seq::empty());
    assert(listed_names(one.drop_last()) == Seq::<Seq<char>>::empty());
    assert(listed_names(one) == Seq::<Seq<char>>::empty());
}

} // verus!
