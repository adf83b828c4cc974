//! What making and removing a node does to a consistent image.

use crate::bitmap::{claim_block, claim_inode, switch_bit};
use crate::contents::{data_kept, lemma_same_metadata, same_metadata};
use crate::directory::{active_only, find_name, link, raw_record, record, unlink};
use crate::dirent::{dirent_bytes, dirent_round_trip, short_name_is_kept, DirentView};
use crate::disk::{block, padded, readable, Image};
use crate::entries::{as_stored, entries, lemma_link, lemma_unlink, records, without_first};
use crate::error::Failure;
use crate::file::{free_from, release_block};
use crate::inode::{inode_block, put_inode, InodeType, InodeView};
use crate::journal::{mark, tidy, with_marker, TX_BEGIN, TX_COMMIT};
use crate::node::{
    discard, dot, dot_dot, first_records, free_slot, make_in, new_dir, new_file, publish,
};
use crate::sound::{
    addressable, block_marked, consistent, data_bits, dir_fits, framed, held, inode_marked, intact,
    lemma_only, lemma_replace_slot, lemma_standard, marked_outside, no_block_left, node_kept,
    numbered, only_block, owns_alone, pointer, record_fits, table,
};
use crate::steps::{
    lemma_claim_block, lemma_claim_block_consistent, lemma_claim_inode, lemma_inode_bits_consistent,
    lemma_mark, lemma_put_inode, lemma_release_block, lemma_release_consistent, lemma_switch_inode,
    lemma_write, lemma_write_consistent,
};
use crate::superblock::{superblock_of, Superblock};
use vstd::prelude::*;
use vstd::utf8::{is_ascii_chars, is_ascii_chars_encode_utf8};

verus! {

/// Adding a marker keeps an image intact and changes nothing but the journal.
pub proof fn lemma_mark_intact(img: Image, sb: Superblock, marker: Seq<u8>)
    requires
        intact(img.bytes, sb),
        0 < marker.len() <= 4092,
    ensures
        mark(img, sb, marker).1 == Ok::<(), Failure>(()),
        intact(mark(img, sb, marker).0.bytes, sb),
        superblock_of(mark(img, sb, marker).0.bytes) == superblock_of(img.bytes),
        table(mark(img, sb, marker).0.bytes, sb) == table(img.bytes, sb),
        block(mark(img, sb, marker).0.bytes, 1) == with_marker(block(img.bytes, 1), marker),
        data_kept(img.bytes, mark(img, sb, marker).0.bytes, sb),
        forall|t: Seq<InodeView>|
            consistent(img.bytes, sb, t) ==> #[trigger] consistent(
                mark(img, sb, marker).0.bytes,
                sb,
                t,
            ),
        forall|i: int| #[trigger]
            inode_marked(mark(img, sb, marker).0.bytes, sb, i) == inode_marked(img.bytes, sb, i),
        forall|i: int|
            0 <= i < data_bits(sb) ==> #[trigger] block_marked(
                mark(img, sb, marker).0.bytes,
                sb,
                i,
            ) == block_marked(img.bytes, sb, i),
{
    let b = img.bytes;
    let c = mark(img, sb, marker).0.bytes;
    lemma_standard(sb);
    lemma_mark(img, sb, marker);
    lemma_only(b, c, sb, 1);
    assert forall|t: Seq<InodeView>| consistent(b, sb, t) implies #[trigger] consistent(
        c,
        sb,
        t,
    ) by {
        assert forall|k: int| 0 <= k < 1024 && (#[trigger] t[k]).kind == InodeType::Dir implies
            t[k].direct[0] != 1 by {
            assert(dir_fits(b, t, t[k]));
            assert(held(b, sb, pointer(t, k, 0)));
        }
        lemma_write_consistent(b, c, sb, 1, t);
    }
}

/// Writing an inode that fits in to its slot keeps an image intact.
pub proof fn lemma_put_intact(img: Image, sb: Superblock, v: InodeView)
    requires
        framed(img.bytes, sb),
        tidy(block(img.bytes, 1)),
        v.id < 1024,
        v.direct.len() == 12,
        consistent(img.bytes, sb, table(img.bytes, sb).update(v.id as int, v)),
    ensures
        put_inode(img, sb, v).1 == Ok::<(), Failure>(()),
        intact(put_inode(img, sb, v).0.bytes, sb),
        superblock_of(put_inode(img, sb, v).0.bytes) == superblock_of(img.bytes),
        block(put_inode(img, sb, v).0.bytes, 1) == block(img.bytes, 1),
        table(put_inode(img, sb, v).0.bytes, sb) == table(img.bytes, sb).update(v.id as int, v),
        data_kept(img.bytes, put_inode(img, sb, v).0.bytes, sb),
        forall|i: int| #[trigger]
            inode_marked(put_inode(img, sb, v).0.bytes, sb, i) == inode_marked(img.bytes, sb, i),
        forall|i: int|
            0 <= i < data_bits(sb) ==> #[trigger] block_marked(
                put_inode(img, sb, v).0.bytes,
                sb,
                i,
            ) == block_marked(img.bytes, sb, i),
{
    let b = img.bytes;
    let c = put_inode(img, sb, v).0.bytes;
    let w = table(b, sb).update(v.id as int, v);
    let m = inode_block(sb, v.id);
    lemma_standard(sb);
    lemma_put_inode(img, sb, v);
    lemma_only(b, c, sb, m);
    assert forall|k: int| 0 <= k < 1024 && (#[trigger] w[k]).kind == InodeType::Dir implies
        w[k].direct[0] != m by {
        assert(dir_fits(b, w, w[k]));
        assert(held(b, sb, pointer(w, k, 0)));
    }
    lemma_write_consistent(b, c, sb, m, w);
}

/// The outcome of publishing a node on an intact image: it fails only where the directory is
/// full.
pub proof fn lemma_publish(
    img: Image,
    sb: Superblock,
    parent: u32,
    node: InodeView,
    name: Seq<char>,
)
    requires
        intact(img.bytes, sb),
        parent < 1024,
        table(img.bytes, sb)[parent as int].kind == InodeType::Dir,
        node.id < 1024,
        table(img.bytes, sb)[node.id as int].kind == InodeType::Free,
        inode_marked(img.bytes, sb, node.id as int),
        owns_alone(img.bytes, sb, table(img.bytes, sb), node.id as int, node),
        node.kind == InodeType::Dir ==> dir_fits(
            img.bytes,
            table(img.bytes, sb).update(node.id as int, node),
            node,
        ),
    ensures
        ({
            let (out, r) = publish(img, sb, parent, node, name);
            let b = img.bytes;
            let c = out.bytes;
            let t = table(b, sb);
            let p = parent as int;
            let grown = InodeView { size: (t[p].size + 264) as u32, ..t[p] };
            let ent = DirentView { active: 1, kind: node.kind, inode_id: node.id, name };
            &&& intact(c, sb)
            &&& superblock_of(c) == superblock_of(b)
            &&& forall|i: int| #[trigger] inode_marked(c, sb, i) == inode_marked(b, sb, i)
            &&& forall|i: int|
                0 <= i < data_bits(sb) ==> #[trigger] block_marked(c, sb, i) == block_marked(
                    b,
                    sb,
                    i,
                )
            &&& r == if t[p].size == 3960 {
                Err::<(), Failure>(Failure::NoSpace)
            } else {
                Ok::<(), Failure>(())
            }
            &&& r is Err ==> table(c, sb) == t.update(node.id as int, node)
            &&& r is Err ==> data_kept(b, c, sb)
            &&& block(c, 1) == if r is Ok {
                with_marker(with_marker(block(b, 1), TX_BEGIN@), TX_COMMIT@)
            } else {
                with_marker(block(b, 1), TX_BEGIN@)
            }
            &&& r is Ok ==> table(c, sb) == t.update(node.id as int, node).update(p, grown)
            &&& r is Ok ==> entries(c, grown) == entries(b, t[p]).push(as_stored(ent))
            &&& forall|i: int|
                0 <= i < 1024 && i != p && i != node.id ==> #[trigger] node_kept(b, c, sb, i)
            &&& forall|j: int|
                0 <= j < 12 && #[trigger] node.direct[j] != 0 ==> block(c, node.direct[j] as int)
                    == block(b, node.direct[j] as int)
        }),
{
    let b = img.bytes;
    let t = table(b, sb);
    let p = parent as int;
    let id = node.id as int;
    let u = t.update(id, node);
    let ent = DirentView { active: 1, kind: node.kind, inode_id: node.id, name };
    lemma_standard(sb);
    lemma_mark_intact(img, sb, TX_BEGIN@);
    let begun = mark(img, sb, TX_BEGIN@).0;
    lemma_replace_slot(b, sb, t, id, node);
    assert(consistent(begun.bytes, sb, u));
    lemma_put_intact(begun, sb, node);
    let written = put_inode(begun, sb, node).0;
    assert(table(written.bytes, sb) == u);
    assert(numbered(u, node.id));
    lemma_link(written, sb, parent, ent);
    let (linked, r) = link(written, sb, parent, ent);
    assert(pointer(t, p, 0) == t[p].direct[0]);
    assert(dir_fits(b, t, t[p]));
    assert(held(b, sb, t[p].direct[0]));
    assert(entries(written.bytes, t[p]) == entries(b, t[p]));
    assert forall|i: int, j: int|
        0 <= i < 1024 && 0 <= j < 12 && i != p && #[trigger] pointer(u, i, j) != 0 implies block(
        linked.bytes,
        pointer(u, i, j) as int,
    ) == block(b, pointer(u, i, j) as int) && readable(b, pointer(u, i, j) as int) by {
        assert(held(begun.bytes, sb, pointer(u, i, j)));
        if i == id {
            assert(held(b, sb, node.direct[j]));
        } else {
            assert(pointer(t, i, j) == pointer(u, i, j));
            assert(held(b, sb, pointer(t, i, j)));
        }
    }
    assert forall|j: int| 0 <= j < 12 implies #[trigger] node.direct[j] == pointer(u, id, j) by {}
    if r is Ok {
        lemma_mark_intact(linked, sb, TX_COMMIT@);
        let c = mark(linked, sb, TX_COMMIT@).0.bytes;
        let grown = InodeView { size: (t[p].size + 264) as u32, ..t[p] };
        let w = u.update(p, grown);
        assert(table(c, sb) == w);
        assert(pointer(w, p, 0) == grown.direct[0]);
        assert(held(linked.bytes, sb, grown.direct[0]));
        assert(entries(c, grown) == entries(linked.bytes, grown));
        assert forall|i: int| 0 <= i < 1024 && i != p && i != id implies #[trigger] node_kept(
            b,
            c,
            sb,
            i,
        ) by {
            assert forall|j: int| 0 <= j < 12 && #[trigger] pointer(t, i, j) != 0 implies block(
                c,
                pointer(t, i, j) as int,
            ) == block(b, pointer(t, i, j) as int) by {
                assert(pointer(w, i, j) == pointer(t, i, j));
                assert(pointer(u, i, j) == pointer(t, i, j));
                assert(held(linked.bytes, sb, pointer(w, i, j)));
            }
        }
        assert forall|j: int| 0 <= j < 12 && #[trigger] node.direct[j] != 0 implies block(
            c,
            node.direct[j] as int,
        ) == block(b, node.direct[j] as int) by {
            assert(pointer(w, id, j) == node.direct[j]);
            assert(held(linked.bytes, sb, pointer(w, id, j)));
        }
    } else {
        assert forall|i: int| 0 <= i < 1024 && i != p && i != id implies #[trigger] node_kept(
            b,
            linked.bytes,
            sb,
            i,
        ) by {
            assert forall|j: int| 0 <= j < 12 && #[trigger] pointer(t, i, j) != 0 implies block(
                linked.bytes,
                pointer(t, i, j) as int,
            ) == block(b, pointer(t, i, j) as int) by {
                assert(pointer(u, i, j) == pointer(t, i, j));
            }
        }
    }
}

/// Whether an inode slot is left to be claimed.
pub open spec fn slot_left(b: Seq<u8>, sb: Superblock) -> bool {
    exists|i: int| 0 <= i < 1024 && !#[trigger] inode_marked(b, sb, i)
}

/// Whether all inode numbers are in use, also those that no slot of the inode table goes with.
pub open spec fn no_inode_left(b: Seq<u8>, sb: Superblock) -> bool {
    forall|i: int| 0 <= i < 32768 ==> #[trigger] inode_marked(b, sb, i)
}

/// The entry by which a directory lists itself.
pub open spec fn self_entry(id: u32) -> DirentView {
    DirentView { active: 1, kind: InodeType::Dir, inode_id: id, name: dot() }
}

/// The entry by which a directory lists its parent.
pub open spec fn parent_entry(id: u32) -> DirentView {
    DirentView { active: 1, kind: InodeType::Dir, inode_id: id, name: dot_dot() }
}

/// The names by which a directory lists itself and its parent differ and are kept whole.
pub proof fn lemma_dots()
    ensures
        as_stored(self_entry(0)).name == dot(),
        as_stored(parent_entry(0)).name == dot_dot(),
        dot() != dot_dot(),
{
    reveal_strlit(".");
    reveal_strlit("..");
    assert(is_ascii_chars(dot()));
    assert(is_ascii_chars(dot_dot()));
    is_ascii_chars_encode_utf8(dot());
    is_ascii_chars_encode_utf8(dot_dot());
    short_name_is_kept(dot());
    short_name_is_kept(dot_dot());
}

/// A block with the first records of a directory reads as its two first entries.
pub proof fn lemma_first_records(id: u32, parent: u32)
    ensures
        record(padded(first_records(id, parent)), 0) == Ok::<DirentView, Failure>(self_entry(id)),
        record(padded(first_records(id, parent)), 1) == Ok::<DirentView, Failure>(
            parent_entry(parent),
        ),
        active_only(records(padded(first_records(id, parent)), 2)) == seq![
            self_entry(id),
            parent_entry(parent),
        ],
{
    let d = padded(first_records(id, parent));
    lemma_dots();
    dirent_round_trip(self_entry(id));
    dirent_round_trip(parent_entry(parent));
    assert(raw_record(d, 0) =~= dirent_bytes(self_entry(id)));
    assert(raw_record(d, 1) =~= dirent_bytes(parent_entry(parent)));
    let one = seq![self_entry(id)];
    let two = seq![self_entry(id), parent_entry(parent)];
    assert(records(d, 2) =~= two);
    assert(two.drop_last() =~= one);
    assert(one.drop_last() =~= Seq::empty());
    assert(active_only(one.drop_last()) == Seq::<DirentView>::empty());
    assert(active_only(one) =~= one);
    assert(active_only(two) =~= two);
}

/// The outcome of making a node on an intact image on which an inode slot is left. It fails
/// only where the directory is full or, for a directory, no data block is left.
pub proof fn lemma_make_in(
    img: Image,
    sb: Superblock,
    parent: u32,
    leaf: Seq<char>,
    kind: InodeType,
)
    requires
        intact(img.bytes, sb),
        slot_left(img.bytes, sb),
        parent < 1024,
        table(img.bytes, sb)[parent as int].kind == InodeType::Dir,
        kind != InodeType::Free,
    ensures
        ({
            let (out, r) = make_in(img, sb, parent, leaf, kind);
            let b = img.bytes;
            let c = out.bytes;
            let t = table(b, sb);
            let u = table(c, sb);
            let p = parent as int;
            let full = t[p].size == 3960 || (kind == InodeType::Dir && no_block_left(b, sb));
            let id = claim_inode(img, sb).1->Ok_0;
            &&& intact(c, sb)
            &&& superblock_of(c) == superblock_of(b)
            &&& r is Err <==> full
            &&& r matches Err(e) ==> e == Failure::NoSpace || e == Failure::Fault && !addressable(
                sb,
            )
            &&& id < 1024
            &&& t[id as int].kind == InodeType::Free
            &&& forall|i: int|
                0 <= i < 1024 && i != p && i != id ==> #[trigger] node_kept(b, c, sb, i)
            &&& r is Err ==> node_kept(b, c, sb, p)
            &&& numbered(t, id) ==> numbered(u, id)
            &&& r is Ok ==> {
                &&& u[p] == InodeView { size: (t[p].size + 264) as u32, ..t[p] }
                &&& entries(c, u[p]) == entries(b, t[p]).push(
                    as_stored(DirentView { active: 1, kind, inode_id: id, name: leaf }),
                )
                &&& u[id as int].id == id
                &&& u[id as int].kind == kind
                &&& kind == InodeType::File ==> u[id as int] == new_file(id, kind)
                &&& kind == InodeType::Dir ==> entries(c, u[id as int]) == seq![
                    self_entry(id),
                    parent_entry(parent),
                ]
            }
            &&& forall|i: int|
                0 <= i < 32768 && i != id ==> #[trigger] inode_marked(c, sb, i) == inode_marked(
                    b,
                    sb,
                    i,
                )
            &&& r is Ok ==> forall|k: int|
                0 <= k < data_bits(sb) ==> #[trigger] marked_outside(
                    c,
                    sb,
                    u[id as int].direct,
                    k,
                ) == block_marked(b, sb, k)
        }),
{
    let b = img.bytes;
    let t = table(b, sb);
    let p = parent as int;
    lemma_standard(sb);
    lemma_claim_inode(img, sb);
    let (claimed, r1) = claim_inode(img, sb);
    let free = choose|i: int| 0 <= i < 1024 && !#[trigger] inode_marked(b, sb, i);
    let id = r1->Ok_0;
    assert(id <= free);
    let b1 = claimed.bytes;
    lemma_inode_bits_consistent(b, b1, sb, t);
    lemma_only(b, b1, sb, 65);
    assert(data_kept(b, b1, sb));
    assert(no_block_left(b1, sb) == no_block_left(b, sb)) by {
        assert forall|i: int| 0 <= i < data_bits(sb) implies #[trigger] block_marked(b1, sb, i)
            == block_marked(b, sb, i) by {}
        if no_block_left(b1, sb) {
            assert forall|i: int|
                0 <= i < data_bits(sb) && sb.data_start + i
                    <= u32::MAX implies #[trigger] block_marked(b, sb, i) by {
                assert(block_marked(b1, sb, i));
            }
        }
    }
    assert(p != id);
    if kind == InodeType::Dir {
        lemma_claim_block(claimed, sb);
        lemma_claim_block_consistent(claimed, sb, t);
        let (spaced, r2) = claim_block(claimed, sb);
        match r2 {
            Ok(n) => {
                let b2 = spaced.bytes;
                lemma_same_metadata(b1, b2, sb, 66 + (n - sb.data_start) / 32768);
                let begun = spaced.write(n, first_records(id, parent));
                lemma_write(spaced, n, first_records(id, parent));
                let b3 = begun.bytes;
                lemma_same_metadata(b2, b3, sb, n as int);
                lemma_only(b2, b3, sb, n as int);
                assert forall|k: int|
                    0 <= k < 1024 && (#[trigger] t[k]).kind == InodeType::Dir implies t[k].direct[0]
                    != n by {
                    assert(pointer(t, k, 0) == t[k].direct[0]);
                }
                lemma_write_consistent(b2, b3, sb, n as int, t);
                assert(held(b3, sb, n));
                let node = new_dir(id, n);
                let w = t.update(id as int, node);
                lemma_first_records(id, parent);
                assert(owns_alone(b3, sb, t, id as int, node)) by {
                    assert forall|j: int| 0 <= j < 12 implies #[trigger] node.direct[j] == (if j
                        == 0 {
                        n
                    } else {
                        0
                    }) by {}
                }
                assert(dir_fits(b3, w, node)) by {
                    let blk = block(b3, n as int);
                    assert(numbered(w, id));
                    assert(numbered(w, parent));
                    assert forall|k: int| 0 <= k < 2 implies record_fits(
                        w,
                        #[trigger] record(blk, k),
                    ) by {
                        assert(k == 0 || k == 1);
                    }
                }
                lemma_publish(begun, sb, parent, node, leaf);
                let c = publish(begun, sb, parent, node, leaf).0.bytes;
                assert forall|i: int, j: int|
                    0 <= i < 1024 && 0 <= j < 12 && #[trigger] pointer(t, i, j) != 0 implies block(
                    b3,
                    pointer(t, i, j) as int,
                ) == block(b, pointer(t, i, j) as int) by {
                    assert(held(b, sb, pointer(t, i, j)));
                    assert(pointer(t, i, j) != n);
                }
                assert(pointer(t, p, 0) == t[p].direct[0]);
                assert(dir_fits(b, t, t[p]));
                assert(entries(b3, t[p]) == entries(b, t[p]));
                assert forall|i: int| 0 <= i < 1024 && i != p && i != id implies #[trigger] node_kept(
                    b,
                    c,
                    sb,
                    i,
                ) by {
                    assert(node_kept(b3, c, sb, i));
                }
                assert(node.direct[0] == n);
                assert forall|k: int| 0 <= k < data_bits(sb) implies #[trigger] marked_outside(
                    c,
                    sb,
                    node.direct,
                    k,
                ) == block_marked(b, sb, k) by {
                    assert(block_marked(c, sb, k) == block_marked(b3, sb, k));
                    assert(block_marked(b3, sb, k) == block_marked(b2, sb, k));
                    assert(block_marked(b1, sb, k) == block_marked(b, sb, k));
                    assert forall|j: int| 1 <= j < 12 implies #[trigger] node.direct[j] == 0 by {}
                }
                if t[p].size == 3960 {
                    assert forall|j: int| 0 <= j < 12 && #[trigger] pointer(t, p, j)
                        != 0 implies block(c, pointer(t, p, j) as int) == block(
                        b,
                        pointer(t, p, j) as int,
                    ) by {
                        assert(held(b3, sb, pointer(t, p, j)));
                    }
                }
            },
            Err(_) => {
                let c = spaced.bytes;
                let m = choose|m: int|
                    66 <= m < sb.inode_table_start && #[trigger] only_block(b1, c, m);
                lemma_same_metadata(b1, c, sb, m);
                assert forall|i: int| 0 <= i < 1024 implies #[trigger] node_kept(
                    b,
                    c,
                    sb,
                    i,
                ) by {
                    assert forall|j: int| 0 <= j < 12 && #[trigger] pointer(t, i, j)
                        != 0 implies block(c, pointer(t, i, j) as int) == block(
                        b,
                        pointer(t, i, j) as int,
                    ) by {
                        assert(held(b, sb, pointer(t, i, j)));
                        assert(readable(b1, pointer(t, i, j) as int));
                    }
                }
            },
        }
    } else {
        let node = new_file(id, kind);
        assert(owns_alone(b1, sb, t, id as int, node));
        lemma_publish(claimed, sb, parent, node, leaf);
        let c = publish(claimed, sb, parent, node, leaf).0.bytes;
        assert forall|i: int, j: int|
            0 <= i < 1024 && 0 <= j < 12 && #[trigger] pointer(t, i, j) != 0 implies block(
            b1,
            pointer(t, i, j) as int,
        ) == block(b, pointer(t, i, j) as int) by {
            assert(held(b, sb, pointer(t, i, j)));
        }
        assert(pointer(t, p, 0) == t[p].direct[0]);
        assert(dir_fits(b, t, t[p]));
        assert(entries(b1, t[p]) == entries(b, t[p]));
        assert forall|i: int| 0 <= i < 1024 && i != p && i != id implies #[trigger] node_kept(
            b,
            c,
            sb,
            i,
        ) by {
            assert(node_kept(b1, c, sb, i));
        }
        assert forall|k: int| 0 <= k < data_bits(sb) implies #[trigger] marked_outside(
            c,
            sb,
            node.direct,
            k,
        ) == block_marked(b, sb, k) by {
            assert(block_marked(c, sb, k) == block_marked(b1, sb, k));
        }
        if t[p].size == 3960 {
            assert forall|j: int| 0 <= j < 12 && #[trigger] pointer(t, p, j) != 0 implies block(
                c,
                pointer(t, p, j) as int,
            ) == block(b, pointer(t, p, j) as int) by {
                assert(held(b1, sb, pointer(t, p, j)));
            }
        }
    }
}

/// Whether the outcome of making a node on an intact image on which an inode slot is left is
/// traced as it should be. The inode is marked. Where no block was left for a directory, nothing
/// else happened; else the new inode is written, a directory has the first block that was free,
/// and the journal tells of a change, which is complete where the directory was not full.
pub open spec fn making_traces(
    img: Image,
    outcome: (Image, Result<(), Failure>),
    sb: Superblock,
    parent: u32,
    kind: InodeType,
) -> bool {
    let b = img.bytes;
    let c = outcome.0.bytes;
    let t = table(b, sb);
    let u = table(c, sb);
    let id = claim_inode(img, sb).1->Ok_0;
    let spaceless = kind == InodeType::Dir && no_block_left(b, sb);
    &&& inode_marked(c, sb, id as int)
    &&& block(c, 1) == if spaceless {
        block(b, 1)
    } else if t[parent as int].size == 3960 {
        with_marker(block(b, 1), TX_BEGIN@)
    } else {
        with_marker(with_marker(block(b, 1), TX_BEGIN@), TX_COMMIT@)
    }
    &&& spaceless ==> u == t
    &&& !spaceless ==> {
        &&& u[id as int].id == id
        &&& u[id as int].kind == kind
        &&& kind == InodeType::File ==> u[id as int] == new_file(id, kind)
        &&& kind == InodeType::Dir ==> {
            let n = u[id as int].direct[0];
            &&& u[id as int] == new_dir(id, n)
            &&& sb.data_start <= n < sb.data_start + data_bits(sb)
            &&& !block_marked(b, sb, n - sb.data_start)
            &&& forall|k: int| 0 <= k < n - sb.data_start ==> #[trigger] block_marked(b, sb, k)
        }
        &&& forall|k: int|
            0 <= k < data_bits(sb) ==> #[trigger] marked_outside(c, sb, u[id as int].direct, k)
                == block_marked(b, sb, k)
    }
}

/// What making a directory leaves of claims, marks and markers.
proof fn lemma_dir_traces(
    img: Image,
    sb: Superblock,
    parent: u32,
    leaf: Seq<char>,
    kind: InodeType,
)
    requires
        intact(img.bytes, sb),
        slot_left(img.bytes, sb),
        parent < 1024,
        table(img.bytes, sb)[parent as int].kind == InodeType::Dir,
        kind == InodeType::Dir,
        kind != InodeType::Free,
    ensures
        making_traces(img, make_in(img, sb, parent, leaf, kind), sb, parent, kind),
{
    let b = img.bytes;
    let t = table(b, sb);
    let p = parent as int;
    lemma_standard(sb);
    lemma_claim_inode(img, sb);
    let (claimed, r1) = claim_inode(img, sb);
    let free = choose|i: int| 0 <= i < 1024 && !#[trigger] inode_marked(b, sb, i);
    let id = r1->Ok_0;
    assert(id <= free);
    let b1 = claimed.bytes;
    lemma_inode_bits_consistent(b, b1, sb, t);
    lemma_only(b, b1, sb, 65);
    assert(p != id);
    assert(no_block_left(b1, sb) == no_block_left(b, sb)) by {
        assert forall|i: int| 0 <= i < data_bits(sb) implies #[trigger] block_marked(b1, sb, i)
            == block_marked(b, sb, i) by {}
        if no_block_left(b1, sb) {
            assert forall|i: int|
                0 <= i < data_bits(sb) && sb.data_start + i
                    <= u32::MAX implies #[trigger] block_marked(b, sb, i) by {
                assert(block_marked(b1, sb, i));
            }
        }
    }
    lemma_claim_block(claimed, sb);
    lemma_claim_block_consistent(claimed, sb, t);
    let (spaced, r2) = claim_block(claimed, sb);
    match r2 {
        Ok(n) => {
            let b2 = spaced.bytes;
            lemma_same_metadata(b1, b2, sb, 66 + (n - sb.data_start) / 32768);
            let begun = spaced.write(n, first_records(id, parent));
            lemma_write(spaced, n, first_records(id, parent));
            let b3 = begun.bytes;
            lemma_same_metadata(b2, b3, sb, n as int);
            lemma_only(b2, b3, sb, n as int);
            assert forall|k: int|
                0 <= k < 1024 && (#[trigger] t[k]).kind == InodeType::Dir implies t[k].direct[0]
                != n by {
                assert(pointer(t, k, 0) == t[k].direct[0]);
            }
            lemma_write_consistent(b2, b3, sb, n as int, t);
            assert(held(b3, sb, n));
            let node = new_dir(id, n);
            let w = t.update(id as int, node);
            lemma_first_records(id, parent);
            assert forall|j: int| 0 <= j < 12 implies #[trigger] node.direct[j] == (if j == 0 {
                n
            } else {
                0
            }) by {}
            assert(owns_alone(b3, sb, t, id as int, node));
            assert(dir_fits(b3, w, node)) by {
                let blk = block(b3, n as int);
                assert(numbered(w, id));
                assert(numbered(w, parent));
                assert forall|k: int| 0 <= k < 2 implies record_fits(
                    w,
                    #[trigger] record(blk, k),
                ) by {
                    assert(k == 0 || k == 1);
                }
            }
            lemma_publish(begun, sb, parent, node, leaf);
            let c = publish(begun, sb, parent, node, leaf).0.bytes;
            assert(table(c, sb)[id as int] == node);
            assert(node.direct[0] == n);
            assert(block(b3, 1) == block(b, 1));
            assert forall|k: int| 0 <= k < n - sb.data_start implies #[trigger] block_marked(
                b,
                sb,
                k,
            ) by {
                assert(block_marked(b1, sb, k));
            }
            assert forall|k: int| 0 <= k < data_bits(sb) implies #[trigger] marked_outside(
                c,
                sb,
                node.direct,
                k,
            ) == block_marked(b, sb, k) by {
                assert(block_marked(c, sb, k) == block_marked(b3, sb, k));
                assert(block_marked(b3, sb, k) == block_marked(b2, sb, k));
                assert(block_marked(b1, sb, k) == block_marked(b, sb, k));
            }
        },
        Err(_) => {
            let c = spaced.bytes;
            let m = choose|m: int|
                66 <= m < sb.inode_table_start && #[trigger] only_block(b1, c, m);
            lemma_same_metadata(b1, c, sb, m);
        },
    }
}

/// What making a file leaves of claims, marks and markers.
proof fn lemma_file_traces(
    img: Image,
    sb: Superblock,
    parent: u32,
    leaf: Seq<char>,
    kind: InodeType,
)
    requires
        intact(img.bytes, sb),
        slot_left(img.bytes, sb),
        parent < 1024,
        table(img.bytes, sb)[parent as int].kind == InodeType::Dir,
        kind != InodeType::Dir,
        kind != InodeType::Free,
    ensures
        making_traces(img, make_in(img, sb, parent, leaf, kind), sb, parent, kind),
{
    let b = img.bytes;
    let t = table(b, sb);
    let p = parent as int;
    lemma_standard(sb);
    lemma_claim_inode(img, sb);
    let (claimed, r1) = claim_inode(img, sb);
    let free = choose|i: int| 0 <= i < 1024 && !#[trigger] inode_marked(b, sb, i);
    let id = r1->Ok_0;
    assert(id <= free);
    let b1 = claimed.bytes;
    lemma_inode_bits_consistent(b, b1, sb, t);
    lemma_only(b, b1, sb, 65);
    assert(p != id);
    let node = new_file(id, kind);
    assert(owns_alone(b1, sb, t, id as int, node));
    lemma_publish(claimed, sb, parent, node, leaf);
    let c = publish(claimed, sb, parent, node, leaf).0.bytes;
    assert(table(c, sb)[id as int] == node);
    assert forall|k: int| 0 <= k < data_bits(sb) implies #[trigger] marked_outside(
        c,
        sb,
        node.direct,
        k,
    ) == block_marked(b, sb, k) by {
        assert(block_marked(c, sb, k) == block_marked(b1, sb, k));
    }
}

/// What making a node leaves of claims, marks and markers.
pub proof fn lemma_making_traces(
    img: Image,
    sb: Superblock,
    parent: u32,
    leaf: Seq<char>,
    kind: InodeType,
)
    requires
        intact(img.bytes, sb),
        slot_left(img.bytes, sb),
        parent < 1024,
        table(img.bytes, sb)[parent as int].kind == InodeType::Dir,
        kind != InodeType::Free,
    ensures
        making_traces(img, make_in(img, sb, parent, leaf, kind), sb, parent, kind),
{
    if kind == InodeType::Dir {
        lemma_dir_traces(img, sb, parent, leaf, kind);
    } else {
        lemma_file_traces(img, sb, parent, leaf, kind);
    }
}

/// Giving back blocks that no inode points to any more succeeds and keeps the inodes
/// consistent.
proof fn lemma_free_from(
    img: Image,
    sb: Superblock,
    u: Seq<InodeView>,
    direct: Seq<u32>,
    i: int,
)
    requires
        framed(img.bytes, sb),
        consistent(img.bytes, sb, u),
        0 <= i,
        forall|j: int|
            i <= j < direct.len() && #[trigger] direct[j] != 0 ==> {
                &&& sb.data_start <= direct[j] < sb.data_start + data_bits(sb)
                &&& forall|id: int, k: int|
                    0 <= id < 1024 && 0 <= k < 12 ==> #[trigger] pointer(u, id, k) != direct[j]
            },
    ensures
        ({
            let (out, r) = free_from(img, sb, direct, i);
            let c = out.bytes;
            &&& r == Ok::<(), Failure>(())
            &&& framed(c, sb)
            &&& consistent(c, sb, u)
            &&& same_metadata(img.bytes, c, sb)
            &&& data_kept(img.bytes, c, sb)
            &&& forall|k: int|
                0 <= k < data_bits(sb) ==> #[trigger] block_marked(c, sb, k) == (block_marked(
                    img.bytes,
                    sb,
                    k,
                ) && !(exists|j: int|
                    i <= j < direct.len() && #[trigger] direct[j] != 0 && k == direct[j]
                        - sb.data_start))
        }),
    decreases direct.len() - i,
{
    lemma_standard(sb);
    if i < direct.len() {
        if direct[i] == 0 {
            lemma_free_from(img, sb, u, direct, i + 1);
        } else {
            let n = direct[i];
            lemma_release_block(img, sb, n);
            lemma_release_consistent(img, sb, u, n);
            let next = release_block(img, sb, n).0;
            lemma_same_metadata(
                img.bytes,
                next.bytes,
                sb,
                66 + (n - sb.data_start) / 32768,
            );
            lemma_free_from(next, sb, u, direct, i + 1);
        }
    }
}

/// The outcome of taking an entry out of a directory of an intact image and giving back the
/// inode `id` and its blocks. It always succeeds.
pub proof fn lemma_discard(img: Image, sb: Superblock, parent: u32, leaf: Seq<char>, id: u32)
    requires
        intact(img.bytes, sb),
        parent < 1024,
        table(img.bytes, sb)[parent as int].kind == InodeType::Dir,
        find_name(entries(img.bytes, table(img.bytes, sb)[parent as int]), 0, leaf) is Some,
        numbered(table(img.bytes, sb), id),
    ensures
        ({
            let b = img.bytes;
            let t = table(b, sb);
            let p = parent as int;
            let (out, r) = discard(img, sb, parent, leaf, id, t[id as int]);
            let c = out.bytes;
            &&& r == Ok::<(), Failure>(())
            &&& intact(c, sb)
            &&& superblock_of(c) == superblock_of(b)
            &&& table(c, sb) == t.update(id as int, free_slot(id))
            &&& block(c, 1) == with_marker(with_marker(block(b, 1), TX_BEGIN@), TX_COMMIT@)
            &&& forall|i: int|
                0 <= i < 1024 && i != p && i != id ==> #[trigger] node_kept(b, c, sb, i)
            &&& id != parent ==> entries(c, t[p]) == without_first(entries(b, t[p]), leaf)
            &&& forall|i: int|
                0 <= i < 32768 ==> #[trigger] inode_marked(c, sb, i) == (i != id && inode_marked(
                    b,
                    sb,
                    i,
                ))
            &&& forall|k: int|
                0 <= k < data_bits(sb) ==> #[trigger] block_marked(c, sb, k) == (block_marked(
                    b,
                    sb,
                    k,
                ) && !(exists|j: int|
                    0 <= j < 12 && #[trigger] t[id as int].direct[j] != 0 && k
                        == t[id as int].direct[j] - sb.data_start))
        }),
{
    let b = img.bytes;
    let t = table(b, sb);
    let p = parent as int;
    let i = id as int;
    let target = t[i];
    lemma_standard(sb);
    lemma_mark_intact(img, sb, TX_BEGIN@);
    let begun = mark(img, sb, TX_BEGIN@).0;
    let b1 = begun.bytes;
    assert(pointer(t, p, 0) == t[p].direct[0]);
    assert(dir_fits(b, t, t[p]));
    assert(held(b, sb, t[p].direct[0]));
    assert(entries(b1, t[p]) == entries(b, t[p]));
    lemma_unlink(begun, sb, parent, leaf);
    let unlinked = unlink(begun, sb, parent, leaf).0;
    let b2 = unlinked.bytes;
    let u = t.update(i, free_slot(id));
    lemma_replace_slot(b2, sb, t, i, free_slot(id));
    assert forall|j: int| 0 <= j < target.direct.len() && #[trigger] target.direct[j] != 0 implies {
        &&& sb.data_start <= target.direct[j] < sb.data_start + data_bits(sb)
        &&& forall|k: int, m: int|
            0 <= k < 1024 && 0 <= m < 12 ==> #[trigger] pointer(u, k, m) != target.direct[j]
    } by {
        assert(pointer(t, i, j) == target.direct[j]);
        assert(held(b, sb, target.direct[j]));
        assert forall|k: int, m: int| 0 <= k < 1024 && 0 <= m < 12 implies #[trigger] pointer(
            u,
            k,
            m,
        ) != target.direct[j] by {
            if k != i {
                assert(pointer(u, k, m) == pointer(t, k, m));
            }
        }
    }
    lemma_free_from(unlinked, sb, u, target.direct, 0);
    let freed = free_from(unlinked, sb, target.direct, 0).0;
    let b3 = freed.bytes;
    lemma_switch_inode(freed, sb, id, false);
    let cleared = switch_bit(freed, sb.inode_bitmap_start, id, false).0;
    let b4 = cleared.bytes;
    lemma_only(b3, b4, sb, 65);
    lemma_inode_bits_consistent(b3, b4, sb, u);
    assert(table(b4, sb) == t);
    lemma_put_intact(cleared, sb, free_slot(id));
    let written = put_inode(cleared, sb, free_slot(id)).0;
    let b5 = written.bytes;
    lemma_mark_intact(written, sb, TX_COMMIT@);
    let c = mark(written, sb, TX_COMMIT@).0.bytes;
    assert forall|k: int, j: int|
        0 <= k < 1024 && 0 <= j < 12 && #[trigger] pointer(t, k, j) != 0 implies block(
        c,
        pointer(t, k, j) as int,
    ) == block(b2, pointer(t, k, j) as int) by {
        assert(held(b2, sb, pointer(t, k, j)));
        assert(readable(b3, pointer(t, k, j) as int));
        assert(readable(b4, pointer(t, k, j) as int));
        assert(readable(b5, pointer(t, k, j) as int));
    }
    assert forall|k: int| 0 <= k < 1024 && k != p && k != i implies #[trigger] node_kept(
        b,
        c,
        sb,
        k,
    ) by {
        assert forall|j: int| 0 <= j < 12 && #[trigger] pointer(t, k, j) != 0 implies block(
            c,
            pointer(t, k, j) as int,
        ) == block(b, pointer(t, k, j) as int) by {
            assert(held(b, sb, pointer(t, k, j)));
        }
    }
    assert(entries(c, t[p]) == entries(b2, t[p]));
}

} // verus!
