//! What adding and removing a directory entry does to the entries of a consistent image.

use crate::bytes::splice;
use crate::contents::{others_kept, same_metadata};
use crate::directory::{
    active_only, block_records, dir_entries, find_name, lemma_active_only_push, link, lookup,
    raw_record, record, records_in_block, seek, unlink, unlink_from, without_record,
};
use crate::dirent::{dirent_bytes, dirent_round_trip, stored_name, DirentView};
use crate::disk::{block, lemma_block_len, readable, Image};
use crate::error::Failure;
use crate::inode::{inode_block, put_inode, InodeType, InodeView};
use crate::sound::{
    block_marked, consistent, data_bits, dir_fits, framed, held, inode_marked, lemma_find_inode,
    lemma_only, lemma_replace_slot, lemma_standard, numbered, only_block, owns_alone, pointer,
    record_fits, table,
};
use crate::steps::{lemma_put_inode, lemma_write, lemma_write_consistent};
use crate::superblock::{superblock_of, Superblock};
use crate::text::lossy_text;
use vstd::prelude::*;

verus! {

/// The first `n` records of a directory block.
pub open spec fn records(b: Seq<u8>, n: int) -> Seq<DirentView> {
    Seq::new(n as nat, |k: int| record(b, k)->Ok_0)
}

/// The active entries of a directory that keeps its records in one block.
pub open spec fn entries(b: Seq<u8>, dir: InodeView) -> Seq<DirentView> {
    active_only(records(block(b, dir.direct[0] as int), dir.size as int / 264))
}

/// The position of the first entry called `name` from position `i` on.
pub open spec fn find_index(es: Seq<DirentView>, i: int, name: Seq<char>) -> Option<int>
    decreases es.len() - i,
{
    if i >= es.len() {
        None
    } else if es[i].name == name {
        Some(i)
    } else {
        find_index(es, i + 1, name)
    }
}

/// Entries without the first one called `name`.
pub open spec fn without_first(es: Seq<DirentView>, name: Seq<char>) -> Seq<DirentView> {
    match find_index(es, 0, name) {
        Some(i) => es.remove(i),
        None => es,
    }
}

/// An entry as it is read back, with the name as far as the record keeps it.
pub open spec fn as_stored(e: DirentView) -> DirentView {
    DirentView { name: lossy_text(stored_name(e.name)), ..e }
}

/// Records that can all be read.
proof fn lemma_block_records(b: Seq<u8>, n: int)
    requires
        0 <= n,
        forall|k: int| 0 <= k < n ==> (#[trigger] record(b, k)) is Ok,
    ensures
        block_records(b, n) == Ok::<Seq<DirentView>, Failure>(records(b, n)),
    decreases n,
{
    if n > 0 {
        lemma_block_records(b, n - 1);
        assert(record(b, n - 1) is Ok);
        assert(records(b, n) =~= records(b, n - 1).push(record(b, n - 1)->Ok_0));
    } else {
        assert(records(b, n) =~= Seq::empty());
    }
}

/// What is read as the entries of a directory that fits.
pub proof fn lemma_dir_entries(b: Seq<u8>, t: Seq<InodeView>, dir: InodeView)
    requires
        dir_fits(b, t, dir),
        dir.direct.len() == 12,
        readable(b, dir.direct[0] as int),
    ensures
        dir_entries(b, dir) == Ok::<Seq<DirentView>, Failure>(entries(b, dir)),
{
    let blk = block(b, dir.direct[0] as int);
    let n = dir.size as int / 264;
    assert forall|k: int| 0 <= k < n implies (#[trigger] record(blk, k)) is Ok by {
        assert(record_fits(t, record(blk, k)));
    }
    lemma_block_records(blk, n);
    assert(records_in_block(dir.size as int) == n);
}

/// Active entries are among the entries.
proof fn lemma_active_from(es: Seq<DirentView>)
    ensures
        forall|i: int|
            0 <= i < active_only(es).len() ==> (#[trigger] active_only(es)[i]).active == 1
                && es.contains(active_only(es)[i]),
    decreases es.len(),
{
    if es.len() > 0 {
        let front = es.drop_last();
        lemma_active_from(front);
        assert forall|i: int| 0 <= i < active_only(es).len() implies (#[trigger] active_only(
            es,
        )[i]).active == 1 && es.contains(active_only(es)[i]) by {
            let e = active_only(es)[i];
            if i < active_only(front).len() {
                assert(e == active_only(front)[i]);
                let k = choose|k: int| 0 <= k < front.len() && front[k] == e;
                assert(es[k] == e);
            } else {
                assert(es[es.len() - 1] == e);
            }
        }
    }
}

/// Every entry of a directory that fits names a slot that exists.
pub proof fn lemma_entries_numbered(b: Seq<u8>, t: Seq<InodeView>, dir: InodeView)
    requires
        dir_fits(b, t, dir),
    ensures
        forall|i: int|
            0 <= i < entries(b, dir).len() ==> numbered(
                t,
                (#[trigger] entries(b, dir)[i]).inode_id,
            ),
{
    let blk = block(b, dir.direct[0] as int);
    let n = dir.size as int / 264;
    let rs = records(blk, n);
    lemma_active_from(rs);
    assert forall|i: int| 0 <= i < entries(b, dir).len() implies numbered(
        t,
        (#[trigger] entries(b, dir)[i]).inode_id,
    ) by {
        let e = entries(b, dir)[i];
        let k = choose|k: int| 0 <= k < rs.len() && rs[k] == e;
        assert(record_fits(t, record(blk, k)));
    }
}

/// Active entries of two lists in a row.
proof fn lemma_active_add(a: Seq<DirentView>, b: Seq<DirentView>)
    ensures
        active_only(a + b) == active_only(a) + active_only(b),
    decreases b.len(),
{
    if b.len() == 0 {
        assert(a + b =~= a);
        assert(active_only(a) + active_only(b) =~= active_only(a));
    } else {
        assert((a + b).drop_last() =~= a + b.drop_last());
        lemma_active_add(a, b.drop_last());
        assert(active_only(a + b) =~= active_only(a) + active_only(b));
    }
}

/// What is found in a list is what the first entry of that name says.
pub proof fn lemma_find(es: Seq<DirentView>, i: int, name: Seq<char>)
    requires
        0 <= i,
    ensures
        match find_index(es, i, name) {
            Some(k) => {
                &&& i <= k < es.len()
                &&& es[k].name == name
                &&& find_name(es, i, name) == Some(es[k].inode_id)
                &&& forall|j: int| i <= j < k ==> (#[trigger] es[j]).name != name
            },
            None => {
                &&& find_name(es, i, name) == None::<u32>
                &&& forall|j: int| i <= j < es.len() ==> (#[trigger] es[j]).name != name
            },
        },
    decreases es.len() - i,
{
    if i < es.len() && es[i].name != name {
        lemma_find(es, i + 1, name);
    }
}

/// The position of a name is the first one with it.
proof fn lemma_find_at(es: Seq<DirentView>, i: int, k: int, name: Seq<char>)
    requires
        0 <= i <= k < es.len(),
        es[k].name == name,
        forall|j: int| i <= j < k ==> (#[trigger] es[j]).name != name,
    ensures
        find_index(es, i, name) == Some(k),
    decreases k - i,
{
    if i < k {
        lemma_find_at(es, i + 1, k, name);
    }
}

/// A list without the first entry of a name gives the same for other names; and nothing for
/// that name where no second entry has it.
pub proof fn lemma_without_first(es: Seq<DirentView>, name: Seq<char>, other: Seq<char>)
    ensures
        other != name ==> find_name(without_first(es, name), 0, other) == find_name(es, 0, other),
        (forall|i: int, j: int|
            0 <= i < j < es.len() && (#[trigger] es[i]).name == name ==> (#[trigger] es[j]).name
                != name) ==> find_name(without_first(es, name), 0, name) == None::<u32>,
{
    lemma_find(es, 0, name);
    lemma_find(es, 0, other);
    let rest = without_first(es, name);
    lemma_find(rest, 0, other);
    lemma_find(rest, 0, name);
    match find_index(es, 0, name) {
        Some(k) => {
            assert forall|j: int| 0 <= j < rest.len() implies #[trigger] rest[j] == (if j < k {
                es[j]
            } else {
                es[j + 1]
            }) by {}
            if other != name {
                match find_index(es, 0, other) {
                    Some(m) => {
                        assert(m != k);
                        let m2 = if m < k {
                            m
                        } else {
                            m - 1
                        };
                        assert(rest[m2] == es[m]);
                        lemma_find_at(rest, 0, m2, other);
                    },
                    None => {
                        if find_index(rest, 0, other) is Some {
                            let m2 = find_index(rest, 0, other)->Some_0;
                            assert(rest[m2].name == other);
                        }
                    },
                }
            }
            if forall|i: int, j: int|
                0 <= i < j < es.len() && (#[trigger] es[i]).name == name ==> (
                #[trigger] es[j]).name != name {
                if find_index(rest, 0, name) is Some {
                    let m = find_index(rest, 0, name)->Some_0;
                    assert(rest[m].name == name);
                    if m < k {
                        assert(es[m].name != name);
                    } else {
                        assert(es[k].name == name && es[m + 1].name != name);
                    }
                }
            }
        },
        None => {},
    }
}

/// A list with one more entry at its end gives the same, but for a name that it had not.
pub proof fn lemma_find_push(es: Seq<DirentView>, e: DirentView, name: Seq<char>)
    ensures
        find_name(es.push(e), 0, name) == match find_name(es, 0, name) {
            Some(id) => Some(id),
            None => if e.name == name {
                Some(e.inode_id)
            } else {
                None
            },
        },
{
    let all = es.push(e);
    lemma_find(es, 0, name);
    lemma_find(all, 0, name);
    match find_index(es, 0, name) {
        Some(k) => {
            assert(all[k] == es[k]);
            assert forall|j: int| 0 <= j < k implies (#[trigger] all[j]).name != name by {
                assert(all[j] == es[j]);
            }
            lemma_find_at(all, 0, k, name);
        },
        None => {
            assert forall|j: int| 0 <= j < es.len() implies (#[trigger] all[j]).name != name by {
                assert(all[j] == es[j]);
            }
            if e.name == name {
                assert(all[es.len() as int] == e);
                lemma_find_at(all, 0, es.len() as int, name);
            }
        },
    }
}

/// An entry put behind others that do not have its name is the first one of that name.
pub proof fn lemma_without_last(es: Seq<DirentView>, e: DirentView)
    requires
        find_name(es, 0, e.name) == None::<u32>,
    ensures
        without_first(es.push(e), e.name) == es,
{
    let all = es.push(e);
    lemma_find(es, 0, e.name);
    assert forall|j: int| 0 <= j < es.len() implies (#[trigger] all[j]).name != e.name by {
        assert(all[j] == es[j]);
    }
    lemma_find_at(all, 0, es.len() as int, e.name);
    assert(all.remove(es.len() as int) =~= es);
}

/// The outcome of looking for a name in a directory of a consistent image.
pub proof fn lemma_lookup(b: Seq<u8>, sb: Superblock, dir_id: u32, name: Seq<char>)
    requires
        framed(b, sb),
        consistent(b, sb, table(b, sb)),
        dir_id < 1024,
    ensures
        table(b, sb)[dir_id as int].kind != InodeType::Dir ==> lookup(b, sb, dir_id, name) == Err::<
            Option<u32>,
            Failure,
        >(Failure::NotDir(name)),
        table(b, sb)[dir_id as int].kind == InodeType::Dir ==> lookup(b, sb, dir_id, name) == Ok::<
            Option<u32>,
            Failure,
        >(find_name(entries(b, table(b, sb)[dir_id as int]), 0, name)),
        lookup(b, sb, dir_id, name) matches Ok(Some(id)) ==> numbered(table(b, sb), id),
{
    let t = table(b, sb);
    let dir = t[dir_id as int];
    lemma_find_inode(b, sb, dir_id);
    if dir.kind == InodeType::Dir {
        assert(dir_fits(b, t, dir));
        assert(held(b, sb, pointer(t, dir_id as int, 0)));
        lemma_dir_entries(b, t, dir);
        lemma_find(entries(b, dir), 0, name);
        lemma_entries_numbered(b, t, dir);
    }
}

/// Writing the block of a directory keeps inodes consistent as long as its records fit.
proof fn lemma_dir_block_consistent(
    b: Seq<u8>,
    c: Seq<u8>,
    sb: Superblock,
    t: Seq<InodeView>,
    p: int,
)
    requires
        framed(b, sb),
        consistent(b, sb, t),
        0 <= p < 1024,
        t[p].kind == InodeType::Dir,
        only_block(b, c, t[p].direct[0] as int),
        dir_fits(c, t, t[p]),
    ensures
        framed(c, sb),
        consistent(c, sb, t),
        same_metadata(b, c, sb),
        others_kept(b, c, t, p),
        forall|i: int|
            0 <= i < data_bits(sb) ==> #[trigger] block_marked(c, sb, i) == block_marked(b, sb, i),
        forall|id: int|
            0 <= id < 1024 && id != p && (#[trigger] t[id]).kind == InodeType::Dir ==> block(
                c,
                t[id].direct[0] as int,
            ) == block(b, t[id].direct[0] as int),
{
    let n = t[p].direct[0] as int;
    lemma_standard(sb);
    assert(dir_fits(b, t, t[p]));
    assert(pointer(t, p, 0) == n);
    assert(held(b, sb, t[p].direct[0]));
    lemma_only(b, c, sb, n);
    assert forall|id: int, j: int|
        0 <= id < 1024 && 0 <= j < 12 && #[trigger] pointer(t, id, j) != 0 implies held(
        c,
        sb,
        pointer(t, id, j),
    ) && (id != p ==> block(c, pointer(t, id, j) as int) == block(
        b,
        pointer(t, id, j) as int,
    )) by {
        assert(held(b, sb, pointer(t, id, j)));
    }
    assert forall|id: int|
        0 <= id < 1024 && (#[trigger] t[id]).kind == InodeType::Dir implies dir_fits(c, t, t[id])
        && (id != p ==> block(c, t[id].direct[0] as int) == block(
        b,
        t[id].direct[0] as int,
    )) by {
        assert(dir_fits(b, t, t[id]));
        assert(pointer(t, id, 0) == t[id].direct[0]);
    }
}

/// Adding an entry to a directory of a consistent image: it fails only where the directory is
/// full, and puts the entry behind the others.
pub proof fn lemma_link(img: Image, sb: Superblock, parent: u32, ent: DirentView)
    requires
        framed(img.bytes, sb),
        consistent(img.bytes, sb, table(img.bytes, sb)),
        parent < 1024,
        table(img.bytes, sb)[parent as int].kind == InodeType::Dir,
        ent.active == 1,
        numbered(table(img.bytes, sb), ent.inode_id),
    ensures
        ({
            let (out, r) = link(img, sb, parent, ent);
            let b = img.bytes;
            let c = out.bytes;
            let t = table(b, sb);
            let p = parent as int;
            let grown = InodeView { size: (t[p].size + 264) as u32, ..t[p] };
            &&& r == if t[p].size == 3960 {
                Err::<(), Failure>(Failure::NoSpace)
            } else {
                Ok::<(), Failure>(())
            }
            &&& t[p].size == 3960 ==> out == img
            &&& framed(c, sb)
            &&& consistent(c, sb, table(c, sb))
            &&& others_kept(b, c, t, p)
            &&& superblock_of(c) == superblock_of(b)
            &&& block(c, 1) == block(b, 1)
            &&& forall|i: int| #[trigger] inode_marked(c, sb, i) == inode_marked(b, sb, i)
            &&& forall|i: int|
                0 <= i < data_bits(sb) ==> #[trigger] block_marked(c, sb, i) == block_marked(
                    b,
                    sb,
                    i,
                )
            &&& r is Ok ==> {
                &&& table(c, sb) == t.update(p, grown)
                &&& entries(c, grown) == entries(b, t[p]).push(as_stored(ent))
            }
        }),
{
    let b = img.bytes;
    let t = table(b, sb);
    let p = parent as int;
    let dir = t[p];
    let n = dir.direct[0];
    let size = dir.size as int;
    lemma_standard(sb);
    lemma_find_inode(b, sb, parent);
    assert(dir_fits(b, t, dir));
    assert(pointer(t, p, 0) == n);
    assert(held(b, sb, n));
    lemma_block_len(b, n as int);
    if size < 3960 {
        let blk = block(b, n as int);
        let blk2 = splice(blk, size, dirent_bytes(ent));
        let next = img.write(n, blk2);
        lemma_write(img, n, blk2);
        let c1 = next.bytes;
        let k0 = size / 264;
        assert forall|k: int| 0 <= k < k0 implies #[trigger] record(blk2, k) == record(blk, k) by {
            assert(264 * k + 264 <= size);
            assert(raw_record(blk2, k) =~= raw_record(blk, k));
        }
        assert(264 * k0 == size);
        assert(raw_record(blk2, k0) =~= dirent_bytes(ent));
        dirent_round_trip(ent);
        assert(record(blk2, k0) == Ok::<DirentView, Failure>(as_stored(ent)));
        assert forall|k: int| 0 <= k < k0 implies record_fits(t, #[trigger] record(blk2, k)) by {
            assert(record_fits(t, record(blk, k)));
        }
        assert(dir_fits(c1, t, dir));
        lemma_dir_block_consistent(b, c1, sb, t, p);
        let grown = InodeView { size: (size + 264) as u32, ..dir };
        assert((size + 264) / 264 == k0 + 1);
        assert((size + 264) % 264 == 0);
        assert(dir_fits(c1, t, grown)) by {
            assert forall|k: int| 0 <= k < k0 + 1 implies record_fits(
                t,
                #[trigger] record(blk2, k),
            ) by {
                if k < k0 {
                    assert(record_fits(t, record(blk, k)));
                }
            }
        }
        assert(owns_alone(c1, sb, t, p, grown)) by {
            assert forall|j: int| 0 <= j < 12 implies #[trigger] dir.direct[j] == pointer(
                t,
                p,
                j,
            ) by {}
        }
        lemma_replace_slot(c1, sb, t, p, grown);
        let w = t.update(p, grown);
        lemma_put_inode(next, sb, grown);
        let c = put_inode(next, sb, grown).0.bytes;
        let m = inode_block(sb, parent);
        lemma_only(c1, c, sb, m);
        assert forall|k: int| 0 <= k < 1024 && (#[trigger] w[k]).kind == InodeType::Dir implies
            w[k].direct[0] != m by {
            assert(held(c1, sb, pointer(w, k, 0)));
        }
        lemma_write_consistent(c1, c, sb, m, w);
        assert(table(c, sb) =~= w);
        assert(held(c1, sb, pointer(w, p, 0)));
        assert(block(c, n as int) == blk2);
        assert(records(blk2, k0 + 1) =~= records(blk, k0).push(as_stored(ent)));
        lemma_active_only_push(records(blk, k0), as_stored(ent));
        assert forall|i: int, j: int|
            0 <= i < 1024 && 0 <= j < 12 && i != p && #[trigger] pointer(t, i, j) != 0 implies block(
            c,
            pointer(t, i, j) as int,
        ) == block(b, pointer(t, i, j) as int) by {
            assert(held(c1, sb, pointer(t, i, j)));
        }
    }
}

/// Where the search for an active record ends.
proof fn lemma_seek(b: Seq<u8>, k: int, n: int, name: Seq<char>)
    requires
        0 <= k <= n,
        forall|j: int| 0 <= j < n ==> (#[trigger] record(b, j)) is Ok,
    ensures
        match seek(b, k, n, name) {
            Ok(Some(m)) => {
                &&& k <= m < n
                &&& record(b, m)->Ok_0.active == 1
                &&& record(b, m)->Ok_0.name == name
                &&& forall|j: int|
                    k <= j < m ==> (#[trigger] record(b, j))->Ok_0.active != 1 || record(
                        b,
                        j,
                    )->Ok_0.name != name
            },
            Ok(None) => forall|j: int|
                k <= j < n ==> (#[trigger] record(b, j))->Ok_0.active != 1 || record(
                    b,
                    j,
                )->Ok_0.name != name,
            Err(_) => false,
        },
    decreases n - k,
{
    if k < n {
        assert(record(b, k) is Ok);
        let d = record(b, k)->Ok_0;
        if !(d.active == 1 && d.name == name) {
            lemma_seek(b, k + 1, n, name);
        }
    }
}

/// No active entry has a name that no active record has.
proof fn lemma_active_unnamed(es: Seq<DirentView>, name: Seq<char>)
    requires
        forall|j: int|
            0 <= j < es.len() ==> (#[trigger] es[j]).active != 1 || es[j].name != name,
    ensures
        forall|j: int|
            0 <= j < active_only(es).len() ==> (#[trigger] active_only(es)[j]).name != name,
{
    lemma_active_from(es);
    assert forall|j: int| 0 <= j < active_only(es).len() implies (#[trigger] active_only(
        es,
    )[j]).name != name by {
        let e = active_only(es)[j];
        let k = choose|k: int| 0 <= k < es.len() && es[k] == e;
        assert(es[k].active == 1);
    }
}

/// Switching off the first active record of a name takes the first entry of that name out.
proof fn lemma_switched_off(rs: Seq<DirentView>, m: int, off: DirentView, name: Seq<char>)
    requires
        0 <= m < rs.len(),
        rs[m].active == 1,
        rs[m].name == name,
        forall|j: int| 0 <= j < m ==> (#[trigger] rs[j]).active != 1 || rs[j].name != name,
        off.active != 1,
    ensures
        find_index(active_only(rs), 0, name) is Some,
        active_only(rs.update(m, off)) == without_first(active_only(rs), name),
{
    let front = rs.take(m);
    let back = rs.skip(m + 1);
    let fa = active_only(front);
    let ba = active_only(back);
    let e = rs[m];
    assert(rs =~= front + (seq![e] + back));
    assert(rs.update(m, off) =~= front + (seq![off] + back));
    lemma_active_add(front, seq![e] + back);
    lemma_active_add(seq![e], back);
    lemma_active_add(front, seq![off] + back);
    lemma_active_add(seq![off], back);
    assert(seq![e].drop_last() =~= Seq::empty());
    assert(seq![off].drop_last() =~= Seq::empty());
    assert(active_only(seq![e].drop_last()) == Seq::<DirentView>::empty());
    assert(active_only(seq![off].drop_last()) == Seq::<DirentView>::empty());
    assert(active_only(seq![e]) =~= seq![e]);
    assert(active_only(seq![off]) =~= Seq::empty());
    let all = active_only(rs);
    assert(all =~= fa + (seq![e] + ba));
    lemma_active_unnamed(front, name);
    assert forall|j: int| 0 <= j < fa.len() implies (#[trigger] all[j]).name != name by {
        assert(all[j] == fa[j]);
    }
    assert(all[fa.len() as int] == e);
    lemma_find_at(all, 0, fa.len() as int, name);
    assert(all.remove(fa.len() as int) =~= fa + ba);
    assert(active_only(rs.update(m, off)) =~= fa + ba);
}

/// Removing an entry from a directory of a consistent image: it fails only where no entry has
/// the name, and takes the first one out that has it.
pub proof fn lemma_unlink(img: Image, sb: Superblock, parent: u32, name: Seq<char>)
    requires
        framed(img.bytes, sb),
        consistent(img.bytes, sb, table(img.bytes, sb)),
        parent < 1024,
        table(img.bytes, sb)[parent as int].kind == InodeType::Dir,
    ensures
        ({
            let (out, r) = unlink(img, sb, parent, name);
            let b = img.bytes;
            let c = out.bytes;
            let t = table(b, sb);
            let dir = t[parent as int];
            &&& r == match find_name(entries(b, dir), 0, name) {
                Some(_) => Ok::<(), Failure>(()),
                None => Err::<(), Failure>(Failure::NotFound(name)),
            }
            &&& r is Err ==> out == img
            &&& framed(c, sb)
            &&& consistent(c, sb, t)
            &&& same_metadata(b, c, sb)
            &&& others_kept(b, c, t, parent as int)
            &&& r is Ok ==> entries(c, dir) == without_first(entries(b, dir), name)
            &&& forall|i: int|
                0 <= i < data_bits(sb) ==> #[trigger] block_marked(c, sb, i) == block_marked(
                    b,
                    sb,
                    i,
                )
        }),
{
    let b = img.bytes;
    let t = table(b, sb);
    let p = parent as int;
    let dir = t[p];
    let n = dir.direct[0];
    let k0 = dir.size as int / 264;
    lemma_standard(sb);
    lemma_find_inode(b, sb, parent);
    assert(dir_fits(b, t, dir));
    assert(pointer(t, p, 0) == n);
    assert(held(b, sb, n));
    lemma_block_len(b, n as int);
    let blk = block(b, n as int);
    let rs = records(blk, k0);
    assert(records_in_block(dir.size as int) == k0);
    assert forall|k: int| 0 <= k < k0 implies (#[trigger] record(blk, k)) is Ok by {
        assert(record_fits(t, record(blk, k)));
    }
    lemma_seek(blk, 0, k0, name);
    match seek(blk, 0, k0, name)->Ok_0 {
        Some(m) => {
            let was = record(blk, m)->Ok_0;
            let ent = DirentView { active: 0, ..was };
            let blk2 = without_record(blk, m);
            let next = img.write(n, blk2);
            lemma_write(img, n, blk2);
            let c = next.bytes;
            dirent_round_trip(ent);
            assert(raw_record(blk2, m) =~= dirent_bytes(ent));
            assert(record(blk2, m) == Ok::<DirentView, Failure>(as_stored(ent)));
            assert forall|k: int| 0 <= k < k0 && k != m implies #[trigger] record(blk2, k)
                == record(blk, k) by {
                assert(264 * k + 264 <= 264 * m || 264 * m + 264 <= 264 * k);
                assert(raw_record(blk2, k) =~= raw_record(blk, k));
            }
            assert forall|k: int| 0 <= k < k0 implies record_fits(t, #[trigger] record(blk2, k)) by {
                assert(record_fits(t, record(blk, k)));
            }
            assert(dir_fits(c, t, dir));
            lemma_dir_block_consistent(b, c, sb, t, p);
            assert(records(blk2, k0) =~= rs.update(m, as_stored(ent)));
            assert forall|j: int| 0 <= j < m implies (#[trigger] rs[j]).active != 1 || rs[j].name
                != name by {
                assert(rs[j] == record(blk, j)->Ok_0);
            }
            lemma_switched_off(rs, m, as_stored(ent), name);
            lemma_find(active_only(rs), 0, name);
        },
        None => {
            assert forall|j: int| 0 <= j < rs.len() implies (#[trigger] rs[j]).active != 1
                || rs[j].name != name by {
                assert(rs[j] == record(blk, j)->Ok_0);
            }
            lemma_active_unnamed(rs, name);
            lemma_find(active_only(rs), 0, name);
            lemma_unlink_nowhere(img, dir.direct, 1, dir.size - 264 * k0, name);
        },
    }
}

/// Where no further pointer leads anywhere, the name is not found.
proof fn lemma_unlink_nowhere(
    img: Image,
    direct: Seq<u32>,
    i: int,
    remaining: int,
    name: Seq<char>,
)
    requires
        0 <= i,
        forall|j: int| i <= j < direct.len() ==> direct[j] == 0,
    ensures
        unlink_from(img, direct, i, remaining, name) == (
            img,
            Err::<(), Failure>(Failure::NotFound(name)),
        ),
    decreases direct.len() - i,
{
    if i < direct.len() {
        lemma_unlink_nowhere(img, direct, i + 1, remaining, name);
    }
}

} // verus!
