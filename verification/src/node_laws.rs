//! What holds of making, removing, listing and opening nodes.

use crate::bitmap::claim_inode;
use crate::crash_laws::{completed_change_is_paired, making_is_a_transaction};
use crate::directory::lookup;
use crate::dirent::{short_name_is_kept, DirentView};
use crate::disk::block;
use crate::entries::{
    as_stored, entries, lemma_dir_entries, lemma_find, lemma_find_push, lemma_lookup,
    lemma_without_first, lemma_without_last, without_first,
};
use crate::error::Failure;
use crate::file::file_bytes;
use crate::fs::{no_such_fd, FsView, OpenHandle};
use crate::history_laws::{
    after, all_go_well, all_rewrite_only, calls_keep_health, calls_rewrite_only, Call,
};
use crate::inode::InodeType;
use crate::mount_laws::healthy;
use crate::node::{discard, dot, dot_dot, free_slot, listed_names};
use crate::path::{parent_of, parts_of, resolve, walk, walk_dirs};
use crate::sound::{
    addressable, block_marked, data_bits, dir_fits, held, inode_marked, intact, lemma_find_inode,
    lemma_standard, marked_outside, no_block_left, node_kept, numbered, pointer, table,
};
use crate::steps::lemma_claim_inode;
use crate::superblock::Superblock;
use crate::tree::{lemma_discard, lemma_make_in, no_inode_left, parent_entry, self_entry, slot_left};
use crate::walks::{lemma_file_kept, lemma_file_readable, lemma_lookup_kept, lemma_resolve};
use vstd::prelude::*;
use vstd::utf8::encode_utf8;

verus! {

/// Making a node on a healthy filesystem on which an inode slot is left, or no inode number at
/// all, keeps it healthy and opens or closes nothing. Where it succeeds, the entry stands behind
/// the others in its directory and names the lowest slot that was free, which holds an empty
/// file, or a directory with its two own entries; no other node changes. It fails where the path
/// leads nowhere or names something already and where no inode number is left, and then changes
/// nothing; and where the directory is full or, for a directory, no data block is left, and then
/// no node changes.
pub proof fn making(fs: FsView, path: Seq<char>, kind: InodeType)
    requires
        healthy(fs),
        slot_left(fs.disk.bytes, fs.sb) || no_inode_left(fs.disk.bytes, fs.sb),
        kind != InodeType::Free,
    ensures
        ({
            let (next, r) = fs.made(path, kind);
            let b = fs.disk.bytes;
            let c = next.disk.bytes;
            let t = table(b, fs.sb);
            let u = table(c, fs.sb);
            let id = claim_inode(fs.disk, fs.sb).1->Ok_0;
            &&& healthy(next)
            &&& next == (FsView { disk: next.disk, ..fs })
            &&& match parent_of(b, fs.sb, path) {
                Err(e) => r == Err::<(), Failure>(e) && next == fs,
                Ok((p, leaf)) => match lookup(b, fs.sb, p, leaf) {
                    Err(e) => r == Err::<(), Failure>(e) && next == fs,
                    Ok(Some(_)) => r == Err::<(), Failure>(Failure::AlreadyExists(path)) && next
                        == fs,
                    Ok(None) => if no_inode_left(b, fs.sb) {
                        r == Err::<(), Failure>(Failure::NoSpace) && next == fs
                    } else {
                        &&& id < 1024
                        &&& id != p
                        &&& !inode_marked(b, fs.sb, id as int)
                        &&& forall|i: int| 0 <= i < id ==> #[trigger] inode_marked(b, fs.sb, i)
                        &&& t[id as int].kind == InodeType::Free
                        &&& forall|i: int|
                            0 <= i < 1024 && i != p && i != id ==> #[trigger] node_kept(
                                b,
                                c,
                                fs.sb,
                                i,
                            )
                        &&& r is Err <==> t[p as int].size == 3960 || (kind == InodeType::Dir
                            && no_block_left(b, fs.sb))
                        &&& r matches Err(e) ==> {
                            &&& e == Failure::NoSpace || e == Failure::Fault && !addressable(fs.sb)
                            &&& node_kept(b, c, fs.sb, p as int)
                        }
                        &&& r is Ok ==> {
                            &&& u[p as int].kind == InodeType::Dir
                            &&& entries(c, u[p as int]) == entries(b, t[p as int]).push(
                                as_stored(DirentView { active: 1, kind, inode_id: id, name: leaf }),
                            )
                            &&& u[id as int].id == id
                            &&& u[id as int].kind == kind
                            &&& forall|i: int|
                                0 <= i < 32768 ==> #[trigger] inode_marked(c, fs.sb, i) == (i == id
                                    || inode_marked(b, fs.sb, i))
                            &&& forall|k: int|
                                0 <= k < data_bits(fs.sb) ==> #[trigger] marked_outside(
                                    c,
                                    fs.sb,
                                    u[id as int].direct,
                                    k,
                                ) == block_marked(b, fs.sb, k)
                            &&& kind == InodeType::File ==> file_bytes(c, fs.sb, id) == Ok::<
                                Seq<u8>,
                                Failure,
                            >(Seq::empty())
                            &&& kind == InodeType::Dir ==> entries(c, u[id as int]) == seq![
                                self_entry(id),
                                parent_entry(p),
                            ]
                        }
                    },
                },
            }
        }),
{
    let b = fs.disk.bytes;
    let sb = fs.sb;
    let t = table(b, sb);
    lemma_resolve(b, sb, path);
    if let Ok((p, leaf)) = parent_of(b, sb, path) {
        lemma_lookup(b, sb, p, leaf);
        lemma_claim_inode(fs.disk, sb);
        if lookup(b, sb, p, leaf) == Ok::<Option<u32>, Failure>(None) && !no_inode_left(b, sb) {
            lemma_make_in(fs.disk, sb, p, leaf, kind);
            let next = fs.made(path, kind).0;
            let c = next.disk.bytes;
            let u = table(c, sb);
            let id = claim_inode(fs.disk, sb).1->Ok_0;
            assert forall|k: u32| numbered(t, k) implies #[trigger] numbered(u, k) by {
                if k != id && k != p {
                    assert(node_kept(b, c, sb, k as int));
                }
            }
            if fs.made(path, kind).1 is Ok && kind == InodeType::File {
                lemma_file_readable(c, sb, id);
                assert(file_bytes(c, sb, id)->Ok_0 =~= Seq::empty());
            }
        }
    }
}

/// A walk that found its way finds it again where every name leads on to what it led to.
proof fn lemma_walk_again(
    b: Seq<u8>,
    c: Seq<u8>,
    sb: Superblock,
    cur: u32,
    parts: Seq<Seq<char>>,
    i: int,
    path: Seq<char>,
)
    requires
        intact(b, sb),
        numbered(table(b, sb), cur),
        0 <= i,
        forall|d: u32, name: Seq<char>|
            d < 1024 && (lookup(b, sb, d, name) matches Ok(Some(_))) ==> #[trigger] lookup(
                c,
                sb,
                d,
                name,
            ) == lookup(b, sb, d, name),
    ensures
        walk(b, sb, cur, parts, i, path) is Ok ==> walk(c, sb, cur, parts, i, path) == walk(
            b,
            sb,
            cur,
            parts,
            i,
            path,
        ),
        walk_dirs(b, sb, cur, parts, i, path) matches Ok(p) ==> i < parts.len() ==> walk(
            c,
            sb,
            cur,
            parts,
            i,
            path,
        ) == match lookup(c, sb, p, parts.last()) {
            Ok(Some(id)) => Ok::<u32, Failure>(id),
            Ok(None) => Err::<u32, Failure>(Failure::NotFound(path)),
            Err(e) => Err::<u32, Failure>(e),
        },
    decreases parts.len() - i,
{
    if i < parts.len() {
        lemma_lookup(b, sb, cur, parts[i]);
        if let Ok(Some(id)) = lookup(b, sb, cur, parts[i]) {
            assert(lookup(c, sb, cur, parts[i]) == lookup(b, sb, cur, parts[i]));
            lemma_find_inode(b, sb, id);
            lemma_walk_again(b, c, sb, id, parts, i + 1, path);
        }
        if i == parts.len() - 1 {
            if let Ok(Some(id)) = lookup(c, sb, cur, parts[i]) {
                assert(walk(c, sb, id, parts, i + 1, path) == Ok::<u32, Failure>(id));
            }
        }
    }
}

/// A node that was made under a name that a record keeps whole is found at its path; every path
/// that named something names the same still, and every file has the contents that it had.
pub proof fn made_is_found(fs: FsView, path: Seq<char>, kind: InodeType)
    requires
        healthy(fs),
        slot_left(fs.disk.bytes, fs.sb),
        kind != InodeType::Free,
        fs.made(path, kind).1 is Ok,
        encode_utf8(parent_of(fs.disk.bytes, fs.sb, path)->Ok_0.1).len() <= 255,
    ensures
        ({
            let next = fs.made(path, kind).0;
            let b = fs.disk.bytes;
            let c = next.disk.bytes;
            let id = claim_inode(fs.disk, fs.sb).1->Ok_0;
            let (p, leaf) = parent_of(b, fs.sb, path)->Ok_0;
            &&& resolve(c, fs.sb, path) == Ok::<u32, Failure>(id)
            &&& lookup(c, fs.sb, p, leaf) == Ok::<Option<u32>, Failure>(Some(id))
            &&& forall|d: u32, name: Seq<char>|
                d < 1024 && (lookup(b, fs.sb, d, name) matches Ok(Some(_))) ==> #[trigger] lookup(
                    c,
                    fs.sb,
                    d,
                    name,
                ) == lookup(b, fs.sb, d, name)
            &&& kind == InodeType::File ==> next.file_at(path) == Ok::<u32, Failure>(id)
            &&& kind == InodeType::File ==> file_bytes(c, fs.sb, id) == Ok::<Seq<u8>, Failure>(
                Seq::empty(),
            )
            &&& kind == InodeType::Dir ==> next.listing(path) == Ok::<Seq<Seq<char>>, Failure>(
                Seq::empty(),
            )
            &&& forall|other: Seq<char>|
                (resolve(b, fs.sb, other) is Ok) ==> #[trigger] resolve(c, fs.sb, other) == resolve(
                    b,
                    fs.sb,
                    other,
                )
            &&& forall|i: u32|
                i < 1024 && i != id ==> #[trigger] file_bytes(c, fs.sb, i) == file_bytes(
                    b,
                    fs.sb,
                    i,
                )
        }),
{
    making(fs, path, kind);
    let next = fs.made(path, kind).0;
    let b = fs.disk.bytes;
    let c = next.disk.bytes;
    let sb = fs.sb;
    let t = table(b, sb);
    let u = table(c, sb);
    let id = claim_inode(fs.disk, sb).1->Ok_0;
    let (p, leaf) = parent_of(b, sb, path)->Ok_0;
    let parts = parts_of(path)->Ok_0;
    lemma_resolve(b, sb, path);
    lemma_lookup(b, sb, p, leaf);
    short_name_is_kept(leaf);
    let ent = as_stored(DirentView { active: 1, kind, inode_id: id, name: leaf });
    assert forall|d: u32, name: Seq<char>|
        d < 1024 && (lookup(b, sb, d, name) matches Ok(Some(_))) implies #[trigger] lookup(
        c,
        sb,
        d,
        name,
    ) == lookup(b, sb, d, name) by {
        lemma_lookup(b, sb, d, name);
        if d == p {
            lemma_lookup(c, sb, d, name);
            lemma_find_push(entries(b, t[p as int]), ent, name);
        } else if d != id {
            assert(node_kept(b, c, sb, d as int));
            lemma_lookup_kept(b, c, sb, d, name);
        }
    }
    lemma_lookup(c, sb, p, leaf);
    lemma_find_push(entries(b, t[p as int]), ent, leaf);
    assert(numbered(t, 0));
    lemma_walk_again(b, c, sb, 0, parts, 0, path);
    assert forall|other: Seq<char>| (resolve(b, sb, other) is Ok) implies #[trigger] resolve(
        c,
        sb,
        other,
    ) == resolve(b, sb, other) by {
        lemma_walk_again(b, c, sb, 0, parts_of(other)->Ok_0, 0, other);
    }
    assert forall|i: u32| i < 1024 && i != id implies #[trigger] file_bytes(c, sb, i)
        == file_bytes(b, sb, i) by {
        if i == p {
            lemma_file_readable(b, sb, i);
            lemma_file_readable(c, sb, i);
        } else {
            assert(node_kept(b, c, sb, i as int));
            lemma_file_kept(b, c, sb, i);
        }
    }
    lemma_find_inode(c, sb, id);
    if kind == InodeType::Dir {
        lemma_listing(next, path);
        let es = entries(c, u[id as int]);
        let one = seq![self_entry(id)];
        assert(es.drop_last() =~= one);
        assert(one.drop_last() =~= Seq::empty());
        assert(listed_names(one.drop_last()) == Seq::<Seq<char>>::empty());
        assert(listed_names(one) == Seq::<Seq<char>>::empty());
    }
}

/// What a listing of a healthy filesystem gives.
pub proof fn lemma_listing(fs: FsView, path: Seq<char>)
    requires
        healthy(fs),
    ensures
        ({
            let b = fs.disk.bytes;
            fs.listing(path) == match resolve(b, fs.sb, path) {
                Ok(id) => if table(b, fs.sb)[id as int].kind == InodeType::Dir {
                    Ok::<Seq<Seq<char>>, Failure>(
                        listed_names(entries(b, table(b, fs.sb)[id as int])),
                    )
                } else {
                    Err::<Seq<Seq<char>>, Failure>(Failure::NotDir(path))
                },
                Err(e) => Err::<Seq<Seq<char>>, Failure>(e),
            }
        }),
{
    let b = fs.disk.bytes;
    let t = table(b, fs.sb);
    lemma_resolve(b, fs.sb, path);
    if let Ok(id) = resolve(b, fs.sb, path) {
        lemma_find_inode(b, fs.sb, id);
        let dir = t[id as int];
        if dir.kind == InodeType::Dir {
            assert(dir_fits(b, t, dir));
            assert(held(b, fs.sb, pointer(t, id as int, 0)));
            lemma_dir_entries(b, t, dir);
        }
    }
}

/// Listing changes nothing, and fails on a healthy filesystem only where the path leads nowhere
/// or names no directory. It gives the names of the entries in their order, without the two by
/// which the directory lists itself and its parent.
pub proof fn listing(fs: FsView, path: Seq<char>)
    requires
        healthy(fs),
    ensures
        match fs.listing(path) {
            Ok(names) => {
                &&& resolve(fs.disk.bytes, fs.sb, path) matches Ok(id)
                &&& table(fs.disk.bytes, fs.sb)[id as int].kind == InodeType::Dir
                &&& forall|name: Seq<char>| #[trigger]
                    names.contains(name) <==> name != dot() && name != dot_dot() && (lookup(
                        fs.disk.bytes,
                        fs.sb,
                        id,
                        name,
                    ) matches Ok(Some(_)))
            },
            Err(e) => e is NotFound || e is NotDir || e == Failure::InvalidPath(path),
        },
{
    let b = fs.disk.bytes;
    lemma_listing(fs, path);
    lemma_resolve(b, fs.sb, path);
    if let Ok(names) = fs.listing(path) {
        let id = resolve(b, fs.sb, path)->Ok_0;
        let es = entries(b, table(b, fs.sb)[id as int]);
        assert forall|name: Seq<char>| #[trigger] names.contains(name) <==> name != dot() && name
            != dot_dot() && (lookup(b, fs.sb, id, name) matches Ok(Some(_))) by {
            lemma_lookup(b, fs.sb, id, name);
            lemma_find(es, 0, name);
            lemma_listed(es, name);
        }
    }
}

/// A name is listed where some entry has it, unless it is one of the directory's own.
pub proof fn lemma_listed(es: Seq<DirentView>, name: Seq<char>)
    ensures
        listed_names(es).contains(name) <==> name != dot() && name != dot_dot() && exists|i: int|
            0 <= i < es.len() && (#[trigger] es[i]).name == name,
    decreases es.len(),
{
    if es.len() > 0 {
        let front = es.drop_last();
        let last = es.last();
        lemma_listed(front, name);
        let before = listed_names(front);
        let now = listed_names(es);
        if now.contains(name) {
            let k = choose|k: int| 0 <= k < now.len() && now[k] == name;
            if k < before.len() {
                assert(before[k] == name);
                let i = choose|i: int| 0 <= i < front.len() && (#[trigger] front[i]).name == name;
                assert(es[i].name == name);
            } else {
                assert(es[es.len() - 1].name == name);
            }
        }
        if name != dot() && name != dot_dot() && exists|i: int|
            0 <= i < es.len() && (#[trigger] es[i]).name == name {
            let i = choose|i: int| 0 <= i < es.len() && (#[trigger] es[i]).name == name;
            if i < front.len() {
                assert(front[i].name == name);
                let k = choose|k: int| 0 <= k < before.len() && before[k] == name;
                assert(now[k] == name);
            } else {
                assert(now[now.len() - 1] == name);
            }
        }
    }
}

/// A directory lists what was made in it behind what it listed before.
pub proof fn made_is_listed(fs: FsView, path: Seq<char>, kind: InodeType, dir: Seq<char>)
    requires
        healthy(fs),
        slot_left(fs.disk.bytes, fs.sb),
        kind != InodeType::Free,
        fs.made(path, kind).1 is Ok,
        encode_utf8(parent_of(fs.disk.bytes, fs.sb, path)->Ok_0.1).len() <= 255,
        parent_of(fs.disk.bytes, fs.sb, path)->Ok_0.1 != dot(),
        parent_of(fs.disk.bytes, fs.sb, path)->Ok_0.1 != dot_dot(),
        resolve(fs.disk.bytes, fs.sb, dir) == Ok::<u32, Failure>(
            parent_of(fs.disk.bytes, fs.sb, path)->Ok_0.0,
        ),
    ensures
        fs.listing(dir) is Ok,
        fs.made(path, kind).0.listing(dir) == Ok::<Seq<Seq<char>>, Failure>(
            fs.listing(dir)->Ok_0.push(parent_of(fs.disk.bytes, fs.sb, path)->Ok_0.1),
        ),
{
    making(fs, path, kind);
    made_is_found(fs, path, kind);
    let next = fs.made(path, kind).0;
    let b = fs.disk.bytes;
    let c = next.disk.bytes;
    let t = table(b, fs.sb);
    let (p, leaf) = parent_of(b, fs.sb, path)->Ok_0;
    let id = claim_inode(fs.disk, fs.sb).1->Ok_0;
    lemma_resolve(b, fs.sb, path);
    lemma_lookup(b, fs.sb, p, leaf);
    lemma_listing(fs, dir);
    lemma_listing(next, dir);
    assert(resolve(c, fs.sb, dir) == resolve(b, fs.sb, dir));
    short_name_is_kept(leaf);
    let es = entries(b, t[p as int]);
    let ent = as_stored(DirentView { active: 1, kind, inode_id: id, name: leaf });
    assert(es.push(ent).drop_last() =~= es);
}

/// Removing a node of a healthy filesystem keeps it healthy and opens or closes nothing. Where
/// it succeeds, the first entry of that name is gone from its directory, the inode is free and
/// the blocks that it had can be claimed again; no other node changes. It fails where the path
/// leads nowhere and where it names a directory that still lists something, and then changes
/// nothing.
pub proof fn removing(fs: FsView, path: Seq<char>)
    requires
        healthy(fs),
    ensures
        ({
            let (next, r) = fs.removed(path);
            let b = fs.disk.bytes;
            let c = next.disk.bytes;
            let t = table(b, fs.sb);
            &&& healthy(next)
            &&& next == (FsView { disk: next.disk, ..fs })
            &&& match parent_of(b, fs.sb, path) {
                Err(e) => r == Err::<(), Failure>(e) && next == fs,
                Ok((p, leaf)) => match lookup(b, fs.sb, p, leaf) {
                    Err(e) => r == Err::<(), Failure>(e) && next == fs,
                    Ok(None) => r == Err::<(), Failure>(Failure::NotFound(path)) && next == fs,
                    Ok(Some(id)) => if t[id as int].kind == InodeType::Dir && listed_names(
                        entries(b, t[id as int]),
                    ).len() > 0 {
                        r == Err::<(), Failure>(Failure::InvalidPath("directory not empty"@))
                            && next == fs
                    } else {
                        &&& r == Ok::<(), Failure>(())
                        &&& id < 1024
                        &&& table(c, fs.sb) == t.update(id as int, free_slot(id))
                        &&& forall|i: int|
                            0 <= i < 1024 && i != p && i != id ==> #[trigger] node_kept(
                                b,
                                c,
                                fs.sb,
                                i,
                            )
                        &&& id != p ==> entries(c, t[p as int]) == without_first(
                            entries(b, t[p as int]),
                            leaf,
                        )
                        &&& forall|i: int|
                            0 <= i < 32768 ==> #[trigger] inode_marked(c, fs.sb, i) == (i != id
                                && inode_marked(b, fs.sb, i))
                        &&& forall|k: int|
                            0 <= k < data_bits(fs.sb) ==> #[trigger] block_marked(c, fs.sb, k)
                                == marked_outside(b, fs.sb, t[id as int].direct, k)
                    },
                },
            }
        }),
{
    let b = fs.disk.bytes;
    let sb = fs.sb;
    let t = table(b, sb);
    lemma_resolve(b, sb, path);
    if let Ok((p, leaf)) = parent_of(b, sb, path) {
        lemma_lookup(b, sb, p, leaf);
        if let Ok(Some(id)) = lookup(b, sb, p, leaf) {
            let target = t[id as int];
            lemma_find_inode(b, sb, id);
            if target.kind == InodeType::Dir {
                assert(dir_fits(b, t, target));
                assert(held(b, sb, pointer(t, id as int, 0)));
                lemma_dir_entries(b, t, target);
            }
            lemma_discard(fs.disk, sb, p, leaf, id);
            let c = discard(fs.disk, sb, p, leaf, id, target).0.bytes;
            let u = table(c, sb);
            assert forall|k: u32| numbered(t, k) implies #[trigger] numbered(u, k) by {}
            lemma_standard(sb);
            assert forall|k: int| 0 <= k < data_bits(sb) implies #[trigger] block_marked(c, sb, k)
                == marked_outside(b, sb, target.direct, k) by {
                if exists|j: int|
                    0 <= j < 12 && #[trigger] target.direct[j] != 0 && k == target.direct[j]
                        - sb.data_start {
                    let j = choose|j: int|
                        0 <= j < 12 && #[trigger] target.direct[j] != 0 && k == target.direct[j]
                            - sb.data_start;
                    assert(target.direct[j] == sb.data_start + k);
                } else {
                    assert forall|j: int| 0 <= j < target.direct.len() implies
                        #[trigger] target.direct[j] != sb.data_start + k by {
                        if target.direct[j] != 0 {
                            assert(k != target.direct[j] - sb.data_start);
                        }
                    }
                }
            }
        }
    }
}

/// Whether the way from inode `cur` by the components from `i` on leads through the directory
/// `id`.
pub open spec fn passes_through(
    b: Seq<u8>,
    sb: Superblock,
    cur: u32,
    parts: Seq<Seq<char>>,
    i: int,
    id: u32,
) -> bool
    decreases parts.len() - i,
{
    i < parts.len() && (cur == id || (lookup(b, sb, cur, parts[i]) matches Ok(Some(next))
        && passes_through(b, sb, next, parts, i + 1, id)))
}

/// A walk through what is left after the entry `leaf` of the directory `p` was taken out and
/// the inode `id` was freed fails at the latest at that entry.
proof fn lemma_walk_ends(
    b: Seq<u8>,
    c: Seq<u8>,
    sb: Superblock,
    cur: u32,
    parts: Seq<Seq<char>>,
    i: int,
    path: Seq<char>,
    p: u32,
    id: u32,
)
    requires
        intact(b, sb),
        numbered(table(b, sb), cur),
        0 <= i < parts.len(),
        walk_dirs(b, sb, cur, parts, i, path) == Ok::<u32, Failure>(p),
        lookup(c, sb, p, parts.last()) == Ok::<Option<u32>, Failure>(None),
        forall|d: u32, name: Seq<char>|
            d < 1024 && d != id && !(d == p && name == parts.last()) ==> #[trigger] lookup(
                c,
                sb,
                d,
                name,
            ) == lookup(b, sb, d, name),
        forall|name: Seq<char>| (#[trigger] lookup(c, sb, id, name)) is Err,
    ensures
        walk(c, sb, cur, parts, i, path) is Err,
        !passes_through(b, sb, cur, parts, i, id) ==> walk(c, sb, cur, parts, i, path) == Err::<
            u32,
            Failure,
        >(Failure::NotFound(path)),
    decreases parts.len() - i,
{
    lemma_lookup(b, sb, cur, parts[i]);
    if i < parts.len() - 1 {
        let next = lookup(b, sb, cur, parts[i])->Ok_0->Some_0;
        lemma_find_inode(b, sb, next);
        if cur == id {
            assert(lookup(c, sb, id, parts[i]) is Err);
        } else if cur == p && parts[i] == parts.last() {
        } else {
            assert(lookup(c, sb, cur, parts[i]) == lookup(b, sb, cur, parts[i]));
            lemma_walk_ends(b, c, sb, next, parts, i + 1, path, p, id);
        }
    }
}

/// A node that was removed is not found at its path any more, and its directory does not have
/// its name, provided that no second entry has it and that the node is not the directory itself.
/// The path is reported as not found, unless its way to the directory leads through the node.
/// All other names lead to what they led to, and all other files have the contents that they had.
pub proof fn removed_is_gone(fs: FsView, path: Seq<char>)
    requires
        healthy(fs),
        fs.removed(path).1 is Ok,
        ({
            let (p, leaf) = parent_of(fs.disk.bytes, fs.sb, path)->Ok_0;
            let es = entries(fs.disk.bytes, table(fs.disk.bytes, fs.sb)[p as int]);
            &&& lookup(fs.disk.bytes, fs.sb, p, leaf) != Ok::<Option<u32>, Failure>(Some(p))
            &&& forall|i: int, j: int|
                0 <= i < j < es.len() && (#[trigger] es[i]).name == leaf ==> (
                #[trigger] es[j]).name != leaf
        }),
    ensures
        ({
            let next = fs.removed(path).0;
            let b = fs.disk.bytes;
            let c = next.disk.bytes;
            let (p, leaf) = parent_of(b, fs.sb, path)->Ok_0;
            let id = lookup(b, fs.sb, p, leaf)->Ok_0->Some_0;
            &&& resolve(c, fs.sb, path) is Err
            &&& !passes_through(b, fs.sb, 0, parts_of(path)->Ok_0, 0, id) ==> resolve(
                c,
                fs.sb,
                path,
            ) == Err::<u32, Failure>(Failure::NotFound(path))
            &&& lookup(c, fs.sb, p, leaf) == Ok::<Option<u32>, Failure>(None)
            &&& forall|d: u32, name: Seq<char>|
                d < 1024 && d != id && !(d == p && name == leaf) ==> #[trigger] lookup(
                    c,
                    fs.sb,
                    d,
                    name,
                ) == lookup(b, fs.sb, d, name)
            &&& forall|i: u32|
                i < 1024 && i != id ==> #[trigger] file_bytes(c, fs.sb, i) == file_bytes(
                    b,
                    fs.sb,
                    i,
                )
        }),
{
    removing(fs, path);
    let next = fs.removed(path).0;
    let b = fs.disk.bytes;
    let c = next.disk.bytes;
    let sb = fs.sb;
    let t = table(b, sb);
    let (p, leaf) = parent_of(b, sb, path)->Ok_0;
    let parts = parts_of(path)->Ok_0;
    lemma_resolve(b, sb, path);
    lemma_lookup(b, sb, p, leaf);
    let id = lookup(b, sb, p, leaf)->Ok_0->Some_0;
    let es = entries(b, t[p as int]);
    lemma_lookup(c, sb, p, leaf);
    lemma_without_first(es, leaf, leaf);
    assert forall|d: u32, name: Seq<char>|
        d < 1024 && d != id && !(d == p && name == leaf) implies #[trigger] lookup(c, sb, d, name)
        == lookup(b, sb, d, name) by {
        if d == p {
            lemma_lookup(b, sb, d, name);
            lemma_lookup(c, sb, d, name);
            lemma_without_first(es, leaf, name);
        } else {
            assert(node_kept(b, c, sb, d as int));
            lemma_lookup_kept(b, c, sb, d, name);
        }
    }
    assert forall|name: Seq<char>| (#[trigger] lookup(c, sb, id, name)) is Err by {
        lemma_lookup(c, sb, id, name);
    }
    assert(numbered(t, 0));
    lemma_walk_ends(b, c, sb, 0, parts, 0, path, p, id);
    assert forall|i: u32| i < 1024 && i != id implies #[trigger] file_bytes(c, sb, i)
        == file_bytes(b, sb, i) by {
        if i == p {
            lemma_file_readable(b, sb, i);
            lemma_file_readable(c, sb, i);
        } else {
            assert(node_kept(b, c, sb, i as int));
            lemma_file_kept(b, c, sb, i);
        }
    }
}

/// The directory in which a path ends is found again where every name leads on to what it led
/// to and every directory still is one.
proof fn lemma_parent_again(
    b: Seq<u8>,
    c: Seq<u8>,
    sb: Superblock,
    cur: u32,
    parts: Seq<Seq<char>>,
    i: int,
    path: Seq<char>,
)
    requires
        intact(b, sb),
        intact(c, sb),
        numbered(table(b, sb), cur),
        0 <= i,
        walk_dirs(b, sb, cur, parts, i, path) is Ok,
        forall|d: u32, name: Seq<char>|
            d < 1024 && (lookup(b, sb, d, name) matches Ok(Some(_))) ==> #[trigger] lookup(
                c,
                sb,
                d,
                name,
            ) == lookup(b, sb, d, name),
        forall|k: int|
            0 <= k < 1024 && (#[trigger] table(b, sb)[k]).kind == InodeType::Dir ==> table(
                c,
                sb,
            )[k].kind == InodeType::Dir,
    ensures
        walk_dirs(c, sb, cur, parts, i, path) == walk_dirs(b, sb, cur, parts, i, path),
    decreases parts.len() - i,
{
    if i < parts.len() - 1 {
        lemma_lookup(b, sb, cur, parts[i]);
        let next = lookup(b, sb, cur, parts[i])->Ok_0->Some_0;
        assert(lookup(c, sb, cur, parts[i]) == lookup(b, sb, cur, parts[i]));
        lemma_find_inode(b, sb, next);
        lemma_find_inode(c, sb, next);
        assert(table(b, sb)[next as int].kind == InodeType::Dir);
        lemma_parent_again(b, c, sb, next, parts, i + 1, path);
    }
}

/// Removing undoes making. A node that was made under a name that a record keeps whole, to
/// which calls that went well may have written in between, and that then was removed leaves both
/// bitmaps and the active entries of its directory as they were before it was made, and no other
/// node changed; the next node that is made gets the same inode.
pub proof fn removing_undoes_making(
    fs: FsView,
    path: Seq<char>,
    kind: InodeType,
    calls: Seq<Call>,
)
    requires
        healthy(fs),
        slot_left(fs.disk.bytes, fs.sb),
        kind != InodeType::Free,
        fs.made(path, kind).1 is Ok,
        encode_utf8(parent_of(fs.disk.bytes, fs.sb, path)->Ok_0.1).len() <= 255,
        all_go_well(fs.made(path, kind).0, calls),
        all_rewrite_only(fs.made(path, kind).0, calls, claim_inode(fs.disk, fs.sb).1->Ok_0),
        after(fs.made(path, kind).0, calls).removed(path).1 is Ok,
    ensures
        ({
            let last = after(fs.made(path, kind).0, calls).removed(path).0;
            let b = fs.disk.bytes;
            let c = last.disk.bytes;
            let p = parent_of(b, fs.sb, path)->Ok_0.0;
            let id = claim_inode(fs.disk, fs.sb).1->Ok_0;
            &&& healthy(last)
            &&& forall|i: int|
                0 <= i < 32768 ==> #[trigger] inode_marked(c, fs.sb, i) == inode_marked(
                    b,
                    fs.sb,
                    i,
                )
            &&& forall|k: int|
                0 <= k < data_bits(fs.sb) ==> #[trigger] block_marked(c, fs.sb, k) == block_marked(
                    b,
                    fs.sb,
                    k,
                )
            &&& entries(c, table(c, fs.sb)[p as int]) == entries(b, table(b, fs.sb)[p as int])
            &&& table(c, fs.sb)[id as int] == free_slot(id)
            &&& forall|i: int|
                0 <= i < 1024 && i != p && i != id ==> #[trigger] node_kept(b, c, fs.sb, i)
            &&& claim_inode(last.disk, fs.sb).1 == claim_inode(fs.disk, fs.sb).1
        }),
{
    let sb = fs.sb;
    let first = fs.made(path, kind).0;
    let second = after(first, calls);
    let last = second.removed(path).0;
    let b = fs.disk.bytes;
    let b1 = first.disk.bytes;
    let b2 = second.disk.bytes;
    let c = last.disk.bytes;
    let t = table(b, sb);
    let (p, leaf) = parent_of(b, sb, path)->Ok_0;
    let id = claim_inode(fs.disk, sb).1->Ok_0;
    let parts = parts_of(path)->Ok_0;
    making(fs, path, kind);
    made_is_found(fs, path, kind);
    making_is_a_transaction(fs, path, kind);
    completed_change_is_paired(fs.disk, first.disk, sb);
    calls_keep_health(first, calls);
    calls_rewrite_only(first, calls, id);
    lemma_resolve(b, sb, path);
    lemma_lookup(b, sb, p, leaf);
    short_name_is_kept(leaf);
    assert(numbered(t, 0));
    assert forall|k: int| 0 <= k < 1024 && (#[trigger] t[k]).kind == InodeType::Dir implies table(
        b2,
        sb,
    )[k].kind == InodeType::Dir by {
        if k != id {
            assert(node_kept(b1, b2, sb, k));
            if k != p {
                assert(node_kept(b, b1, sb, k));
            }
        }
    }
    assert forall|d: u32, name: Seq<char>|
        d < 1024 && (lookup(b, sb, d, name) matches Ok(Some(_))) implies #[trigger] lookup(
        b2,
        sb,
        d,
        name,
    ) == lookup(b, sb, d, name) by {
        assert(lookup(b1, sb, d, name) == lookup(b, sb, d, name));
    }
    lemma_parent_again(b, b2, sb, 0, parts, 0, path);
    assert(parent_of(b2, sb, path) == parent_of(b, sb, path));
    assert(lookup(b2, sb, p, leaf) == lookup(b1, sb, p, leaf));
    removing(second, path);
    let ent = as_stored(DirentView { active: 1, kind, inode_id: id, name: leaf });
    let es = entries(b, t[p as int]);
    assert(node_kept(b1, b2, sb, p as int));
    lemma_lookup_kept(b1, b2, sb, p, leaf);
    assert(entries(b2, table(b2, sb)[p as int]) == es.push(ent));
    lemma_without_last(es, ent);
    assert forall|i: int| 0 <= i < 1024 && i != p && i != id implies #[trigger] node_kept(
        b,
        c,
        sb,
        i,
    ) by {
        assert(node_kept(b, b1, sb, i));
        assert(node_kept(b1, b2, sb, i));
        assert(node_kept(b2, c, sb, i));
        assert forall|j: int| 0 <= j < 12 && #[trigger] pointer(t, i, j) != 0 implies block(
            c,
            pointer(t, i, j) as int,
        ) == block(b, pointer(t, i, j) as int) by {
            assert(pointer(table(b1, sb), i, j) == pointer(t, i, j));
            assert(pointer(table(b2, sb), i, j) == pointer(t, i, j));
        }
    }
    assert forall|i: int| 0 <= i < 32768 implies #[trigger] inode_marked(c, sb, i)
        == inode_marked(b, sb, i) by {
        assert(inode_marked(b2, sb, i) == inode_marked(b1, sb, i));
        assert(inode_marked(b1, sb, i) == (i == id || inode_marked(b, sb, i)));
    }
    assert forall|k: int| 0 <= k < data_bits(sb) implies #[trigger] block_marked(c, sb, k)
        == block_marked(b, sb, k) by {
        let before = table(b1, sb)[id as int].direct;
        let now = table(b2, sb)[id as int].direct;
        assert(marked_outside(b2, sb, now, k) == marked_outside(b1, sb, before, k));
    }
    lemma_claim_inode(fs.disk, sb);
    lemma_claim_inode(last.disk, sb);
    assert(!inode_marked(c, sb, id as int));
    let again = claim_inode(last.disk, sb).1->Ok_0;
    if again < id {
        assert(inode_marked(b, sb, again as int));
    } else if id < again {
        assert(inode_marked(c, sb, id as int));
    }
}

/// Opening a file of a healthy filesystem changes no image and no other descriptor, and gives
/// a descriptor that was not open, with the cursor at the front. It fails only where the path
/// leads nowhere or names a directory, or where descriptors have run out.
pub proof fn opening(fs: FsView, path: Seq<char>)
    requires
        healthy(fs),
    ensures
        ({
            let (next, r) = fs.opened(path);
            &&& healthy(next)
            &&& next.disk == fs.disk
            &&& match r {
                Ok(fd) => {
                    &&& fs.file_at(path) matches Ok(id)
                    &&& !fs.open.contains_key(fd)
                    &&& next.open == fs.open.insert(fd, OpenHandle { inode_id: id, offset: 0 })
                },
                Err(e) => {
                    &&& next == fs
                    &&& e == Failure::NotFound(path) || e == Failure::InvalidPath(path) || e
                        is NotDir || e == Failure::IsDir(path) || (e == Failure::Fault
                        && fs.next_fd == i32::MAX)
                },
            }
        }),
{
    let b = fs.disk.bytes;
    lemma_resolve(b, fs.sb, path);
    if let Ok(id) = resolve(b, fs.sb, path) {
        lemma_find_inode(b, fs.sb, id);
    }
}

/// Closing ends one descriptor and changes nothing else; what was closed cannot be closed or
/// read again.
pub proof fn closing(fs: FsView, fd: i32)
    requires
        healthy(fs),
    ensures
        healthy(fs.closed(fd).0),
        fs.closed(fd).1 == if fs.open.contains_key(fd) {
            Ok::<(), Failure>(())
        } else {
            Err::<(), Failure>(no_such_fd(fd))
        },
        fs.closed(fd).0 == (FsView { open: fs.open.remove(fd), ..fs }),
        fs.closed(fd).0.closed(fd).1 == Err::<(), Failure>(no_such_fd(fd)),
        forall|length: usize|
            (#[trigger] fs.closed(fd).0.read_at_cursor(fd, length)).1 == Err::<Seq<u8>, Failure>(
                no_such_fd(fd),
            ),
{
    assert(!fs.open.contains_key(fd) ==> fs.open.remove(fd) =~= fs.open);
}

} // verus!
