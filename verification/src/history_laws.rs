//! What holds of a mounted filesystem after any number of calls.

use crate::bitmap::claim_inode;
use crate::crash_laws::{
    completed_change_is_paired, making_is_a_transaction, removing_is_a_transaction,
    truncating_is_a_transaction, writing_is_a_transaction,
};
use crate::directory::lookup;
use crate::dirent::{short_name_is_kept, DirentView};
use crate::disk::{block, Image};
use crate::entries::{as_stored, entries, find_index, lemma_find, lemma_lookup, without_first};
use crate::error::Failure;
use crate::file::file_bytes;
use crate::file_laws::{lemma_replace_contents, reading, truncating, writing};
use crate::fs::{mounted, overwritten, resized, succ, FsView, OpenHandle};
use crate::inode::InodeType;
use crate::journal::{interrupted, marker_pairs, TX_BEGIN};
use crate::mount_laws::{formatting, fresh_mount, healthy, mounting, remounting};
use crate::node::{listed_names, new_image};
use crate::node_laws::{
    closing, lemma_listed, lemma_listing, making, opening, passes_through, removed_is_gone,
    removing,
};
use crate::path::{parent_of, parts_of, resolve};
use crate::sound::{
    data_bits, inode_marked, lemma_find_inode, marked_outside, node_kept, pointer, sound, table,
};
use crate::superblock::{fresh_superblock, Superblock};
use crate::text::components;
use crate::tree::{lemma_dots, no_inode_left, slot_left};
use crate::walks::{lemma_file_readable, lemma_lookup_kept, lemma_resolve, names_kept};
use vstd::prelude::*;
use vstd::utf8::encode_utf8;

verus! {

/// A call of a mounted filesystem.
pub enum Call {
    Mkdir(Seq<char>),
    Create(Seq<char>),
    Remove(Seq<char>),
    Readdir(Seq<char>),
    Open(Seq<char>),
    Close(i32),
    Read(i32, usize),
    Write(i32, Seq<u8>),
    Truncate(Seq<char>, usize),
}

/// The state that a call leaves, and whether it succeeds.
pub open spec fn called(fs: FsView, call: Call) -> (FsView, bool) {
    match call {
        Call::Mkdir(path) => {
            let (next, r) = fs.made(path, InodeType::Dir);
            (next, r is Ok)
        },
        Call::Create(path) => {
            let (next, r) = fs.made(path, InodeType::File);
            (next, r is Ok)
        },
        Call::Remove(path) => {
            let (next, r) = fs.removed(path);
            (next, r is Ok)
        },
        Call::Readdir(path) => (fs, fs.listing(path) is Ok),
        Call::Open(path) => {
            let (next, r) = fs.opened(path);
            (next, r is Ok)
        },
        Call::Close(fd) => {
            let (next, r) = fs.closed(fd);
            (next, r is Ok)
        },
        Call::Read(fd, length) => {
            let (next, r) = fs.read_at_cursor(fd, length);
            (next, r is Ok)
        },
        Call::Write(fd, data) => {
            let (next, r) = fs.written_at_cursor(fd, data);
            (next, r is Ok)
        },
        Call::Truncate(path, size) => {
            let (next, r) = fs.truncated(path, size);
            (next, r is Ok)
        },
    }
}

/// Whether a call that makes a node finds an inode slot left, or no inode number at all.
pub open spec fn has_room(fs: FsView, call: Call) -> bool {
    call is Mkdir || call is Create ==> slot_left(fs.disk.bytes, fs.sb) || no_inode_left(
        fs.disk.bytes,
        fs.sb,
    )
}

/// Whether a call has room and either succeeds or changes nothing.
pub open spec fn goes_well(fs: FsView, call: Call) -> bool {
    &&& has_room(fs, call)
    &&& called(fs, call).1 || called(fs, call).0 == fs
}

/// The state after `calls`, made in order.
pub open spec fn after(fs: FsView, calls: Seq<Call>) -> FsView
    decreases calls.len(),
{
    if calls.len() == 0 {
        fs
    } else {
        after(called(fs, calls[0]).0, calls.drop_first())
    }
}

/// Whether all of `calls`, made in order, go well.
pub open spec fn all_go_well(fs: FsView, calls: Seq<Call>) -> bool
    decreases calls.len(),
{
    calls.len() > 0 ==> goes_well(fs, calls[0]) && all_go_well(
        called(fs, calls[0]).0,
        calls.drop_first(),
    )
}

/// A call that goes well on a healthy filesystem keeps it healthy, and keeps a journal that
/// tells of no change that was cut short. It leaves the superblock as it was.
pub proof fn call_keeps_health(fs: FsView, call: Call)
    requires
        healthy(fs),
        goes_well(fs, call),
    ensures
        healthy(called(fs, call).0),
        !interrupted(block(fs.disk.bytes, 1)) ==> !interrupted(
            block(called(fs, call).0.disk.bytes, 1),
        ),
        called(fs, call).0.sb == fs.sb,
{
    let (next, ok) = called(fs, call);
    if ok {
        match call {
            Call::Mkdir(path) => {
                making(fs, path, InodeType::Dir);
                making_is_a_transaction(fs, path, InodeType::Dir);
                completed_change_is_paired(fs.disk, next.disk, fs.sb);
            },
            Call::Create(path) => {
                making(fs, path, InodeType::File);
                making_is_a_transaction(fs, path, InodeType::File);
                completed_change_is_paired(fs.disk, next.disk, fs.sb);
            },
            Call::Remove(path) => {
                removing(fs, path);
                removing_is_a_transaction(fs, path);
                completed_change_is_paired(fs.disk, next.disk, fs.sb);
            },
            Call::Readdir(_) => {},
            Call::Open(path) => opening(fs, path),
            Call::Close(fd) => closing(fs, fd),
            Call::Read(fd, length) => reading(fs, fd, length),
            Call::Write(fd, data) => {
                writing(fs, fd, data);
                writing_is_a_transaction(fs, fd, data);
                completed_change_is_paired(fs.disk, next.disk, fs.sb);
            },
            Call::Truncate(path, size) => {
                truncating(fs, path, size);
                truncating_is_a_transaction(fs, path, size);
                completed_change_is_paired(fs.disk, next.disk, fs.sb);
            },
        }
    }
}

/// Calls that go well on a healthy filesystem keep it healthy, and keep a journal that tells of
/// no change that was cut short.
pub proof fn calls_keep_health(fs: FsView, calls: Seq<Call>)
    requires
        healthy(fs),
        all_go_well(fs, calls),
    ensures
        healthy(after(fs, calls)),
        !interrupted(block(fs.disk.bytes, 1)) ==> !interrupted(
            block(after(fs, calls).disk.bytes, 1),
        ),
        after(fs, calls).sb == fs.sb,
    decreases calls.len(),
{
    if calls.len() > 0 {
        call_keeps_health(fs, calls[0]);
        calls_keep_health(called(fs, calls[0]).0, calls.drop_first());
    }
}

/// Whether `next` holds what `last` holds: every path names the same inode, every directory has
/// the same listing, and every file the same contents.
pub open spec fn holds_the_same(last: FsView, next: FsView) -> bool {
    &&& forall|path: Seq<char>| #[trigger]
        resolve(next.disk.bytes, next.sb, path) == resolve(last.disk.bytes, last.sb, path)
    &&& forall|path: Seq<char>| #[trigger] next.listing(path) == last.listing(path)
    &&& forall|id: u32|
        id < 1024 ==> #[trigger] file_bytes(next.disk.bytes, next.sb, id) == file_bytes(
            last.disk.bytes,
            last.sb,
            id,
        )
}

/// After a sound image was mounted, any number of calls went well and it was unmounted, it can
/// be mounted again, and then holds what it held, with no descriptor open and a sequence number
/// that has grown by two.
pub proof fn history_remounts(img: Image, sb: Superblock, calls: Seq<Call>)
    requires
        sound(img.bytes, sb),
        mounted(img) is Ok,
        all_go_well(mounted(img)->Ok_0, calls),
    ensures
        ({
            let last = after(mounted(img)->Ok_0, calls);
            mounted(last.unmounted().disk) matches Ok(next) && {
                &&& healthy(next)
                &&& holds_the_same(last, next)
                &&& next.open == Map::<i32, OpenHandle>::empty()
                &&& next.sb == Superblock {
                    clean: 0,
                    sequence: succ(succ(last.sb.sequence)),
                    ..last.sb
                }
            }
        }),
{
    let fs = mounted(img)->Ok_0;
    mounting(img, sb);
    marker_pairs(Seq::empty(), TX_BEGIN@);
    calls_keep_health(fs, calls);
    remounting(after(fs, calls));
}

/// After an image was made and mounted, any number of calls went well and it was unmounted, it
/// can be mounted again, and then holds what it held.
pub proof fn fresh_history_remounts(total_blocks: u32, calls: Seq<Call>)
    requires
        new_image(total_blocks).1 is Ok,
        mounted(new_image(total_blocks).0) is Ok ==> all_go_well(
            mounted(new_image(total_blocks).0)->Ok_0,
            calls,
        ),
    ensures
        mounted(new_image(total_blocks).0) is Ok,
        ({
            let last = after(mounted(new_image(total_blocks).0)->Ok_0, calls);
            mounted(last.unmounted().disk) matches Ok(next) && {
                &&& healthy(next)
                &&& holds_the_same(last, next)
                &&& next.open == Map::<i32, OpenHandle>::empty()
                &&& next.sb.sequence == succ(succ(last.sb.sequence))
            }
        }),
{
    formatting(total_blocks);
    fresh_mount(total_blocks);
    history_remounts(new_image(total_blocks).0, fresh_superblock(total_blocks), calls);
}

/// Whether a call makes and removes no node and rewrites no file but `id`.
pub open spec fn rewrites_only(fs: FsView, call: Call, id: u32) -> bool {
    match call {
        Call::Mkdir(_) => false,
        Call::Create(_) => false,
        Call::Remove(_) => false,
        Call::Write(fd, _) => fs.open[fd].inode_id == id,
        Call::Truncate(path, _) => fs.file_at(path) == Ok::<u32, Failure>(id),
        _ => true,
    }
}

/// Whether `calls`, made in order, make and remove no node and rewrite no file but `id`.
pub open spec fn all_rewrite_only(fs: FsView, calls: Seq<Call>, id: u32) -> bool
    decreases calls.len(),
{
    calls.len() > 0 ==> rewrites_only(fs, calls[0], id) && all_rewrite_only(
        called(fs, calls[0]).0,
        calls.drop_first(),
        id,
    )
}

/// Whether two images differ in nothing but the contents of file `id` and the blocks that these
/// take.
pub open spec fn only_contents(b: Seq<u8>, c: Seq<u8>, sb: Superblock, id: u32) -> bool {
    &&& names_kept(b, c, sb)
    &&& forall|i: int| 0 <= i < 1024 && i != id ==> #[trigger] node_kept(b, c, sb, i)
    &&& table(c, sb)[id as int].kind == table(b, sb)[id as int].kind
    &&& forall|i: int| #[trigger] inode_marked(c, sb, i) == inode_marked(b, sb, i)
    &&& forall|k: int|
        0 <= k < data_bits(sb) ==> #[trigger] marked_outside(
            c,
            sb,
            table(c, sb)[id as int].direct,
            k,
        ) == marked_outside(b, sb, table(b, sb)[id as int].direct, k)
}

/// A call that rewrites a file changes its contents and the blocks that these take only.
proof fn lemma_call_rewrites(fs: FsView, call: Call, id: u32)
    requires
        healthy(fs),
        goes_well(fs, call),
        rewrites_only(fs, call, id),
    ensures
        only_contents(fs.disk.bytes, called(fs, call).0.disk.bytes, fs.sb, id),
{
    let b = fs.disk.bytes;
    let next = called(fs, call).0;
    if next.disk != fs.disk {
        match call {
            Call::Write(fd, data) => {
                lemma_file_readable(b, fs.sb, id);
                let old = file_bytes(b, fs.sb, id)->Ok_0;
                lemma_replace_contents(
                    fs.disk,
                    fs.sb,
                    id,
                    overwritten(old, fs.open[fd].offset as int, data),
                );
            },
            Call::Truncate(path, size) => {
                lemma_resolve(b, fs.sb, path);
                lemma_find_inode(b, fs.sb, id);
                lemma_file_readable(b, fs.sb, id);
                let old = file_bytes(b, fs.sb, id)->Ok_0;
                lemma_replace_contents(fs.disk, fs.sb, id, resized(old, size as nat));
            },
            _ => {},
        }
    }
}

/// Calls that rewrite a file change its contents and the blocks that these take only.
pub proof fn calls_rewrite_only(fs: FsView, calls: Seq<Call>, id: u32)
    requires
        healthy(fs),
        all_go_well(fs, calls),
        all_rewrite_only(fs, calls, id),
        id < 1024,
    ensures
        only_contents(fs.disk.bytes, after(fs, calls).disk.bytes, fs.sb, id),
    decreases calls.len(),
{
    if calls.len() > 0 {
        let next = called(fs, calls[0]).0;
        let b = fs.disk.bytes;
        let m = next.disk.bytes;
        let c = after(fs, calls).disk.bytes;
        let sb = fs.sb;
        lemma_call_rewrites(fs, calls[0], id);
        call_keeps_health(fs, calls[0]);
        calls_rewrite_only(next, calls.drop_first(), id);
        assert forall|d: u32, name: Seq<char>| d < 1024 implies #[trigger] lookup(c, sb, d, name)
            == lookup(b, sb, d, name) by {
            assert(lookup(c, sb, d, name) == lookup(m, sb, d, name));
            assert(lookup(m, sb, d, name) == lookup(b, sb, d, name));
        }
        assert forall|i: int| 0 <= i < 1024 && i != id implies #[trigger] node_kept(
            b,
            c,
            sb,
            i,
        ) by {
            assert(node_kept(b, m, sb, i));
            assert(node_kept(m, c, sb, i));
            assert forall|j: int| 0 <= j < 12 && #[trigger] pointer(table(b, sb), i, j)
                != 0 implies block(c, pointer(table(b, sb), i, j) as int) == block(
                b,
                pointer(table(b, sb), i, j) as int,
            ) by {
                assert(pointer(table(m, sb), i, j) == pointer(table(b, sb), i, j));
            }
        }
        assert forall|k: int| 0 <= k < data_bits(sb) implies #[trigger] marked_outside(
            c,
            sb,
            table(c, sb)[id as int].direct,
            k,
        ) == marked_outside(b, sb, table(b, sb)[id as int].direct, k) by {
            assert(marked_outside(m, sb, table(m, sb)[id as int].direct, k) == marked_outside(
                b,
                sb,
                table(b, sb)[id as int].direct,
                k,
            ));
        }
    }
}

/// Whether no two entries have the same name.
pub open spec fn distinct(es: Seq<DirentView>) -> bool {
    forall|i: int, j: int|
        0 <= i < j < es.len() ==> (#[trigger] es[i]).name != (#[trigger] es[j]).name
}

/// Whether no directory has two active entries of the same name.
pub open spec fn distinct_names(fs: FsView) -> bool {
    forall|id: int|
        0 <= id < 1024 && (#[trigger] table(fs.disk.bytes, fs.sb)[id]).kind == InodeType::Dir
            ==> distinct(entries(fs.disk.bytes, table(fs.disk.bytes, fs.sb)[id]))
}

/// Whether a call that makes a node gives it a name that a record keeps whole.
pub open spec fn short_name(call: Call) -> bool {
    match call {
        Call::Mkdir(path) => ends_short(path),
        Call::Create(path) => ends_short(path),
        _ => true,
    }
}

/// Whether the last component of a path, where it has one, is a name that a record keeps whole.
pub open spec fn ends_short(path: Seq<char>) -> bool {
    components(path).len() > 0 ==> encode_utf8(components(path).last()).len() <= 255
}

/// A directory of the one state is a directory of the other that has its entries, or has
/// distinct names on its own account.
proof fn lemma_distinct_kept(fs: FsView, next: FsView, changed: Set<int>)
    requires
        healthy(fs),
        healthy(next),
        next.sb == fs.sb,
        distinct_names(fs),
        forall|i: int|
            0 <= i < 1024 && !changed.contains(i) ==> #[trigger] node_kept(
                fs.disk.bytes,
                next.disk.bytes,
                fs.sb,
                i,
            ),
        forall|i: int|
            0 <= i < 1024 && #[trigger] changed.contains(i) ==> {
                let v = table(next.disk.bytes, fs.sb)[i];
                v.kind == InodeType::Dir ==> distinct(entries(next.disk.bytes, v))
            },
    ensures
        distinct_names(next),
{
    let b = fs.disk.bytes;
    let c = next.disk.bytes;
    let sb = fs.sb;
    assert forall|id: int|
        0 <= id < 1024 && (#[trigger] table(c, sb)[id]).kind == InodeType::Dir implies distinct(
        entries(c, table(c, sb)[id]),
    ) by {
        if changed.contains(id) {
        } else {
            assert(node_kept(b, c, sb, id));
            assert(table(b, sb)[id].kind == InodeType::Dir);
            lemma_lookup_kept(b, c, sb, id as u32, Seq::empty());
        }
    }
}

/// Making a node under a name that a record keeps whole keeps names distinct.
proof fn lemma_making_distinct(fs: FsView, path: Seq<char>, kind: InodeType)
    requires
        healthy(fs),
        distinct_names(fs),
        slot_left(fs.disk.bytes, fs.sb) || no_inode_left(fs.disk.bytes, fs.sb),
        kind != InodeType::Free,
        fs.made(path, kind).1 is Ok,
        ends_short(path),
    ensures
        distinct_names(fs.made(path, kind).0),
{
    let next = fs.made(path, kind).0;
    let b = fs.disk.bytes;
    let c = next.disk.bytes;
    let sb = fs.sb;
    let t = table(b, sb);
    let u = table(c, sb);
    making(fs, path, kind);
    lemma_resolve(b, sb, path);
    let (p, leaf) = parent_of(b, sb, path)->Ok_0;
    let id = claim_inode(fs.disk, sb).1->Ok_0;
    lemma_lookup(b, sb, p, leaf);
    short_name_is_kept(leaf);
    let es = entries(b, t[p as int]);
    let ent = as_stored(DirentView { active: 1, kind, inode_id: id, name: leaf });
    lemma_find(es, 0, leaf);
    assert(distinct(es.push(ent))) by {
        assert(t[p as int].kind == InodeType::Dir);
        let all = es.push(ent);
        assert forall|i: int, j: int| 0 <= i < j < all.len() implies (#[trigger] all[i]).name != (
        #[trigger] all[j]).name by {
            assert(all[i] == es[i]);
            if j < es.len() {
                assert(all[j] == es[j]);
            }
        }
    }
    lemma_dots();
    let changed = set![p as int, id as int];
    assert forall|i: int| 0 <= i < 1024 && !changed.contains(i) implies #[trigger] node_kept(
        b,
        c,
        sb,
        i,
    ) by {
        assert(i != p && i != id);
    }
    lemma_distinct_kept(fs, next, changed);
}

/// Removing a node keeps names distinct.
proof fn lemma_removing_distinct(fs: FsView, path: Seq<char>)
    requires
        healthy(fs),
        distinct_names(fs),
        fs.removed(path).1 is Ok,
    ensures
        distinct_names(fs.removed(path).0),
{
    let next = fs.removed(path).0;
    let b = fs.disk.bytes;
    let c = next.disk.bytes;
    let sb = fs.sb;
    let t = table(b, sb);
    removing(fs, path);
    lemma_resolve(b, sb, path);
    let (p, leaf) = parent_of(b, sb, path)->Ok_0;
    lemma_lookup(b, sb, p, leaf);
    let id = lookup(b, sb, p, leaf)->Ok_0->Some_0;
    let es = entries(b, t[p as int]);
    lemma_find(es, 0, leaf);
    let rest = without_first(es, leaf);
    assert(distinct(rest)) by {
        assert(t[p as int].kind == InodeType::Dir);
        let k = find_index(es, 0, leaf)->Some_0;
        assert forall|i: int, j: int| 0 <= i < j < rest.len() implies (#[trigger] rest[i]).name != (
        #[trigger] rest[j]).name by {
            let i2 = if i < k {
                i
            } else {
                i + 1
            };
            let j2 = if j < k {
                j
            } else {
                j + 1
            };
            assert(rest[i] == es[i2] && rest[j] == es[j2]);
        }
    }
    let changed = set![p as int, id as int];
    assert forall|i: int| 0 <= i < 1024 && !changed.contains(i) implies #[trigger] node_kept(
        b,
        c,
        sb,
        i,
    ) by {
        assert(i != p && i != id);
    }
    lemma_distinct_kept(fs, next, changed);
}

/// A call that goes well, and gives no node a name that a record does not keep whole, keeps
/// names distinct.
pub proof fn call_keeps_names_distinct(fs: FsView, call: Call)
    requires
        healthy(fs),
        goes_well(fs, call),
        short_name(call),
        distinct_names(fs),
    ensures
        distinct_names(called(fs, call).0),
{
    let next = called(fs, call).0;
    let b = fs.disk.bytes;
    if next.disk != fs.disk {
        match call {
            Call::Mkdir(path) => lemma_making_distinct(fs, path, InodeType::Dir),
            Call::Create(path) => lemma_making_distinct(fs, path, InodeType::File),
            Call::Remove(path) => lemma_removing_distinct(fs, path),
            Call::Write(fd, data) => {
                let id = fs.open[fd].inode_id;
                call_keeps_health(fs, call);
                lemma_call_rewrites(fs, call, id);
                lemma_file_readable(b, fs.sb, id);
                lemma_distinct_kept(fs, next, set![id as int]);
            },
            Call::Truncate(path, size) => {
                let id = fs.file_at(path)->Ok_0;
                lemma_resolve(b, fs.sb, path);
                lemma_find_inode(b, fs.sb, id);
                call_keeps_health(fs, call);
                lemma_call_rewrites(fs, call, id);
                lemma_distinct_kept(fs, next, set![id as int]);
            },
            _ => {},
        }
    }
}

/// Calls that go well, and give no node a name that a record does not keep whole, keep names
/// distinct.
pub proof fn calls_keep_names_distinct(fs: FsView, calls: Seq<Call>)
    requires
        healthy(fs),
        all_go_well(fs, calls),
        forall|i: int| 0 <= i < calls.len() ==> short_name(#[trigger] calls[i]),
        distinct_names(fs),
    ensures
        distinct_names(after(fs, calls)),
    decreases calls.len(),
{
    if calls.len() > 0 {
        let rest = calls.drop_first();
        assert(short_name(calls[0]));
        call_keeps_health(fs, calls[0]);
        call_keeps_names_distinct(fs, calls[0]);
        assert forall|i: int| 0 <= i < rest.len() implies short_name(#[trigger] rest[i]) by {
            assert(rest[i] == calls[i + 1]);
        }
        calls_keep_names_distinct(called(fs, calls[0]).0, rest);
    }
}

/// Where names are distinct, a listing gives no name twice.
pub proof fn listings_are_distinct(fs: FsView, path: Seq<char>)
    requires
        healthy(fs),
        distinct_names(fs),
    ensures
        fs.listing(path) matches Ok(names) ==> names.no_duplicates(),
{
    let b = fs.disk.bytes;
    lemma_listing(fs, path);
    lemma_resolve(b, fs.sb, path);
    if let Ok(names) = fs.listing(path) {
        let id = resolve(b, fs.sb, path)->Ok_0;
        assert(table(b, fs.sb)[id as int].kind == InodeType::Dir);
        lemma_listed_once(entries(b, table(b, fs.sb)[id as int]));
    }
}

/// Distinct entries are listed under distinct names.
proof fn lemma_listed_once(es: Seq<DirentView>)
    requires
        distinct(es),
    ensures
        listed_names(es).no_duplicates(),
    decreases es.len(),
{
    if es.len() > 0 {
        let front = es.drop_last();
        assert forall|i: int, j: int| 0 <= i < j < front.len() implies (#[trigger] front[i]).name
            != (#[trigger] front[j]).name by {
            assert(front[i] == es[i] && front[j] == es[j]);
        }
        lemma_listed_once(front);
        lemma_listed(front, es.last().name);
        let before = listed_names(front);
        if before.contains(es.last().name) {
            let i = choose|i: int|
                0 <= i < front.len() && (#[trigger] front[i]).name == es.last().name;
            assert(es[i].name != es[es.len() - 1].name);
        }
        assert forall|k: int| 0 <= k < before.len() implies #[trigger] before[k]
            != es.last().name by {}
    }
}

/// On an image that was made and mounted, after any number of calls that went well and gave no
/// node a name that a record does not keep whole, names are distinct and no listing gives one
/// twice.
pub proof fn fresh_names_stay_distinct(total_blocks: u32, calls: Seq<Call>, path: Seq<char>)
    requires
        new_image(total_blocks).1 is Ok,
        mounted(new_image(total_blocks).0) is Ok ==> all_go_well(
            mounted(new_image(total_blocks).0)->Ok_0,
            calls,
        ),
        forall|i: int| 0 <= i < calls.len() ==> short_name(#[trigger] calls[i]),
    ensures
        ({
            let last = after(mounted(new_image(total_blocks).0)->Ok_0, calls);
            &&& distinct_names(last)
            &&& last.listing(path) matches Ok(names) ==> names.no_duplicates()
        }),
{
    formatting(total_blocks);
    fresh_mount(total_blocks);
    lemma_dots();
    let fs = mounted(new_image(total_blocks).0)->Ok_0;
    assert(distinct_names(fs));
    calls_keep_names_distinct(fs, calls);
    calls_keep_health(fs, calls);
    listings_are_distinct(after(fs, calls), path);
}

/// Where names are distinct, a node that was removed is not found at its path any more, unless
/// it was the directory in which the path ends. The path is reported as not found, unless its
/// way to the directory leads through the node.
pub proof fn removed_for_good(fs: FsView, path: Seq<char>)
    requires
        healthy(fs),
        distinct_names(fs),
        fs.removed(path).1 is Ok,
        ({
            let (p, leaf) = parent_of(fs.disk.bytes, fs.sb, path)->Ok_0;
            lookup(fs.disk.bytes, fs.sb, p, leaf) != Ok::<Option<u32>, Failure>(Some(p))
        }),
    ensures
        ({
            let b = fs.disk.bytes;
            let c = fs.removed(path).0.disk.bytes;
            let (p, leaf) = parent_of(b, fs.sb, path)->Ok_0;
            let id = lookup(b, fs.sb, p, leaf)->Ok_0->Some_0;
            &&& lookup(c, fs.sb, p, leaf) == Ok::<Option<u32>, Failure>(None)
            &&& resolve(c, fs.sb, path) is Err
            &&& !passes_through(b, fs.sb, 0, parts_of(path)->Ok_0, 0, id) ==> resolve(
                c,
                fs.sb,
                path,
            ) == Err::<u32, Failure>(Failure::NotFound(path))
        }),
{
    let b = fs.disk.bytes;
    let (p, leaf) = parent_of(b, fs.sb, path)->Ok_0;
    lemma_resolve(b, fs.sb, path);
    lemma_lookup(b, fs.sb, p, leaf);
    assert(table(b, fs.sb)[p as int].kind == InodeType::Dir);
    removed_is_gone(fs, path);
}

} // verus!
