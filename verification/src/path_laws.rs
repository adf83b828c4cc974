//! What holds of paths.

use crate::directory::{block_records, lookup, records_from, records_in_block};
use crate::disk::load;
use crate::error::Failure;
use crate::fs::FsView;
use crate::inode::{find_inode, InodeType};
use crate::path::{parent_of, parts_of, resolve, walk, walk_dirs};
use crate::superblock::Superblock;
use crate::text::{components, tail_start};
use vstd::prelude::*;

verus! {

/// The path of the entry `leaf` in the directory at `dir`.
pub open spec fn child(dir: Seq<char>, leaf: Seq<char>) -> Seq<char> {
    dir.push('/') + leaf
}

/// The last component has no separator in it.
proof fn lemma_tail(s: Seq<char>)
    ensures
        0 <= tail_start(s) <= s.len(),
        forall|i: int| tail_start(s) <= i < s.len() ==> s[i] != '/',
        s.len() > 0 && s.last() != '/' ==> tail_start(s) < s.len(),
    decreases s.len(),
{
    if s.len() > 0 && s.last() != '/' {
        lemma_tail(s.drop_last());
        assert forall|i: int| tail_start(s) <= i < s.len() implies s[i] != '/' by {
            if i < s.len() - 1 {
                assert(s.drop_last()[i] == s[i]);
            }
        }
    }
}

/// Every component of a path has a character and no separator.
pub proof fn components_are_plain(s: Seq<char>)
    ensures
        forall|k: int|
            0 <= k < components(s).len() ==> (#[trigger] components(s)[k]).len() > 0
                && !components(s)[k].contains('/'),
    decreases s.len(),
{
    if s.len() > 0 {
        if s.last() == '/' {
            components_are_plain(s.drop_last());
            assert(components(s) == components(s.drop_last()));
        } else {
            lemma_tail(s);
            let start = tail_start(s);
            components_are_plain(s.take(start));
            let front = components(s.take(start));
            let tail = s.subrange(start, s.len() as int);
            assert(!tail.contains('/')) by {
                if tail.contains('/') {
                    let i = choose|i: int| 0 <= i < tail.len() && tail[i] == '/';
                    assert(s[start + i] == '/');
                }
            }
            assert forall|k: int| 0 <= k < components(s).len() implies (
            #[trigger] components(s)[k]).len() > 0 && !components(s)[k].contains('/') by {
                if k < front.len() {
                    assert(components(s)[k] == front[k]);
                }
            }
        }
    }
}

/// The last component of a path in a directory begins behind the separator.
proof fn lemma_tail_of(dir: Seq<char>, leaf: Seq<char>)
    requires
        !leaf.contains('/'),
    ensures
        tail_start(child(dir, leaf)) == dir.len() + 1,
    decreases leaf.len(),
{
    let s = child(dir, leaf);
    if leaf.len() > 0 {
        let front = leaf.drop_last();
        assert(s.last() == leaf.last());
        assert(leaf[leaf.len() - 1] != '/');
        assert(s.drop_last() =~= child(dir, front));
        assert(!front.contains('/')) by {
            if front.contains('/') {
                let i = choose|i: int| 0 <= i < front.len() && front[i] == '/';
                assert(leaf[i] == '/');
            }
        }
        lemma_tail_of(dir, front);
    } else {
        assert(s =~= dir.push('/'));
    }
}

/// The components of a path in a directory are those of the directory and the name; and
/// separators at the end do not count.
pub proof fn child_components(dir: Seq<char>, leaf: Seq<char>)
    requires
        leaf.len() > 0,
        !leaf.contains('/'),
    ensures
        components(child(dir, leaf)) == components(dir).push(leaf),
        components(dir.push('/')) == components(dir),
{
    let s = child(dir, leaf);
    lemma_tail_of(dir, leaf);
    assert(leaf[leaf.len() - 1] == s.last());
    assert(s.last() != '/');
    let start = tail_start(s);
    assert(s.take(start) =~= dir.push('/'));
    assert(s.subrange(start, s.len() as int) =~= leaf);
    assert(dir.push('/').drop_last() =~= dir);
    assert(components(dir.push('/')) == components(dir));
    assert(components(s) == components(s.take(start)).push(leaf));
}

/// A walk over one more component goes on from where the walk without it ended.
proof fn lemma_walk_on(
    b: Seq<u8>,
    sb: Superblock,
    cur: u32,
    parts: Seq<Seq<char>>,
    i: int,
    leaf: Seq<char>,
    dir: Seq<char>,
    path: Seq<char>,
)
    requires
        0 <= i <= parts.len(),
        walk(b, sb, cur, parts, i, dir) is Ok,
    ensures
        ({
            let p = walk(b, sb, cur, parts, i, dir)->Ok_0;
            &&& walk(b, sb, cur, parts.push(leaf), i, path) == match lookup(b, sb, p, leaf) {
                Ok(Some(id)) => Ok::<u32, Failure>(id),
                Ok(None) => Err::<u32, Failure>(Failure::NotFound(path)),
                Err(e) => Err::<u32, Failure>(e),
            }
            &&& (i == parts.len() || (find_inode(b, sb, p) matches Ok(v) && v.kind
                == InodeType::Dir)) ==> walk_dirs(b, sb, cur, parts.push(leaf), i, path) == Ok::<
                u32,
                Failure,
            >(p)
        }),
    decreases parts.len() - i,
{
    let all = parts.push(leaf);
    if i < parts.len() {
        assert(all[i] == parts[i]);
        let next = lookup(b, sb, cur, parts[i])->Ok_0->Some_0;
        lemma_walk_on(b, sb, next, parts, i + 1, leaf, dir, path);
        if i + 1 < parts.len() {
            assert(lookup(b, sb, next, parts[i + 1]) is Ok);
        }
    } else {
        if let Ok(Some(id)) = lookup(b, sb, cur, leaf) {
            assert(walk(b, sb, id, all, i + 1, path) == Ok::<u32, Failure>(id));
        }
    }
}

/// The path of an entry in a directory leads to that directory and the name of the entry, and
/// names what the directory has under that name.
pub proof fn child_path(b: Seq<u8>, sb: Superblock, dir: Seq<char>, leaf: Seq<char>)
    requires
        leaf.len() > 0,
        !leaf.contains('/'),
        resolve(b, sb, dir) is Ok,
        find_inode(b, sb, resolve(b, sb, dir)->Ok_0) is Ok,
        find_inode(b, sb, resolve(b, sb, dir)->Ok_0)->Ok_0.kind == InodeType::Dir,
    ensures
        ({
            let p = resolve(b, sb, dir)->Ok_0;
            let path = child(dir, leaf);
            &&& parent_of(b, sb, path) == Ok::<(u32, Seq<char>), Failure>((p, leaf))
            &&& resolve(b, sb, path) == match lookup(b, sb, p, leaf) {
                Ok(Some(id)) => Ok::<u32, Failure>(id),
                Ok(None) => Err::<u32, Failure>(Failure::NotFound(path)),
                Err(e) => Err::<u32, Failure>(e),
            }
        }),
{
    let path = child(dir, leaf);
    child_components(dir, leaf);
    assert(path[0] == dir[0]);
    lemma_walk_on(b, sb, 0, components(dir), 0, leaf, dir, path);
}

/// A path that does not begin with a separator is refused by every operation that takes one,
/// and nothing changes.
pub proof fn relative_paths_are_refused(
    fs: FsView,
    path: Seq<char>,
    kind: InodeType,
    size: usize,
)
    requires
        path.len() == 0 || path[0] != '/',
    ensures
        fs.made(path, kind) == (fs, Err::<(), Failure>(Failure::InvalidPath(path))),
        fs.removed(path) == (fs, Err::<(), Failure>(Failure::InvalidPath(path))),
        fs.listing(path) == Err::<Seq<Seq<char>>, Failure>(Failure::InvalidPath(path)),
        fs.opened(path) == (fs, Err::<i32, Failure>(Failure::InvalidPath(path))),
        fs.truncated(path, size) == (fs, Err::<(), Failure>(Failure::InvalidPath(path))),
{
}

/// How text splits into components: nothing has none, a piece without separators is one, and
/// what follows a separator is one more.
pub proof fn splitting(s: Seq<char>, piece: Seq<char>)
    requires
        piece.len() > 0,
        !piece.contains('/'),
    ensures
        components(Seq::<char>::empty()) == Seq::<Seq<char>>::empty(),
        components(piece) == seq![piece],
        components(s.push('/')) == components(s),
        components(s.push('/') + piece) == components(s).push(piece),
{
    child_components(s, piece);
    lemma_tail(piece);
    lemma_no_tail(piece);
    assert(piece.last() == piece[piece.len() - 1]);
    assert(piece.take(0) =~= Seq::empty());
    assert(piece.subrange(0, piece.len() as int) =~= piece);
    assert(components(piece.take(0)) == Seq::<Seq<char>>::empty());
    assert(piece.last() != '/');
    assert(components(piece) == components(piece.take(0)).push(piece));
    assert(components(piece) =~= seq![piece]);
}

/// Text without separators is one component as a whole.
proof fn lemma_no_tail(piece: Seq<char>)
    requires
        !piece.contains('/'),
    ensures
        tail_start(piece) == 0,
    decreases piece.len(),
{
    if piece.len() > 0 {
        assert(piece[piece.len() - 1] != '/');
        let front = piece.drop_last();
        assert(!front.contains('/')) by {
            if front.contains('/') {
                let i = choose|i: int| 0 <= i < front.len() && front[i] == '/';
                assert(piece[i] == '/');
            }
        }
        lemma_no_tail(front);
    }
}

/// A path is refused exactly where it does not begin with a separator.
pub proof fn absolute_paths_split(path: Seq<char>)
    ensures
        path.len() > 0 && path[0] == '/' ==> parts_of(path) == Ok::<Seq<Seq<char>>, Failure>(
            components(path),
        ),
        path.len() == 0 || path[0] != '/' ==> parts_of(path) == Err::<Seq<Seq<char>>, Failure>(
            Failure::InvalidPath(path),
        ),
{
}

/// What is reported where a path leads nowhere, told of the path `to` in place of the path that
/// `e` was told of.
pub open spec fn retold(e: Failure, to: Seq<char>) -> Failure {
    match e {
        Failure::NotFound(_) => Failure::NotFound(to),
        _ => e,
    }
}

/// Why a walk fails does not depend on the path that it is told of, but for its text.
proof fn lemma_walk_retold(
    b: Seq<u8>,
    sb: Superblock,
    cur: u32,
    parts: Seq<Seq<char>>,
    i: int,
    from: Seq<char>,
    to: Seq<char>,
)
    requires
        0 <= i,
    ensures
        walk(b, sb, cur, parts, i, to) == match walk(b, sb, cur, parts, i, from) {
            Ok(id) => Ok::<u32, Failure>(id),
            Err(e) => Err::<u32, Failure>(retold(e, to)),
        },
    decreases parts.len() - i,
{
    if i < parts.len() {
        lemma_lookup_failure(b, sb, cur, parts[i]);
        if let Ok(Some(id)) = lookup(b, sb, cur, parts[i]) {
            lemma_walk_retold(b, sb, id, parts, i + 1, from, to);
        }
    }
}

/// A walk over one more component.
proof fn lemma_walk_push(
    b: Seq<u8>,
    sb: Superblock,
    cur: u32,
    parts: Seq<Seq<char>>,
    i: int,
    leaf: Seq<char>,
    path: Seq<char>,
)
    requires
        0 <= i <= parts.len(),
    ensures
        walk(b, sb, cur, parts.push(leaf), i, path) == match walk(b, sb, cur, parts, i, path) {
            Ok(p) => match lookup(b, sb, p, leaf) {
                Ok(Some(id)) => Ok::<u32, Failure>(id),
                Ok(None) => Err::<u32, Failure>(Failure::NotFound(path)),
                Err(e) => Err::<u32, Failure>(e),
            },
            Err(e) => Err::<u32, Failure>(e),
        },
    decreases parts.len() - i,
{
    let all = parts.push(leaf);
    if i < parts.len() {
        assert(all[i] == parts[i]);
        if let Ok(Some(id)) = lookup(b, sb, cur, parts[i]) {
            lemma_walk_push(b, sb, id, parts, i + 1, leaf, path);
        }
    } else if let Ok(Some(id)) = lookup(b, sb, cur, leaf) {
        assert(walk(b, sb, id, all, i + 1, path) == Ok::<u32, Failure>(id));
    }
}

/// How a path is resolved, on every image. The root is inode 0. A separator at the end does not
/// count. And a path that ends in a name leads to what that name stands for in the directory to
/// which the path without the name leads.
pub proof fn resolving(b: Seq<u8>, sb: Superblock, dir: Seq<char>, leaf: Seq<char>)
    requires
        dir.len() == 0 || dir[0] == '/',
        leaf.len() > 0,
        !leaf.contains('/'),
    ensures
        resolve(b, sb, seq!['/']) == Ok::<u32, Failure>(0),
        dir.len() > 0 ==> resolve(b, sb, dir.push('/')) == match resolve(b, sb, dir) {
            Ok(p) => Ok::<u32, Failure>(p),
            Err(e) => Err::<u32, Failure>(retold(e, dir.push('/'))),
        },
        ({
            let path = dir.push('/') + leaf;
            resolve(b, sb, path) == match resolve(b, sb, dir.push('/')) {
                Ok(p) => match lookup(b, sb, p, leaf) {
                    Ok(Some(id)) => Ok::<u32, Failure>(id),
                    Ok(None) => Err::<u32, Failure>(Failure::NotFound(path)),
                    Err(e) => Err::<u32, Failure>(e),
                },
                Err(e) => Err::<u32, Failure>(retold(e, path)),
            }
        }),
{
    let path = dir.push('/') + leaf;
    splitting(dir, leaf);
    splitting(Seq::empty(), leaf);
    assert(Seq::<char>::empty().push('/') =~= seq!['/']);
    assert(path[0] == '/');
    assert(dir.push('/')[0] == '/');
    lemma_walk_retold(b, sb, 0, components(dir), 0, dir, dir.push('/'));
    lemma_walk_retold(b, sb, 0, components(dir), 0, dir.push('/'), path);
    lemma_walk_push(b, sb, 0, components(dir), 0, leaf, path);
}

/// A name in the root directory.
pub proof fn names_in_the_root(b: Seq<u8>, sb: Superblock, leaf: Seq<char>)
    requires
        leaf.len() > 0,
        !leaf.contains('/'),
    ensures
        ({
            let path = seq!['/'] + leaf;
            &&& parent_of(b, sb, path) == Ok::<(u32, Seq<char>), Failure>((0, leaf))
            &&& resolve(b, sb, path) == match lookup(b, sb, 0, leaf) {
                Ok(Some(id)) => Ok::<u32, Failure>(id),
                Ok(None) => Err::<u32, Failure>(Failure::NotFound(path)),
                Err(e) => Err::<u32, Failure>(e),
            }
        }),
{
    let path = seq!['/'] + leaf;
    resolving(b, sb, Seq::empty(), leaf);
    splitting(Seq::empty(), leaf);
    assert(Seq::<char>::empty().push('/') =~= seq!['/']);
    assert(path[0] == '/');
    assert(components(path) =~= seq![leaf]);
}

/// What walking to the last directory of a path gives, in terms of walking through all of its
/// components but the last.
proof fn lemma_walk_dirs_push(
    b: Seq<u8>,
    sb: Superblock,
    cur: u32,
    parts: Seq<Seq<char>>,
    i: int,
    leaf: Seq<char>,
    path: Seq<char>,
)
    requires
        0 <= i <= parts.len(),
    ensures
        walk_dirs(b, sb, cur, parts.push(leaf), i, path) == match walk(
            b,
            sb,
            cur,
            parts,
            i,
            path,
        ) {
            Ok(p) => if i == parts.len() {
                Ok::<u32, Failure>(p)
            } else {
                match find_inode(b, sb, p) {
                    Ok(v) => if v.kind == InodeType::Dir {
                        Ok::<u32, Failure>(p)
                    } else {
                        Err::<u32, Failure>(Failure::NotDir(path))
                    },
                    Err(e) => Err::<u32, Failure>(e),
                }
            },
            Err(e) => Err::<u32, Failure>(
                if e is NotDir && (find_inode(b, sb, cur) matches Ok(v) && v.kind
                    == InodeType::Dir) {
                    Failure::NotDir(path)
                } else {
                    e
                },
            ),
        },
    decreases parts.len() - i,
{
    let all = parts.push(leaf);
    if i < parts.len() {
        assert(all[i] == parts[i]);
        if let Ok(Some(id)) = lookup(b, sb, cur, parts[i]) {
            lemma_walk_dirs_push(b, sb, id, parts, i + 1, leaf, path);
            if i + 1 < parts.len() {
                assert(all[i + 1] == parts[i + 1]);
            }
        } else {
            lemma_lookup_failure(b, sb, cur, parts[i]);
        }
    }
}

/// Looking a name up never fails with a path that is not found, and reports that something is
/// no directory only of the inode itself.
proof fn lemma_lookup_failure(b: Seq<u8>, sb: Superblock, d: u32, name: Seq<char>)
    ensures
        lookup(b, sb, d, name) matches Err(e) ==> e is NotDir ==> (find_inode(b, sb, d) matches Ok(
            v,
        ) && v.kind != InodeType::Dir),
        lookup(b, sb, d, name) matches Err(e) ==> !(e is NotFound),
{
    if let Ok(dir) = find_inode(b, sb, d) {
        lemma_records_failure(b, dir.direct, 0, dir.size as int);
    }
}

/// Reading records fails only because of a block that is not present or a damaged record.
proof fn lemma_records_failure(b: Seq<u8>, direct: Seq<u32>, i: int, remaining: int)
    requires
        0 <= i,
    ensures
        records_from(b, direct, i, remaining) matches Err(e) ==> e is Io || e is Corrupt,
    decreases direct.len() - i,
{
    if i < direct.len() {
        if direct[i] == 0 {
            lemma_records_failure(b, direct, i + 1, remaining);
        } else if let Ok(blk) = load(b, direct[i]) {
            let n = records_in_block(remaining);
            lemma_block_records_failure(blk, n);
            lemma_records_failure(b, direct, i + 1, remaining - 264 * n);
        }
    }
}

/// Reading the records of a block fails only because of a damaged record.
proof fn lemma_block_records_failure(b: Seq<u8>, n: int)
    ensures
        block_records(b, n) matches Err(e) ==> e is Corrupt,
    decreases n,
{
    if n > 0 {
        lemma_block_records_failure(b, n - 1);
    }
}

/// Where a path ends, on every image. The root has no parent. A path that ends in a name ends in
/// the directory to which the path without the name leads, which has to be a directory unless it
/// is the root itself.
pub proof fn finding_the_parent(b: Seq<u8>, sb: Superblock, dir: Seq<char>, leaf: Seq<char>)
    requires
        dir.len() == 0 || dir[0] == '/',
        leaf.len() > 0,
        !leaf.contains('/'),
    ensures
        components(dir).len() == 0 ==> parent_of(b, sb, dir.push('/')) == Err::<
            (u32, Seq<char>),
            Failure,
        >(Failure::InvalidPath(dir.push('/'))),
        ({
            let path = dir.push('/') + leaf;
            let root_is_dir = find_inode(b, sb, 0) matches Ok(v) && v.kind == InodeType::Dir;
            parent_of(b, sb, path) == match resolve(b, sb, dir.push('/')) {
                Ok(p) => if components(dir).len() == 0 {
                    Ok::<(u32, Seq<char>), Failure>((0, leaf))
                } else {
                    match find_inode(b, sb, p) {
                        Ok(v) => if v.kind == InodeType::Dir {
                            Ok::<(u32, Seq<char>), Failure>((p, leaf))
                        } else {
                            Err::<(u32, Seq<char>), Failure>(Failure::NotDir(path))
                        },
                        Err(e) => Err::<(u32, Seq<char>), Failure>(e),
                    }
                },
                Err(Failure::NotFound(_)) => Err::<(u32, Seq<char>), Failure>(
                    Failure::NotFound(path),
                ),
                Err(Failure::NotDir(name)) => Err::<(u32, Seq<char>), Failure>(
                    Failure::NotDir(
                        if root_is_dir {
                            path
                        } else {
                            name
                        },
                    ),
                ),
                Err(e) => Err::<(u32, Seq<char>), Failure>(e),
            }
        }),
{
    let path = dir.push('/') + leaf;
    let parts = components(dir);
    splitting(dir, leaf);
    assert(path[0] == '/');
    assert(dir.push('/')[0] == '/');
    assert(parts.push(leaf).last() == leaf);
    lemma_walk_retold(b, sb, 0, parts, 0, dir.push('/'), path);
    lemma_walk_dirs_push(b, sb, 0, parts, 0, leaf, path);
}

/// A separator at the end of a path does not matter to where it ends.
pub proof fn parent_with_a_separator(b: Seq<u8>, sb: Superblock, path: Seq<char>)
    requires
        path.len() > 0,
        path[0] == '/',
    ensures
        parent_of(b, sb, path.push('/')) is Ok <==> parent_of(b, sb, path) is Ok,
        parent_of(b, sb, path) is Ok ==> parent_of(b, sb, path.push('/')) == parent_of(
            b,
            sb,
            path,
        ),
{
    let more = path.push('/');
    assert(more[0] == '/');
    assert(more.drop_last() =~= path);
    assert(components(more) == components(path));
    lemma_walk_dirs_retold(b, sb, 0, components(path), 0, path, more);
}

/// Where a walk to the last directory ends does not depend on the path that it is told of.
proof fn lemma_walk_dirs_retold(
    b: Seq<u8>,
    sb: Superblock,
    cur: u32,
    parts: Seq<Seq<char>>,
    i: int,
    from: Seq<char>,
    to: Seq<char>,
)
    requires
        0 <= i,
    ensures
        walk_dirs(b, sb, cur, parts, i, to) is Ok <==> walk_dirs(b, sb, cur, parts, i, from) is Ok,
        walk_dirs(b, sb, cur, parts, i, from) is Ok ==> walk_dirs(b, sb, cur, parts, i, to)
            == walk_dirs(b, sb, cur, parts, i, from),
    decreases parts.len() - i,
{
    if i < parts.len() - 1 {
        if let Ok(Some(id)) = lookup(b, sb, cur, parts[i]) {
            lemma_walk_dirs_retold(b, sb, id, parts, i + 1, from, to);
        }
    }
}

} // verus!
