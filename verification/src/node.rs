//! Making and removing files and directories.

use crate::bitmap::{
    alloc_data_block, alloc_inode, claim_block, claim_inode, set_bitmap_bit, switch_bit,
};
use crate::bytes::zeros;
use crate::directory::{
    dir_entries, dirent_views, insert_dirent, link, lookup, lookup_dir, read_dir_entries,
    remove_dirent, unlink,
};
use crate::dirent::{dirent_bytes, encode_dirent, Dirent, DirentView};
use crate::disk::{Disk, Image};
use crate::error::{agrees, Failure, FsError};
use crate::file::{free_from, free_inode_data};
use crate::inode::{
    find_inode, no_blocks, put_inode, read_inode, write_inode, Inode, InodeType, InodeView,
};
use crate::journal::{append_journal_marker, mark, TX_BEGIN, TX_COMMIT};
use crate::layout::DIRENT_SIZE;
use crate::path::{parent_of, resolve_parent};
use crate::superblock::{fresh_superblock, plan, with_superblock, write_superblock, Superblock};
use crate::text::{same_text, texts};
use vstd::prelude::*;

verus! {

/// The name by which a directory lists itself.
pub open spec fn dot() -> Seq<char> {
    "."@
}

/// The name by which a directory lists its parent.
pub open spec fn dot_dot() -> Seq<char> {
    ".."@
}

/// The records of a new directory `id` inside `parent`.
pub open spec fn first_records(id: u32, parent: u32) -> Seq<u8> {
    dirent_bytes(DirentView { active: 1, kind: InodeType::Dir, inode_id: id, name: dot() })
        + dirent_bytes(
        DirentView { active: 1, kind: InodeType::Dir, inode_id: parent, name: dot_dot() },
    )
}

/// The inode of a new directory of which block `n` holds the records.
pub open spec fn new_dir(id: u32, n: u32) -> InodeView {
    InodeView {
        id,
        kind: InodeType::Dir,
        links: 2,
        size: (2 * DIRENT_SIZE) as u32,
        direct: no_blocks().update(0, n),
    }
}

/// The inode of a new, empty file.
pub open spec fn new_file(id: u32, kind: InodeType) -> InodeView {
    InodeView { id, kind, links: 1, size: 0, direct: no_blocks() }
}

/// The inode of a slot that is free.
pub open spec fn free_slot(id: u32) -> InodeView {
    InodeView { id, kind: InodeType::Free, links: 0, size: 0, direct: no_blocks() }
}

/// The outcome of writing the inode of a new node and then its entry in `parent`, between two
/// journal markers.
pub open spec fn publish(
    img: Image,
    sb: Superblock,
    parent: u32,
    node: InodeView,
    name: Seq<char>,
) -> (Image, Result<(), Failure>) {
    let (begun, r) = mark(img, sb, TX_BEGIN@);
    match r {
        Ok(_) => {
            let (written, r) = put_inode(begun, sb, node);
            match r {
                Ok(_) => {
                    let (linked, r) = link(
                        written,
                        sb,
                        parent,
                        DirentView { active: 1, kind: node.kind, inode_id: node.id, name },
                    );
                    match r {
                        Ok(_) => mark(linked, sb, TX_COMMIT@),
                        Err(e) => (linked, Err(e)),
                    }
                },
                Err(e) => (written, Err(e)),
            }
        },
        Err(e) => (begun, Err(e)),
    }
}

/// The outcome of making a node called `leaf` in the directory `parent`: claim an inode, for a
/// directory also a block with its first two records, then publish it.
pub open spec fn make_in(
    img: Image,
    sb: Superblock,
    parent: u32,
    leaf: Seq<char>,
    kind: InodeType,
) -> (Image, Result<(), Failure>) {
    let (claimed, r) = claim_inode(img, sb);
    match r {
        Ok(id) => if kind == InodeType::Dir {
            let (spaced, r) = claim_block(claimed, sb);
            match r {
                Ok(n) => publish(
                    spaced.write(n, first_records(id, parent)),
                    sb,
                    parent,
                    new_dir(id, n),
                    leaf,
                ),
                Err(e) => (spaced, Err(e)),
            }
        } else {
            publish(claimed, sb, parent, new_file(id, kind), leaf)
        },
        Err(e) => (claimed, Err(e)),
    }
}

/// The outcome of making a node at `path`, which must not exist yet.
pub open spec fn make(img: Image, sb: Superblock, path: Seq<char>, kind: InodeType) -> (
    Image,
    Result<(), Failure>,
) {
    match parent_of(img.bytes, sb, path) {
        Ok((parent, leaf)) => match lookup(img.bytes, sb, parent, leaf) {
            Ok(Some(_)) => (img, Err(Failure::AlreadyExists(path))),
            Ok(None) => make_in(img, sb, parent, leaf, kind),
            Err(e) => (img, Err(e)),
        },
        Err(e) => (img, Err(e)),
    }
}

/// The names in a directory, without the two by which it lists itself and its parent.
pub open spec fn listed_names(es: Seq<DirentView>) -> Seq<Seq<char>>
    decreases es.len(),
{
    if es.len() == 0 {
        Seq::empty()
    } else if es.last().name == dot() || es.last().name == dot_dot() {
        listed_names(es.drop_last())
    } else {
        listed_names(es.drop_last()).push(es.last().name)
    }
}

/// The outcome of asking whether an inode is a directory in which something is left.
pub open spec fn occupied(b: Seq<u8>, inode: InodeView) -> Result<bool, Failure> {
    if inode.kind == InodeType::Dir {
        match dir_entries(b, inode) {
            Ok(es) => Ok(listed_names(es).len() > 0),
            Err(e) => Err(e),
        }
    } else {
        Ok(false)
    }
}

/// The outcome of taking the entry `leaf` out of the directory `parent` and giving back the
/// blocks and the inode that it stood for, between two journal markers.
pub open spec fn discard(
    img: Image,
    sb: Superblock,
    parent: u32,
    leaf: Seq<char>,
    id: u32,
    target: InodeView,
) -> (Image, Result<(), Failure>) {
    let (begun, r) = mark(img, sb, TX_BEGIN@);
    match r {
        Ok(_) => {
            let (unlinked, r) = unlink(begun, sb, parent, leaf);
            match r {
                Ok(_) => {
                    let (freed, r) = free_from(unlinked, sb, target.direct, 0);
                    match r {
                        Ok(_) => {
                            let (cleared, r) = switch_bit(freed, sb.inode_bitmap_start, id, false);
                            match r {
                                Ok(_) => {
                                    let (written, r) = put_inode(cleared, sb, free_slot(id));
                                    match r {
                                        Ok(_) => mark(written, sb, TX_COMMIT@),
                                        Err(e) => (written, Err(e)),
                                    }
                                },
                                Err(e) => (cleared, Err(e)),
                            }
                        },
                        Err(e) => (freed, Err(e)),
                    }
                },
                Err(e) => (unlinked, Err(e)),
            }
        },
        Err(e) => (begun, Err(e)),
    }
}

/// The outcome of removing the file or the empty directory at `path`.
pub open spec fn unmake(img: Image, sb: Superblock, path: Seq<char>) -> (Image, Result<
    (),
    Failure,
>) {
    match parent_of(img.bytes, sb, path) {
        Ok((parent, leaf)) => match lookup(img.bytes, sb, parent, leaf) {
            Ok(Some(id)) => match find_inode(img.bytes, sb, id) {
                Ok(target) => match occupied(img.bytes, target) {
                    Ok(true) => (img, Err(Failure::InvalidPath("directory not empty"@))),
                    Ok(false) => discard(img, sb, parent, leaf, id, target),
                    Err(e) => (img, Err(e)),
                },
                Err(e) => (img, Err(e)),
            },
            Ok(None) => (img, Err(Failure::NotFound(path))),
            Err(e) => (img, Err(e)),
        },
        Err(e) => (img, Err(e)),
    }
}

/// An image of `total_blocks` zero blocks that nothing was written to.
pub open spec fn blank(total_blocks: u32) -> Image {
    let b = zeros((total_blocks * 4096) as nat);
    Image { base: b, bytes: b, writes: Seq::empty() }
}

/// The outcome of laying out a new image with an empty root directory. At least one block has
/// to be left for data.
pub open spec fn new_image(total_blocks: u32) -> (Image, Result<(), Failure>) {
    let sb = fresh_superblock(total_blocks);
    let img = blank(total_blocks);
    if sb.data_start >= total_blocks {
        (img, Err(Failure::NoSpace))
    } else {
        let (reserved, r) = switch_bit(
            with_superblock(img, sb),
            sb.inode_bitmap_start,
            0,
            true,
        );
        match r {
            Ok(_) => {
                let (claimed, r) = claim_block(reserved, sb);
                match r {
                    Ok(n) => put_inode(
                        claimed.write(n, first_records(0, 0)),
                        sb,
                        new_dir(0, n),
                    ),
                    Err(e) => (claimed, Err(e)),
                }
            },
            Err(e) => (reserved, Err(e)),
        }
    }
}

/// Whether a listing shows an entry of this name.
fn shown(name: &String) -> (r: bool)
    ensures
        r == (name@ != dot() && name@ != dot_dot()),
{
    !same_text(name.as_str(), ".") && !same_text(name.as_str(), "..")
}

/// The names that a listing of these entries shows.
pub fn list_names(entries: Vec<Dirent>) -> (names: Vec<String>)
    ensures
        texts(names@) == listed_names(dirent_views(entries@)),
{
    let mut names: Vec<String> = Vec::new();
    let ghost es = dirent_views(entries@);
    assert(texts(names@) =~= Seq::<Seq<char>>::empty());
    assert(es.take(0) =~= Seq::<DirentView>::empty());
    let mut i: usize = 0;
    while i < entries.len()
        invariant
            i <= entries.len(),
            es == dirent_views(entries@),
            texts(names@) == listed_names(es.take(i as int)),
        decreases entries.len() - i,
    {
        assert(es.take(i + 1).drop_last() =~= es.take(i as int));
        if shown(&entries[i].name) {
            let name = entries[i].name.clone();
            let ghost before = names@;
            names.push(name);
            assert(texts(names@) =~= texts(before).push(name@));
        }
        i = i + 1;
    }
    assert(es.take(i as int) =~= es);
    names
}

/// The first two records of a directory.
fn encode_first_records(id: u32, parent: u32) -> (b: Vec<u8>)
    ensures
        b@ == first_records(id, parent),
{
    let mut b = encode_dirent(
        &Dirent { active: 1, kind: InodeType::Dir, inode_id: id, name: ".".to_owned() },
    );
    let mut second = encode_dirent(
        &Dirent { active: 1, kind: InodeType::Dir, inode_id: parent, name: "..".to_owned() },
    );
    b.append(&mut second);
    b
}

/// Lays out a new image of `total_blocks` blocks with an empty root directory.
pub fn format_fs(disk: &mut Disk, total_blocks: u32) -> (r: Result<(), FsError>)
    ensures
        final(disk).wf(),
        final(disk)@ == new_image(total_blocks).0,
        agrees(r, new_image(total_blocks).1),
{
    *disk = Disk::new(total_blocks as u64 * 4096);
    assert(disk@ =~= blank(total_blocks));
    let sb = plan(total_blocks);
    if sb.data_start >= total_blocks {
        return Err(FsError::NoSpace);
    }
    write_superblock(disk, &sb);
    set_bitmap_bit(disk, sb.inode_bitmap_start, 0, true)?;
    let mut root = Inode { id: 0, kind: InodeType::Dir, links: 2, size: 0, direct: [0u32;12] };
    let blk: u32 = alloc_data_block(disk, &sb)?;
    root.direct[0] = blk;
    let records = encode_first_records(0, 0);
    disk.write_block(blk, records.as_slice());
    root.size = (2 * DIRENT_SIZE) as u32;
    assert(root@ =~= new_dir(0, blk));
    write_inode(disk, &sb, &root)
}

/// Makes a file or a directory at `path`.
pub fn create_node(disk: &mut Disk, sb: &Superblock, path: &str, kind: InodeType) -> (r: Result<
    (),
    FsError,
>)
    requires
        old(disk).wf(),
    ensures
        final(disk).wf(),
        final(disk)@ == make(old(disk)@, *sb, path@, kind).0,
        agrees(r, make(old(disk)@, *sb, path@, kind).1),
{
    let (parent_id, leaf) = resolve_parent(disk, sb, path)?;
    if lookup_dir(disk, sb, parent_id, leaf.as_str())?.is_some() {
        return Err(FsError::AlreadyExists(path.to_owned()));
    }
    let inode_id: u32 = alloc_inode(disk, sb)?;
    let mut node = Inode {
        id: inode_id,
        kind,
        links: if kind == InodeType::Dir {
            2
        } else {
            1
        },
        size: 0,
        direct: [0u32;12],
    };
    if kind == InodeType::Dir {
        let blk: u32 = alloc_data_block(disk, sb)?;
        node.direct[0] = blk;
        let records = encode_first_records(inode_id, parent_id);
        disk.write_block(blk, records.as_slice());
        node.size = (2 * DIRENT_SIZE) as u32;
        assert(node@ =~= new_dir(inode_id, blk));
    } else {
        assert(node@ =~= new_file(inode_id, kind));
    }
    append_journal_marker(disk, sb, TX_BEGIN.as_slice())?;
    write_inode(disk, sb, &node)?;
    insert_dirent(disk, sb, parent_id, &Dirent { active: 1, kind, inode_id, name: leaf })?;
    append_journal_marker(disk, sb, TX_COMMIT.as_slice())
}

/// Removes the file or the empty directory at `path`.
pub fn remove_node(disk: &mut Disk, sb: &Superblock, path: &str) -> (r: Result<(), FsError>)
    requires
        old(disk).wf(),
    ensures
        final(disk).wf(),
        final(disk)@ == unmake(old(disk)@, *sb, path@).0,
        agrees(r, unmake(old(disk)@, *sb, path@).1),
{
    let (parent_id, leaf) = resolve_parent(disk, sb, path)?;
    let target_id: u32 = match lookup_dir(disk, sb, parent_id, leaf.as_str())? {
        Some(id) => id,
        None => {
            return Err(FsError::NotFound(path.to_owned()));
        },
    };
    let target = read_inode(disk, sb, target_id)?;
    if target.kind == InodeType::Dir {
        let entries = read_dir_entries(disk, &target)?;
        let names = list_names(entries);
        if names.len() > 0 {
            return Err(FsError::InvalidPath("directory not empty".to_owned()));
        }
    }
    append_journal_marker(disk, sb, TX_BEGIN.as_slice())?;
    remove_dirent(disk, sb, parent_id, leaf.as_str())?;
    free_inode_data(disk, sb, &target)?;
    set_bitmap_bit(disk, sb.inode_bitmap_start, target_id, false)?;
    let empty = Inode {
        id: target_id,
        kind: InodeType::Free,
        links: 0,
        size: 0,
        direct: [0u32;12],
    };
    assert(empty@ =~= free_slot(target_id));
    write_inode(disk, sb, &empty)?;
    append_journal_marker(disk, sb, TX_COMMIT.as_slice())
}

} // verus!
