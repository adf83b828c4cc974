//! The mounted filesystem.

use crate::bytes::{copy_range, put};
use crate::directory::{dir_entries, read_dir_entries};
use crate::disk::{replay, write_views, BlockWrite, Disk, Image};
use crate::error::{agrees, Failure, FsError};
use crate::file::{file_bytes, read_file_bytes, write_file, write_file_bytes};
use crate::file_laws::{reading, truncating, writing};
use crate::inode::{find_inode, read_inode, InodeType};
use crate::journal::{
    append_journal_marker, check_journal, mark, replay_journal, TX_BEGIN, TX_COMMIT,
};
use crate::mount_laws::{formatting, healthy, mounting, unmounting};
use crate::node::{
    create_node, format_fs, list_names, listed_names, make, new_image, remove_node, unmake,
};
use crate::node_laws::{closing, making, opening, removing};
use crate::path::{resolve, resolve_path};
use crate::sound::sound;
use crate::superblock::{
    fresh_superblock, read_superblock, superblock_of, with_superblock, write_superblock, Superblock,
};
use crate::text::{i32_text, joined, signed_decimal, texts};
use crate::tree::{no_inode_left, slot_left};
use std::collections::HashMap;
use vstd::prelude::*;

verus! {

/// An open file: its inode and the position of the cursor.
#[derive(Clone, Copy, Debug)]
pub struct OpenHandle {
    pub inode_id: u32,
    pub offset: usize,
}

/// The state of a mounted filesystem.
#[verifier::ext_equal]
pub struct FsView {
    pub disk: Image,
    pub sb: Superblock,
    pub next_fd: i32,
    pub open: Map<i32, OpenHandle>,
}

/// The number that follows `n`; after the largest comes zero.
pub open spec fn succ(n: u32) -> u32 {
    if n == u32::MAX {
        0
    } else {
        (n + 1) as u32
    }
}

/// What an operation on a descriptor that is not open reports.
pub open spec fn no_such_fd(fd: i32) -> Failure {
    Failure::NotFound("fd "@ + signed_decimal(fd as int))
}

/// `old` with `data` put at `pos`. A gap in front of it is filled with zeros.
pub open spec fn overwritten(old: Seq<u8>, pos: int, data: Seq<u8>) -> Seq<u8> {
    Seq::new(
        if old.len() >= pos + data.len() {
            old.len()
        } else {
            (pos + data.len()) as nat
        },
        |i: int|
            if pos <= i < pos + data.len() {
                data[i - pos]
            } else if i < old.len() {
                old[i]
            } else {
                0u8
            },
    )
}

/// `old` cut, or filled up with zeros, to `size` bytes.
pub open spec fn resized(old: Seq<u8>, size: nat) -> Seq<u8> {
    Seq::new(
        size,
        |i: int|
            if i < old.len() {
                old[i]
            } else {
                0u8
            },
    )
}

/// The outcome of replacing the contents of a file between two journal markers.
pub open spec fn replace_contents(img: Image, sb: Superblock, id: u32, data: Seq<u8>) -> (
    Image,
    Result<(), Failure>,
) {
    let (begun, r) = mark(img, sb, TX_BEGIN@);
    match r {
        Ok(_) => {
            let (written, r) = write_file(begun, sb, id, data);
            match r {
                Ok(_) => mark(written, sb, TX_COMMIT@),
                Err(e) => (written, Err(e)),
            }
        },
        Err(e) => (begun, Err(e)),
    }
}

/// The outcome of mounting an image: its superblock is found and its journal passes the check,
/// and then it is marked as in use.
pub open spec fn mounted(img: Image) -> Result<FsView, Failure> {
    match superblock_of(img.bytes) {
        Ok(sb) => {
            let (checked, r) = check_journal(img, sb);
            match r {
                Ok(_) => {
                    let used = Superblock { clean: 0, sequence: succ(sb.sequence), ..sb };
                    Ok(
                        FsView {
                            disk: with_superblock(checked, used),
                            sb: used,
                            next_fd: 3,
                            open: Map::empty(),
                        },
                    )
                },
                Err(e) => Err(e),
            }
        },
        Err(e) => Err(e),
    }
}

impl FsView {
    /// The state after the image was marked as left clean.
    pub open spec fn unmounted(self) -> FsView {
        let sb = Superblock { clean: 1, sequence: succ(self.sb.sequence), ..self.sb };
        FsView { disk: with_superblock(self.disk, sb), sb, ..self }
    }

    /// The outcome of making a node.
    pub open spec fn made(self, path: Seq<char>, kind: InodeType) -> (FsView, Result<
        (),
        Failure,
    >) {
        let (disk, r) = make(self.disk, self.sb, path, kind);
        (FsView { disk, ..self }, r)
    }

    /// The outcome of removing a node.
    pub open spec fn removed(self, path: Seq<char>) -> (FsView, Result<(), Failure>) {
        let (disk, r) = unmake(self.disk, self.sb, path);
        (FsView { disk, ..self }, r)
    }

    /// The outcome of listing a directory.
    pub open spec fn listing(self, path: Seq<char>) -> Result<Seq<Seq<char>>, Failure> {
        let b = self.disk.bytes;
        match resolve(b, self.sb, path) {
            Ok(id) => match find_inode(b, self.sb, id) {
                Ok(inode) => if inode.kind != InodeType::Dir {
                    Err(Failure::NotDir(path))
                } else {
                    match dir_entries(b, inode) {
                        Ok(es) => Ok(listed_names(es)),
                        Err(e) => Err(e),
                    }
                },
                Err(e) => Err(e),
            },
            Err(e) => Err(e),
        }
    }

    /// The inode that a path names, which must not be a directory.
    pub open spec fn file_at(self, path: Seq<char>) -> Result<u32, Failure> {
        let b = self.disk.bytes;
        match resolve(b, self.sb, path) {
            Ok(id) => match find_inode(b, self.sb, id) {
                Ok(inode) => if inode.kind == InodeType::Dir {
                    Err(Failure::IsDir(path))
                } else {
                    Ok(id)
                },
                Err(e) => Err(e),
            },
            Err(e) => Err(e),
        }
    }

    /// The outcome of opening a file: descriptors are given out in order, with the cursor at
    /// the front.
    pub open spec fn opened(self, path: Seq<char>) -> (FsView, Result<i32, Failure>) {
        match self.file_at(path) {
            Ok(id) => if self.next_fd == i32::MAX {
                (self, Err(Failure::Fault))
            } else {
                (
                    FsView {
                        next_fd: (self.next_fd + 1) as i32,
                        open: self.open.insert(
                            self.next_fd,
                            OpenHandle { inode_id: id, offset: 0 },
                        ),
                        ..self
                    },
                    Ok(self.next_fd),
                )
            },
            Err(e) => (self, Err(e)),
        }
    }

    /// The outcome of closing a descriptor.
    pub open spec fn closed(self, fd: i32) -> (FsView, Result<(), Failure>) {
        if self.open.contains_key(fd) {
            (FsView { open: self.open.remove(fd), ..self }, Ok(()))
        } else {
            (self, Err(no_such_fd(fd)))
        }
    }

    /// The state with the cursor of `fd` at `pos`.
    pub open spec fn with_cursor(self, fd: i32, pos: int) -> FsView {
        let handle = OpenHandle { inode_id: self.open[fd].inode_id, offset: pos as usize };
        FsView { open: self.open.insert(fd, handle), ..self }
    }

    /// The outcome of reading up to `length` bytes at the cursor, which moves behind them. A
    /// read ends at the end of the file; where the cursor stands behind that, it gives nothing
    /// and the cursor stays.
    pub open spec fn read_at_cursor(self, fd: i32, length: usize) -> (FsView, Result<
        Seq<u8>,
        Failure,
    >) {
        if !self.open.contains_key(fd) {
            (self, Err(no_such_fd(fd)))
        } else {
            let pos = self.open[fd].offset;
            match file_bytes(self.disk.bytes, self.sb, self.open[fd].inode_id) {
                Ok(data) => if pos > data.len() {
                    (self, Ok(Seq::empty()))
                } else {
                    let end = if pos + length < data.len() {
                        pos + length
                    } else {
                        data.len() as int
                    };
                    (self.with_cursor(fd, end), Ok(data.subrange(pos as int, end)))
                },
                Err(e) => (self, Err(e)),
            }
        }
    }

    /// The outcome of writing `data` at the cursor, which moves behind it. The cursor stays
    /// where it was when that fails.
    pub open spec fn written_at_cursor(self, fd: i32, data: Seq<u8>) -> (FsView, Result<
        usize,
        Failure,
    >) {
        if !self.open.contains_key(fd) {
            (self, Err(no_such_fd(fd)))
        } else {
            let pos = self.open[fd].offset;
            let id = self.open[fd].inode_id;
            match file_bytes(self.disk.bytes, self.sb, id) {
                Ok(old) => if pos + data.len() > usize::MAX {
                    (self, Err(Failure::Fault))
                } else {
                    let (disk, r) = replace_contents(
                        self.disk,
                        self.sb,
                        id,
                        overwritten(old, pos as int, data),
                    );
                    let next = FsView { disk, ..self };
                    match r {
                        Ok(_) => (
                            next.with_cursor(fd, pos + data.len()),
                            Ok(data.len() as usize),
                        ),
                        Err(e) => (next, Err(e)),
                    }
                },
                Err(e) => (self, Err(e)),
            }
        }
    }

    /// The outcome of cutting or extending the file at `path` to `size` bytes.
    pub open spec fn truncated(self, path: Seq<char>, size: usize) -> (FsView, Result<
        (),
        Failure,
    >) {
        match self.file_at(path) {
            Ok(id) => match file_bytes(self.disk.bytes, self.sb, id) {
                Ok(old) => if size > isize::MAX {
                    (self, Err(Failure::Fault))
                } else {
                    let (disk, r) = replace_contents(
                        self.disk,
                        self.sb,
                        id,
                        resized(old, size as nat),
                    );
                    (FsView { disk, ..self }, r)
                },
                Err(e) => (self, Err(e)),
            },
            Err(e) => (self, Err(e)),
        }
    }
}

/// A mounted filesystem: the image, its superblock and the open files.
pub struct PyUserSpaceFs {
    disk: Disk,
    sb: Superblock,
    next_fd: i32,
    open: HashMap<i32, OpenHandle>,
}

impl View for PyUserSpaceFs {
    type V = FsView;

    closed spec fn view(&self) -> FsView {
        FsView { disk: self.disk@, sb: self.sb, next_fd: self.next_fd, open: self.open@ }
    }
}

impl PyUserSpaceFs {
    /// The image is held in a consistent way.
    pub closed spec fn wf(&self) -> bool {
        self.disk.wf()
    }

    /// Turns `disk` into a new image of `total_blocks` blocks with an empty root directory.
    pub fn format(disk: &mut Disk, total_blocks: u32) -> (r: Result<(), FsError>)
        ensures
            final(disk).wf(),
            final(disk)@ == new_image(total_blocks).0,
            agrees(r, new_image(total_blocks).1),
            r is Ok <==> fresh_superblock(total_blocks).data_start < total_blocks,
            r is Ok ==> sound(final(disk)@.bytes, fresh_superblock(total_blocks)),
    {
        proof {
            formatting(total_blocks);
        }
        format_fs(disk, total_blocks)
    }

    /// Mounts an image. Where that fails, nothing has been written to it.
    pub fn mount(disk: Disk) -> (r: Result<PyUserSpaceFs, FsError>)
        requires
            disk.wf(),
        ensures
            agrees(r, mounted(disk@)),
            r matches Ok(fs) ==> fs.wf(),
            r matches Ok(fs) ==> (superblock_of(disk@.bytes) matches Ok(sb) && sound(
                disk@.bytes,
                sb,
            ) ==> healthy(fs@)),
    {
        proof {
            if let Ok(sb) = superblock_of(disk@.bytes) {
                if sound(disk@.bytes, sb) {
                    mounting(disk@, sb);
                }
            }
        }
        let mut disk = disk;
        let mut sb = read_superblock(&disk)?;
        replay_journal(&mut disk, &sb)?;
        sb.clean = 0;
        sb.sequence = sb.sequence.wrapping_add(1);
        write_superblock(&mut disk, &sb);
        let fs = PyUserSpaceFs { disk, sb, next_fd: 3, open: HashMap::new() };
        assert(fs@.open =~= Map::<i32, OpenHandle>::empty());
        Ok(fs)
    }

    /// Marks the image as left clean.
    pub fn unmount(&mut self) -> (r: Result<(), FsError>)
        requires
            old(self).wf(),
        ensures
            final(self).wf(),
            final(self)@ == old(self)@.unmounted(),
            r == Ok::<(), FsError>(()),
            healthy(old(self)@) ==> healthy(final(self)@),
    {
        proof {
            if healthy(self@) {
                unmounting(self@);
            }
        }
        self.sb.clean = 1;
        self.sb.sequence = self.sb.sequence.wrapping_add(1);
        write_superblock(&mut self.disk, &self.sb);
        Ok(())
    }

    /// Makes a directory.
    pub fn mkdir(&mut self, path: &str) -> (r: Result<(), FsError>)
        requires
            old(self).wf(),
        ensures
            final(self).wf(),
            final(self)@ == old(self)@.made(path@, InodeType::Dir).0,
            agrees(r, old(self)@.made(path@, InodeType::Dir).1),
            healthy(old(self)@) && (slot_left(old(self)@.disk.bytes, old(self)@.sb)
                || no_inode_left(old(self)@.disk.bytes, old(self)@.sb)) ==> healthy(final(self)@),
    {
        proof {
            if healthy(self@) && (slot_left(self@.disk.bytes, self@.sb) || no_inode_left(
                self@.disk.bytes,
                self@.sb,
            )) {
                making(self@, path@, InodeType::Dir);
            }
        }
        create_node(&mut self.disk, &self.sb, path, InodeType::Dir)
    }

    /// Makes an empty file.
    pub fn create(&mut self, path: &str) -> (r: Result<(), FsError>)
        requires
            old(self).wf(),
        ensures
            final(self).wf(),
            final(self)@ == old(self)@.made(path@, InodeType::File).0,
            agrees(r, old(self)@.made(path@, InodeType::File).1),
            healthy(old(self)@) && (slot_left(old(self)@.disk.bytes, old(self)@.sb)
                || no_inode_left(old(self)@.disk.bytes, old(self)@.sb)) ==> healthy(final(self)@),
    {
        proof {
            if healthy(self@) && (slot_left(self@.disk.bytes, self@.sb) || no_inode_left(
                self@.disk.bytes,
                self@.sb,
            )) {
                making(self@, path@, InodeType::File);
            }
        }
        create_node(&mut self.disk, &self.sb, path, InodeType::File)
    }

    /// Removes a file or an empty directory.
    pub fn remove(&mut self, path: &str) -> (r: Result<(), FsError>)
        requires
            old(self).wf(),
        ensures
            final(self).wf(),
            final(self)@ == old(self)@.removed(path@).0,
            agrees(r, old(self)@.removed(path@).1),
            healthy(old(self)@) ==> healthy(final(self)@),
    {
        proof {
            if healthy(self@) {
                removing(self@, path@);
            }
        }
        remove_node(&mut self.disk, &self.sb, path)
    }

    /// Lists the names in a directory.
    pub fn readdir(&mut self, path: &str) -> (r: Result<Vec<String>, FsError>)
        requires
            old(self).wf(),
        ensures
            final(self).wf(),
            final(self)@ == old(self)@,
            match (r, old(self)@.listing(path@)) {
                (Ok(names), Ok(expected)) => texts(names@) == expected,
                (Err(e), Err(f)) => e@ == f,
                _ => false,
            },
    {
        let inode_id: u32 = resolve_path(&self.disk, &self.sb, path)?;
        let inode = read_inode(&self.disk, &self.sb, inode_id)?;
        if inode.kind != InodeType::Dir {
            return Err(FsError::NotDir(path.to_owned()));
        }
        let entries = read_dir_entries(&self.disk, &inode)?;
        Ok(list_names(entries))
    }

    /// Finds the inode of a file that is not a directory.
    fn find_file(&self, path: &str) -> (r: Result<u32, FsError>)
        requires
            self.wf(),
        ensures
            agrees(r, self@.file_at(path@)),
    {
        let inode_id: u32 = resolve_path(&self.disk, &self.sb, path)?;
        let inode = read_inode(&self.disk, &self.sb, inode_id)?;
        if inode.kind == InodeType::Dir {
            return Err(FsError::IsDir(path.to_owned()));
        }
        Ok(inode_id)
    }

    /// Opens a file and returns its descriptor.
    pub fn open(&mut self, path: &str) -> (r: Result<i32, FsError>)
        requires
            old(self).wf(),
        ensures
            final(self).wf(),
            final(self)@ == old(self)@.opened(path@).0,
            agrees(r, old(self)@.opened(path@).1),
            healthy(old(self)@) ==> healthy(final(self)@),
    {
        proof {
            if healthy(self@) {
                opening(self@, path@);
            }
        }
        broadcast use vstd::std_specs::hash::group_hash_axioms;

        let inode_id: u32 = self.find_file(path)?;
        let fd: i32 = self.next_fd;
        match fd.checked_add(1) {
            Some(next) => {
                self.next_fd = next;
            },
            None => {
                return Err(FsError::Fault);
            },
        }
        self.open.insert(fd, OpenHandle { inode_id, offset: 0 });
        Ok(fd)
    }

    /// Closes a descriptor.
    pub fn close(&mut self, fd: i32) -> (r: Result<(), FsError>)
        requires
            old(self).wf(),
        ensures
            final(self).wf(),
            final(self)@ == old(self)@.closed(fd).0,
            agrees(r, old(self)@.closed(fd).1),
            healthy(old(self)@) ==> healthy(final(self)@),
    {
        proof {
            if healthy(self@) {
                closing(self@, fd);
            }
        }
        broadcast use vstd::std_specs::hash::group_hash_axioms;

        match self.open.remove(&fd) {
            Some(_) => Ok(()),
            None => {
                assert(self.open@ =~= old(self).open@);
                Err(Self::unknown_fd(fd))
            },
        }
    }

    fn unknown_fd(fd: i32) -> (e: FsError)
        ensures
            e@ == no_such_fd(fd),
    {
        let number = i32_text(fd);
        FsError::NotFound(joined("fd ", number.as_str()))
    }

    /// Looks up an open file.
    fn handle(&self, fd: i32) -> (r: Result<OpenHandle, FsError>)
        ensures
            match r {
                Ok(h) => self@.open.contains_key(fd) && h == self@.open[fd],
                Err(e) => !self@.open.contains_key(fd) && e@ == no_such_fd(fd),
            },
    {
        broadcast use vstd::std_specs::hash::group_hash_axioms;

        match self.open.get(&fd) {
            Some(h) => Ok(*h),
            None => Err(Self::unknown_fd(fd)),
        }
    }

    /// Reads up to `length` bytes at the cursor of `fd`.
    pub fn read(&mut self, fd: i32, length: usize) -> (r: Result<Vec<u8>, FsError>)
        requires
            old(self).wf(),
        ensures
            final(self).wf(),
            final(self)@ == old(self)@.read_at_cursor(fd, length).0,
            agrees(r, old(self)@.read_at_cursor(fd, length).1),
            healthy(old(self)@) ==> healthy(final(self)@),
    {
        proof {
            if healthy(self@) {
                reading(self@, fd, length);
            }
        }
        broadcast use vstd::std_specs::hash::group_hash_axioms;

        let h = self.handle(fd)?;
        let data = read_file_bytes(&self.disk, &self.sb, h.inode_id)?;
        if h.offset > data.len() {
            return Ok(Vec::new());
        }
        let end: usize = if length < data.len() - h.offset {
            h.offset + length
        } else {
            data.len()
        };
        let out = copy_range(data.as_slice(), h.offset, end);
        self.open.insert(fd, OpenHandle { inode_id: h.inode_id, offset: end });
        Ok(out)
    }

    /// Replaces the contents of a file between two journal markers.
    fn rewrite(&mut self, inode_id: u32, data: &[u8]) -> (r: Result<(), FsError>)
        requires
            old(self).wf(),
        ensures
            final(self).wf(),
            final(self)@ == (FsView {
                disk: replace_contents(old(self)@.disk, old(self)@.sb, inode_id, data@).0,
                ..old(self)@
            }),
            agrees(r, replace_contents(old(self)@.disk, old(self)@.sb, inode_id, data@).1),
    {
        append_journal_marker(&mut self.disk, &self.sb, TX_BEGIN.as_slice())?;
        write_file_bytes(&mut self.disk, &self.sb, inode_id, data)?;
        append_journal_marker(&mut self.disk, &self.sb, TX_COMMIT.as_slice())
    }

    /// Writes `data` at the cursor of `fd` and returns how many bytes that were.
    pub fn write(&mut self, fd: i32, data: Vec<u8>) -> (r: Result<usize, FsError>)
        requires
            old(self).wf(),
        ensures
            final(self).wf(),
            final(self)@ == old(self)@.written_at_cursor(fd, data@).0,
            agrees(r, old(self)@.written_at_cursor(fd, data@).1),
            healthy(old(self)@) ==> healthy(final(self)@),
    {
        proof {
            if healthy(self@) && self@.open.contains_key(fd) {
                writing(self@, fd, data@);
            }
        }
        broadcast use vstd::std_specs::hash::group_hash_axioms;

        let h = self.handle(fd)?;
        let mut current = read_file_bytes(&self.disk, &self.sb, h.inode_id)?;
        let ghost before = current@;
        let end: usize = match h.offset.checked_add(data.len()) {
            Some(n) => n,
            None => {
                return Err(FsError::Fault);
            },
        };
        if current.len() < end {
            current.resize(end, 0);
            assert(current@.subrange(0, before.len() as int) == before);
            assert forall|i: int| 0 <= i < before.len() implies current@[i] == before[i] by {
                assert(current@.subrange(0, before.len() as int)[i] == before[i]);
            }
        }
        put(&mut current, h.offset, data.as_slice());
        assert(current@ =~= overwritten(before, h.offset as int, data@));
        self.rewrite(h.inode_id, current.as_slice())?;
        self.open.insert(fd, OpenHandle { inode_id: h.inode_id, offset: end });
        Ok(data.len())
    }

    /// Cuts or extends the file at `path` to `size` bytes.
    pub fn truncate(&mut self, path: &str, size: usize) -> (r: Result<(), FsError>)
        requires
            old(self).wf(),
        ensures
            final(self).wf(),
            final(self)@ == old(self)@.truncated(path@, size).0,
            agrees(r, old(self)@.truncated(path@, size).1),
            healthy(old(self)@) ==> healthy(final(self)@),
    {
        proof {
            if healthy(self@) {
                truncating(self@, path@, size);
            }
        }
        let inode_id: u32 = self.find_file(path)?;
        let mut content = read_file_bytes(&self.disk, &self.sb, inode_id)?;
        let ghost before = content@;
        if size > isize::MAX as usize {
            return Err(FsError::Fault);
        }
        content.resize(size, 0);
        proof {
            if before.len() < size {
                assert forall|i: int| 0 <= i < before.len() implies content@[i] == before[i] by {
                    assert(content@.subrange(0, before.len() as int)[i] == before[i]);
                }
            }
            assert(content@ =~= resized(before, size as nat));
        }
        self.rewrite(inode_id, content.as_slice())
    }

    /// Hands out the block writes that the image file has not seen yet, in order.
    pub fn take_writes(&mut self) -> (writes: Vec<BlockWrite>)
        requires
            old(self).wf(),
        ensures
            final(self).wf(),
            write_views(writes@) == old(self)@.disk.writes,
            replay(old(self)@.disk.base, write_views(writes@))
                == old(self)@.disk.bytes,
            final(self)@ == (FsView {
                disk: Image {
                    base: old(self)@.disk.bytes,
                    bytes: old(self)@.disk.bytes,
                    writes: Seq::empty(),
                },
                ..old(self)@
            }),
    {
        let writes = self.disk.take_writes();
        assert(self.disk@.writes =~= Seq::empty());
        writes
    }
}

} // verus!
