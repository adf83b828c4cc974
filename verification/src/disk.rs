//! The image as a store of blocks.
//!
//! A `Disk` holds what the image file holds, together with the block writes that the file has
//! not seen yet, in the order in which they were made.

use crate::bytes::{put, zeroed, zeros};
use crate::error::{agrees, Failure, FsError};
use crate::layout::BLOCK_SIZE;
use std::collections::HashMap;
use vstd::prelude::*;

verus! {

/// The largest image that 32-bit block numbers can address, in bytes.
pub const MAX_IMAGE: u64 = 0x1000_0000_0000;

/// An image: its bytes, and the block writes that led to them from the bytes in `base`.
#[verifier::ext_equal]
pub struct Image {
    pub base: Seq<u8>,
    pub bytes: Seq<u8>,
    pub writes: Seq<(u32, Seq<u8>)>,
}

/// Whether block `n` lies inside an image with these bytes.
pub open spec fn readable(b: Seq<u8>, n: int) -> bool {
    0 <= n && (n + 1) * 4096 <= b.len()
}

/// The bytes of block `n`.
#[verifier::opaque]
pub open spec fn block(b: Seq<u8>, n: int) -> Seq<u8> {
    b.subrange(n * 4096, (n + 1) * 4096)
}

/// `data` cut or filled up with zeros to the length of a block.
pub open spec fn padded(data: Seq<u8>) -> Seq<u8> {
    Seq::new(
        BLOCK_SIZE as nat,
        |i: int|
            if i < data.len() {
                data[i]
            } else {
                0u8
            },
    )
}

/// The image after block `n` was given the bytes `data`. An image that ended before the end
/// of that block grows, with zeros in the gap.
#[verifier::opaque]
pub open spec fn store(b: Seq<u8>, n: int, data: Seq<u8>) -> Seq<u8> {
    let end = (n + 1) * 4096;
    Seq::new(
        if end <= b.len() {
            b.len()
        } else {
            end as nat
        },
        |i: int|
            if n * 4096 <= i < end {
                data[i - n * 4096]
            } else if i < b.len() {
                b[i]
            } else {
                0u8
            },
    )
}

/// The image after the block writes `writes`, made in order.
pub open spec fn replay(base: Seq<u8>, writes: Seq<(u32, Seq<u8>)>) -> Seq<u8>
    decreases writes.len(),
{
    if writes.len() == 0 {
        base
    } else {
        store(replay(base, writes.drop_last()), writes.last().0 as int, writes.last().1)
    }
}

/// What a failed read past the end of the image reports.
pub open spec fn past_end() -> Failure {
    Failure::Io("failed to fill whole buffer"@)
}

/// The outcome of reading block `n`.
pub open spec fn load(b: Seq<u8>, n: u32) -> Result<Seq<u8>, Failure> {
    if readable(b, n as int) {
        Ok(block(b, n as int))
    } else {
        Err(past_end())
    }
}

impl Image {
    /// The image after `data`, cut or padded to a block, was written to block `n`.
    pub open spec fn write(self, n: u32, data: Seq<u8>) -> Image {
        Image {
            base: self.base,
            bytes: store(self.bytes, n as int, padded(data)),
            writes: self.writes.push((n, padded(data))),
        }
    }
}

/// A block has 4096 bytes.
pub proof fn lemma_block_len(b: Seq<u8>, n: int)
    requires
        readable(b, n),
    ensures
        block(b, n).len() == 4096,
{
    reveal(block);
}

/// Writing a block gives it the bytes written and leaves every other block of the image as it
/// was.
pub proof fn lemma_store(b: Seq<u8>, n: u32, data: Seq<u8>)
    requires
        data.len() == 4096,
    ensures
        readable(store(b, n as int, data), n as int),
        block(store(b, n as int, data), n as int) == data,
        forall|m: int| #[trigger] readable(b, m) ==> readable(store(b, n as int, data), m),
        forall|m: int|
            readable(b, m) && m != n ==> #[trigger] block(store(b, n as int, data), m) == block(
                b,
                m,
            ),
        b.len() <= store(b, n as int, data).len(),
{
    reveal(block);
    reveal(store);
    let c = store(b, n as int, data);
    assert(block(c, n as int) =~= data);
    assert forall|m: int| readable(b, m) && m != n implies #[trigger] block(c, m) == block(
        b,
        m,
    ) by {
        assert((m + 1) * 4096 <= n * 4096 || (n + 1) * 4096 <= m * 4096);
        assert(block(c, m) =~= block(b, m));
    }
}

/// Reading a block gives back what was last written to it.
pub proof fn read_after_write(b: Seq<u8>, n: u32, data: Seq<u8>)
    ensures
        load(store(b, n as int, padded(data)), n) == Ok::<Seq<u8>, Failure>(padded(data)),
{
    lemma_store(b, n, padded(data));
}

/// Writing a block leaves what is read from every other block of the image as it was.
pub proof fn write_keeps_other_blocks(b: Seq<u8>, n: u32, data: Seq<u8>, m: u32)
    requires
        m != n,
        load(b, m) is Ok,
    ensures
        load(store(b, n as int, padded(data)), m) == load(b, m),
{
    lemma_store(b, n, padded(data));
}

/// One block write: the block and its new bytes.
#[derive(Debug)]
pub struct BlockWrite {
    pub block: u32,
    pub data: Vec<u8>,
}

impl View for BlockWrite {
    type V = (u32, Seq<u8>);

    open spec fn view(&self) -> (u32, Seq<u8>) {
        (self.block, self.data@)
    }
}

/// What each of the writes does.
pub open spec fn write_views(v: Seq<BlockWrite>) -> Seq<(u32, Seq<u8>)> {
    v.map_values(|w: BlockWrite| w@)
}

/// The contents of an image file, kept by block. Blocks that were never given are zero.
pub struct Disk {
    size: u64,
    blocks: HashMap<u32, Vec<u8>>,
    log: Vec<BlockWrite>,
    base: Ghost<Seq<u8>>,
}

/// The byte at position `i` of an image of which `m` holds the blocks.
spec fn byte_at(m: Map<u32, Vec<u8>>, i: int) -> u8 {
    let n = (i / 4096) as u32;
    if m.contains_key(n) {
        m[n]@[i % 4096]
    } else {
        0
    }
}

spec fn contents(size: u64, m: Map<u32, Vec<u8>>) -> Seq<u8> {
    Seq::new(size as nat, |i: int| byte_at(m, i))
}

impl View for Disk {
    type V = Image;

    closed spec fn view(&self) -> Image {
        Image {
            base: self.base@,
            bytes: contents(self.size, self.blocks@),
            writes: write_views(self.log@),
        }
    }
}

impl Disk {
    /// The blocks kept are whole and hold nothing beyond the end of the image, and the pending
    /// writes lead from the base to the present bytes.
    pub closed spec fn wf(&self) -> bool {
        &&& self.size <= MAX_IMAGE
        &&& forall|n: u32| #[trigger]
            self.blocks@.contains_key(n) ==> self.blocks@[n]@.len() == 4096
        &&& forall|n: u32, j: int|
            self.blocks@.contains_key(n) && 0 <= j < 4096 && n * 4096 + j >= self.size
                ==> #[trigger] self.blocks@[n]@[j] == 0
        &&& contents(self.size, self.blocks@) == replay(self.base@, write_views(self.log@))
    }

    /// An image of `size` zero bytes, of which the part beyond `MAX_IMAGE` is left out because
    /// no block number reaches it.
    pub fn new(size: u64) -> (disk: Disk)
        ensures
            disk.wf(),
            disk@.bytes == zeros(
                if size <= MAX_IMAGE {
                    size as nat
                } else {
                    MAX_IMAGE as nat
                },
            ),
            disk@.base == disk@.bytes,
            disk@.writes.len() == 0,
    {
        broadcast use vstd::std_specs::hash::group_hash_axioms;

        let kept: u64 = if size <= MAX_IMAGE {
            size
        } else {
            MAX_IMAGE
        };
        let blocks: HashMap<u32, Vec<u8>> = HashMap::new();
        let disk = Disk { size: kept, blocks, log: Vec::new(), base: Ghost(zeros(kept as nat)) };
        proof {
            assert(contents(kept, disk.blocks@) =~= zeros(kept as nat));
            assert(write_views(disk.log@) =~= Seq::<(u32, Seq<u8>)>::empty());
        }
        disk
    }

    /// The length of the image in bytes.
    pub fn size(&self) -> (n: u64)
        ensures
            n == self@.bytes.len(),
    {
        self.size
    }

    /// Fills block `n` with `data` as found in the image file. Returns false, and changes
    /// nothing, where the data is longer than a block or does not lie inside the image, and
    /// where writes are pending.
    pub fn fill(&mut self, n: u32, data: &[u8]) -> (done: bool)
        requires
            old(self).wf(),
        ensures
            final(self).wf(),
            done == (old(self)@.writes.len() == 0 && data@.len() <= BLOCK_SIZE && n * 4096
                + data@.len() <= old(self)@.bytes.len()),
            !done ==> final(self)@ == old(self)@,
            done ==> {
                &&& final(self)@.bytes == Seq::new(
                    old(self)@.bytes.len(),
                    |i: int|
                        if n * 4096 <= i < (n + 1) * 4096 {
                            padded(data@)[i - n * 4096]
                        } else {
                            old(self)@.bytes[i]
                        },
                )
                &&& final(self)@.base == final(self)@.bytes
                &&& final(self)@.writes.len() == 0
            },
    {
        broadcast use vstd::std_specs::hash::group_hash_axioms;

        if self.log.len() != 0 || data.len() > BLOCK_SIZE || n as u64 * 4096
            + data.len() as u64 > self.size {
            return false;
        }
        let mut whole = zeroed(BLOCK_SIZE);
        put(&mut whole, 0, data);
        assert(whole@ =~= padded(data@));
        self.blocks.insert(n, whole);
        self.base = Ghost(contents(self.size, self.blocks@));
        proof {
            assert(write_views(self.log@) =~= Seq::<(u32, Seq<u8>)>::empty());
            assert(self@.bytes =~= Seq::new(
                old(self)@.bytes.len(),
                |i: int|
                    if n * 4096 <= i < (n + 1) * 4096 {
                        padded(data@)[i - n * 4096]
                    } else {
                        old(self)@.bytes[i]
                    },
            ));
        }
        true
    }

    /// Reads block `block_no`, which has to lie inside the image.
    pub fn read_block(&self, block_no: u32) -> (r: Result<Vec<u8>, FsError>)
        requires
            self.wf(),
        ensures
            agrees(r, load(self@.bytes, block_no)),
            r matches Ok(v) ==> v@.len() == BLOCK_SIZE,
    {
        broadcast use vstd::std_specs::hash::group_hash_axioms;

        if (block_no as u64 + 1) * 4096 > self.size {
            return Err(FsError::Io("failed to fill whole buffer".to_owned()));
        }
        let ghost wanted = block(self@.bytes, block_no as int);
        proof {
            reveal(block);
        }
        match self.blocks.get(&block_no) {
            Some(found) => {
                let out = found.clone();
                assert(out@ =~= wanted);
                Ok(out)
            },
            None => {
                let out = zeroed(BLOCK_SIZE);
                assert(out@ =~= wanted);
                Ok(out)
            },
        }
    }

    /// Writes `bytes` to block `block_no`, cut or padded to the size of a block. The image
    /// grows where the block lies beyond its end.
    pub fn write_block(&mut self, block_no: u32, bytes: &[u8])
        requires
            old(self).wf(),
        ensures
            final(self).wf(),
            final(self)@ == old(self)@.write(block_no, bytes@),
    {
        broadcast use vstd::std_specs::hash::group_hash_axioms;

        let mut out = zeroed(BLOCK_SIZE);
        let n: usize = if bytes.len() < BLOCK_SIZE {
            bytes.len()
        } else {
            BLOCK_SIZE
        };
        put(&mut out, 0, vstd::slice::slice_subrange(bytes, 0, n));
        assert(out@ =~= padded(bytes@));
        let copy = out.clone();
        assert(copy@ =~= out@);
        let ghost before = self.log@;
        self.log.push(BlockWrite { block: block_no, data: copy });
        self.blocks.insert(block_no, out);
        let end: u64 = (block_no as u64 + 1) * 4096;
        if end > self.size {
            self.size = end;
        }
        proof {
            reveal(store);
            let next = old(self)@.write(block_no, bytes@);
            assert(write_views(self.log@) =~= write_views(before).push(
                (block_no, padded(bytes@)),
            ));
            assert(write_views(self.log@).drop_last() =~= write_views(before));
            assert(contents(self.size, self.blocks@) =~= next.bytes);
        }
    }

    /// Hands out the writes that the image file has not seen yet. Made in order, they turn the
    /// file from what it held when they were last handed out into the present image.
    pub fn take_writes(&mut self) -> (writes: Vec<BlockWrite>)
        requires
            old(self).wf(),
        ensures
            final(self).wf(),
            write_views(writes@) == old(self)@.writes,
            replay(old(self)@.base, write_views(writes@)) == final(self)@.bytes,
            final(self)@.bytes == old(self)@.bytes,
            final(self)@.base == final(self)@.bytes,
            final(self)@.writes.len() == 0,
    {
        let mut writes: Vec<BlockWrite> = Vec::new();
        std::mem::swap(&mut writes, &mut self.log);
        self.base = Ghost(contents(self.size, self.blocks@));
        assert(write_views(self.log@) =~= Seq::<(u32, Seq<u8>)>::empty());
        writes
    }
}

} // verus!
