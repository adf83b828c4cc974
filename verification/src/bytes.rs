//! Byte sequences: little-endian words, overwriting a range, runs of zeros.

use vstd::prelude::*;

verus! {

/// The 32-bit word stored at `off`, least significant byte first.
#[verifier::opaque]
pub open spec fn le32(b: Seq<u8>, off: int) -> u32 {
    (b[off] + 0x100 * b[off + 1] + 0x1_0000 * b[off + 2] + 0x100_0000 * b[off + 3]) as u32
}

/// The four bytes of a 32-bit word, least significant byte first.
#[verifier::opaque]
pub open spec fn le32_bytes(v: u32) -> Seq<u8> {
    seq![
        (v % 0x100) as u8,
        (v / 0x100 % 0x100) as u8,
        (v / 0x1_0000 % 0x100) as u8,
        (v / 0x100_0000) as u8,
    ]
}

/// The 16-bit word stored at `off`, least significant byte first.
pub open spec fn le16(b: Seq<u8>, off: int) -> u16 {
    (b[off] + 0x100 * b[off + 1]) as u16
}

/// The two bytes of a 16-bit word, least significant byte first.
pub open spec fn le16_bytes(v: u16) -> Seq<u8> {
    seq![(v % 0x100) as u8, (v / 0x100) as u8]
}

/// `b` with the bytes from `off` on replaced by `part`.
pub open spec fn splice(b: Seq<u8>, off: int, part: Seq<u8>) -> Seq<u8> {
    Seq::new(
        b.len(),
        |i: int|
            if off <= i < off + part.len() {
                part[i - off]
            } else {
                b[i]
            },
    )
}

/// `n` zero bytes.
pub open spec fn zeros(n: nat) -> Seq<u8> {
    Seq::new(n, |i: int| 0u8)
}

/// A word survives being stored as bytes.
pub proof fn le32_round_trip(v: u32)
    ensures
        le32(le32_bytes(v), 0) == v,
{
    reveal(le32);
    reveal(le32_bytes);
}

/// A word takes four bytes.
pub broadcast proof fn lemma_le32_bytes_len(v: u32)
    ensures
        #[trigger] le32_bytes(v).len() == 4,
{
    reveal(le32_bytes);
}

/// A half word survives being stored as bytes.
pub proof fn le16_round_trip(v: u16)
    ensures
        le16(le16_bytes(v), 0) == v,
{
}

/// Only the four bytes at `off` matter to the word read there.
pub proof fn lemma_le32_local(a: Seq<u8>, i: int, b: Seq<u8>, j: int)
    requires
        a[i] == b[j],
        a[i + 1] == b[j + 1],
        a[i + 2] == b[j + 2],
        a[i + 3] == b[j + 3],
    ensures
        le32(a, i) == le32(b, j),
{
    reveal(le32);
}

/// The word read where the bytes of `v` stand is `v`.
pub proof fn lemma_word_at(b: Seq<u8>, off: int, v: u32)
    requires
        b[off] == le32_bytes(v)[0],
        b[off + 1] == le32_bytes(v)[1],
        b[off + 2] == le32_bytes(v)[2],
        b[off + 3] == le32_bytes(v)[3],
    ensures
        le32(b, off) == v,
{
    lemma_le32_local(b, off, le32_bytes(v), 0);
    le32_round_trip(v);
}

/// Four zero bytes are the word zero.
pub proof fn lemma_zero_word(b: Seq<u8>, off: int)
    requires
        b[off] == 0,
        b[off + 1] == 0,
        b[off + 2] == 0,
        b[off + 3] == 0,
    ensures
        le32(b, off) == 0,
{
    reveal(le32);
}

/// Reads the 32-bit word at `off`.
pub fn read_u32(b: &[u8], off: usize) -> (v: u32)
    requires
        off + 4 <= b@.len(),
    ensures
        v == le32(b@, off as int),
{
    proof {
        reveal(le32);
    }
    b[off] as u32 + 0x100 * (b[off + 1] as u32) + 0x1_0000 * (b[off + 2] as u32) + 0x100_0000 * (
    b[off + 3] as u32)
}

/// Stores the 32-bit word `v` at `off`.
pub fn write_u32(b: &mut Vec<u8>, off: usize, v: u32)
    requires
        off + 4 <= old(b).len(),
    ensures
        final(b)@ == splice(old(b)@, off as int, le32_bytes(v)),
{
    proof {
        reveal(le32_bytes);
    }
    b[off] = (v % 0x100) as u8;
    b[off + 1] = (v / 0x100 % 0x100) as u8;
    b[off + 2] = (v / 0x1_0000 % 0x100) as u8;
    b[off + 3] = (v / 0x100_0000) as u8;
}

/// Reads the 16-bit word at `off`.
pub fn read_u16(b: &[u8], off: usize) -> (v: u16)
    requires
        off + 2 <= b@.len(),
    ensures
        v == le16(b@, off as int),
{
    b[off] as u16 + 0x100 * (b[off + 1] as u16)
}

/// Stores the 16-bit word `v` at `off`.
pub fn write_u16(b: &mut Vec<u8>, off: usize, v: u16)
    requires
        off + 2 <= old(b).len(),
    ensures
        final(b)@ == splice(old(b)@, off as int, le16_bytes(v)),
{
    b[off] = (v % 0x100) as u8;
    b[off + 1] = (v / 0x100) as u8;
}

/// Overwrites the bytes from `off` on with `part`.
pub fn put(b: &mut Vec<u8>, off: usize, part: &[u8])
    requires
        off + part@.len() <= old(b).len(),
    ensures
        final(b)@ == splice(old(b)@, off as int, part@),
{
    let ghost before = b@;
    let mut i: usize = 0;
    while i < part.len()
        invariant
            i <= part@.len(),
            off + part@.len() <= b.len(),
            b@ == splice(before, off as int, part@.take(i as int)),
        decreases part@.len() - i,
    {
        b[off + i] = part[i];
        i = i + 1;
    }
    assert(part@.take(i as int) == part@);
}

/// A vector of `n` zero bytes.
pub fn zeroed(n: usize) -> (v: Vec<u8>)
    ensures
        v@ == zeros(n as nat),
{
    let v: Vec<u8> = vec![0u8; n];
    assert(v@ =~= zeros(n as nat));
    v
}

/// A copy of the bytes from `from` up to `to`.
pub fn copy_range(b: &[u8], from: usize, to: usize) -> (v: Vec<u8>)
    requires
        from <= to <= b@.len(),
    ensures
        v@ == b@.subrange(from as int, to as int),
{
    vstd::slice::slice_to_vec(vstd::slice::slice_subrange(b, from, to))
}

/// Whether two byte strings are the same.
pub fn same_bytes(a: &[u8], b: &[u8]) -> (r: bool)
    ensures
        r == (a@ == b@),
{
    if a.len() != b.len() {
        return false;
    }
    let mut i: usize = 0;
    while i < a.len()
        invariant
            i <= a@.len(),
            a@.len() == b@.len(),
            forall|k: int| 0 <= k < i ==> a@[k] == b@[k],
        decreases a@.len() - i,
    {
        if a[i] != b[i] {
            return false;
        }
        i = i + 1;
    }
    assert(a@ =~= b@);
    true
}

} // verus!
