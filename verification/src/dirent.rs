//! Directory records: fixed-size entries that give an inode a name.

use crate::bytes::{
    le16, le16_bytes, le16_round_trip, le32, le32_bytes, lemma_le32_bytes_len, lemma_word_at, put,
    read_u16, read_u32, write_u16, write_u32, zeroed,
};
use crate::error::{agrees, Failure, FsError};
use crate::inode::{kind_code, kind_of_code, InodeType};
use crate::layout::{DIRENT_SIZE, NAME_MAX};
use crate::text::{lossy_text, text_from_bytes};
use vstd::prelude::*;
use vstd::utf8::{encode_utf8, encode_utf8_decode_utf8, encode_utf8_valid_utf8};

verus! {

/// An entry of a directory. It counts only while `active` is 1.
#[derive(Debug)]
pub struct Dirent {
    pub active: u8,
    pub kind: InodeType,
    pub inode_id: u32,
    pub name: String,
}

/// The meaning of a `Dirent`.
#[verifier::ext_equal]
pub struct DirentView {
    pub active: u8,
    pub kind: InodeType,
    pub inode_id: u32,
    pub name: Seq<char>,
}

impl View for Dirent {
    type V = DirentView;

    open spec fn view(&self) -> DirentView {
        DirentView {
            active: self.active,
            kind: self.kind,
            inode_id: self.inode_id,
            name: self.name@,
        }
    }
}

/// The bytes of a name that a record keeps: its UTF-8 form, cut to what fits.
pub open spec fn stored_name(name: Seq<char>) -> Seq<u8> {
    let raw = encode_utf8(name);
    if raw.len() <= NAME_MAX {
        raw
    } else {
        raw.take(NAME_MAX as int)
    }
}

/// The record of an entry: flag, kind, length of the name, inode number, name, zeros.
pub open spec fn dirent_bytes(v: DirentView) -> Seq<u8> {
    let name = stored_name(v.name);
    Seq::new(
        DIRENT_SIZE as nat,
        |i: int|
            if i == 0 {
                v.active
            } else if i == 1 {
                kind_code(v.kind)
            } else if i < 4 {
                le16_bytes(name.len() as u16)[i - 2]
            } else if i < 8 {
                le32_bytes(v.inode_id)[i - 4]
            } else if i < 8 + name.len() {
                name[i - 8]
            } else {
                0u8
            },
    )
}

/// The entry that a record stands for. The name has to lie inside the record.
pub open spec fn parse_dirent(raw: Seq<u8>) -> Result<DirentView, Failure> {
    if 8 + le16(raw, 2) > raw.len() {
        Err(Failure::Corrupt)
    } else {
        Ok(
            DirentView {
                active: raw[0],
                kind: kind_of_code(raw[1]),
                inode_id: le32(raw, 4),
                name: lossy_text(raw.subrange(8, 8 + le16(raw, 2))),
            },
        )
    }
}

/// What is stored as a directory record is read back as the same entry, with the name as far
/// as the record keeps it.
pub proof fn dirent_round_trip(v: DirentView)
    ensures
        parse_dirent(dirent_bytes(v)) == Ok::<DirentView, Failure>(
            DirentView { name: lossy_text(stored_name(v.name)), ..v },
        ),
{
    let raw = dirent_bytes(v);
    let name = stored_name(v.name);
    lemma_word_at(raw, 4, v.inode_id);
    le16_round_trip(name.len() as u16);
    assert(le16(raw, 2) == name.len());
    assert(raw.subrange(8, 8 + name.len() as int) =~= name);
}

/// A name of at most 255 bytes is kept whole.
pub proof fn short_name_is_kept(name: Seq<char>)
    requires
        encode_utf8(name).len() <= NAME_MAX,
    ensures
        lossy_text(stored_name(name)) == name,
{
    encode_utf8_valid_utf8(name);
    encode_utf8_decode_utf8(name);
}

/// Stores an entry as a record. A name that is too long is cut.
pub fn encode_dirent(ent: &Dirent) -> (b: Vec<u8>)
    ensures
        b@ == dirent_bytes(ent@),
{
    broadcast use lemma_le32_bytes_len;

    let mut b = zeroed(DIRENT_SIZE);
    let bytes = ent.name.as_str().as_bytes();
    let len: usize = if bytes.len() < NAME_MAX {
        bytes.len()
    } else {
        NAME_MAX
    };
    let name = vstd::slice::slice_subrange(bytes, 0, len);
    assert(name@ =~= stored_name(ent.name@));
    b[0] = ent.active;
    b[1] = ent.kind.code();
    write_u16(&mut b, 2, len as u16);
    write_u32(&mut b, 4, ent.inode_id);
    put(&mut b, 8, name);
    assert(b@ =~= dirent_bytes(ent@));
    b
}

/// Reads the entry that a record stands for.
pub fn decode_dirent(raw: &[u8]) -> (r: Result<Dirent, FsError>)
    requires
        raw@.len() >= 4,
    ensures
        agrees(r, parse_dirent(raw@)),
{
    let len: usize = read_u16(raw, 2) as usize;
    if 8 + len > raw.len() {
        return Err(FsError::Corrupt);
    }
    let name = vstd::slice::slice_subrange(raw, 8, 8 + len);
    Ok(
        Dirent {
            active: raw[0],
            kind: InodeType::from_code(raw[1]),
            inode_id: read_u32(raw, 4),
            name: text_from_bytes(name),
        },
    )
}

} // verus!
