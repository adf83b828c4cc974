//! What is read from any image: files, directories, names, descriptors, numbers as text.

use crate::directory::{
    active_only, block_records, dir_entries, lookup, raw_record, record, records_from,
    records_in_block,
};
use crate::dirent::{parse_dirent, DirentView};
use crate::disk::load;
use crate::entries::lemma_find;
use crate::error::{failure_text, Failure};
use crate::file::{file_bytes, gather};
use crate::format_laws::blocks;
use crate::fs::FsView;
use crate::inode::{find_inode, InodeType, InodeView};
use crate::node::listed_names;
use crate::path::resolve;
use crate::superblock::Superblock;
use crate::text::{decimal, signed_decimal};
use crate::walks::lemma_file_len;
use vstd::prelude::*;

verus! {

/// The pointers that point anywhere, in order.
pub open spec fn pointing(direct: Seq<u32>) -> Seq<u32> {
    direct.filter(|p: u32| p != 0)
}

/// What a filter keeps of two lists in a row.
proof fn lemma_filter_add<A>(a: Seq<A>, b: Seq<A>, f: spec_fn(A) -> bool)
    ensures
        (a + b).filter(f) == a.filter(f) + b.filter(f),
    decreases b.len(),
{
    reveal(Seq::filter);
    if b.len() == 0 {
        assert(a + b =~= a);
        assert(a.filter(f) + b.filter(f) =~= a.filter(f));
    } else {
        assert((a + b).drop_last() =~= a + b.drop_last());
        lemma_filter_add(a, b.drop_last(), f);
        assert((a + b).filter(f) =~= a.filter(f) + b.filter(f));
    }
}

/// The pointers from `i` on: the first of them, if it points anywhere, and the others.
pub proof fn lemma_pointing_step(direct: Seq<u32>, i: int)
    requires
        0 <= i < direct.len(),
    ensures
        pointing(direct.skip(i)) == if direct[i] != 0 {
            seq![direct[i]] + pointing(direct.skip(i + 1))
        } else {
            pointing(direct.skip(i + 1))
        },
{
    let f = |p: u32| p != 0;
    let one = seq![direct[i]];
    assert(direct.skip(i) =~= one + direct.skip(i + 1));
    lemma_filter_add(one, direct.skip(i + 1), f);
    reveal(Seq::filter);
    assert(one.drop_last() =~= Seq::empty());
    assert(one.drop_last().filter(f) == Seq::<u32>::empty());
    assert(one.filter(f) =~= if direct[i] != 0 {
        one
    } else {
        Seq::empty()
    });
    assert(Seq::<u32>::empty() + pointing(direct.skip(i + 1)) =~= pointing(direct.skip(i + 1)));
}

/// Whether all blocks from which `size` bytes are taken are present.
pub open spec fn blocks_present(b: Seq<u8>, ps: Seq<u32>, size: int) -> bool {
    forall|k: int|
        0 <= k < ps.len() && 4096 * k < size ==> 4096 * (#[trigger] ps[k] + 1) <= b.len()
}

/// The bytes from pointer `i` on.
proof fn lemma_gather_reads(b: Seq<u8>, direct: Seq<u32>, i: int, want: int)
    requires
        0 <= i <= direct.len(),
        0 <= want,
    ensures
        ({
            let ps = pointing(direct.skip(i));
            match gather(b, direct, i, want) {
                Ok(data) => {
                    &&& blocks_present(b, ps, want)
                    &&& data.len() == want
                    &&& forall|x: int|
                        0 <= x < want ==> #[trigger] data[x] == if x / 4096 < ps.len() {
                            b[4096 * ps[x / 4096] + x % 4096]
                        } else {
                            0
                        }
                },
                Err(e) => {
                    &&& !blocks_present(b, ps, want)
                    &&& e == Failure::Io("failed to fill whole buffer"@)
                },
            }
        }),
    decreases direct.len() - i,
{
    let ps = pointing(direct.skip(i));
    if i == direct.len() {
        assert(direct.skip(i) =~= Seq::empty());
        reveal(Seq::filter);
        assert(ps.len() == 0);
    } else {
        lemma_pointing_step(direct, i);
        if want > 0 {
            if direct[i] == 0 {
                lemma_gather_reads(b, direct, i + 1, want);
            } else {
                let rest = pointing(direct.skip(i + 1));
                assert(ps[0] == direct[i]);
                assert forall|k: int| 0 < k < ps.len() implies #[trigger] ps[k] == rest[k - 1] by {}
                blocks(b, direct[i]);
                if let Ok(blk) = load(b, direct[i]) {
                    if want <= 4096 {
                        let data = blk.take(want);
                        assert forall|x: int| 0 <= x < want implies #[trigger] data[x] == b[4096
                            * ps[x / 4096] + x % 4096] by {
                            assert(x / 4096 == 0 && x % 4096 == x);
                            assert(blk[x] == b[4096 * direct[i] + x]);
                        }
                    } else {
                        lemma_gather_reads(b, direct, i + 1, want - 4096);
                        match gather(b, direct, i + 1, want - 4096) {
                            Ok(tail) => {
                                let data = blk + tail;
                                assert forall|k: int|
                                    0 <= k < ps.len() && 4096 * k < want implies 4096 * (
                                #[trigger] ps[k] + 1) <= b.len() by {
                                    if k > 0 {
                                        assert(4096 * (rest[k - 1] + 1) <= b.len());
                                    }
                                }
                                assert forall|x: int| 0 <= x < want implies #[trigger] data[x] == (
                                if x / 4096 < ps.len() {
                                    b[4096 * ps[x / 4096] + x % 4096]
                                } else {
                                    0
                                }) by {
                                    if x < 4096 {
                                        assert(x / 4096 == 0 && x % 4096 == x);
                                        assert(blk[x] == b[4096 * direct[i] + x]);
                                    } else {
                                        let y = x - 4096;
                                        assert(y / 4096 == x / 4096 - 1 && y % 4096 == x % 4096);
                                        assert(data[x] == tail[y]);
                                        if x / 4096 < ps.len() {
                                            assert(ps[x / 4096] == rest[y / 4096]);
                                        }
                                    }
                                }
                            },
                            Err(_) => {
                                let k = choose|k: int|
                                    0 <= k < rest.len() && 4096 * k < want - 4096 && 4096 * (
                                    #[trigger] rest[k] + 1) > b.len();
                                assert(ps[k + 1] == rest[k]);
                            },
                        }
                    }
                } else {
                    assert(4096 * (ps[0] + 1) > b.len());
                }
            }
        }
    }
}

/// What the contents of a file are, on every image: as many bytes as its inode says, taken from
/// the blocks to which its pointers lead, in order. Pointers that point nowhere are passed over,
/// and zeros follow where the blocks are used up. Directories are refused, and a block that is
/// not present is an error.
pub proof fn file_reading(b: Seq<u8>, sb: Superblock, id: u32)
    ensures
        match find_inode(b, sb, id) {
            Ok(v) => {
                let ps = pointing(v.direct);
                if v.kind == InodeType::Dir {
                    file_bytes(b, sb, id) == Err::<Seq<u8>, Failure>(
                        Failure::IsDir(decimal(id as nat)),
                    )
                } else if !blocks_present(b, ps, v.size as int) {
                    file_bytes(b, sb, id) == Err::<Seq<u8>, Failure>(
                        Failure::Io("failed to fill whole buffer"@),
                    )
                } else {
                    &&& file_bytes(b, sb, id) matches Ok(data)
                    &&& data.len() == v.size
                    &&& forall|x: int|
                        0 <= x < v.size ==> #[trigger] data[x] == if x / 4096 < ps.len() {
                            b[4096 * ps[x / 4096] + x % 4096]
                        } else {
                            0
                        }
                }
            },
            Err(e) => file_bytes(b, sb, id) == Err::<Seq<u8>, Failure>(e),
        },
{
    if let Ok(v) = find_inode(b, sb, id) {
        lemma_gather_reads(b, v.direct, 0, v.size as int);
        assert(v.direct.skip(0) =~= v.direct);
    }
}

/// Record `k` of the directory blocks `ps`.
pub open spec fn nth_record(b: Seq<u8>, ps: Seq<u32>, k: int) -> Result<DirentView, Failure> {
    parse_dirent(
        b.subrange(
            4096 * ps[k / 15] + 264 * (k % 15),
            4096 * ps[k / 15] + 264 * (k % 15) + 264,
        ),
    )
}

/// The number of records of a directory: one for each 264 bytes of its size, as far as its
/// blocks reach, of which each has room for fifteen.
pub open spec fn record_count(ps: Seq<u32>, size: int) -> int {
    if size / 264 < 15 * ps.len() {
        size / 264
    } else {
        15 * ps.len() as int
    }
}

/// The records of one block.
proof fn lemma_block_records_are(b: Seq<u8>, n: int)
    requires
        0 <= n,
    ensures
        (forall|k: int| 0 <= k < n ==> (#[trigger] record(b, k)) is Ok) ==> block_records(b, n)
            == Ok::<Seq<DirentView>, Failure>(Seq::new(n as nat, |k: int| record(b, k)->Ok_0)),
        !(forall|k: int| 0 <= k < n ==> (#[trigger] record(b, k)) is Ok) ==> block_records(b, n)
            == Err::<Seq<DirentView>, Failure>(Failure::Corrupt),
    decreases n,
{
    if n > 0 {
        lemma_block_records_are(b, n - 1);
        let now = Seq::new(n as nat, |k: int| record(b, k)->Ok_0);
        let before = Seq::new((n - 1) as nat, |k: int| record(b, k)->Ok_0);
        if forall|k: int| 0 <= k < n ==> (#[trigger] record(b, k)) is Ok {
            assert(record(b, n - 1) is Ok);
            assert(now =~= before.push(record(b, n - 1)->Ok_0));
        } else if forall|k: int| 0 <= k < n - 1 ==> (#[trigger] record(b, k)) is Ok {
            assert(record(b, n - 1) is Err);
        }
    } else {
        assert(Seq::new(0, |k: int| record(b, k)->Ok_0) =~= Seq::empty());
    }
}

/// The records from pointer `i` on.
proof fn lemma_records_are(b: Seq<u8>, direct: Seq<u32>, i: int, remaining: int)
    requires
        0 <= i <= direct.len(),
        0 <= remaining,
        forall|j: int|
            0 <= j < direct.len() && #[trigger] direct[j] != 0 ==> 4096 * (direct[j] + 1)
                <= b.len(),
    ensures
        ({
            let ps = pointing(direct.skip(i));
            let n = record_count(ps, remaining);
            &&& (forall|k: int| 0 <= k < n ==> (#[trigger] nth_record(b, ps, k)) is Ok)
                ==> records_from(b, direct, i, remaining) == Ok::<Seq<DirentView>, Failure>(
                Seq::new(n as nat, |k: int| nth_record(b, ps, k)->Ok_0),
            )
            &&& !(forall|k: int| 0 <= k < n ==> (#[trigger] nth_record(b, ps, k)) is Ok)
                ==> records_from(b, direct, i, remaining) == Err::<Seq<DirentView>, Failure>(
                Failure::Corrupt,
            )
        }),
    decreases direct.len() - i,
{
    let ps = pointing(direct.skip(i));
    let n = record_count(ps, remaining);
    let all = Seq::new(n as nat, |k: int| nth_record(b, ps, k)->Ok_0);
    if i == direct.len() {
        assert(direct.skip(i) =~= Seq::empty());
        reveal(Seq::filter);
        assert(ps.len() == 0);
        assert(all =~= Seq::empty());
    } else {
        lemma_pointing_step(direct, i);
        if direct[i] == 0 {
            lemma_records_are(b, direct, i + 1, remaining);
        } else {
            let rest = pointing(direct.skip(i + 1));
            assert(ps[0] == direct[i]);
            assert forall|k: int| 0 < k < ps.len() implies #[trigger] ps[k] == rest[k - 1] by {}
            blocks(b, direct[i]);
            let blk = load(b, direct[i])->Ok_0;
            let m = records_in_block(remaining);
            let left = remaining - 264 * m;
            assert(left / 264 == remaining / 264 - m);
            let n2 = record_count(rest, left);
            assert(n == m + n2);
            assert forall|k: int| 0 <= k < m implies #[trigger] record(blk, k) == nth_record(
                b,
                ps,
                k,
            ) by {
                assert(k / 15 == 0 && k % 15 == k);
                assert(raw_record(blk, k) =~= b.subrange(
                    4096 * direct[i] + 264 * k,
                    4096 * direct[i] + 264 * k + 264,
                ));
            }
            assert forall|k: int| 0 <= k < n2 implies #[trigger] nth_record(b, rest, k)
                == nth_record(b, ps, k + m) by {
                assert(m == 15);
                assert((k + 15) / 15 == k / 15 + 1 && (k + 15) % 15 == k % 15);
                assert(ps[k / 15 + 1] == rest[k / 15]);
            }
            lemma_block_records_are(blk, m);
            lemma_records_are(b, direct, i + 1, left);
            let here = Seq::new(m as nat, |k: int| record(blk, k)->Ok_0);
            let tail = Seq::new(n2 as nat, |k: int| nth_record(b, rest, k)->Ok_0);
            if forall|k: int| 0 <= k < n ==> (#[trigger] nth_record(b, ps, k)) is Ok {
                assert forall|k: int| 0 <= k < m implies (#[trigger] record(blk, k)) is Ok by {
                    assert(nth_record(b, ps, k) is Ok);
                }
                assert forall|k: int| 0 <= k < n2 implies (#[trigger] nth_record(
                    b,
                    rest,
                    k,
                )) is Ok by {
                    assert(nth_record(b, ps, k + m) is Ok);
                }
                assert(all =~= here + tail) by {
                    assert forall|k: int| m <= k < n implies all[k] == tail[k - m] by {
                        assert(nth_record(b, rest, k - m) == nth_record(b, ps, k - m + m));
                    }
                    assert forall|k: int| 0 <= k < m implies all[k] == here[k] by {
                        assert(record(blk, k) == nth_record(b, ps, k));
                    }
                }
                if left == 0 {
                    assert(here =~= all);
                }
            } else {
                let k = choose|k: int| 0 <= k < n && !((#[trigger] nth_record(b, ps, k)) is Ok);
                if k < m {
                    assert(!(record(blk, k) is Ok));
                } else {
                    assert(nth_record(b, rest, k - m) == nth_record(b, ps, k - m + m));
                    assert(!(nth_record(b, rest, k - m) is Ok));
                    assert(left != 0);
                }
            }
        }
    }
}

/// Active entries are those with the flag 1, in order.
proof fn lemma_active_filter(es: Seq<DirentView>)
    ensures
        active_only(es) == es.filter(|e: DirentView| e.active == 1),
    decreases es.len(),
{
    reveal(Seq::filter);
    if es.len() > 0 {
        lemma_active_filter(es.drop_last());
    }
}

/// What the entries of a directory are, on every image on which all of its blocks are present:
/// of its records, in order, those with the flag 1. A record that cannot be read makes the
/// directory corrupt.
pub proof fn directory_reading(b: Seq<u8>, dir: InodeView)
    requires
        forall|j: int|
            0 <= j < dir.direct.len() && #[trigger] dir.direct[j] != 0 ==> 4096 * (dir.direct[j]
                + 1) <= b.len(),
    ensures
        ({
            let ps = pointing(dir.direct);
            let n = record_count(ps, dir.size as int);
            match dir_entries(b, dir) {
                Ok(es) => {
                    &&& forall|k: int| 0 <= k < n ==> (#[trigger] nth_record(b, ps, k)) is Ok
                    &&& es == Seq::new(n as nat, |k: int| nth_record(b, ps, k)->Ok_0).filter(
                        |e: DirentView| e.active == 1,
                    )
                },
                Err(e) => {
                    &&& !(forall|k: int| 0 <= k < n ==> (#[trigger] nth_record(b, ps, k)) is Ok)
                    &&& e == Failure::Corrupt
                },
            }
        }),
{
    lemma_records_are(b, dir.direct, 0, dir.size as int);
    assert(dir.direct.skip(0) =~= dir.direct);
    let ps = pointing(dir.direct);
    let n = record_count(ps, dir.size as int);
    lemma_active_filter(Seq::new(n as nat, |k: int| nth_record(b, ps, k)->Ok_0));
}

/// What a name leads to, on every image: to the inode of the first entry of that name, in a
/// directory.
pub proof fn looking_up(b: Seq<u8>, sb: Superblock, d: u32, name: Seq<char>)
    ensures
        match find_inode(b, sb, d) {
            Err(e) => lookup(b, sb, d, name) == Err::<Option<u32>, Failure>(e),
            Ok(dir) => if dir.kind != InodeType::Dir {
                lookup(b, sb, d, name) == Err::<Option<u32>, Failure>(Failure::NotDir(name))
            } else {
                match dir_entries(b, dir) {
                    Err(e) => lookup(b, sb, d, name) == Err::<Option<u32>, Failure>(e),
                    Ok(es) => {
                        &&& forall|k: int|
                            0 <= k < es.len() && (#[trigger] es[k]).name == name && (forall|j: int|
                                0 <= j < k ==> (#[trigger] es[j]).name != name) ==> lookup(
                                b,
                                sb,
                                d,
                                name,
                            ) == Ok::<Option<u32>, Failure>(Some(es[k].inode_id))
                        &&& (forall|k: int| 0 <= k < es.len() ==> (#[trigger] es[k]).name != name)
                            ==> lookup(b, sb, d, name) == Ok::<Option<u32>, Failure>(None)
                    },
                }
            },
        },
{
    if let Ok(dir) = find_inode(b, sb, d) {
        if let Ok(es) = dir_entries(b, dir) {
            lemma_find(es, 0, name);
        }
    }
}

/// Listed names are those of the entries, in order, but for `.` and `..`.
pub proof fn names_listed(es: Seq<DirentView>)
    ensures
        listed_names(es) == es.filter(
            |e: DirentView| e.name != seq!['.'] && e.name != seq!['.', '.'],
        ).map_values(|e: DirentView| e.name),
    decreases es.len(),
{
    reveal(Seq::filter);
    reveal_strlit(".");
    reveal_strlit("..");
    assert("."@ =~= seq!['.']);
    assert(".."@ =~= seq!['.', '.']);
    let f = |e: DirentView| e.name != seq!['.'] && e.name != seq!['.', '.'];
    let g = |e: DirentView| e.name;
    if es.len() > 0 {
        let front = es.drop_last();
        names_listed(front);
        if f(es.last()) {
            assert(front.filter(f).push(es.last()).map_values(g) =~= front.filter(f).map_values(
                g,
            ).push(es.last().name));
        }
    } else {
        assert(es.filter(f).map_values(g) =~= Seq::empty());
    }
}

/// Listing, in every state: the path has to lead to a directory, and the names in it are listed
/// in order, but for `.` and `..`.
pub proof fn listing_any(fs: FsView, path: Seq<char>)
    ensures
        ({
            let b = fs.disk.bytes;
            fs.listing(path) == match resolve(b, fs.sb, path) {
                Err(e) => Err::<Seq<Seq<char>>, Failure>(e),
                Ok(id) => match find_inode(b, fs.sb, id) {
                    Err(e) => Err::<Seq<Seq<char>>, Failure>(e),
                    Ok(v) => if v.kind != InodeType::Dir {
                        Err::<Seq<Seq<char>>, Failure>(Failure::NotDir(path))
                    } else {
                        match dir_entries(b, v) {
                            Err(e) => Err::<Seq<Seq<char>>, Failure>(e),
                            Ok(es) => Ok::<Seq<Seq<char>>, Failure>(
                                es.filter(
                                    |e: DirentView|
                                        e.name != seq!['.'] && e.name != seq!['.', '.'],
                                ).map_values(|e: DirentView| e.name),
                            ),
                        }
                    },
                },
            }
        }),
{
    let b = fs.disk.bytes;
    if let Ok(id) = resolve(b, fs.sb, path) {
        if let Ok(v) = find_inode(b, fs.sb, id) {
            if let Ok(es) = dir_entries(b, v) {
                names_listed(es);
            }
        }
    }
}

/// Opening, in every state. Wherever the path names something that is not a directory, it
/// succeeds, unless descriptors have run out: the descriptor is the next number, with the cursor
/// at the front, and nothing else changes. Else it fails for the reason why the path names
/// nothing, or because it names a directory, and changes nothing.
pub proof fn opening_any(fs: FsView, path: Seq<char>)
    ensures
        ({
            let b = fs.disk.bytes;
            let (next, r) = fs.opened(path);
            match resolve(b, fs.sb, path) {
                Err(e) => r == Err::<i32, Failure>(e) && next == fs,
                Ok(id) => match find_inode(b, fs.sb, id) {
                    Err(e) => r == Err::<i32, Failure>(e) && next == fs,
                    Ok(v) => if v.kind == InodeType::Dir {
                        r == Err::<i32, Failure>(Failure::IsDir(path)) && next == fs
                    } else if fs.next_fd == i32::MAX {
                        r == Err::<i32, Failure>(Failure::Fault) && next == fs
                    } else {
                        &&& r == Ok::<i32, Failure>(fs.next_fd)
                        &&& next.next_fd == fs.next_fd + 1
                        &&& next.disk == fs.disk
                        &&& next.sb == fs.sb
                        &&& next.open.dom() == fs.open.dom().insert(fs.next_fd)
                        &&& next.open[fs.next_fd].inode_id == id
                        &&& next.open[fs.next_fd].offset == 0
                        &&& forall|fd: i32|
                            fd != fs.next_fd && fs.open.contains_key(fd) ==> #[trigger] next.open[fd]
                                == fs.open[fd]
                    },
                },
            }
        }),
{
}

/// The file that a path names, in every state.
pub proof fn files_at_paths(fs: FsView, path: Seq<char>)
    ensures
        ({
            let b = fs.disk.bytes;
            fs.file_at(path) == match resolve(b, fs.sb, path) {
                Err(e) => Err::<u32, Failure>(e),
                Ok(id) => match find_inode(b, fs.sb, id) {
                    Err(e) => Err::<u32, Failure>(e),
                    Ok(v) => if v.kind == InodeType::Dir {
                        Err::<u32, Failure>(Failure::IsDir(path))
                    } else {
                        Ok::<u32, Failure>(id)
                    },
                },
            }
        }),
{
}

/// The number of a text of digits.
pub open spec fn number(s: Seq<char>) -> int
    decreases s.len(),
{
    if s.len() == 0 {
        0
    } else {
        10 * number(s.drop_last()) + (s.last() as int - '0' as int)
    }
}

/// Numbers are written with the digits `0` to `9`, without zeros in front, and mean what they
/// say.
pub proof fn decimals(n: nat)
    ensures
        number(decimal(n)) == n,
        decimal(n).len() > 0,
        decimal(n)[0] == '0' ==> decimal(n).len() == 1,
        forall|k: int| 0 <= k < decimal(n).len() ==> '0' <= #[trigger] decimal(n)[k] <= '9',
    decreases n,
{
    if n >= 10 {
        decimals(n / 10);
        let front = decimal(n / 10);
        assert(decimal(n).drop_last() =~= front);
        assert(decimal(n)[0] == front[0]);
        if front[0] == '0' {
            assert(front.drop_last() =~= Seq::empty());
            assert(number(front.drop_last()) == 0);
            assert(n / 10 == 0);
        }
        assert forall|k: int| 0 <= k < decimal(n).len() implies '0' <= #[trigger] decimal(n)[k]
            <= '9' by {
            if k < front.len() {
                assert(decimal(n)[k] == front[k]);
            }
        }
    } else {
        assert(decimal(n).drop_last() =~= Seq::empty());
        assert(number(decimal(n).drop_last()) == 0);
    }
}

/// A negative number has a minus sign in front.
pub proof fn signed_decimals(n: int)
    ensures
        n >= 0 ==> signed_decimal(n) == decimal(n as nat),
        n < 0 ==> signed_decimal(n) == seq!['-'] + decimal((-n) as nat),
{
    reveal_strlit("-");
    assert("-"@ =~= seq!['-']);
}

/// Using a descriptor that is not open, in every state, fails with its number and changes
/// nothing.
pub proof fn closed_descriptors(fs: FsView, fd: i32, length: usize, data: Seq<u8>)
    requires
        !fs.open.contains_key(fd),
    ensures
        ({
            let e = Failure::NotFound(seq!['f', 'd', ' '] + signed_decimal(fd as int));
            &&& fs.closed(fd) == (fs, Err::<(), Failure>(e))
            &&& fs.read_at_cursor(fd, length) == (fs, Err::<Seq<u8>, Failure>(e))
            &&& fs.written_at_cursor(fd, data) == (fs, Err::<usize, Failure>(e))
        }),
{
    reveal_strlit("fd ");
    assert("fd "@ =~= seq!['f', 'd', ' ']);
}

/// Closing, in every state, ends that descriptor and no other.
pub proof fn closing_any(fs: FsView, fd: i32)
    requires
        fs.open.contains_key(fd),
    ensures
        ({
            let (next, r) = fs.closed(fd);
            &&& r == Ok::<(), Failure>(())
            &&& next.disk == fs.disk
            &&& next.sb == fs.sb
            &&& next.next_fd == fs.next_fd
            &&& forall|other: i32|
                (#[trigger] next.open.contains_key(other)) == (other != fd && fs.open.contains_key(
                    other,
                ))
            &&& forall|other: i32|
                other != fd && fs.open.contains_key(other) ==> #[trigger] next.open[other]
                    == fs.open[other]
        }),
{
}

/// Reading, in every state: the bytes of the file from the cursor on, as many as asked for or up
/// to the end of the file. The cursor moves behind them and no other descriptor changes. From
/// behind the end nothing is read, and the cursor stays.
pub proof fn reading_any(fs: FsView, fd: i32, length: usize)
    requires
        fs.open.contains_key(fd),
    ensures
        ({
            let (next, r) = fs.read_at_cursor(fd, length);
            let id = fs.open[fd].inode_id;
            let pos = fs.open[fd].offset;
            match file_bytes(fs.disk.bytes, fs.sb, id) {
                Err(e) => r == Err::<Seq<u8>, Failure>(e) && next == fs,
                Ok(all) => {
                    &&& r matches Ok(data)
                    &&& data.len() == if pos >= all.len() {
                        0
                    } else if all.len() - pos < length {
                        all.len() - pos
                    } else {
                        length as int
                    }
                    &&& forall|i: int| 0 <= i < data.len() ==> #[trigger] data[i] == all[pos + i]
                    &&& next.disk == fs.disk
                    &&& next.sb == fs.sb
                    &&& next.next_fd == fs.next_fd
                    &&& next.open.dom() == fs.open.dom()
                    &&& next.open[fd].inode_id == id
                    &&& next.open[fd].offset == pos + data.len()
                    &&& forall|other: i32|
                        other != fd && fs.open.contains_key(other) ==> #[trigger] next.open[other]
                            == fs.open[other]
                },
            }
        }),
{
    lemma_file_len(fs.disk.bytes, fs.sb, fs.open[fd].inode_id);
    let next = fs.read_at_cursor(fd, length).0;
    assert(next.open.dom() =~= fs.open.dom());
}

/// The line that is shown for a failure.
pub proof fn failure_texts(s: Seq<char>)
    ensures
        failure_text(Failure::Io(s)) == "io error: "@ + s,
        failure_text(Failure::Corrupt) == "corrupt filesystem"@,
        failure_text(Failure::NotFound(s)) == "not found: "@ + s,
        failure_text(Failure::AlreadyExists(s)) == "already exists: "@ + s,
        failure_text(Failure::NotDir(s)) == "not a directory: "@ + s,
        failure_text(Failure::IsDir(s)) == "is a directory: "@ + s,
        failure_text(Failure::NoSpace) == "no space"@,
        failure_text(Failure::InvalidPath(s)) == "invalid path: "@ + s,
{
}

} // verus!
