//! What replacing the contents of a file does: the file reads back as what was stored, and
//! nothing else in the image changes.

use crate::bitmap::claim_block;
use crate::bytes::zeros;
use crate::disk::{block, padded, readable, Image};
use crate::error::Failure;
use crate::file::{
    blocks_for, chunk, file_bytes, gather, release_block, release_from, store_chunks, write_file,
};
use crate::inode::{inode_block, put_inode, InodeType, InodeView};
use crate::sound::{
    addressable, block_marked, consistent, data_bits, data_pointers, framed, held, inode_marked,
    lemma_data_pointers, lemma_find_inode, lemma_only, lemma_replace_slot, lemma_standard,
    marked_outside, no_block_left, only_block, owns_alone, pointer, table,
};
use crate::steps::{
    lemma_claim_block, lemma_claim_block_consistent, lemma_put_inode, lemma_release_block,
    lemma_release_consistent, lemma_write, lemma_write_consistent,
};
use crate::superblock::{superblock_of, Superblock};
use vstd::prelude::*;

verus! {

/// Whether two images agree in the superblock, the journal, the inode bitmap and the inode
/// table.
pub open spec fn same_metadata(b: Seq<u8>, c: Seq<u8>, sb: Superblock) -> bool {
    &&& superblock_of(c) == superblock_of(b)
    &&& block(c, 1) == block(b, 1)
    &&& table(c, sb) == table(b, sb)
    &&& forall|i: int| #[trigger] inode_marked(c, sb, i) == inode_marked(b, sb, i)
}

/// Whether the data blocks of all inodes but `id` are the same in two images.
pub open spec fn others_kept(b: Seq<u8>, c: Seq<u8>, t: Seq<InodeView>, id: int) -> bool {
    forall|i: int, j: int|
        0 <= i < 1024 && 0 <= j < 12 && i != id && #[trigger] pointer(t, i, j) != 0 ==> block(
            c,
            pointer(t, i, j) as int,
        ) == block(b, pointer(t, i, j) as int)
}

/// Whether all data blocks are the same in two images.
pub open spec fn data_kept(b: Seq<u8>, c: Seq<u8>, sb: Superblock) -> bool {
    &&& forall|n: int| #[trigger] readable(b, n) ==> readable(c, n)
    &&& forall|n: int|
        sb.data_start <= n && readable(b, n) ==> #[trigger] block(c, n) == block(b, n)
}

/// Inodes `t` in which inode `id` has other pointers.
pub open spec fn repointed(t: Seq<InodeView>, id: int, direct: Seq<u32>) -> Seq<InodeView> {
    t.update(id, InodeView { direct, ..t[id] })
}

/// Changing a data block or a block of the block bitmap leaves the other regions as they were.
pub proof fn lemma_same_metadata(b: Seq<u8>, c: Seq<u8>, sb: Superblock, n: int)
    requires
        framed(b, sb),
        only_block(b, c, n),
        66 <= n < sb.inode_table_start || sb.data_start <= n,
    ensures
        framed(c, sb),
        same_metadata(b, c, sb),
{
    lemma_standard(sb);
    lemma_only(b, c, sb, n);
}

/// Storing chunks in blocks that the file has or that are claimed for it.
pub proof fn lemma_store_chunks(
    img: Image,
    sb: Superblock,
    t: Seq<InodeView>,
    id: int,
    direct: Seq<u32>,
    data: Seq<u8>,
    i: int,
)
    requires
        framed(img.bytes, sb),
        consistent(img.bytes, sb, t),
        0 <= id < 1024,
        t[id].id == id,
        t[id].kind != InodeType::Dir,
        consistent(img.bytes, sb, repointed(t, id, direct)),
        0 <= i,
        i <= 12 || i <= blocks_for(data.len() as int),
    ensures
        ({
            let (out, r) = store_chunks(img, sb, direct, data, i);
            let c = out.bytes;
            &&& framed(c, sb)
            &&& same_metadata(img.bytes, c, sb)
            &&& others_kept(img.bytes, c, t, id)
            &&& consistent(c, sb, t)
            &&& forall|j: int|
                0 <= j < 12 && j < i && #[trigger] direct[j] != 0 ==> block(c, direct[j] as int)
                    == block(img.bytes, direct[j] as int)
            &&& match r {
                Ok(d) => {
                    &&& d.len() == 12
                    &&& forall|j: int|
                        0 <= j < 12 && #[trigger] direct[j] != 0 ==> d[j] == direct[j]
                    &&& consistent(c, sb, repointed(t, id, d))
                    &&& i < blocks_for(data.len() as int) ==> blocks_for(data.len() as int) <= 12
                    &&& forall|j: int|
                        i <= j < blocks_for(data.len() as int) ==> #[trigger] d[j] != 0 && block(
                            c,
                            d[j] as int,
                        ) == padded(chunk(data, j))
                    &&& forall|j: int|
                        0 <= j < 12 && (j < i || j >= blocks_for(data.len() as int))
                            ==> #[trigger] d[j] == direct[j]
                },
                Err(e) => {
                    &&& e == Failure::NoSpace || e == Failure::Fault && !addressable(sb)
                    &&& blocks_for(data.len() as int) > 12 || no_block_left(c, sb)
                    &&& forall|j: int|
                        i <= j < 12 && j < blocks_for(data.len() as int) && (forall|k: int|
                            i <= k <= j ==> direct[k] != 0) ==> block(
                            c,
                            (#[trigger] direct[j]) as int,
                        ) == padded(chunk(data, j))
                },
            }
        }),
    decreases blocks_for(data.len() as int) - i,
{
    let b = img.bytes;
    let u = repointed(t, id, direct);
    assert(u[id].direct == direct);
    assert(direct.len() == 12);
    lemma_standard(sb);
    if i < blocks_for(data.len() as int) && i < 12 {
        if direct[i] != 0 {
            let n = direct[i];
            let next = img.write(n, chunk(data, i));
            assert(pointer(u, id, i) == n);
            assert(held(b, sb, n));
            lemma_write(img, n, chunk(data, i));
            lemma_same_metadata(b, next.bytes, sb, n as int);
            assert forall|k: int|
                0 <= k < 1024 && (#[trigger] t[k]).kind == InodeType::Dir implies t[k].direct[0]
                != n by {
                assert(pointer(u, k, 0) == t[k].direct[0]);
            }
            assert forall|k: int|
                0 <= k < 1024 && (#[trigger] u[k]).kind == InodeType::Dir implies u[k].direct[0]
                != n by {
                assert(t[k].direct[0] != n);
            }
            lemma_write_consistent(b, next.bytes, sb, n as int, t);
            lemma_write_consistent(b, next.bytes, sb, n as int, u);
            lemma_store_chunks(next, sb, t, id, direct, data, i + 1);
            assert forall|k: int, j: int|
                0 <= k < 1024 && 0 <= j < 12 && k != id && #[trigger] pointer(t, k, j)
                    != 0 implies block(next.bytes, pointer(t, k, j) as int) == block(
                b,
                pointer(t, k, j) as int,
            ) by {
                assert(pointer(u, k, j) == pointer(t, k, j));
                assert(held(b, sb, pointer(t, k, j)));
            }
            assert forall|j: int| 0 <= j < 12 && j < i && #[trigger] direct[j] != 0 implies block(
                next.bytes,
                direct[j] as int,
            ) == block(b, direct[j] as int) by {
                assert(pointer(u, id, j) == direct[j]);
                assert(held(b, sb, direct[j]));
            }
        } else {
            let (mid, claimed) = claim_block(img, sb);
            lemma_claim_block(img, sb);
            lemma_claim_block_consistent(img, sb, t);
            lemma_claim_block_consistent(img, sb, u);
            match claimed {
                Ok(n) => {
                    lemma_same_metadata(b, mid.bytes, sb, 66 + (n - sb.data_start) / 32768);
                    let next = mid.write(n, chunk(data, i));
                    lemma_write(mid, n, chunk(data, i));
                    lemma_same_metadata(mid.bytes, next.bytes, sb, n as int);
                    lemma_only(mid.bytes, next.bytes, sb, n as int);
                    assert forall|k: int|
                        0 <= k < 1024 && (#[trigger] t[k]).kind
                            == InodeType::Dir implies t[k].direct[0] != n by {
                        assert(pointer(t, k, 0) == t[k].direct[0]);
                    }
                    assert forall|k: int|
                        0 <= k < 1024 && (#[trigger] u[k]).kind
                            == InodeType::Dir implies u[k].direct[0] != n by {
                        assert(t[k].direct[0] != n);
                    }
                    lemma_write_consistent(mid.bytes, next.bytes, sb, n as int, t);
                    lemma_write_consistent(mid.bytes, next.bytes, sb, n as int, u);
                    let d2 = direct.update(i, n);
                    let v = InodeView { direct: d2, ..t[id] };
                    assert(held(next.bytes, sb, n));
                    assert(owns_alone(next.bytes, sb, u, id, v)) by {
                        assert forall|j: int| 0 <= j < 12 && #[trigger] d2[j] != 0 implies held(
                            next.bytes,
                            sb,
                            d2[j],
                        ) by {
                            assert(pointer(u, id, j) == direct[j]);
                        }
                        assert forall|j: int, k: int|
                            0 <= j < 12 && 0 <= k < 12 && j != k && #[trigger] d2[j]
                                != 0 implies d2[j] != #[trigger] d2[k] by {
                            assert(pointer(u, id, j) == direct[j]);
                            assert(pointer(u, id, k) == direct[k]);
                        }
                        assert forall|j: int, id2: int, k: int|
                            0 <= j < 12 && 0 <= id2 < 1024 && 0 <= k < 12 && id2 != id
                                && #[trigger] d2[j] != 0 implies d2[j] != #[trigger] pointer(
                            u,
                            id2,
                            k,
                        ) by {
                            assert(pointer(u, id, j) == direct[j]);
                        }
                    }
                    lemma_replace_slot(next.bytes, sb, u, id, v);
                    assert(u.update(id, v) =~= repointed(t, id, d2));
                    lemma_store_chunks(next, sb, t, id, d2, data, i + 1);
                    assert forall|j: int| 0 <= j < 12 && #[trigger] direct[j] != 0 implies d2[j]
                        == direct[j] by {}
                    assert forall|k: int, j: int|
                        0 <= k < 1024 && 0 <= j < 12 && k != id && #[trigger] pointer(t, k, j)
                            != 0 implies block(next.bytes, pointer(t, k, j) as int) == block(
                        b,
                        pointer(t, k, j) as int,
                    ) by {
                        assert(held(b, sb, pointer(t, k, j)));
                    }
                    assert forall|j: int|
                        0 <= j < 12 && j < i && #[trigger] direct[j] != 0 implies block(
                        next.bytes,
                        direct[j] as int,
                    ) == block(b, direct[j] as int) && d2[j] == direct[j] by {
                        assert(pointer(u, id, j) == direct[j]);
                        assert(held(b, sb, direct[j]));
                    }
                },
                Err(_) => {
                    let m = choose|m: int|
                        66 <= m < sb.inode_table_start && #[trigger] only_block(b, mid.bytes, m);
                    lemma_same_metadata(b, mid.bytes, sb, m);
                    assert forall|j: int|
                        0 <= j < 12 && j < i && #[trigger] direct[j] != 0 implies block(
                        mid.bytes,
                        direct[j] as int,
                    ) == block(b, direct[j] as int) by {
                        assert(pointer(u, id, j) == direct[j]);
                        assert(held(b, sb, direct[j]));
                    }
                    assert forall|k: int, j: int|
                        0 <= k < 1024 && 0 <= j < 12 && k != id && #[trigger] pointer(t, k, j)
                            != 0 implies block(mid.bytes, pointer(t, k, j) as int) == block(
                        b,
                        pointer(t, k, j) as int,
                    ) by {
                        assert(held(b, sb, pointer(t, k, j)));
                    }
                },
            }
        }
    }
}

/// Giving back the blocks from pointer `i` on succeeds and leaves all data as it was.
pub proof fn lemma_release_from(
    img: Image,
    sb: Superblock,
    t: Seq<InodeView>,
    id: int,
    direct: Seq<u32>,
    i: int,
)
    requires
        framed(img.bytes, sb),
        0 <= id < 1024,
        t[id].id == id,
        t.len() == 1024,
        t[id].kind != InodeType::Dir,
        consistent(img.bytes, sb, repointed(t, id, direct)),
        0 <= i,
    ensures
        ({
            let (out, r) = release_from(img, sb, direct, i);
            let c = out.bytes;
            &&& framed(c, sb)
            &&& same_metadata(img.bytes, c, sb)
            &&& data_kept(img.bytes, c, sb)
            &&& r matches Ok(d) && {
                &&& d.len() == 12
                &&& consistent(c, sb, repointed(t, id, d))
                &&& forall|j: int|
                    0 <= j < 12 ==> #[trigger] d[j] == (if j < i {
                        direct[j]
                    } else {
                        0
                    })
            }
        }),
    decreases 12 - i,
{
    let b = img.bytes;
    let u = repointed(t, id, direct);
    assert(u[id].direct == direct);
    assert(direct.len() == 12);
    lemma_standard(sb);
    if i < 12 {
        if direct[i] == 0 {
            lemma_release_from(img, sb, t, id, direct, i + 1);
        } else {
            let n = direct[i];
            assert(pointer(u, id, i) == n);
            assert(held(b, sb, n));
            let d2 = direct.update(i, 0);
            let v = InodeView { direct: d2, ..t[id] };
            assert(owns_alone(b, sb, u, id, v)) by {
                assert forall|j: int| 0 <= j < 12 && #[trigger] d2[j] != 0 implies held(
                    b,
                    sb,
                    d2[j],
                ) by {
                    assert(pointer(u, id, j) == direct[j]);
                }
                assert forall|j: int, k: int|
                    0 <= j < 12 && 0 <= k < 12 && j != k && #[trigger] d2[j] != 0 implies d2[j]
                    != #[trigger] d2[k] by {
                    assert(pointer(u, id, j) == direct[j]);
                    assert(pointer(u, id, k) == direct[k]);
                }
                assert forall|j: int, id2: int, k: int|
                    0 <= j < 12 && 0 <= id2 < 1024 && 0 <= k < 12 && id2 != id && #[trigger] d2[j]
                        != 0 implies d2[j] != #[trigger] pointer(u, id2, k) by {
                    assert(pointer(u, id, j) == direct[j]);
                }
            }
            lemma_replace_slot(b, sb, u, id, v);
            let w = repointed(t, id, d2);
            assert(u.update(id, v) =~= w);
            assert forall|k: int, j: int| 0 <= k < 1024 && 0 <= j < 12 implies #[trigger] pointer(
                w,
                k,
                j,
            ) != n by {
                if k == id && j == i {
                } else {
                    assert(pointer(w, k, j) == pointer(u, k, j));
                }
            }
            lemma_release_block(img, sb, n);
            lemma_release_consistent(img, sb, w, n);
            let next = release_block(img, sb, n).0;
            lemma_same_metadata(b, next.bytes, sb, 66 + (n - sb.data_start) / 32768);
            lemma_release_from(next, sb, t, id, d2, i + 1);
        }
    }
}

/// The bytes gathered from blocks that hold the chunks of `data`.
proof fn lemma_gather(b: Seq<u8>, direct: Seq<u32>, data: Seq<u8>, i: int)
    requires
        direct.len() == 12,
        blocks_for(data.len() as int) <= 12,
        0 <= i <= blocks_for(data.len() as int),
        forall|j: int|
            0 <= j < blocks_for(data.len() as int) ==> #[trigger] direct[j] != 0 && readable(
                b,
                direct[j] as int,
            ) && block(b, direct[j] as int) == padded(chunk(data, j)),
    ensures
        gather(b, direct, i, data.len() - 4096 * i) == Ok::<Seq<u8>, Failure>(
            if i < blocks_for(data.len() as int) {
                data.skip(4096 * i)
            } else {
                zeros((data.len() - 4096 * i) as nat)
            },
        ),
    decreases 12 - i,
{
    let want = data.len() - 4096 * i;
    if i < blocks_for(data.len() as int) {
        let blk = padded(chunk(data, i));
        assert(direct[i] != 0);
        if want <= 4096 {
            assert(blk.take(want) =~= data.skip(4096 * i));
        } else {
            lemma_gather(b, direct, data, i + 1);
            assert(blk + data.skip(4096 * (i + 1)) =~= data.skip(4096 * i));
        }
    }
}

/// The outcome of replacing the contents of a file on a consistent image.
pub proof fn lemma_write_file(img: Image, sb: Superblock, id: u32, data: Seq<u8>)
    requires
        framed(img.bytes, sb),
        consistent(img.bytes, sb, table(img.bytes, sb)),
        id < 1024,
        table(img.bytes, sb)[id as int].id == id,
        table(img.bytes, sb)[id as int].kind != InodeType::Dir,
    ensures
        ({
            let (out, r) = write_file(img, sb, id, data);
            let b = img.bytes;
            let c = out.bytes;
            let t = table(b, sb);
            &&& framed(c, sb)
            &&& consistent(c, sb, table(c, sb))
            &&& others_kept(b, c, t, id as int)
            &&& superblock_of(c) == superblock_of(b)
            &&& block(c, 1) == block(b, 1)
            &&& forall|i: int| #[trigger] inode_marked(c, sb, i) == inode_marked(b, sb, i)
            &&& match r {
                Ok(_) => {
                    &&& blocks_for(data.len() as int) <= 12
                    &&& table(c, sb) == t.update(id as int, table(c, sb)[id as int])
                    &&& table(c, sb)[id as int].id == id
                    &&& table(c, sb)[id as int].kind == t[id as int].kind
                    &&& table(c, sb)[id as int].links == t[id as int].links
                    &&& table(c, sb)[id as int].size == data.len()
                    &&& forall|j: int|
                        0 <= j < 12 ==> (#[trigger] table(c, sb)[id as int].direct[j] != 0) == (
                        4096 * j < data.len())
                    &&& forall|j: int|
                        0 <= j < 12 && #[trigger] t[id as int].direct[j] != 0 && 4096 * j
                            < data.len() ==> table(c, sb)[id as int].direct[j]
                            == t[id as int].direct[j]
                    &&& file_bytes(c, sb, id) == Ok::<Seq<u8>, Failure>(data)
                },
                Err(e) => {
                    &&& e == Failure::NoSpace || e == Failure::Fault && !addressable(sb)
                    &&& table(c, sb) == t
                    &&& blocks_for(data.len() as int) > 12 || no_block_left(c, sb)
                    &&& forall|j: int|
                        0 <= j < 12 && 4096 * j < data.len() && (forall|k: int|
                            0 <= k <= j ==> t[id as int].direct[k] != 0) ==> block(
                            c,
                            (#[trigger] t[id as int].direct[j]) as int,
                        ) == padded(chunk(data, j))
                },
            }
        }),
{
    let b = img.bytes;
    let t = table(b, sb);
    let n = blocks_for(data.len() as int);
    let inode = t[id as int];
    let i = id as int;
    lemma_standard(sb);
    lemma_find_inode(b, sb, id);
    assert(repointed(t, i, inode.direct) =~= t);
    lemma_store_chunks(img, sb, t, i, inode.direct, data, 0);
    let (stored, pointers) = store_chunks(img, sb, inode.direct, data, 0);
    match pointers {
        Ok(d1) => {
            assert(n <= 12);
            lemma_release_from(stored, sb, t, i, d1, n);
            let (trimmed, rest) = release_from(stored, sb, d1, n);
            let d = rest->Ok_0;
            let v = InodeView { size: data.len() as u32, direct: d, ..inode };
            let u = repointed(t, i, d);
            let c1 = trimmed.bytes;
            assert forall|j: int| 0 <= j < n implies #[trigger] d[j] != 0 && readable(
                c1,
                d[j] as int,
            ) && block(c1, d[j] as int) == padded(chunk(data, j)) by {
                assert(d[j] == d1[j]);
                let u1 = repointed(t, i, d1);
                assert(pointer(u1, i, j) == d1[j]);
                assert(held(stored.bytes, sb, d1[j]));
            }
            assert(owns_alone(c1, sb, u, i, v)) by {
                assert forall|j: int| 0 <= j < 12 implies #[trigger] d[j] == pointer(u, i, j) by {}
            }
            if v.kind != InodeType::Free {
                assert(u[i].kind != InodeType::Free);
                assert(inode_marked(c1, sb, i));
            }
            lemma_replace_slot(c1, sb, u, i, v);
            let w = u.update(i, v);
            assert(w =~= t.update(i, v));
            lemma_put_inode(trimmed, sb, v);
            let c = put_inode(trimmed, sb, v).0.bytes;
            let m = inode_block(sb, id);
            lemma_only(c1, c, sb, m);
            assert forall|k: int| 0 <= k < 1024 && (#[trigger] w[k]).kind == InodeType::Dir implies
                w[k].direct[0] != m by {
                assert(held(c1, sb, pointer(w, k, 0)));
            }
            lemma_write_consistent(c1, c, sb, m, w);
            assert(table(c, sb) =~= w);
            assert forall|j: int| 0 <= j < n implies #[trigger] d[j] != 0 && readable(
                c,
                d[j] as int,
            ) && block(c, d[j] as int) == padded(chunk(data, j)) by {
                assert(pointer(w, i, j) == d[j]);
                assert(held(c1, sb, d[j]));
            }
            lemma_gather(c, d, data, 0);
            lemma_find_inode(c, sb, id);
            assert(data.skip(0) =~= data);
            assert(n == 0 ==> zeros(data.len()) =~= data);
            assert forall|k: int, j: int|
                0 <= k < 1024 && 0 <= j < 12 && k != i && #[trigger] pointer(t, k, j)
                    != 0 implies block(c, pointer(t, k, j) as int) == block(
                b,
                pointer(t, k, j) as int,
            ) by {
                let p = pointer(t, k, j);
                assert(pointer(w, k, j) == p);
                assert(held(stored.bytes, sb, p));
                assert(held(c1, sb, p));
            }
        },
        Err(_) => {},
    }
}

/// The data blocks that can still be claimed.
pub open spec fn blocks_left(b: Seq<u8>, sb: Superblock) -> Set<int> {
    Set::new(
        |i: int|
            0 <= i < data_bits(sb) && sb.data_start + i <= u32::MAX && !block_marked(b, sb, i),
    )
}

/// There are finitely many blocks.
proof fn lemma_blocks_left_finite(b: Seq<u8>, sb: Superblock)
    ensures
        blocks_left(b, sb).finite(),
{
    vstd::set_lib::lemma_int_range(0, data_bits(sb));
    vstd::set_lib::lemma_len_subset(
        blocks_left(b, sb),
        vstd::set_lib::set_int_range(0, data_bits(sb)),
    );
}

/// Chunks can be stored as long as the pointers suffice and blocks are left for them.
pub proof fn lemma_chunks_fit(
    img: Image,
    sb: Superblock,
    direct: Seq<u32>,
    data: Seq<u8>,
    i: int,
)
    requires
        framed(img.bytes, sb),
        direct.len() == 12,
        forall|j: int|
            0 <= j < 12 ==> #[trigger] direct[j] == 0 || direct[j] >= sb.data_start,
        0 <= i,
        blocks_for(data.len() as int) <= 12,
        blocks_left(img.bytes, sb).len() >= blocks_for(data.len() as int) - i,
    ensures
        store_chunks(img, sb, direct, data, i).1 is Ok,
    decreases blocks_for(data.len() as int) - i,
{
    let b = img.bytes;
    lemma_standard(sb);
    if i < blocks_for(data.len() as int) {
        let piece = chunk(data, i);
        lemma_blocks_left_finite(b, sb);
        if direct[i] != 0 {
            let next = img.write(direct[i], piece);
            lemma_write(img, direct[i], piece);
            lemma_only(b, next.bytes, sb, direct[i] as int);
            assert(blocks_left(next.bytes, sb) =~= blocks_left(b, sb));
            lemma_chunks_fit(next, sb, direct, data, i + 1);
        } else {
            let one = blocks_left(b, sb).choose();
            vstd::set_lib::lemma_set_empty_equivalency_len(blocks_left(b, sb));
            assert(blocks_left(b, sb).contains(one));
            lemma_claim_block(img, sb);
            assert(!block_marked(b, sb, one));
            let (mid, claimed) = claim_block(img, sb);
            let n = claimed->Ok_0;
            lemma_only(b, mid.bytes, sb, 66 + (n - sb.data_start) / 32768);
            let next = mid.write(n, piece);
            lemma_write(mid, n, piece);
            lemma_only(mid.bytes, next.bytes, sb, n as int);
            assert(blocks_left(b, sb).contains(n - sb.data_start));
            assert(blocks_left(next.bytes, sb) =~= blocks_left(b, sb).remove(n - sb.data_start));
            lemma_chunks_fit(next, sb, direct.update(i, n), data, i + 1);
        }
    }
}

/// How many of the pointers from `i` up to `n` point nowhere.
pub open spec fn missing(direct: Seq<u32>, i: int, n: int) -> nat
    decreases n - i,
{
    if i >= n {
        0
    } else if direct[i] == 0 {
        1 + missing(direct, i + 1, n)
    } else {
        missing(direct, i + 1, n)
    }
}

/// A pointer that does not count does not matter.
proof fn lemma_missing_update(direct: Seq<u32>, k: int, p: u32, i: int, n: int)
    requires
        0 <= k < i,
        k < direct.len(),
        n <= direct.len(),
    ensures
        missing(direct.update(k, p), i, n) == missing(direct, i, n),
    decreases n - i,
{
    if i < n {
        lemma_missing_update(direct, k, p, i + 1, n);
    }
}

/// Chunks can be stored exactly where the pointers suffice and a block is left for each pointer
/// that points nowhere.
pub proof fn lemma_chunks_exactly(
    img: Image,
    sb: Superblock,
    direct: Seq<u32>,
    data: Seq<u8>,
    i: int,
)
    requires
        framed(img.bytes, sb),
        data_pointers(sb, direct),
        0 <= i,
    ensures
        store_chunks(img, sb, direct, data, i).1 is Ok <==> (i >= blocks_for(data.len() as int)
            || blocks_for(data.len() as int) <= 12) && missing(
            direct,
            i,
            blocks_for(data.len() as int),
        ) <= blocks_left(img.bytes, sb).len(),
    decreases blocks_for(data.len() as int) - i,
{
    let b = img.bytes;
    let n = blocks_for(data.len() as int);
    lemma_standard(sb);
    if i < n && i < 12 {
        let piece = chunk(data, i);
        lemma_blocks_left_finite(b, sb);
        if direct[i] != 0 {
            let next = img.write(direct[i], piece);
            lemma_write(img, direct[i], piece);
            lemma_only(b, next.bytes, sb, direct[i] as int);
            assert(blocks_left(next.bytes, sb) =~= blocks_left(b, sb));
            lemma_chunks_exactly(next, sb, direct, data, i + 1);
        } else {
            vstd::set_lib::lemma_set_empty_equivalency_len(blocks_left(b, sb));
            lemma_claim_block(img, sb);
            let (mid, claimed) = claim_block(img, sb);
            if let Ok(m) = claimed {
                lemma_only(b, mid.bytes, sb, 66 + (m - sb.data_start) / 32768);
                let next = mid.write(m, piece);
                lemma_write(mid, m, piece);
                lemma_only(mid.bytes, next.bytes, sb, m as int);
                assert(blocks_left(b, sb).contains(m - sb.data_start));
                assert(blocks_left(next.bytes, sb) =~= blocks_left(b, sb).remove(
                    m - sb.data_start,
                ));
                let d2 = direct.update(i, m);
                if n <= 12 {
                    lemma_missing_update(direct, i, m, i + 1, n);
                }
                lemma_chunks_exactly(next, sb, d2, data, i + 1);
            } else {
                if blocks_left(b, sb).len() != 0 {
                    let one = choose|x: int| blocks_left(b, sb).contains(x);
                    assert(!block_marked(b, sb, one));
                }
            }
        }
    }
}

/// Storing chunks marks the blocks that it claims and no others.
proof fn lemma_chunk_marks(img: Image, sb: Superblock, direct: Seq<u32>, data: Seq<u8>, i: int)
    requires
        framed(img.bytes, sb),
        data_pointers(sb, direct),
        0 <= i,
    ensures
        ({
            let (out, r) = store_chunks(img, sb, direct, data, i);
            r matches Ok(d) ==> {
                &&& framed(out.bytes, sb)
                &&& data_pointers(sb, d)
                &&& forall|k: int|
                    0 <= k < data_bits(sb) ==> #[trigger] marked_outside(out.bytes, sb, d, k)
                        == marked_outside(img.bytes, sb, direct, k)
            }
        }),
    decreases blocks_for(data.len() as int) - i,
{
    let b = img.bytes;
    lemma_standard(sb);
    if i < blocks_for(data.len() as int) && i < 12 {
        let piece = chunk(data, i);
        if direct[i] != 0 {
            let next = img.write(direct[i], piece);
            lemma_write(img, direct[i], piece);
            lemma_only(b, next.bytes, sb, direct[i] as int);
            lemma_chunk_marks(next, sb, direct, data, i + 1);
            assert forall|k: int| 0 <= k < data_bits(sb) implies #[trigger] marked_outside(
                next.bytes,
                sb,
                direct,
                k,
            ) == marked_outside(b, sb, direct, k) by {}
        } else {
            lemma_claim_block(img, sb);
            let (mid, claimed) = claim_block(img, sb);
            if let Ok(n) = claimed {
                lemma_only(b, mid.bytes, sb, 66 + (n - sb.data_start) / 32768);
                let next = mid.write(n, piece);
                lemma_write(mid, n, piece);
                lemma_only(mid.bytes, next.bytes, sb, n as int);
                let d2 = direct.update(i, n);
                assert forall|k: int| 0 <= k < data_bits(sb) implies #[trigger] marked_outside(
                    next.bytes,
                    sb,
                    d2,
                    k,
                ) == marked_outside(b, sb, direct, k) by {
                    assert(block_marked(next.bytes, sb, k) == block_marked(mid.bytes, sb, k));
                    if k == n - sb.data_start {
                        assert(d2[i] == n);
                    } else {
                        assert forall|j: int| 0 <= j < 12 implies (#[trigger] d2[j]
                            == sb.data_start + k) == (direct[j] == sb.data_start + k) by {}
                        if marked_outside(next.bytes, sb, d2, k) {
                            assert forall|j: int| 0 <= j < 12 implies #[trigger] direct[j]
                                != sb.data_start + k by {
                                assert(d2[j] != sb.data_start + k);
                            }
                        }
                    }
                }
                lemma_chunk_marks(next, sb, d2, data, i + 1);
            }
        }
    }
}

/// Giving back blocks takes the marks of these blocks and no others.
proof fn lemma_release_marks(img: Image, sb: Superblock, direct: Seq<u32>, i: int)
    requires
        framed(img.bytes, sb),
        data_pointers(sb, direct),
        0 <= i,
    ensures
        ({
            let (out, r) = release_from(img, sb, direct, i);
            r matches Ok(d) ==> {
                &&& framed(out.bytes, sb)
                &&& data_pointers(sb, d)
                &&& forall|k: int|
                    0 <= k < data_bits(sb) ==> #[trigger] marked_outside(out.bytes, sb, d, k)
                        == marked_outside(img.bytes, sb, direct, k)
            }
        }),
    decreases 12 - i,
{
    let b = img.bytes;
    lemma_standard(sb);
    if i < 12 {
        if direct[i] == 0 {
            lemma_release_marks(img, sb, direct, i + 1);
        } else {
            let n = direct[i];
            lemma_release_block(img, sb, n);
            let next = release_block(img, sb, n).0;
            lemma_only(b, next.bytes, sb, 66 + (n - sb.data_start) / 32768);
            let d2 = direct.update(i, 0);
            assert forall|k: int| 0 <= k < data_bits(sb) implies #[trigger] marked_outside(
                next.bytes,
                sb,
                d2,
                k,
            ) == marked_outside(b, sb, direct, k) by {
                if k == n - sb.data_start {
                    assert(direct[i] == sb.data_start + k);
                } else {
                    assert forall|j: int| 0 <= j < 12 implies (#[trigger] d2[j] == sb.data_start
                        + k) == (direct[j] == sb.data_start + k) by {}
                    if marked_outside(next.bytes, sb, d2, k) {
                        assert forall|j: int| 0 <= j < 12 implies #[trigger] direct[j]
                            != sb.data_start + k by {
                            assert(d2[j] != sb.data_start + k);
                        }
                    }
                }
            }
            lemma_release_marks(next, sb, d2, i + 1);
        }
    }
}

/// Replacing the contents of a file changes the marks of its own blocks only.
pub proof fn lemma_write_file_marks(img: Image, sb: Superblock, id: u32, data: Seq<u8>)
    requires
        framed(img.bytes, sb),
        consistent(img.bytes, sb, table(img.bytes, sb)),
        id < 1024,
        table(img.bytes, sb)[id as int].id == id,
        write_file(img, sb, id, data).1 is Ok,
    ensures
        ({
            let c = write_file(img, sb, id, data).0.bytes;
            forall|k: int|
                0 <= k < data_bits(sb) ==> #[trigger] marked_outside(
                    c,
                    sb,
                    table(c, sb)[id as int].direct,
                    k,
                ) == marked_outside(img.bytes, sb, table(img.bytes, sb)[id as int].direct, k)
        }),
{
    let b = img.bytes;
    let t = table(b, sb);
    let inode = t[id as int];
    let n = blocks_for(data.len() as int);
    lemma_standard(sb);
    lemma_find_inode(b, sb, id);
    lemma_data_pointers(b, sb, t, id as int);
    lemma_chunk_marks(img, sb, inode.direct, data, 0);
    let (stored, pointers) = store_chunks(img, sb, inode.direct, data, 0);
    let d1 = pointers->Ok_0;
    lemma_release_marks(stored, sb, d1, n);
    let (trimmed, rest) = release_from(stored, sb, d1, n);
    let d = rest->Ok_0;
    let v = InodeView { size: data.len() as u32, direct: d, ..inode };
    lemma_put_inode(trimmed, sb, v);
    let c = put_inode(trimmed, sb, v).0.bytes;
    lemma_only(trimmed.bytes, c, sb, inode_block(sb, id));
    assert(table(c, sb)[id as int] == v) by {
        assert(table(trimmed.bytes, sb).len() == 1024);
    }
    assert forall|k: int| 0 <= k < data_bits(sb) implies #[trigger] marked_outside(c, sb, d, k)
        == marked_outside(b, sb, inode.direct, k) by {
        assert(marked_outside(trimmed.bytes, sb, d, k) == marked_outside(
            stored.bytes,
            sb,
            d1,
            k,
        ));
    }
}

} // verus!
