//! Writing a directory payload back into its data blocks, and the
//! effect of such a write on the rest of the image.

use vstd::prelude::*;
use vstd::pervasive::VecAdditionalExecFns;
use crate::Ext2Error;
use crate::fs::Ext2;
use crate::dir::{
    spec_min, SpecDirEntry, entry_at, entry_ok, parse_from, sum_entry_sizes, gather_from,
};
use crate::bytes::{
    spec_le16, spec_le32, nul_prefix, first_nul, lemma_first_nul, lemma_first_nul_at, round_up4,
    spec_round_up4, lemma_round_up4,
};
use crate::dir::{entries_view, parse_dir_entries, lemma_parse_accounts, live_entries, lemma_live_concat};
use crate::file::lemma_spec_block_len;

verus! {

/// `blocks` with `chunk` written at byte offset `base`.
pub open spec fn splice_bytes(blocks: Seq<u8>, base: int, chunk: Seq<u8>) -> Seq<u8>
    recommends
        0 <= base,
        base + chunk.len() <= blocks.len(),
{
    blocks.subrange(0, base) + chunk + blocks.subrange(base + chunk.len(), blocks.len() as int)
}

/// The bytes outside the spliced range are untouched; inside it they
/// are the chunk.
pub proof fn lemma_splice_bytes(blocks: Seq<u8>, base: int, chunk: Seq<u8>)
    requires
        0 <= base,
        base + chunk.len() <= blocks.len(),
    ensures
        splice_bytes(blocks, base, chunk).len() == blocks.len(),
        forall|t: int|
            0 <= t < blocks.len() && !(base <= t < base + chunk.len()) ==> splice_bytes(
                blocks,
                base,
                chunk,
            )[t] == blocks[t],
        forall|t: int|
            0 <= t < chunk.len() ==> splice_bytes(blocks, base, chunk)[base + t] == chunk[t],
{
}

/// `blocks` after the consecutive chunks `i..` of `data` are written at
/// the blocks named by `ptrs[i..]`, in order.
pub open spec fn write_chunks(
    blocks: Seq<u8>,
    ptrs: Seq<u32>,
    boff: int,
    bs: int,
    data: Seq<u8>,
    i: int,
) -> Seq<u8>
    decreases ptrs.len() - i,
{
    if i < 0 || i >= ptrs.len() {
        blocks
    } else {
        write_chunks(
            splice_bytes(blocks, (ptrs[i] - boff) * bs, data.subrange(i * bs, (i + 1) * bs)),
            ptrs,
            boff,
            bs,
            data,
            i + 1,
        )
    }
}

/// Whether byte position `t` lies in the block of pointer `p`.
pub open spec fn in_block_of(t: int, p: u32, boff: int, bs: int) -> bool {
    (p - boff) * bs <= t < (p - boff) * bs + bs
}

/// Distinct block numbers occupy disjoint byte ranges.
pub proof fn lemma_blocks_disjoint(t: int, p1: u32, p2: u32, boff: int, bs: int)
    requires
        bs > 0,
        p1 != p2,
        in_block_of(t, p1, boff, bs),
    ensures
        !in_block_of(t, p2, boff, bs),
{
    if p1 < p2 {
        assert((p2 - boff) * bs >= (p1 - boff) * bs + bs) by (nonlinear_arith)
            requires
                bs > 0,
                p1 < p2,
        ;
    } else {
        assert((p1 - boff) * bs >= (p2 - boff) * bs + bs) by (nonlinear_arith)
            requires
                bs > 0,
                p2 < p1,
        ;
    }
}

/// What a run of block writes does: each named block holds its chunk of
/// `data`, and every byte outside the named blocks keeps its value.
pub proof fn lemma_write_chunks_effect(
    blocks: Seq<u8>,
    ptrs: Seq<u32>,
    boff: int,
    bs: int,
    data: Seq<u8>,
    i: int,
)
    requires
        bs > 0,
        0 <= i <= ptrs.len(),
        data.len() == ptrs.len() * bs,
        forall|t: int|
            i <= t < ptrs.len() ==> ptrs[t] >= boff && ((#[trigger] ptrs[t]) - boff) * bs + bs
                <= blocks.len(),
        forall|t1: int, t2: int|
            i <= t1 < ptrs.len() && i <= t2 < ptrs.len() && t1 != t2 ==> ptrs[t1] != ptrs[t2],
    ensures
        write_chunks(blocks, ptrs, boff, bs, data, i).len() == blocks.len(),
        forall|t: int, u: int|
            i <= t < ptrs.len() && 0 <= u < bs ==> #[trigger] write_chunks(
                blocks,
                ptrs,
                boff,
                bs,
                data,
                i,
            )[(ptrs[t] - boff) * bs + u] == data[t * bs + u],
        forall|x: int|
            0 <= x < blocks.len() && (forall|t: int|
                i <= t < ptrs.len() ==> !in_block_of(x, #[trigger] ptrs[t], boff, bs))
                ==> #[trigger] write_chunks(blocks, ptrs, boff, bs, data, i)[x] == blocks[x],
    decreases ptrs.len() - i,
{
    if i < ptrs.len() {
        let base = (ptrs[i] - boff) * bs;
        let chunk = data.subrange(i * bs, (i + 1) * bs);
        assert((i + 1) * bs == i * bs + bs) by (nonlinear_arith);
        assert(i * bs >= 0 && (i + 1) * bs <= data.len()) by (nonlinear_arith)
            requires
                0 <= i < ptrs.len(),
                data.len() == ptrs.len() * bs,
                bs > 0,
        ;
        let spliced = splice_bytes(blocks, base, chunk);
        lemma_splice_bytes(blocks, base, chunk);
        lemma_write_chunks_effect(spliced, ptrs, boff, bs, data, i + 1);
        let out = write_chunks(blocks, ptrs, boff, bs, data, i);
        assert(out == write_chunks(spliced, ptrs, boff, bs, data, i + 1));
        assert forall|t: int, u: int| i <= t < ptrs.len() && 0 <= u < bs implies #[trigger] out[(
        ptrs[t] - boff) * bs + u] == data[t * bs + u] by {
            if t == i {
                assert forall|tt: int| i + 1 <= tt < ptrs.len() implies !in_block_of(
                    base + u,
                    #[trigger] ptrs[tt],
                    boff,
                    bs,
                ) by {
                    assert(in_block_of(base + u, ptrs[i], boff, bs));
                    lemma_blocks_disjoint(base + u, ptrs[i], ptrs[tt], boff, bs);
                }
                assert(out[base + u] == spliced[base + u]);
                assert(spliced[base + u] == chunk[u]);
                assert(chunk[u] == data[i * bs + u]);
            } else {
                assert(t * bs + u < data.len()) by (nonlinear_arith)
                    requires
                        i <= t < ptrs.len(),
                        0 <= u < bs,
                        data.len() == ptrs.len() * bs,
                        bs > 0,
                ;
            }
        }
        assert forall|x: int|
            0 <= x < blocks.len() && (forall|t: int|
                i <= t < ptrs.len() ==> !in_block_of(x, #[trigger] ptrs[t], boff, bs))
            implies #[trigger] out[x] == blocks[x] by {
            assert(!in_block_of(x, ptrs[i as int], boff, bs));
            assert(spliced[x] == blocks[x]);
        }
    }
}

impl Ext2 {
    /// Writes into block `block_num` the bytes of `data` from
    /// `bytes_written` on, capped at one block.
    pub fn write_dir_entry_block(
        &mut self,
        data: &Vec<u8>,
        block_num: u32,
        bytes_written: usize,
    ) -> (r: Result<usize, Ext2Error>)
        requires
            old(self).wf(),
            bytes_written <= data@.len(),
        ensures
            final(self).superblock == old(self).superblock,
            final(self).block_groups == old(self).block_groups,
            final(self).block_size == old(self).block_size,
            final(self).block_offset == old(self).block_offset,
            final(self).uuid == old(self).uuid,
            final(self).wf(),
            match r {
                Ok(c) => {
                    &&& old(self).block_in_range(block_num as int)
                    &&& c == spec_min(
                        old(self).block_size as int,
                        data@.len() - bytes_written,
                    )
                    &&& final(self).blocks@ == splice_bytes(
                        old(self).blocks@,
                        (block_num - old(self).block_offset) * old(self).block_size,
                        data@.subrange(bytes_written as int, bytes_written + c),
                    )
                },
                Err(e) => {
                    &&& e == Ext2Error::Truncated
                    &&& !old(self).block_in_range(block_num as int)
                    &&& *final(self) == *old(self)
                },
            },
    {
        let base: usize = match self.block_base(block_num) {
            Some(base) => base,
            None => {
                return Err(Ext2Error::Truncated);
            },
        };
        let dlen: usize = data.len();
        let remaining: usize = dlen - bytes_written;
        let c: usize = if self.block_size < remaining {
            self.block_size
        } else {
            remaining
        };
        // binding the length bounds the offsets below by the machine word
        let bl: usize = self.blocks.len();
        let ghost blocks0 = self.blocks@;
        let mut j: usize = 0;
        while j < c
            invariant
                j <= c,
                c <= self.block_size,
                bytes_written + c <= data@.len(),
                base + self.block_size <= blocks0.len(),
                self.blocks@.len() == blocks0.len(),
                blocks0.len() <= usize::MAX,
                data@.len() <= usize::MAX,
                self.superblock == old(self).superblock,
                self.block_groups == old(self).block_groups,
                self.block_size == old(self).block_size,
                self.block_offset == old(self).block_offset,
                self.uuid == old(self).uuid,
                self.wf(),
                forall|t: int|
                    0 <= t < blocks0.len() && !(base <= t < base + j) ==> self.blocks@[t]
                        == blocks0[t],
                forall|t: int|
                    0 <= t < j ==> #[trigger] self.blocks@[base + t] == data@[bytes_written + t],
            decreases c - j,
        {
            self.blocks.set(base + j, data[bytes_written + j]);
            j = j + 1;
        }
        proof {
            let chunk = data@.subrange(bytes_written as int, bytes_written + c);
            let spliced = splice_bytes(blocks0, base as int, chunk);
            assert forall|x: int| 0 <= x < blocks0.len() implies self.blocks@[x] == spliced[x] by {
                if base <= x < base + c {
                    assert(self.blocks@[base + (x - base)] == data@[bytes_written + (x - base)]);
                }
            }
            assert(self.blocks@ =~= spliced);
        }
        Ok(c)
    }

    /// The first `k` direct pointers of directory `n`, the blocks a
    /// write-back of `k` blocks of payload goes to.
    pub open spec fn spec_used_ptrs(self, n: int, k: int) -> Seq<u32> {
        Seq::new(k as nat, |i: int| self.spec_direct(n, i))
    }

    /// Whether the first `k` direct pointers of `n` are all present and
    /// inside the image.
    pub open spec fn direct_run_ok(self, n: int, k: int) -> bool {
        forall|i: int|
            0 <= i < k ==> self.spec_direct(n, i) != 0 && self.block_in_range(
                #[trigger] self.spec_direct(n, i) as int,
            )
    }

    /// Writes a directory payload back into the directory's direct data
    /// blocks, one block at a time. The payload must be whole blocks
    /// and fit in the twelve direct pointers; nothing is written unless
    /// the whole write can go through.
    /// How many direct blocks a payload of `len` bytes occupies: full
    /// blocks, plus one for a partial last block.
    pub open spec fn spec_blocks_needed(len: int, bs: int) -> int
        recommends
            bs > 0,
    {
        (len + bs - 1) / bs
    }

    /// The image bytes after a payload is written back into directory
    /// `n`'s direct blocks, in order, one block at a time, the last
    /// block possibly partial.
    pub open spec fn spec_write_back(self, n: int, data: Seq<u8>) -> Seq<u8> {
        let bs = self.block_size as int;
        let kf = data.len() as int / bs;
        let full = write_chunks(
            self.blocks@,
            self.spec_used_ptrs(n, kf),
            self.block_offset as int,
            bs,
            data,
            0,
        );
        if data.len() as int % bs == 0 {
            full
        } else {
            splice_bytes(
                full,
                (self.spec_direct(n, kf) - self.block_offset) * bs,
                data.skip(kf * bs),
            )
        }
    }

    /// Writes a directory payload back into the directory's direct data
    /// blocks, one block at a time, the last block possibly partial.
    /// Nothing is written unless the whole write can go through.
    #[verifier::rlimit(100)]
    pub fn write_dir_inode(&mut self, inode: usize, data: &Vec<u8>) -> (r: Result<(), Ext2Error>)
        requires
            old(self).wf(),
            data@.len() <= 12 * old(self).block_size,
        ensures
            final(self).superblock == old(self).superblock,
            final(self).block_groups == old(self).block_groups,
            final(self).block_size == old(self).block_size,
            final(self).block_offset == old(self).block_offset,
            final(self).uuid == old(self).uuid,
            final(self).wf(),
            r.is_ok() <==> old(self).inode_number_ok(inode as int) && old(self).inode_located(
                inode as int,
            ) && old(self).spec_is_dir(inode as int) && old(self).direct_run_ok(
                inode as int,
                Ext2::spec_blocks_needed(data@.len() as int, old(self).block_size as int),
            ),
            r matches Ok(()) ==> final(self).blocks@ == old(self).spec_write_back(
                inode as int,
                data@,
            ),
            r matches Err(e) ==> *final(self) == *old(self) && {
                let n = inode as int;
                if !old(self).inode_number_ok(n) {
                    e == Ext2Error::NoSuchInode
                } else if !old(self).inode_located(n) {
                    e == Ext2Error::Truncated
                } else if !old(self).spec_is_dir(n) {
                    e == Ext2Error::NotADirectory
                } else {
                    e == Ext2Error::NoSpace || e == Ext2Error::Truncated
                }
            },
    {
        let ghost n = inode as int;
        let ino = match self.get_inode(inode) {
            Ok(ino) => ino,
            Err(e) => {
                return Err(e);
            },
        };
        if ino.type_perm & crate::layout::TYPE_DIRECTORY != crate::layout::TYPE_DIRECTORY {
            return Err(Ext2Error::NotADirectory);
        }
        let dlen: usize = data.len();
        let kf: usize = dlen / self.block_size;
        let rem: usize = dlen % self.block_size;
        let nb: usize = if rem == 0 {
            kf
        } else {
            kf + 1
        };
        proof {
            vstd::arithmetic::div_mod::lemma_fundamental_div_mod(
                dlen as int,
                self.block_size as int,
            );
            vstd::arithmetic::div_mod::lemma_mod_bound(dlen as int, self.block_size as int);
            assert(self.block_size as int * (dlen as int / self.block_size as int) + rem
                == dlen);
            assert(kf * self.block_size + rem == dlen) by (nonlinear_arith)
                requires
                    self.block_size as int * (kf as int) + rem == dlen,
            ;
            assert(kf <= 12) by (nonlinear_arith)
                requires
                    kf * self.block_size + rem == dlen,
                    dlen <= 12 * self.block_size,
                    self.block_size > 0,
                    kf >= 0,
                    rem >= 0,
            ;
            if rem > 0 {
                assert(kf < 12) by (nonlinear_arith)
                    requires
                        kf * self.block_size + rem == dlen,
                        dlen <= 12 * self.block_size,
                        self.block_size > rem > 0,
                        kf >= 0,
                ;
            }
            if rem == 0 {
                assert(dlen + self.block_size - 1 == nb as int * self.block_size + (
                self.block_size - 1)) by (nonlinear_arith)
                    requires
                        kf * self.block_size + rem == dlen,
                        rem == 0,
                        nb == kf,
                ;
                vstd::arithmetic::div_mod::lemma_fundamental_div_mod_converse_div(
                    dlen + self.block_size - 1,
                    self.block_size as int,
                    nb as int,
                    self.block_size - 1,
                );
            } else {
                assert(dlen + self.block_size - 1 == nb as int * self.block_size + (rem - 1))
                    by (nonlinear_arith)
                    requires
                        kf * self.block_size + rem == dlen,
                        rem > 0,
                        nb == kf + 1,
                ;
                vstd::arithmetic::div_mod::lemma_fundamental_div_mod_converse_div(
                    dlen + self.block_size - 1,
                    self.block_size as int,
                    nb as int,
                    rem - 1,
                );
            }
            assert(nb == Ext2::spec_blocks_needed(dlen as int, self.block_size as int));
        }
        // validate every needed pointer before touching anything
        let mut i: usize = 0;
        while i < nb
            invariant
                self == old(self),
                self.wf(),
                n == inode as int,
                self.inode_number_ok(n),
                self.inode_located(n),
                self.spec_is_dir(n),
                nb <= 12,
                nb == Ext2::spec_blocks_needed(data@.len() as int, self.block_size as int),
                0 <= i <= nb,
                forall|j: int| 0 <= j < 12 ==> ino.direct_pointer@[j] == self.spec_direct(n, j),
                forall|j: int|
                    0 <= j < i ==> self.spec_direct(n, j) != 0 && self.block_in_range(
                        #[trigger] self.spec_direct(n, j) as int,
                    ),
            decreases nb - i,
        {
            let p: u32 = ino.direct_pointer[i];
            if p == 0 {
                return Err(Ext2Error::NoSpace);
            }
            match self.block_base(p) {
                Some(_) => {},
                None => {
                    return Err(Ext2Error::Truncated);
                },
            }
            i = i + 1;
        }
        // now write the full blocks, block after block
        let ghost blocks0 = self.blocks@;
        let ghost ptrs = old(self).spec_used_ptrs(n, kf as int);
        let mut w: usize = 0;
        while w < kf
            invariant
                self.superblock == old(self).superblock,
                self.block_groups == old(self).block_groups,
                self.block_size == old(self).block_size,
                self.block_offset == old(self).block_offset,
                self.uuid == old(self).uuid,
                self.wf(),
                n == inode as int,
                kf <= nb <= 12,
                0 <= w <= kf,
                rem == data@.len() as int % self.block_size as int,
                blocks0 == old(self).blocks@,
                ptrs == old(self).spec_used_ptrs(n, kf as int),
                ptrs.len() == kf,
                kf * self.block_size + rem == data@.len(),
                forall|j: int|
                    0 <= j < nb ==> ino.direct_pointer@[j] == old(self).spec_direct(n, j),
                forall|j: int| 0 <= j < kf ==> ino.direct_pointer@[j] == ptrs[j],
                forall|j: int|
                    0 <= j < nb ==> old(self).spec_direct(n, j) != 0 && old(
                        self,
                    ).block_in_range(#[trigger] old(self).spec_direct(n, j) as int),
                self.blocks@.len() == blocks0.len(),
                write_chunks(
                    blocks0,
                    ptrs,
                    self.block_offset as int,
                    self.block_size as int,
                    data@,
                    0,
                ) == write_chunks(
                    self.blocks@,
                    ptrs,
                    self.block_offset as int,
                    self.block_size as int,
                    data@,
                    w as int,
                ),
            decreases kf - w,
        {
            let p: u32 = ino.direct_pointer[w];
            let bytes_written: usize = w * self.block_size;
            proof {
                assert(w * self.block_size + self.block_size == (w + 1) * self.block_size)
                    by (nonlinear_arith);
                assert(w * self.block_size < kf * self.block_size) by (nonlinear_arith)
                    requires
                        0 <= w < kf,
                        self.block_size > 0,
                ;
                assert((w + 1) * self.block_size <= kf * self.block_size) by (nonlinear_arith)
                    requires
                        0 <= w < kf,
                        self.block_size > 0,
                ;
                assert(ptrs[w as int] == old(self).spec_direct(n, w as int));
            }
            let ghost pre = self.blocks@;
            match self.write_dir_entry_block(data, p, bytes_written) {
                Ok(c) => {
                    proof {
                        assert(c == self.block_size);
                        assert(write_chunks(
                            pre,
                            ptrs,
                            self.block_offset as int,
                            self.block_size as int,
                            data@,
                            w as int,
                        ) == write_chunks(
                            self.blocks@,
                            ptrs,
                            self.block_offset as int,
                            self.block_size as int,
                            data@,
                            w + 1,
                        ));
                    }
                },
                Err(_) => {
                    proof {
                        assert(false);
                    }
                    return Err(Ext2Error::Truncated);
                },
            }
            w = w + 1;
        }
        let ghost full = write_chunks(
            blocks0,
            ptrs,
            self.block_offset as int,
            self.block_size as int,
            data@,
            0,
        );
        proof {
            assert(full == self.blocks@);
        }
        // the partial last block, where the payload leaves one
        if rem > 0 {
            let p: u32 = ino.direct_pointer[kf];
            let bytes_written: usize = kf * self.block_size;
            let ghost pre = self.blocks@;
            match self.write_dir_entry_block(data, p, bytes_written) {
                Ok(c) => {
                    proof {
                        assert(c == rem);
                        assert(data@.subrange(bytes_written as int, bytes_written + rem)
                            =~= data@.skip(kf as int * self.block_size as int));
                        assert(self.blocks@ == old(self).spec_write_back(n, data@));
                    }
                },
                Err(_) => {
                    proof {
                        assert(false);
                    }
                    return Err(Ext2Error::Truncated);
                },
            }
        }
        Ok(())
    }
}

/// Stored record lengths are never negative.
pub proof fn lemma_sum_nonneg(es: Seq<SpecDirEntry>)
    ensures
        sum_entry_sizes(es) >= 0,
    decreases es.len(),
{
    if es.len() > 0 {
        lemma_sum_nonneg(es.drop_first());
    }
}

/// The sum of the record lengths splits off the last entry.
pub proof fn lemma_sum_drop_last(es: Seq<SpecDirEntry>)
    requires
        es.len() >= 1,
    ensures
        sum_entry_sizes(es) == sum_entry_sizes(es.drop_last()) + es.last().entry_size,
    decreases es.len(),
{
    if es.len() == 1 {
        assert(sum_entry_sizes(es) == es[0].entry_size + sum_entry_sizes(es.drop_first()));
        assert(es.drop_first().len() == 0);
        assert(sum_entry_sizes(es.drop_first()) == 0);
        assert(es.drop_last().len() == 0);
        assert(sum_entry_sizes(es.drop_last()) == 0);
        assert(es.last() == es[0]);
    } else {
        lemma_sum_drop_last(es.drop_first());
        assert(sum_entry_sizes(es) == es[0].entry_size + sum_entry_sizes(es.drop_first()));
        assert(es.drop_first().drop_last() =~= es.drop_last().drop_first());
        assert(es.drop_last()[0] == es[0]);
        assert(sum_entry_sizes(es.drop_last()) == es[0].entry_size + sum_entry_sizes(
            es.drop_last().drop_first(),
        ));
        assert(es.drop_first().last() == es.last());
    }
}

/// A sum of four-byte-aligned record lengths is four-byte aligned.
pub proof fn lemma_sum_aligned(es: Seq<SpecDirEntry>)
    requires
        forall|k: int| 0 <= k < es.len() ==> (#[trigger] es[k]).entry_size % 4 == 0,
    ensures
        sum_entry_sizes(es) % 4 == 0,
    decreases es.len(),
{
    if es.len() > 0 {
        assert forall|k: int|
            0 <= k < es.drop_first().len() implies (#[trigger] es.drop_first()[k]).entry_size % 4
            == 0 by {
            assert(es.drop_first()[k] == es[k + 1]);
        }
        lemma_sum_aligned(es.drop_first());
        assert(es[0].entry_size % 4 == 0);
    }
}

/// The walk restarted at the offset of the `m`-th entry yields the
/// entries from `m` on.
pub proof fn lemma_parse_suffix(data: Seq<u8>, bs: int, off: int, es: Seq<SpecDirEntry>, m: int)
    requires
        bs > 0,
        0 <= off <= data.len(),
        parse_from(data, bs, off) == Some(es),
        0 <= m <= es.len(),
    ensures
        off + sum_entry_sizes(es.take(m)) <= data.len(),
        parse_from(data, bs, off + sum_entry_sizes(es.take(m))) == Some(es.skip(m)),
    decreases m,
{
    if m == 0 {
        assert(es.take(0).len() == 0);
        assert(es.skip(0) =~= es);
    } else {
        let esz0 = spec_le16(data, off + 4) as int;
        let rest = parse_from(data, bs, off + esz0).unwrap();
        assert(rest =~= es.drop_first());
        lemma_parse_suffix(data, bs, off + esz0, rest, m - 1);
        assert(es.take(m).drop_first() =~= rest.take(m - 1));
        assert(es.take(m)[0] == es[0]);
        assert(sum_entry_sizes(es.take(m)) == es[0].entry_size + sum_entry_sizes(
            rest.take(m - 1),
        ));
        assert(es.skip(m) =~= rest.skip(m - 1));
    }
}

/// A record is a function of its own bytes: two equal-length payloads
/// that agree on the record's bytes parse it alike.
pub proof fn lemma_entry_agree(d1: Seq<u8>, d2: Seq<u8>, bs: int, off: int)
    requires
        bs > 0,
        0 <= off,
        d1.len() == d2.len(),
        entry_ok(d1, bs, off),
        forall|j: int| off <= j < off + spec_le16(d1, off + 4) ==> d1[j] == d2[j],
    ensures
        entry_ok(d2, bs, off),
        entry_at(d2, off) == entry_at(d1, off),
{
    let esz = spec_le16(d1, off + 4) as int;
    assert(spec_le16(d2, off + 4) == spec_le16(d1, off + 4));
    assert(d1.subrange(off + 8, off + esz) =~= d2.subrange(off + 8, off + esz));
}

/// Splicing a new tail under the last record: a payload that keeps the
/// bytes of every entry but the last and parses to some new tail at the
/// last entry's offset parses to the old front entries plus that tail.
pub proof fn lemma_parse_splice(
    d1: Seq<u8>,
    d2: Seq<u8>,
    bs: int,
    off: int,
    es1: Seq<SpecDirEntry>,
    tail2: Seq<SpecDirEntry>,
)
    requires
        bs > 0,
        0 <= off <= d1.len(),
        d1.len() == d2.len(),
        parse_from(d1, bs, off) == Some(es1),
        es1.len() >= 1,
        forall|j: int| off <= j < off + sum_entry_sizes(es1.drop_last()) ==> d1[j] == d2[j],
        parse_from(d2, bs, off + sum_entry_sizes(es1.drop_last())) == Some(tail2),
    ensures
        parse_from(d2, bs, off) == Some(es1.drop_last() + tail2),
    decreases es1.len(),
{
    if es1.len() == 1 {
        assert(es1.drop_last().len() == 0);
        assert(sum_entry_sizes(es1.drop_last()) == 0);
        assert(es1.drop_last() + tail2 =~= tail2);
    } else {
        let esz0 = spec_le16(d1, off + 4) as int;
        let rest1 = parse_from(d1, bs, off + esz0).unwrap();
        assert(rest1 =~= es1.drop_first());
        assert(es1.drop_last()[0] == es1[0]);
        assert(es1.drop_last().drop_first() =~= rest1.drop_last());
        assert(sum_entry_sizes(es1.drop_last()) == esz0 + sum_entry_sizes(rest1.drop_last()));
        lemma_sum_nonneg(rest1.drop_last());
        lemma_entry_agree(d1, d2, bs, off);
        lemma_parse_splice(d1, d2, bs, off + esz0, rest1, tail2);
        assert(spec_le16(d2, off + 4) == spec_le16(d1, off + 4));
        assert(parse_from(d2, bs, off) == Some(
            seq![entry_at(d2, off)] + (rest1.drop_last() + tail2),
        ));
        assert(seq![entry_at(d1, off)] + (rest1.drop_last() + tail2) =~= es1.drop_last()
            + tail2);
    }
}

/// Shortening the region a name is read from does not change the name,
/// as long as the cut stays at or past the terminating NUL.
pub proof fn lemma_nul_prefix_take(s: Seq<u8>, k: int)
    requires
        first_nul(s) <= k <= s.len(),
    ensures
        nul_prefix(s.take(k)) == nul_prefix(s),
{
    lemma_first_nul(s);
    let f = first_nul(s);
    if f < k {
        assert(s.take(k)[f] == 0);
        assert forall|j: int| 0 <= j < f implies s.take(k)[j] != 0 by {
            assert(s.take(k)[j] == s[j]);
        }
        lemma_first_nul_at(s.take(k), f);
        assert(s.take(k).take(f) =~= s.take(f));
    } else {
        assert forall|j: int| 0 <= j < k implies s.take(k)[j] != 0 by {
            assert(s.take(k)[j] == s[j]);
        }
        lemma_first_nul_at(s.take(k), k);
        assert(s.take(k).take(k) =~= s.take(k));
    }
}

/// A gather over pointers whose blocks hold consecutive chunks of
/// `data` reads back exactly `data`: the ground for re-reading a
/// directory after its payload was written back.
pub proof fn lemma_gather_reads_chunks(
    fs: Ext2,
    ptrs: Seq<u32>,
    data: Seq<u8>,
    i: int,
    k: int,
)
    requires
        fs.wf(),
        0 <= i <= k <= ptrs.len(),
        data.len() == k * fs.block_size,
        forall|t: int|
            i <= t < k ==> (#[trigger] ptrs[t]) != 0 && fs.block_in_range(ptrs[t] as int)
                && fs.spec_block(ptrs[t] as int) == data.subrange(
                t * fs.block_size,
                (t + 1) * fs.block_size,
            ),
    ensures
        gather_from(fs, ptrs, i, data.len() - i * fs.block_size) == Some(
            data.skip(i * fs.block_size),
        ),
    decreases k - i,
{
    let bs = fs.block_size as int;
    assert(i * bs >= 0 && i * bs <= k * bs) by (nonlinear_arith)
        requires
            0 <= i <= k,
            bs > 0,
    ;
    let rem = data.len() - i * bs;
    if i == k {
        assert(rem == 0);
        assert(data.skip(i * bs) =~= Seq::<u8>::empty());
    } else {
        assert((i + 1) * bs == i * bs + bs) by (nonlinear_arith);
        assert((i + 1) * bs <= k * bs) by (nonlinear_arith)
            requires
                i + 1 <= k,
                bs > 0,
        ;
        assert(rem >= bs);
        let p = ptrs[i];
        lemma_spec_block_len(fs, p as int);
        let c = spec_min(bs, rem);
        assert(c == bs);
        assert(fs.spec_block(p as int).take(bs) =~= fs.spec_block(p as int));
        lemma_gather_reads_chunks(fs, ptrs, data, i + 1, k);
        assert(gather_from(fs, ptrs, i + 1, rem - bs) == Some(data.skip((i + 1) * bs)));
        assert(data.subrange(i * bs, (i + 1) * bs) + data.skip((i + 1) * bs) =~= data.skip(
            i * bs,
        ));
    }
}

/// Whether some byte of `name` is NUL: such a name cannot round-trip
/// through a NUL-terminated record.
pub open spec fn has_nul(name: Seq<u8>) -> bool {
    exists|j: int| 0 <= j < name.len() && name[j] == 0
}

/// Writes `patch` into `data` at `off`, leaving every other byte alone.
pub fn splice_into(data: &mut Vec<u8>, off: usize, patch: &Vec<u8>)
    requires
        off + patch@.len() <= old(data)@.len(),
    ensures
        final(data)@ == splice_bytes(old(data)@, off as int, patch@),
        final(data)@.len() == old(data)@.len(),
{
    // binding the length bounds the offsets below by the machine word
    let dl: usize = data.len();
    let pl: usize = patch.len();
    let ghost data0 = data@;
    let mut j: usize = 0;
    while j < pl
        invariant
            j <= pl,
            off + pl <= data0.len(),
            data0.len() <= usize::MAX,
            pl == patch@.len(),
            data@.len() == data0.len(),
            forall|t: int| 0 <= t < data0.len() && !(off <= t < off + j) ==> data@[t] == data0[t],
            forall|t: int| 0 <= t < j ==> #[trigger] data@[off + t] == patch@[t],
        decreases pl - j,
    {
        data.set(off + j, patch[j]);
        j = j + 1;
    }
    proof {
        let spliced = splice_bytes(data0, off as int, patch@);
        assert forall|x: int| 0 <= x < data0.len() implies data@[x] == spliced[x] by {
            if off <= x < off + pl {
                assert(data@[off + (x - off)] == patch@[x - off]);
            }
        }
        assert(data@ =~= spliced);
    }
}

/// Where the last record of a parsed payload stands: at the offset the
/// other records' stored lengths sum to, reaching exactly the end.
proof fn lemma_locate_last(d: Seq<u8>, bs: int, es: Seq<SpecDirEntry>)
    requires
        bs > 0,
        parse_from(d, bs, 0) == Some(es),
        es.len() >= 1,
    ensures
        sum_entry_sizes(es) == d.len(),
        sum_entry_sizes(es.drop_last()) == d.len() - es.last().entry_size,
        8 <= es.last().entry_size <= d.len(),
        (d.len() - es.last().entry_size) % 4 == 0,
        parse_from(d, bs, d.len() - es.last().entry_size) == Some(seq![es.last()]),
        entry_ok(d, bs, d.len() - es.last().entry_size),
        entry_at(d, d.len() - es.last().entry_size) == es.last(),
{
    lemma_parse_accounts(d, bs, 0, es);
    lemma_sum_drop_last(es);
    lemma_sum_nonneg(es.drop_last());
    lemma_parse_suffix(d, bs, 0, es, es.len() - 1);
    assert(es.take(es.len() - 1) =~= es.drop_last());
    assert(es.skip(es.len() - 1) =~= seq![es.last()]);
    assert(es[es.len() - 1].entry_size >= 8);
    let ll = d.len() - es.last().entry_size;
    assert(parse_from(d, bs, ll) == Some(seq![es.last()]));
    let tail1 = parse_from(d, bs, ll).unwrap();
    assert(entry_ok(d, bs, ll));
    assert(tail1[0] == entry_at(d, ll));
    assert forall|k: int|
        0 <= k < es.drop_last().len() implies (#[trigger] es.drop_last()[k]).entry_size % 4
        == 0 by {
        assert(es.drop_last()[k] == es[k]);
    }
    lemma_sum_aligned(es.drop_last());
}

/// The edited payload of an insert parses to the old entries with the
/// last cut to its minimum, then the new record filling the slack.
#[verifier::rlimit(100)]
proof fn lemma_insert_payload_parse(
    d1: Seq<u8>,
    dmid: Seq<u8>,
    d2: Seq<u8>,
    patch1: Seq<u8>,
    rec: Seq<u8>,
    bs: int,
    size: int,
    k: int,
    es: Seq<SpecDirEntry>,
    ll: int,
    last_esz: int,
    min_len: int,
    new_off: int,
    esz_new: int,
    nlen: int,
    name: Seq<u8>,
    child: u32,
)
    requires
        bs > 0,
        bs % 4 == 0,
        d1.len() == size,
        size == k * bs,
        size >= 1,
        parse_from(d1, bs, 0) == Some(es),
        es.len() >= 1,
        ll == sum_entry_sizes(es.drop_last()),
        ll >= 0,
        ll % 4 == 0,
        last_esz == es.last().entry_size,
        ll + last_esz == size,
        entry_ok(d1, bs, ll),
        entry_at(d1, ll) == es.last(),
        min_len == spec_round_up4(9 + es.last().name_length),
        new_off == ll + min_len,
        new_off + 9 + nlen <= size,
        esz_new == size - new_off,
        nlen == name.len(),
        nlen <= 254,
        !has_nul(name),
        patch1.len() == 2,
        spec_le16(patch1, 0) == min_len,
        rec.len() == 9 + nlen,
        spec_le32(rec, 0) == child,
        spec_le16(rec, 4) == esz_new,
        rec[6] == (nlen + 1) as u8,
        rec[7] == 2,
        forall|u: int| 0 <= u < nlen ==> rec[8 + u] == name[u],
        rec[8 + nlen] == 0,
        dmid == splice_bytes(d1, ll + 4, patch1),
        d2 == splice_bytes(dmid, new_off, rec),
    ensures
        d2.len() == size,
        parse_from(d2, bs, 0) == Some(
            es.drop_last() + seq![
                SpecDirEntry {
                    inode: es.last().inode,
                    entry_size: min_len as u16,
                    name_length: es.last().name_length,
                    type_indicator: es.last().type_indicator,
                    name: es.last().name,
                },
                SpecDirEntry {
                    inode: child,
                    entry_size: esz_new as u16,
                    name_length: (nlen + 1) as u8,
                    type_indicator: 2,
                    name: name,
                },
            ],
        ),
{
    let resized = SpecDirEntry {
        inode: es.last().inode,
        entry_size: min_len as u16,
        name_length: es.last().name_length,
        type_indicator: es.last().type_indicator,
        name: es.last().name,
    };
    let fresh = SpecDirEntry {
        inode: child,
        entry_size: esz_new as u16,
        name_length: (nlen + 1) as u8,
        type_indicator: 2,
        name: name,
    };
    lemma_round_up4(9 + es.last().name_length);
    lemma_splice_bytes(d1, ll + 4, patch1);
    lemma_splice_bytes(dmid, new_off, rec);
    // the unmodified stretches
    assert forall|x: int|
        0 <= x < size && !(ll + 4 <= x < ll + 6) && !(new_off <= x < new_off + 9
            + nlen) implies d2[x] == d1[x] by {
        assert(dmid[x] == d1[x]);
    }
    assert(dmid[ll + 4] == patch1[0]);
    assert(dmid[ll + 5] == patch1[1]);
    assert(d2[ll + 4] == patch1[0]);
    assert(d2[ll + 5] == patch1[1]);
    assert(spec_le16(d2, ll + 4) == min_len);
    assert forall|u: int| 0 <= u < rec.len() implies d2[new_off + u] == rec[u] by {}
    assert(d2[new_off] == rec[0]);
    assert(d2[new_off + 1] == rec[1]);
    assert(d2[new_off + 2] == rec[2]);
    assert(d2[new_off + 3] == rec[3]);
    assert(spec_le32(d2, new_off) == spec_le32(rec, 0));
    assert(spec_le16(d2, new_off + 4) == spec_le16(rec, 4));
    assert(d2[new_off + 6] == (nlen + 1) as u8);
    assert(d2[new_off + 7] == 2);
    assert forall|u: int| 0 <= u < nlen implies d2[new_off + 8 + u] == name[u] by {
        assert(d2[new_off + (8 + u)] == rec[8 + u]);
    }
    assert(d2[new_off + (8 + nlen)] == rec[8 + nlen]);
    assert(d2[new_off + 8 + nlen] == 0);
    // the resized last record
    assert(min_len <= last_esz);
    assert(ll % bs + last_esz <= bs);
    assert(ll % bs + min_len <= bs);
    assert(d2[ll + 6] == d1[ll + 6]);
    assert(d2[ll + 6] == es.last().name_length);
    let region_old = d1.subrange(ll + 8, ll + last_esz);
    let region_new = d2.subrange(ll + 8, ll + min_len);
    assert(region_new =~= region_old.take(min_len - 8));
    lemma_first_nul(region_old);
    assert(nul_prefix(region_old).len() == first_nul(region_old));
    assert(first_nul(region_old) <= es.last().name_length);
    lemma_nul_prefix_take(region_old, min_len - 8);
    assert(entry_ok(d2, bs, ll));
    assert(entry_at(d2, ll) == resized);
    // the new record is four-byte aligned inside the last block
    let q = bs / 4;
    vstd::arithmetic::div_mod::lemma_fundamental_div_mod(bs, 4);
    assert(size == (k * q) * 4) by (nonlinear_arith)
        requires
            size == k * bs,
            bs == 4 * q,
    ;
    vstd::arithmetic::div_mod::lemma_mod_multiples_basic(k * q, 4);
    assert(size % 4 == 0);
    assert(new_off % 4 == 0);
    assert(esz_new % 4 == 0);
    assert(k >= 1) by (nonlinear_arith)
        requires
            size == k * bs,
            size >= 1,
            bs > 0,
    ;
    assert(new_off % bs + esz_new <= bs) by {
        assert(ll >= size - bs);
        assert(new_off >= size - bs);
        assert(new_off < size);
        assert(size - bs == bs * (k - 1)) by (nonlinear_arith)
            requires
                size == k * bs,
        ;
        vstd::arithmetic::div_mod::lemma_fundamental_div_mod_converse_mod(
            new_off,
            bs,
            k - 1,
            new_off - (size - bs),
        );
    }
    let region_f = d2.subrange(new_off + 8, new_off + esz_new);
    assert forall|u: int| 0 <= u < nlen implies region_f[u] != 0 by {
        assert(region_f[u] == name[u]);
    }
    assert(region_f[nlen] == 0);
    lemma_first_nul_at(region_f, nlen);
    assert(region_f.take(nlen) =~= name);
    assert(entry_ok(d2, bs, new_off));
    assert(entry_at(d2, new_off) == fresh);
    // chain the tail together
    assert(parse_from(d2, bs, size) == Some(Seq::<SpecDirEntry>::empty()));
    assert(parse_from(d2, bs, new_off) == Some(seq![fresh] + Seq::<SpecDirEntry>::empty()));
    assert(seq![fresh] + Seq::<SpecDirEntry>::empty() =~= seq![fresh]);
    assert(parse_from(d2, bs, ll) == Some(seq![resized] + seq![fresh]));
    assert(seq![resized] + seq![fresh] =~= seq![resized, fresh]);
    lemma_parse_splice(d1, d2, bs, 0, es, seq![resized, fresh]);
}

/// Builds the byte run of a new directory record: child inode, stored
/// length, stored name length (the name plus its NUL), type indicator
/// 2, the name bytes, and the terminating NUL.
fn build_new_record(name: &Vec<u8>, child: u32, esz_new: usize) -> (r: Vec<u8>)
    requires
        name@.len() <= 254,
        esz_new < 0x1_0000,
    ensures
        r@.len() == 9 + name@.len(),
        spec_le32(r@, 0) == child,
        spec_le16(r@, 4) == esz_new,
        r@[6] == (name@.len() + 1) as u8,
        r@[7] == 2,
        forall|u: int| 0 <= u < name@.len() ==> r@[8 + u] == name@[u],
        r@[8 + name@.len() as int] == 0,
{
    let nlen: usize = name.len();
    let mut rec: Vec<u8> = Vec::new();
    rec.push((child % 0x100) as u8);
    rec.push(((child / 0x100) % 0x100) as u8);
    rec.push(((child / 0x1_0000) % 0x100) as u8);
    rec.push((child / 0x100_0000) as u8);
    rec.push((esz_new % 0x100) as u8);
    rec.push((esz_new / 0x100) as u8);
    rec.push((nlen + 1) as u8);
    rec.push(2);
    let ghost rec_head = rec@;
    let mut t: usize = 0;
    while t < nlen
        invariant
            t <= nlen,
            nlen == name@.len(),
            rec_head.len() == 8,
            rec@ == rec_head + name@.take(t as int),
        decreases nlen - t,
    {
        rec.push(name[t]);
        proof {
            assert(rec@ =~= rec_head + name@.take(t + 1));
        }
        t = t + 1;
    }
    rec.push(0);
    proof {
        assert(name@.take(nlen as int) =~= name@);
        assert(rec@ =~= (rec_head + name@).push(0));
        assert(spec_le32(rec@, 0) == child);
        assert(spec_le16(rec@, 4) == esz_new);
    }
    rec
}

/// Performs the two in-place edits of an insert on a gathered payload:
/// the last record's stored length is overwritten with its minimum,
/// and the new record is laid into the slack after it, its stored
/// length reaching the end of the payload.
#[verifier::rlimit(100)]
fn apply_insert_edit(
    data: &mut Vec<u8>,
    ll: usize,
    min_len: usize,
    new_off: usize,
    name: &Vec<u8>,
    child: u32,
    Ghost(bs): Ghost<int>,
    Ghost(es): Ghost<Seq<SpecDirEntry>>,
    Ghost(k): Ghost<int>,
)
    requires
        bs > 0,
        bs % 4 == 0,
        bs <= 0x8000,
        old(data)@.len() == k * bs,
        1 <= old(data)@.len(),
        parse_from(old(data)@, bs, 0) == Some(es),
        es.len() >= 1,
        ll == old(data)@.len() - es.last().entry_size,
        ll == sum_entry_sizes(es.drop_last()),
        ll % 4 == 0,
        entry_ok(old(data)@, bs, ll as int),
        entry_at(old(data)@, ll as int) == es.last(),
        min_len == spec_round_up4(9 + es.last().name_length),
        new_off == ll + min_len,
        new_off + 9 + name@.len() <= old(data)@.len(),
        name@.len() <= 254,
        !has_nul(name@),
    ensures
        final(data)@.len() == old(data)@.len(),
        parse_from(final(data)@, bs, 0) == Some(
            es.drop_last() + seq![
                SpecDirEntry {
                    inode: es.last().inode,
                    entry_size: min_len as u16,
                    name_length: es.last().name_length,
                    type_indicator: es.last().type_indicator,
                    name: es.last().name,
                },
                SpecDirEntry {
                    inode: child,
                    entry_size: (old(data)@.len() - new_off) as u16,
                    name_length: (name@.len() + 1) as u8,
                    type_indicator: 2,
                    name: name@,
                },
            ],
        ),
{
    let ghost d1 = data@;
    let size: usize = data.len();
    let nlen: usize = name.len();
    let esz_new: usize = size - new_off;
    proof {
        // the new record's stored length stays within one block, so it
        // fits sixteen bits
        assert(ll as int % bs >= 0);
        assert(es.last().entry_size <= bs);
        assert(esz_new < 0x1_0000);
    }
    let mut patch1: Vec<u8> = Vec::new();
    patch1.push((min_len % 0x100) as u8);
    patch1.push((min_len / 0x100) as u8);
    splice_into(data, ll + 4, &patch1);
    let ghost dmid = data@;
    proof {
        lemma_splice_bytes(d1, ll + 4, patch1@);
        assert(spec_le16(dmid, ll + 4) == min_len);
    }
    let rec: Vec<u8> = build_new_record(name, child, esz_new);
    splice_into(data, new_off, &rec);
    proof {
        lemma_insert_payload_parse(
            d1,
            dmid,
            data@,
            patch1@,
            rec@,
            bs,
            size as int,
            k,
            es,
            ll as int,
            es.last().entry_size as int,
            min_len as int,
            new_off as int,
            esz_new as int,
            nlen as int,
            name@,
            child,
        );
    }
}

impl Ext2 {
    /// Whether the data blocks a write-back of directory `n` touches
    /// stay clear of `n`'s own inode record.
    pub open spec fn dir_blocks_avoid_inode(self, n: int, k: int) -> bool {
        forall|i: int|
            0 <= i < k ==> ((#[trigger] self.spec_direct(n, i)) - self.block_offset)
                * self.block_size + self.block_size <= self.spec_inode_off(n)
                || self.spec_inode_off(n) + self.superblock.inode_size <= (self.spec_direct(n, i)
                - self.block_offset) * self.block_size
    }

    /// Whether the first `k` direct pointers of `n` name `k` different
    /// blocks.
    pub open spec fn direct_distinct(self, n: int, k: int) -> bool {
        forall|i: int, j: int|
            0 <= i < k && 0 <= j < k && i != j ==> #[trigger] self.spec_direct(n, i)
                != #[trigger] self.spec_direct(n, j)
    }

    /// Why an insert into directory `n` is refused, or `None` where it
    /// goes through: the listing must read back whole, the name must be
    /// storable, the payload must live in present, distinct direct
    /// blocks clear of the inode table, and the new record must fit in
    /// the slack after the last record is cut to its minimum.
    pub open spec fn spec_insert_check(self, n: int, name: Seq<u8>, child: u32) -> Option<
        Ext2Error,
    >
        recommends
            self.wf(),
    {
        match self.spec_raw_list(n) {
            Err(e) => Some(e),
            Ok(es) => {
                let size = self.spec_size_of(n);
                let bs = self.block_size as int;
                let k = size / bs;
                if es.len() == 0 {
                    Some(Ext2Error::MalformedDirectory)
                } else if name.len() > 254 || has_nul(name) {
                    Some(Ext2Error::BadName)
                } else if size > 12 * bs {
                    Some(Ext2Error::NoSpace)
                } else if exists|i: int| 0 <= i < k && #[trigger] self.spec_direct(n, i) == 0 {
                    Some(Ext2Error::NoSpace)
                } else if exists|i: int|
                    0 <= i < k && !self.block_in_range(#[trigger] self.spec_direct(n, i) as int) {
                    Some(Ext2Error::Truncated)
                } else if !self.direct_distinct(n, k) {
                    Some(Ext2Error::MalformedDirectory)
                } else if !self.dir_blocks_avoid_inode(n, k) {
                    Some(Ext2Error::MalformedDirectory)
                } else if size - es.last().entry_size + spec_round_up4(9 + es.last().name_length)
                    + 9 + name.len() > size {
                    Some(Ext2Error::NoSpace)
                } else {
                    None
                }
            },
        }
    }

    /// The record list after a successful insert: the old entries, the
    /// last cut to its minimum length, and the new record at the tail,
    /// whose stored length reaches the end of the payload.
    pub open spec fn spec_entries_after_insert(self, n: int, name: Seq<u8>, child: u32) -> Seq<
        SpecDirEntry,
    >
        recommends
            self.wf(),
            self.spec_insert_check(n, name, child).is_none(),
    {
        let es = self.spec_raw_list(n).unwrap();
        let size = self.spec_size_of(n);
        let min_len = spec_round_up4(9 + es.last().name_length);
        let new_off = size - es.last().entry_size + min_len;
        let resized = SpecDirEntry {
            inode: es.last().inode,
            entry_size: min_len as u16,
            name_length: es.last().name_length,
            type_indicator: es.last().type_indicator,
            name: es.last().name,
        };
        let fresh = SpecDirEntry {
            inode: child,
            entry_size: (size - new_off) as u16,
            name_length: (name.len() + 1) as u8,
            type_indicator: 2,
            name: name,
        };
        es.drop_last() + seq![resized, fresh]
    }

    /// Builds the edited payload of an insert: the gathered payload
    /// with the last record cut to its minimum and the new record laid
    /// in the slack after it. Refuses exactly the inserts
    /// `spec_insert_check` refuses; the image itself is not touched.
    #[verifier::rlimit(100)]
    fn build_insert_payload(&self, inode: usize, name: &Vec<u8>, child: u32) -> (r: Result<
        Vec<u8>,
        Ext2Error,
    >)
        requires
            self.wf(),
        ensures
            r.is_ok() <==> self.spec_insert_check(inode as int, name@, child).is_none(),
            r matches Err(e) ==> self.spec_insert_check(inode as int, name@, child) == Some(e),
            r matches Ok(v) ==> {
                &&& v@.len() == self.spec_size_of(inode as int)
                &&& parse_from(v@, self.block_size as int, 0) == Some(
                    self.spec_entries_after_insert(inode as int, name@, child),
                )
            },
    {
        let ghost n = inode as int;
        let ghost bs = self.block_size as int;
        let mut data = match self.gather_dir_payload(inode) {
            Ok(v) => v,
            Err(e) => {
                proof {
                    assert(self.spec_raw_list(n) == Err::<Seq<SpecDirEntry>, Ext2Error>(e)) by {
                        reveal(Ext2::spec_raw_list);
                    }
                }
                return Err(e);
            },
        };
        if data.len() % self.block_size != 0 {
            proof {
                assert(self.spec_raw_list(n) == Err::<Seq<SpecDirEntry>, Ext2Error>(
                    Ext2Error::MalformedDirectory,
                )) by {
                    reveal(Ext2::spec_raw_list);
                }
            }
            return Err(Ext2Error::MalformedDirectory);
        }
        let entries = match parse_dir_entries(&data, self.block_size) {
            Ok(v) => v,
            Err(e) => {
                proof {
                    assert(self.spec_raw_list(n) == Err::<Seq<SpecDirEntry>, Ext2Error>(e)) by {
                        reveal(Ext2::spec_raw_list);
                    }
                }
                return Err(e);
            },
        };
        let ghost es = entries_view(entries@);
        proof {
            assert(self.spec_raw_list(n) == Ok::<Seq<SpecDirEntry>, Ext2Error>(es)) by {
                reveal(Ext2::spec_raw_list);
            }
        }
        let ne: usize = entries.len();
        if ne == 0 {
            return Err(Ext2Error::MalformedDirectory);
        }
        if name.len() > 254 {
            return Err(Ext2Error::BadName);
        }
        let nlen: usize = name.len();
        let mut t: usize = 0;
        let mut name_with_nul: bool = false;
        while t < nlen
            invariant
                t <= nlen,
                nlen == name@.len(),
                name_with_nul <==> exists|j: int| 0 <= j < t && name@[j] == 0,
            decreases nlen - t,
        {
            if name[t] == 0 {
                name_with_nul = true;
            }
            t = t + 1;
        }
        if name_with_nul {
            return Err(Ext2Error::BadName);
        }
        proof {
            assert(!has_nul(name@));
        }
        let size: usize = data.len();
        if size > 12 * self.block_size {
            return Err(Ext2Error::NoSpace);
        }
        let k: usize = size / self.block_size;
        proof {
            vstd::arithmetic::div_mod::lemma_fundamental_div_mod(size as int, bs);
            assert(bs * (size as int / bs) == size);
            assert(k * bs == size) by (nonlinear_arith)
                requires
                    bs * (k as int) == size,
            ;
            assert(k <= 12) by (nonlinear_arith)
                requires
                    k * bs == size,
                    size <= 12 * bs,
                    bs > 0,
                    k >= 0,
            ;
        }
        let ino = match self.get_inode(inode) {
            Ok(i) => i,
            Err(_) => {
                proof {
                    assert(false);
                }
                return Err(Ext2Error::NoSuchInode);
            },
        };
        // every needed direct pointer must be present
        let mut i: usize = 0;
        let mut any_zero: bool = false;
        while i < k
            invariant
                i <= k,
                k <= 12,
                self.wf(),
                n == inode as int,
                forall|j: int| 0 <= j < 12 ==> ino.direct_pointer@[j] == self.spec_direct(n, j),
                any_zero <==> exists|j: int| 0 <= j < i && #[trigger] self.spec_direct(n, j) == 0,
            decreases k - i,
        {
            proof {
                assert(ino.direct_pointer@[i as int] == self.spec_direct(n, i as int));
            }
            if ino.direct_pointer[i] == 0 {
                any_zero = true;
            }
            i = i + 1;
        }
        if any_zero {
            return Err(Ext2Error::NoSpace);
        }
        // ... and inside the image
        let mut out_of_range: bool = false;
        i = 0;
        while i < k
            invariant
                i <= k,
                k <= 12,
                self.wf(),
                n == inode as int,
                forall|j: int| 0 <= j < 12 ==> ino.direct_pointer@[j] == self.spec_direct(n, j),
                out_of_range <==> exists|j: int|
                    0 <= j < i && !self.block_in_range(#[trigger] self.spec_direct(n, j) as int),
            decreases k - i,
        {
            proof {
                assert(ino.direct_pointer@[i as int] == self.spec_direct(n, i as int));
            }
            match self.block_base(ino.direct_pointer[i]) {
                Some(_) => {},
                None => {
                    out_of_range = true;
                },
            }
            i = i + 1;
        }
        if out_of_range {
            return Err(Ext2Error::Truncated);
        }
        // ... name distinct blocks
        let mut dup: bool = false;
        i = 0;
        while i < k
            invariant
                i <= k,
                k <= 12,
                n == inode as int,
                forall|j: int| 0 <= j < 12 ==> ino.direct_pointer@[j] == self.spec_direct(n, j),
                dup <==> exists|a: int, b: int|
                    0 <= a < i && 0 <= b < i && a != b && #[trigger] self.spec_direct(n, a)
                        == #[trigger] self.spec_direct(n, b),
            decreases k - i,
        {
            let mut j: usize = 0;
            while j < i
                invariant
                    j <= i < k <= 12,
                    n == inode as int,
                    forall|q: int|
                        0 <= q < 12 ==> ino.direct_pointer@[q] == self.spec_direct(n, q),
                    dup <==> (exists|a: int, b: int|
                        0 <= a < i && 0 <= b < i && a != b && #[trigger] self.spec_direct(n, a)
                            == #[trigger] self.spec_direct(n, b)) || (exists|b: int|
                        0 <= b < j && self.spec_direct(n, i as int) == #[trigger] self.spec_direct(
                            n,
                            b,
                        )),
                decreases i - j,
            {
                proof {
                    assert(ino.direct_pointer@[i as int] == self.spec_direct(n, i as int));
                    assert(ino.direct_pointer@[j as int] == self.spec_direct(n, j as int));
                }
                if ino.direct_pointer[i] == ino.direct_pointer[j] {
                    dup = true;
                }
                j = j + 1;
            }
            proof {
                if !dup {
                    assert forall|a: int, b: int|
                        0 <= a < i + 1 && 0 <= b < i + 1 && a != b implies #[trigger] self
                        .spec_direct(n, a) != #[trigger] self.spec_direct(n, b) by {
                        if a == i as int {
                            assert(!(self.spec_direct(n, i as int) == self.spec_direct(n, b)));
                        } else if b == i as int {
                            assert(!(self.spec_direct(n, i as int) == self.spec_direct(n, a)));
                        }
                    }
                } else {
                    if exists|b: int|
                        0 <= b < i && self.spec_direct(n, i as int) == #[trigger] self.spec_direct(
                            n,
                            b,
                        ) {
                        let b = choose|b: int|
                            0 <= b < i && self.spec_direct(n, i as int)
                                == #[trigger] self.spec_direct(n, b);
                        assert(0 <= i < i + 1 && 0 <= b < i + 1 && i as int != b
                            && self.spec_direct(n, i as int) == self.spec_direct(n, b));
                    }
                }
            }
            i = i + 1;
        }
        if dup {
            proof {
                assert(!self.direct_distinct(n, k as int));
            }
            return Err(Ext2Error::MalformedDirectory);
        }
        proof {
            assert(self.direct_distinct(n, k as int));
        }
        // ... and stay clear of the directory's own inode record
        let ro: usize = match self.locate_inode(inode) {
            Some(o) => o,
            None => {
                proof {
                    assert(false);
                }
                return Err(Ext2Error::NoSuchInode);
            },
        };
        let isz: usize = self.superblock.inode_size as usize;
        // binding the length bounds the offsets below by the machine word
        let blen: usize = self.blocks.len();
        let mut overlap: bool = false;
        i = 0;
        while i < k
            invariant
                i <= k,
                k <= 12,
                self.wf(),
                n == inode as int,
                ro == self.spec_inode_off(n),
                ro + isz <= self.blocks@.len(),
                blen == self.blocks@.len(),
                isz == self.superblock.inode_size,
                forall|j: int| 0 <= j < 12 ==> ino.direct_pointer@[j] == self.spec_direct(n, j),
                forall|j: int|
                    0 <= j < k ==> self.block_in_range(#[trigger] self.spec_direct(n, j) as int),
                overlap <==> exists|j: int|
                    0 <= j < i && !(((#[trigger] self.spec_direct(n, j)) - self.block_offset)
                        * self.block_size + self.block_size <= self.spec_inode_off(n)
                        || self.spec_inode_off(n) + self.superblock.inode_size <= (
                    self.spec_direct(n, j) - self.block_offset) * self.block_size),
            decreases k - i,
        {
            proof {
                assert(ino.direct_pointer@[i as int] == self.spec_direct(n, i as int));
            }
            let base: usize = match self.block_base(ino.direct_pointer[i]) {
                Some(b) => b,
                None => {
                    proof {
                        assert(false);
                    }
                    return Err(Ext2Error::Truncated);
                },
            };
            if !(base + self.block_size <= ro || ro + isz <= base) {
                overlap = true;
            }
            i = i + 1;
        }
        if overlap {
            proof {
                assert(!self.dir_blocks_avoid_inode(n, k as int));
            }
            return Err(Ext2Error::MalformedDirectory);
        }
        proof {
            assert(self.dir_blocks_avoid_inode(n, k as int));
        }
        // locate the last record and the slack an insert has
        let last_esz: usize = entries[ne - 1].entry_size as usize;
        let last_nl: usize = entries[ne - 1].name_length as usize;
        proof {
            assert(es[ne - 1] == entries@[ne - 1]@);
            assert(es.last() == es[ne - 1]);
            lemma_locate_last(data@, bs, es);
        }
        let ll: usize = size - last_esz;
        let min_len: usize = round_up4(8 + last_nl + 1);
        proof {
            lemma_round_up4(8 + last_nl + 1);
        }
        let new_off: usize = ll + min_len;
        if new_off + 8 + nlen + 1 > size {
            return Err(Ext2Error::NoSpace);
        }
        proof {
            assert(self.spec_insert_check(n, name@, child).is_none());
        }
        apply_insert_edit(
            &mut data,
            ll,
            min_len,
            new_off,
            name,
            child,
            Ghost(bs),
            Ghost(es),
            Ghost(k as int),
        );
        proof {
            assert(parse_from(data@, bs, 0) == Some(self.spec_entries_after_insert(
                n,
                name@,
                child,
            )));
        }
        Ok(data)
    }

    /// Adds a `name -> child` record to directory `inode`.
    ///
    /// The last existing record's stored length is cut to its minimum,
    /// the new record is written into the slack after it with its
    /// stored length reaching the end of the payload, and the payload
    /// goes back into the directory's direct data blocks. An insert
    /// that does not fit that slack is refused whole; on any refusal
    /// the image is untouched.
    #[verifier::rlimit(100)]
    pub fn insert_dir_entry(&mut self, inode: usize, name: &Vec<u8>, child: u32) -> (r: Result<
        (),
        Ext2Error,
    >)
        requires
            old(self).wf(),
        ensures
            final(self).superblock == old(self).superblock,
            final(self).block_groups == old(self).block_groups,
            final(self).block_size == old(self).block_size,
            final(self).block_offset == old(self).block_offset,
            final(self).uuid == old(self).uuid,
            final(self).wf(),
            r.is_ok() <==> old(self).spec_insert_check(inode as int, name@, child).is_none(),
            r matches Err(e) ==> *final(self) == *old(self) && old(self).spec_insert_check(
                inode as int,
                name@,
                child,
            ) == Some(e),
            r matches Ok(()) ==> {
                &&& final(self).blocks@.len() == old(self).blocks@.len()
                &&& final(self).spec_raw_list(inode as int) == Ok::<
                    Seq<SpecDirEntry>,
                    Ext2Error,
                >(old(self).spec_entries_after_insert(inode as int, name@, child))
                &&& final(self).spec_list(inode as int) == Ok::<Seq<SpecDirEntry>, Ext2Error>(
                    live_entries(old(self).spec_entries_after_insert(inode as int, name@, child)),
                )
                &&& final(self).spec_size_of(inode as int) == old(self).spec_size_of(inode as int)
                &&& forall|x: int|
                    0 <= x < old(self).blocks@.len() && (forall|t: int|
                        0 <= t < old(self).spec_size_of(inode as int) / old(
                            self,
                        ).block_size as int ==> !in_block_of(
                            x,
                            #[trigger] old(self).spec_direct(inode as int, t),
                            old(self).block_offset as int,
                            old(self).block_size as int,
                        )) ==> final(self).blocks@[x] == old(self).blocks@[x]
            },
    {
        let ghost n = inode as int;
        let ghost bs = self.block_size as int;
        let data = match self.build_insert_payload(inode, name, child) {
            Ok(v) => v,
            Err(e) => {
                return Err(e);
            },
        };
        let ghost d2 = data@;
        let ghost size = self.spec_size_of(n);
        let ghost k = size / bs;
        proof {
            reveal(Ext2::spec_raw_list);
            // a passing check names every fact the write-back needs
            assert(self.spec_raw_list(n) matches Ok(es) && es.len() >= 1);
            assert(size % bs == 0);
            assert(size <= 12 * bs);
            assert(self.direct_distinct(n, k));
            assert(self.dir_blocks_avoid_inode(n, k));
            assert(forall|j: int| 0 <= j < k ==> #[trigger] self.spec_direct(n, j) != 0);
            assert(forall|j: int|
                0 <= j < k ==> self.block_in_range(#[trigger] self.spec_direct(n, j) as int));
            vstd::arithmetic::div_mod::lemma_fundamental_div_mod(size, bs);
            assert(bs * (size / bs) == size);
            assert(k * bs == size) by (nonlinear_arith)
                requires
                    bs * k == size,
            ;
            assert(k <= 12) by (nonlinear_arith)
                requires
                    k * bs == size,
                    size <= 12 * bs,
                    bs > 0,
                    k >= 0,
            ;
            assert(self.direct_run_ok(n, k));
            assert(size + bs - 1 == k * bs + (bs - 1));
            vstd::arithmetic::div_mod::lemma_fundamental_div_mod_converse_div(
                size + bs - 1,
                bs,
                k,
                bs - 1,
            );
            assert(Ext2::spec_blocks_needed(size, bs) == k);
            assert(self.direct_run_ok(n, Ext2::spec_blocks_needed(size, bs)));
        }
        let ghost self0 = *self;
        match self.write_dir_inode(inode, &data) {
            Ok(()) => {},
            Err(_) => {
                proof {
                    assert(false);
                }
                return Err(Ext2Error::NoSpace);
            },
        }
        proof {
            let boff = self0.block_offset as int;
            let ptrs = self0.spec_used_ptrs(n, k);
            let roi = self0.spec_inode_off(n);
            vstd::arithmetic::div_mod::lemma_fundamental_div_mod_converse_div(size, bs, k, 0);
            assert(d2.len() as int / bs == k);
            assert(self0.spec_write_back(n, d2) == write_chunks(
                self0.blocks@,
                ptrs,
                boff,
                bs,
                d2,
                0,
            ));
            assert forall|tt: int|
                0 <= tt < ptrs.len() implies ptrs[tt] >= boff && ((#[trigger] ptrs[tt]) - boff)
                * bs + bs <= self0.blocks@.len() by {
                lemma_spec_block_len(self0, ptrs[tt] as int);
            }
            lemma_write_chunks_effect(self0.blocks@, ptrs, boff, bs, d2, 0);
            let fs1 = *self;
            let wc = write_chunks(self0.blocks@, ptrs, boff, bs, d2, 0);
            assert(fs1.blocks@ == wc);
            // the directory's inode record kept every byte
            assert forall|x: int|
                roi <= x < roi + self0.superblock.inode_size implies fs1.blocks@[x]
                == self0.blocks@[x] by {
                assert forall|tt: int| 0 <= tt < ptrs.len() implies !in_block_of(
                    x,
                    #[trigger] ptrs[tt],
                    boff,
                    bs,
                ) by {
                    assert(self0.dir_blocks_avoid_inode(n, k));
                    assert((self0.spec_direct(n, tt) - boff) * bs + bs <= roi || roi
                        + self0.superblock.inode_size <= (self0.spec_direct(n, tt) - boff) * bs);
                }
                assert(wc[x] == self0.blocks@[x]);
            }
            assert(fs1.spec_inode_off(n) == roi);
            assert(fs1.spec_type_perm(n) == self0.spec_type_perm(n));
            assert(fs1.spec_size_of(n) == self0.spec_size_of(n));
            assert forall|q: int| 0 <= q < 12 implies fs1.spec_direct(n, q) == self0.spec_direct(
                n,
                q,
            ) by {
                assert(roi + 40 + 4 * q + 4 <= roi + 128);
            }
            assert(fs1.inode_number_ok(n) && fs1.inode_located(n) && fs1.spec_is_dir(n));
            // each written block reads back as its chunk of the payload
            assert forall|tt: int|
                0 <= tt < k implies (#[trigger] fs1.spec_direct(n, tt)) != 0
                && fs1.block_in_range(fs1.spec_direct(n, tt) as int) && fs1.spec_block(
                fs1.spec_direct(n, tt) as int,
            ) == d2.subrange(tt * bs, (tt + 1) * bs) by {
                lemma_spec_block_len(self0, ptrs[tt] as int);
                lemma_spec_block_len(fs1, ptrs[tt] as int);
                assert(tt * bs + bs == (tt + 1) * bs) by (nonlinear_arith);
                assert((tt + 1) * bs <= k * bs) by (nonlinear_arith)
                    requires
                        0 <= tt < k,
                        bs > 0,
                ;
                assert(tt * bs >= 0) by (nonlinear_arith)
                    requires
                        tt >= 0,
                        bs > 0,
                ;
                assert(ptrs[tt] == fs1.spec_direct(n, tt));
                assert forall|u: int|
                    0 <= u < bs implies fs1.spec_block(fs1.spec_direct(n, tt) as int)[u]
                    == d2.subrange(tt * bs, (tt + 1) * bs)[u] by {
                    assert(write_chunks(self0.blocks@, ptrs, boff, bs, d2, 0)[(ptrs[tt] - boff)
                        * bs + u] == d2[tt * bs + u]);
                    assert(fs1.blocks@[(ptrs[tt] - boff) * bs + u] == d2[tt * bs + u]);
                    assert((ptrs[tt] - boff + 1) * bs == (ptrs[tt] - boff) * bs + bs)
                        by (nonlinear_arith);
                    assert(fs1.spec_block(fs1.spec_direct(n, tt) as int)[u] == fs1.blocks@[(
                    ptrs[tt] - boff) * bs + u]);
                    assert(d2.subrange(tt * bs, (tt + 1) * bs)[u] == d2[tt * bs + u]);
                }
                assert(fs1.spec_block(fs1.spec_direct(n, tt) as int) =~= d2.subrange(
                    tt * bs,
                    (tt + 1) * bs,
                ));
            }
            lemma_gather_reads_chunks(fs1, fs1.spec_direct_seq(n), d2, 0, k);
            assert(d2.skip(0) =~= d2);
            assert(gather_from(fs1, fs1.spec_direct_seq(n), 0, size) == Some(d2));
            assert(fs1.spec_dir_payload(n) == Some(d2));
            assert(fs1.spec_raw_list(n) == Ok::<Seq<SpecDirEntry>, Ext2Error>(
                old(self).spec_entries_after_insert(n, name@, child),
            ));
        }
        Ok(())
    }
}

/// Insert visibility: an insert of an in-use child inode that goes
/// through appends `(name, child)` as the last record of the walk and
/// as the last entry of the emitted listing, and every earlier entry —
/// walked or emitted — keeps its child inode and its name; only the
/// last old record's stored length changes. Together with
/// `insert_dir_entry`'s contract, which says the directory then lists
/// exactly these entries, a subsequent enumeration shows the new name
/// at the tail.
pub proof fn lemma_insert_visibility(fs: Ext2, n: int, name: Seq<u8>, child: u32)
    requires
        fs.wf(),
        fs.spec_insert_check(n, name, child).is_none(),
        child != 0,
    ensures
        ({
            let es = fs.spec_raw_list(n).unwrap();
            let es2 = fs.spec_entries_after_insert(n, name, child);
            let v = live_entries(es);
            let v2 = live_entries(es2);
            &&& es2.len() == es.len() + 1
            &&& es2.last().name == name
            &&& es2.last().inode == child
            &&& forall|k: int|
                0 <= k < es.len() ==> (#[trigger] es2[k]).inode == es[k].inode && es2[k].name
                    == es[k].name
            &&& v2.len() == v.len() + 1
            &&& v2.last().name == name
            &&& v2.last().inode == child
            &&& forall|k: int|
                0 <= k < v.len() ==> (#[trigger] v2[k]).inode == v[k].inode && v2[k].name
                    == v[k].name
        }),
{
    let es = fs.spec_raw_list(n).unwrap();
    let es2 = fs.spec_entries_after_insert(n, name, child);
    assert(es.len() >= 1);
    let last = es.last();
    let resized = SpecDirEntry {
        inode: last.inode,
        entry_size: spec_round_up4(9 + last.name_length) as u16,
        name_length: last.name_length,
        type_indicator: last.type_indicator,
        name: last.name,
    };
    let fresh = es2.last();
    assert forall|k: int|
        0 <= k < es.len() implies (#[trigger] es2[k]).inode == es[k].inode && es2[k].name
        == es[k].name by {
        if k < es.len() - 1 {
            assert(es2[k] == es.drop_last()[k]);
            assert(es.drop_last()[k] == es[k]);
        } else {
            assert(es2[k] == seq![resized, fresh][0]);
        }
    }
    // the emitted listings: drop the free records on both sides
    let front = live_entries(es.drop_last());
    assert(es =~= es.drop_last() + seq![last]);
    lemma_live_concat(es.drop_last(), seq![last]);
    lemma_live_concat(es.drop_last(), seq![resized, fresh]);
    assert(es2 == es.drop_last() + seq![resized, fresh]);
    // the two-record tail of the edited walk
    assert(seq![resized, fresh][0] == resized);
    assert(seq![resized, fresh].drop_first() =~= seq![fresh]);
    assert(seq![fresh][0] == fresh);
    assert(seq![fresh].drop_first() =~= Seq::<SpecDirEntry>::empty());
    assert(live_entries(Seq::<SpecDirEntry>::empty()) == Seq::<SpecDirEntry>::empty());
    assert(live_entries(seq![fresh]) =~= seq![fresh]);
    assert(seq![last][0] == last);
    assert(seq![last].drop_first() =~= Seq::<SpecDirEntry>::empty());
    let v = live_entries(es);
    let v2 = live_entries(es2);
    if last.inode != 0 {
        assert(live_entries(seq![last]) =~= seq![last]);
        assert(live_entries(seq![resized, fresh]) =~= seq![resized, fresh]);
        assert(v =~= front + seq![last]);
        assert(v2 =~= front + seq![resized, fresh]);
        assert forall|k: int|
            0 <= k < v.len() implies (#[trigger] v2[k]).inode == v[k].inode && v2[k].name
            == v[k].name by {
            if k < front.len() {
                assert(v2[k] == front[k]);
                assert(v[k] == front[k]);
            } else {
                assert(v[k] == last);
                assert(v2[k] == resized);
            }
        }
    } else {
        assert(live_entries(seq![last]) =~= Seq::<SpecDirEntry>::empty());
        assert(live_entries(seq![resized, fresh]) =~= seq![fresh]);
        assert(v =~= front);
        assert(v2 =~= front + seq![fresh]);
        assert forall|k: int|
            0 <= k < v.len() implies (#[trigger] v2[k]).inode == v[k].inode && v2[k].name
            == v[k].name by {
            assert(v2[k] == front[k]);
            assert(v[k] == front[k]);
        }
    }
}

/// Insert budget: a new record whose bytes exceed the slack freed by
/// cutting the last record to its minimum is refused — whatever else
/// holds of the directory, the check never passes, and
/// `insert_dir_entry`'s contract then leaves the image untouched.
pub proof fn lemma_insert_budget(fs: Ext2, n: int, name: Seq<u8>, child: u32)
    requires
        fs.wf(),
        fs.spec_raw_list(n) matches Ok(es) && es.len() >= 1,
        ({
            let es = fs.spec_raw_list(n).unwrap();
            let size = fs.spec_size_of(n);
            size - es.last().entry_size + spec_round_up4(9 + es.last().name_length) + 9
                + name.len() > size
        }),
    ensures
        fs.spec_insert_check(n, name, child).is_some(),
{
}

} // verus!
