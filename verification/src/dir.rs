//! Directory-entry records: the packed variable-length list a
//! directory's data blocks hold, its mathematical model, and the walk
//! that enumerates it.

use vstd::prelude::*;
use crate::Ext2Error;
use crate::bytes::{spec_le16, spec_le32, nul_prefix, read_le16, read_le32, scan_name};
use crate::fs::Ext2;

verus! {

/// The model of one directory-entry record.
pub ghost struct SpecDirEntry {
    /// Child inode number; 0 marks a free record.
    pub inode: u32,
    /// Stored record length, used to reach the next record.
    pub entry_size: u16,
    /// Stored length of the name field.
    pub name_length: u8,
    /// Stored type indicator.
    pub type_indicator: u8,
    /// The name: the bytes after the header, up to the first NUL.
    pub name: Seq<u8>,
}

/// One enumerated directory entry, with an owned copy of the name.
#[derive(Debug)]
pub struct DirEntry {
    /// Child inode number; 0 marks a free record.
    pub inode: u32,
    /// Stored record length.
    pub entry_size: u16,
    /// Stored length of the name field.
    pub name_length: u8,
    /// Stored type indicator.
    pub type_indicator: u8,
    /// The name bytes.
    pub name: Vec<u8>,
}

impl View for DirEntry {
    type V = SpecDirEntry;

    open spec fn view(&self) -> SpecDirEntry {
        SpecDirEntry {
            inode: self.inode,
            entry_size: self.entry_size,
            name_length: self.name_length,
            type_indicator: self.type_indicator,
            name: self.name@,
        }
    }
}

/// The models of a run of enumerated entries.
pub open spec fn entries_view(v: Seq<DirEntry>) -> Seq<SpecDirEntry> {
    v.map_values(|e: DirEntry| e@)
}

/// The record starting at byte `off` of a directory payload.
pub open spec fn entry_at(data: Seq<u8>, off: int) -> SpecDirEntry
    recommends
        0 <= off,
        off + spec_le16(data, off + 4) <= data.len(),
{
    SpecDirEntry {
        inode: spec_le32(data, off),
        entry_size: spec_le16(data, off + 4),
        name_length: data[off + 6],
        type_indicator: data[off + 7],
        name: nul_prefix(data.subrange(off + 8, off + spec_le16(data, off + 4))),
    }
}

/// Whether the record at `off` obeys the layout invariants: the header
/// fits, the stored length is at least the header, four-byte aligned,
/// inside the payload and inside one block, the stored name length fits
/// the record, and the name read out is no longer than the stored
/// length.
pub open spec fn entry_ok(data: Seq<u8>, bs: int, off: int) -> bool
    recommends
        bs > 0,
        0 <= off,
{
    let esz = spec_le16(data, off + 4) as int;
    &&& off + 8 <= data.len()
    &&& esz >= 8
    &&& esz % 4 == 0
    &&& off + esz <= data.len()
    &&& off % bs + esz <= bs
    &&& data[off + 6] <= esz - 8
    &&& entry_at(data, off).name.len() <= data[off + 6]
}

/// The record list of a directory payload read from byte `off` on, or
/// `None` where a record violates the layout invariants.
pub open spec fn parse_from(data: Seq<u8>, bs: int, off: int) -> Option<Seq<SpecDirEntry>>
    recommends
        bs > 0,
        0 <= off <= data.len(),
    decreases data.len() - off,
{
    if off == data.len() {
        Some(Seq::empty())
    } else if !entry_ok(data, bs, off) {
        None
    } else {
        match parse_from(data, bs, off + spec_le16(data, off + 4)) {
            None => None,
            Some(rest) => Some(seq![entry_at(data, off)] + rest),
        }
    }
}

/// The sum of the stored record lengths of a run of entries.
pub open spec fn sum_entry_sizes(es: Seq<SpecDirEntry>) -> int
    decreases es.len(),
{
    if es.len() == 0 {
        0
    } else {
        es[0].entry_size + sum_entry_sizes(es.drop_first())
    }
}

/// The records that are in use: the walked records with the free
/// ones, inode 0, dropped.
pub open spec fn live_entries(es: Seq<SpecDirEntry>) -> Seq<SpecDirEntry>
    decreases es.len(),
{
    if es.len() == 0 {
        Seq::empty()
    } else if es[0].inode == 0 {
        live_entries(es.drop_first())
    } else {
        seq![es[0]] + live_entries(es.drop_first())
    }
}

/// Dropping free records distributes over concatenation.
pub proof fn lemma_live_concat(a: Seq<SpecDirEntry>, b: Seq<SpecDirEntry>)
    ensures
        live_entries(a + b) == live_entries(a) + live_entries(b),
    decreases a.len(),
{
    if a.len() == 0 {
        assert(a + b =~= b);
        assert(live_entries(a) + live_entries(b) =~= live_entries(b));
    } else {
        assert((a + b).drop_first() =~= a.drop_first() + b);
        assert((a + b)[0] == a[0]);
        lemma_live_concat(a.drop_first(), b);
        if a[0].inode != 0 {
            assert(seq![a[0]] + (live_entries(a.drop_first()) + live_entries(b)) =~= (seq![
                a[0],
            ] + live_entries(a.drop_first())) + live_entries(b));
        }
    }
}

/// One record at the tail: kept if in use, dropped if free.
pub proof fn lemma_live_snoc(s: Seq<SpecDirEntry>, e: SpecDirEntry)
    ensures
        e.inode != 0 ==> live_entries(s.push(e)) == live_entries(s) + seq![e],
        e.inode == 0 ==> live_entries(s.push(e)) == live_entries(s),
{
    assert(s.push(e) =~= s + seq![e]);
    lemma_live_concat(s, seq![e]);
    assert(seq![e][0] == e);
    assert(seq![e].drop_first() =~= Seq::<SpecDirEntry>::empty());
    assert(live_entries(Seq::<SpecDirEntry>::empty()) == Seq::<SpecDirEntry>::empty());
    if e.inode == 0 {
        assert(live_entries(seq![e]) == live_entries(seq![e].drop_first()));
        assert(live_entries(s) + live_entries(seq![e]) =~= live_entries(s));
    } else {
        assert(live_entries(seq![e]) == seq![e] + live_entries(seq![e].drop_first()));
        assert(live_entries(seq![e]) =~= seq![e]);
    }
}

/// Per-record bounds carry from the walked records to the emitted ones.
pub proof fn lemma_live_bounds(es: Seq<SpecDirEntry>)
    requires
        forall|k: int|
            0 <= k < es.len() ==> (#[trigger] es[k]).entry_size >= 8 && es[k].name_length
                <= es[k].entry_size - 8,
    ensures
        forall|k: int|
            0 <= k < live_entries(es).len() ==> (#[trigger] live_entries(es)[k]).entry_size >= 8
                && live_entries(es)[k].name_length <= live_entries(es)[k].entry_size - 8,
    decreases es.len(),
{
    if es.len() > 0 {
        assert forall|k: int|
            0 <= k < es.drop_first().len() implies (#[trigger] es.drop_first()[k]).entry_size
            >= 8 && es.drop_first()[k].name_length <= es.drop_first()[k].entry_size - 8 by {
            assert(es.drop_first()[k] == es[k + 1]);
        }
        lemma_live_bounds(es.drop_first());
        let lv = live_entries(es);
        if es[0].inode != 0 {
            assert forall|k: int|
                0 <= k < lv.len() implies (#[trigger] lv[k]).entry_size >= 8 && lv[k].name_length
                <= lv[k].entry_size - 8 by {
                if k == 0 {
                    assert(lv[0] == es[0]);
                } else {
                    assert(lv[k] == live_entries(es.drop_first())[k - 1]);
                }
            }
        } else {
            assert(lv == live_entries(es.drop_first()));
            assert forall|k: int|
                0 <= k < lv.len() implies (#[trigger] lv[k]).entry_size >= 8 && lv[k].name_length
                <= lv[k].entry_size - 8 by {
                assert(lv[k] == live_entries(es.drop_first())[k]);
            }
        }
    }
}

/// A successful walk accounts for every payload byte: the record
/// lengths of the entries sum to the distance walked, and each entry
/// obeys the per-record bounds.
pub proof fn lemma_parse_accounts(data: Seq<u8>, bs: int, off: int, es: Seq<SpecDirEntry>)
    requires
        bs > 0,
        0 <= off <= data.len(),
        parse_from(data, bs, off) == Some(es),
    ensures
        off + sum_entry_sizes(es) == data.len(),
        forall|k: int|
            0 <= k < es.len() ==> (#[trigger] es[k]).entry_size >= 8 && es[k].entry_size % 4 == 0
                && es[k].name_length <= es[k].entry_size - 8 && es[k].name.len()
                <= es[k].name_length,
    decreases data.len() - off,
{
    if off == data.len() {
    } else {
        let esz = spec_le16(data, off + 4) as int;
        let rest = parse_from(data, bs, off + esz).unwrap();
        lemma_parse_accounts(data, bs, off + esz, rest);
        assert(es.drop_first() == rest);
        assert(sum_entry_sizes(es) == es[0].entry_size + sum_entry_sizes(rest));
        assert forall|k: int|
            0 <= k < es.len() implies (#[trigger] es[k]).entry_size >= 8 && es[k].entry_size % 4
            == 0 && es[k].name_length <= es[k].entry_size - 8 && es[k].name.len()
            <= es[k].name_length by {
            if k > 0 {
                assert(es[k] == rest[k - 1]);
            } else {
                assert(es[0] == entry_at(data, off));
            }
        }
    }
}

/// Walks the record list of a directory payload, yielding the entries
/// in on-disk order, or rejecting a payload that violates the layout
/// invariants.
pub fn parse_dir_entries(data: &Vec<u8>, block_size: usize) -> (r: Result<Vec<DirEntry>, Ext2Error>)
    requires
        0 < block_size <= 0x1_0000,
    ensures
        match r {
            Ok(v) => parse_from(data@, block_size as int, 0) == Some(entries_view(v@)),
            Err(e) => parse_from(data@, block_size as int, 0).is_none() && e
                == Ext2Error::MalformedDirectory,
        },
{
    let ghost bs = block_size as int;
    let len: usize = data.len();
    let mut out: Vec<DirEntry> = Vec::new();
    let mut off: usize = 0;
    while off < len
        invariant
            0 <= off <= len,
            len == data@.len(),
            0 < block_size <= 0x1_0000,
            bs == block_size as int,
            forall|rest: Seq<SpecDirEntry>|
                parse_from(data@, bs, off as int) == Some(rest) ==> parse_from(data@, bs, 0)
                    == Some(entries_view(out@) + rest),
            parse_from(data@, bs, off as int).is_none() ==> parse_from(data@, bs, 0).is_none(),
        decreases len - off,
    {
        if len - off < 8 {
            return Err(Ext2Error::MalformedDirectory);
        }
        let esz: u16 = read_le16(data, off + 4);
        let esz_us: usize = esz as usize;
        if esz_us < 8 || esz_us % 4 != 0 || esz_us > len - off || off % block_size + esz_us
            > block_size {
            return Err(Ext2Error::MalformedDirectory);
        }
        let name_length: u8 = data[off + 6];
        if name_length as usize > esz_us - 8 {
            return Err(Ext2Error::MalformedDirectory);
        }
        let name: Vec<u8> = scan_name(data, off + 8, off + esz_us);
        if name.len() > name_length as usize {
            return Err(Ext2Error::MalformedDirectory);
        }
        let entry = DirEntry {
            inode: read_le32(data, off),
            entry_size: esz,
            name_length,
            type_indicator: data[off + 7],
            name,
        };
        proof {
            assert(entry_ok(data@, bs, off as int));
            assert(entry@ == entry_at(data@, off as int));
        }
        let ghost old_out = out@;
        out.push(entry);
        proof {
            assert(entries_view(out@) =~= entries_view(old_out) + seq![entry@]);
            assert forall|rest: Seq<SpecDirEntry>|
                parse_from(data@, bs, off + esz_us) == Some(rest) implies parse_from(
                data@,
                bs,
                0,
            ) == Some(entries_view(out@) + rest) by {
                assert(parse_from(data@, bs, off as int) == Some(seq![entry@] + rest));
                assert(entries_view(old_out) + (seq![entry@] + rest) =~= entries_view(out@)
                    + rest);
            }
        }
        off = off + esz_us;
    }
    proof {
        assert(parse_from(data@, bs, off as int) == Some(Seq::<SpecDirEntry>::empty()));
        assert(entries_view(out@) + Seq::<SpecDirEntry>::empty() =~= entries_view(out@));
    }
    Ok(out)
}

/// The smaller of two values.
pub open spec fn spec_min(a: int, b: int) -> int {
    if a < b {
        a
    } else {
        b
    }
}

/// The bytes gathered from the pointer run `ptrs[i..]`, each non-zero
/// pointer contributing one block capped at the bytes still owed, until
/// nothing is owed or the pointers run out; `None` on a pointer outside
/// the image.
pub open spec fn gather_from(fs: Ext2, ptrs: Seq<u32>, i: int, remaining: int) -> Option<Seq<u8>>
    decreases ptrs.len() - i,
{
    if i >= ptrs.len() || remaining <= 0 {
        Some(Seq::empty())
    } else if ptrs[i] == 0 {
        gather_from(fs, ptrs, i + 1, remaining)
    } else if !fs.block_in_range(ptrs[i] as int) {
        None
    } else {
        let c = spec_min(fs.block_size as int, remaining);
        match gather_from(fs, ptrs, i + 1, remaining - c) {
            None => None,
            Some(rest) => Some(fs.spec_block(ptrs[i] as int).take(c) + rest),
        }
    }
}

impl Ext2 {
    /// The twelve direct pointers of inode `n`, in order.
    pub open spec fn spec_direct_seq(self, n: int) -> Seq<u32> {
        Seq::new(12, |i: int| self.spec_direct(n, i))
    }

    /// The block-number words stored in block `b`.
    pub open spec fn spec_block_words(self, b: int) -> Seq<u32>
        recommends
            self.block_in_range(b),
    {
        Seq::new(
            (self.block_size / 4) as nat,
            |i: int| spec_le32(self.blocks@, (b - self.block_offset) * self.block_size + 4 * i),
        )
    }

    /// The payload of directory inode `n`: its data blocks in logical
    /// order up to the declared size, from the direct pointers and,
    /// where those do not satisfy the size, the singly indirect block.
    /// `None` where the size cannot be gathered.
    pub open spec fn spec_dir_payload(self, n: int) -> Option<Seq<u8>>
        recommends
            self.wf(),
            self.inode_number_ok(n),
            self.inode_located(n),
    {
        let size = self.spec_size_of(n);
        match gather_from(self, self.spec_direct_seq(n), 0, size) {
            None => None,
            Some(d) => if d.len() == size {
                Some(d)
            } else if self.spec_indirect(n) == 0 {
                None
            } else if !self.block_in_range(self.spec_indirect(n) as int) {
                None
            } else {
                match gather_from(
                    self,
                    self.spec_block_words(self.spec_indirect(n) as int),
                    0,
                    size - d.len(),
                ) {
                    None => None,
                    Some(e) => if d.len() + e.len() == size {
                        Some(d + e)
                    } else {
                        None
                    },
                }
            },
        }
    }

    /// How fetching the payload of directory `n` turns out: the inode
    /// checks of `get_inode`, the directory type check, then the gather.
    pub open spec fn spec_payload_result(self, n: int) -> Result<Seq<u8>, Ext2Error>
        recommends
            self.wf(),
    {
        if !self.inode_number_ok(n) {
            Err(Ext2Error::NoSuchInode)
        } else if !self.inode_located(n) {
            Err(Ext2Error::Truncated)
        } else if !self.spec_is_dir(n) {
            Err(Ext2Error::NotADirectory)
        } else {
            match self.spec_dir_payload(n) {
                None => Err(Ext2Error::Truncated),
                Some(d) => Ok(d),
            }
        }
    }

    /// Byte offset of block `b` inside `blocks`, or `None` when the
    /// block lies outside the indexed image.
    pub(crate) fn block_base(&self, b: u32) -> (r: Option<usize>)
        requires
            self.wf(),
        ensures
            r.is_some() <==> self.block_in_range(b as int),
            r matches Some(base) ==> base == (b - self.block_offset) * self.block_size && base
                + self.block_size == (b - self.block_offset + 1) * self.block_size && base
                + self.block_size <= self.blocks@.len(),
    {
        if (b as usize) < self.block_offset {
            return None;
        }
        let diff: u64 = b as u64 - self.block_offset as u64;
        proof {
            assert((diff + 1) * self.block_size <= 0x1_0000_0000 * 0x1_0000) by (nonlinear_arith)
                requires
                    0 <= diff <= 0xffff_ffff,
                    0 < self.block_size <= 0x1_0000,
            ;
            assert((diff + 1) * self.block_size == diff * self.block_size + self.block_size)
                by (nonlinear_arith);
        }
        let end: u64 = (diff + 1) * (self.block_size as u64);
        if end > self.blocks.len() as u64 {
            return None;
        }
        Some((diff as usize) * self.block_size)
    }

    /// Appends to `contiguous_data` the bytes of block `block_num`,
    /// capped at the bytes of `whole_size` not yet read.
    pub fn read_dir_entry_block(
        &self,
        contiguous_data: &mut Vec<u8>,
        block_num: u32,
        whole_size: u64,
        bytes_read: u64,
    ) -> (r: Result<usize, Ext2Error>)
        requires
            self.wf(),
            bytes_read <= whole_size,
        ensures
            match r {
                Ok(c) => {
                    &&& self.block_in_range(block_num as int)
                    &&& c == spec_min(self.block_size as int, whole_size - bytes_read)
                    &&& final(contiguous_data)@ == old(contiguous_data)@ + self.spec_block(
                        block_num as int,
                    ).take(c as int)
                    &&& final(contiguous_data)@.len() == old(contiguous_data)@.len() + c
                },
                Err(e) => {
                    &&& e == Ext2Error::Truncated
                    &&& !self.block_in_range(block_num as int)
                    &&& final(contiguous_data)@ == old(contiguous_data)@
                },
            },
    {
        let base: usize = match self.block_base(block_num) {
            Some(base) => base,
            None => {
                return Err(Ext2Error::Truncated);
            },
        };
        // binding the length bounds the offsets below by the machine word
        let blen: usize = self.blocks.len();
        let owed: u64 = whole_size - bytes_read;
        let bytes_to_read: usize = if (self.block_size as u64) < owed {
            self.block_size
        } else {
            owed as usize
        };
        let mut j: usize = 0;
        while j < bytes_to_read
            invariant
                j <= bytes_to_read,
                self.wf(),
                bytes_to_read <= self.block_size,
                base + self.block_size <= self.blocks@.len(),
                self.blocks@.len() <= usize::MAX,
                contiguous_data@ == old(contiguous_data)@ + self.blocks@.subrange(
                    base as int,
                    base + j,
                ),
            decreases bytes_to_read - j,
        {
            contiguous_data.push(self.blocks[base + j]);
            proof {
                assert(contiguous_data@ =~= old(contiguous_data)@ + self.blocks@.subrange(
                    base as int,
                    base + j + 1,
                ));
            }
            j = j + 1;
        }
        proof {
            assert(self.spec_block(block_num as int).take(bytes_to_read as int)
                =~= self.blocks@.subrange(base as int, base + bytes_to_read));
        }
        Ok(bytes_to_read)
    }

    /// Gathers the whole payload of directory inode `inode`, exactly
    /// its declared size, untrimmed.
    pub(crate) fn gather_dir_payload(&self, inode: usize) -> (r: Result<Vec<u8>, Ext2Error>)
        requires
            self.wf(),
        ensures
            match r {
                Ok(v) => self.spec_payload_result(inode as int) == Ok::<Seq<u8>, Ext2Error>(v@)
                    && v@.len() == self.spec_size_of(inode as int),
                Err(e) => self.spec_payload_result(inode as int) == Err::<Seq<u8>, Ext2Error>(e),
            },
    {
        let ghost n = inode as int;
        let ino = match self.get_inode(inode) {
            Ok(ino) => ino,
            Err(e) => {
                return Err(e);
            },
        };
        if ino.type_perm & crate::layout::TYPE_DIRECTORY != crate::layout::TYPE_DIRECTORY {
            return Err(Ext2Error::NotADirectory);
        }
        let size: u64 = (ino.size_high as u64) * 0x1_0000_0000 + (ino.size_low as u64);
        let ghost dseq = self.spec_direct_seq(n);
        let mut data: Vec<u8> = Vec::new();
        let mut i: usize = 0;
        while i < 12 && (data.len() as u64) < size
            invariant
                self.wf(),
                n == inode as int,
                self.inode_number_ok(n),
                self.inode_located(n),
                self.spec_is_dir(n),
                0 <= i <= 12,
                data@.len() <= size,
                size == self.spec_size_of(n),
                dseq == self.spec_direct_seq(n),
                forall|j: int| 0 <= j < 12 ==> ino.direct_pointer@[j] == dseq[j],
                match gather_from(*self, dseq, i as int, size - data@.len()) {
                    Some(rest) => gather_from(*self, dseq, 0, size as int) == Some(data@ + rest),
                    None => gather_from(*self, dseq, 0, size as int).is_none(),
                },
            decreases 12 - i,
        {
            let p: u32 = ino.direct_pointer[i];
            if p != 0 {
                let ghost pre = data@;
                let bytes_read: u64 = data.len() as u64;
                match self.read_dir_entry_block(&mut data, p, size, bytes_read) {
                    Ok(c) => {
                        proof {
                            let rem = size - pre.len();
                            let c_s = spec_min(self.block_size as int, rem);
                            assert(data@ == pre + self.spec_block(p as int).take(c_s));
                            assert(data@.len() == pre.len() + c_s);
                            match gather_from(*self, dseq, i + 1, rem - c_s) {
                                Some(rest) => {
                                    assert(gather_from(*self, dseq, i as int, rem)
                                        == Some(self.spec_block(p as int).take(c_s) + rest));
                                    assert(pre + (self.spec_block(p as int).take(c_s) + rest)
                                        =~= data@ + rest);
                                },
                                None => {
                                    assert(gather_from(*self, dseq, i as int, rem).is_none());
                                },
                            }
                        }
                    },
                    Err(_) => {
                        proof {
                            assert(gather_from(
                                *self,
                                dseq,
                                i as int,
                                size - data@.len(),
                            ).is_none());
                        }
                        return Err(Ext2Error::Truncated);
                    },
                }
            }
            i = i + 1;
        }
        let ghost direct_part = data@;
        proof {
            assert(gather_from(*self, dseq, i as int, size - data@.len())
                == Some(Seq::<u8>::empty()));
            assert(direct_part + Seq::<u8>::empty() =~= direct_part);
            assert(gather_from(*self, dseq, 0, size as int) == Some(direct_part));
        }
        if data.len() as u64 == size {
            return Ok(data);
        }
        // the direct pointers did not satisfy the declared size: follow
        // the singly indirect block
        let ind: u32 = ino.indirect_pointer;
        if ind == 0 {
            return Err(Ext2Error::Truncated);
        }
        let ibase: usize = match self.block_base(ind) {
            Some(base) => base,
            None => {
                return Err(Ext2Error::Truncated);
            },
        };
        let ghost wseq = self.spec_block_words(ind as int);
        let ghost owed = size - direct_part.len();
        // binding the length bounds the offsets below by the machine word
        let bl: usize = self.blocks.len();
        let words: usize = self.block_size / 4;
        let mut w: usize = 0;
        while w < words && (data.len() as u64) < size
            invariant
                self.wf(),
                n == inode as int,
                self.inode_number_ok(n),
                self.inode_located(n),
                self.spec_is_dir(n),
                ind == self.spec_indirect(n),
                ind != 0,
                self.block_in_range(ind as int),
                gather_from(*self, self.spec_direct_seq(n), 0, size as int) == Some(direct_part),
                0 <= w <= words,
                words == self.block_size / 4,
                ibase == (ind - self.block_offset) * self.block_size,
                ibase + self.block_size <= self.blocks@.len(),
                self.blocks@.len() <= usize::MAX,
                data@.len() <= size,
                size == self.spec_size_of(n),
                wseq == self.spec_block_words(ind as int),
                owed == size - direct_part.len(),
                direct_part.len() < size,
                data@.len() >= direct_part.len(),
                data@.take(direct_part.len() as int) == direct_part,
                match gather_from(*self, wseq, w as int, size - data@.len()) {
                    Some(rest) => gather_from(*self, wseq, 0, owed) == Some(
                        data@.skip(direct_part.len() as int) + rest,
                    ),
                    None => gather_from(*self, wseq, 0, owed).is_none(),
                },
            decreases words - w,
        {
            let word: u32 = read_le32(&self.blocks, ibase + 4 * w);
            proof {
                assert(word == wseq[w as int]);
            }
            if word != 0 {
                let ghost pre = data@;
                let bytes_read: u64 = data.len() as u64;
                match self.read_dir_entry_block(&mut data, word, size, bytes_read) {
                    Ok(c) => {
                        proof {
                            let rem = size - pre.len();
                            let c_s = spec_min(self.block_size as int, rem);
                            assert(data@ == pre + self.spec_block(word as int).take(c_s));
                            assert(data@.take(direct_part.len() as int) =~= direct_part);
                            match gather_from(*self, wseq, w + 1, rem - c_s) {
                                Some(rest) => {
                                    assert(gather_from(*self, wseq, w as int, rem)
                                        == Some(self.spec_block(word as int).take(c_s) + rest));
                                    assert(pre.skip(direct_part.len() as int)
                                        + (self.spec_block(word as int).take(c_s) + rest)
                                        =~= data@.skip(direct_part.len() as int) + rest);
                                },
                                None => {
                                    assert(gather_from(*self, wseq, w as int, rem).is_none());
                                },
                            }
                        }
                    },
                    Err(_) => {
                        proof {
                            assert(gather_from(
                                *self,
                                wseq,
                                w as int,
                                size - data@.len(),
                            ).is_none());
                        }
                        return Err(Ext2Error::Truncated);
                    },
                }
            }
            w = w + 1;
        }
        proof {
            assert(gather_from(*self, wseq, w as int, size - data@.len())
                == Some(Seq::<u8>::empty()));
            let e = data@.skip(direct_part.len() as int);
            assert(e + Seq::<u8>::empty() =~= e);
            assert(gather_from(*self, wseq, 0, owed) == Some(e));
        }
        if data.len() as u64 == size {
            proof {
                let e = data@.skip(direct_part.len() as int);
                assert(direct_part + e =~= data@);
            }
            Ok(data)
        } else {
            Err(Ext2Error::Truncated)
        }
    }
}

/// Length of `s` once every trailing NUL byte is dropped.
pub open spec fn trimmed_len(s: Seq<u8>) -> int
    decreases s.len(),
{
    if s.len() == 0 {
        0
    } else if s[s.len() - 1] != 0 {
        s.len() as int
    } else {
        trimmed_len(s.drop_last())
    }
}

/// `s` with its trailing NUL bytes dropped.
pub open spec fn trim_nuls(s: Seq<u8>) -> Seq<u8> {
    s.take(trimmed_len(s))
}

/// A cut that sits right after the last non-NUL byte is where the
/// trailing NULs start.
pub proof fn lemma_trimmed_at(s: Seq<u8>, i: int)
    requires
        0 <= i <= s.len(),
        i > 0 ==> s[i - 1] != 0,
        forall|j: int| i <= j < s.len() ==> s[j] == 0,
    ensures
        trimmed_len(s) == i,
    decreases s.len(),
{
    if s.len() > 0 {
        if s[s.len() - 1] != 0 {
            assert(i == s.len());
        } else {
            assert(i < s.len());
            lemma_trimmed_at(s.drop_last(), i);
        }
    }
}

impl Ext2 {
    /// Gathers the payload of directory inode `inode` and trims the
    /// trailing NUL bytes: the producer-padded slack of the last record.
    pub fn contiguous_data_from_dir_inode(&self, inode: usize) -> (r: Result<Vec<u8>, Ext2Error>)
        requires
            self.wf(),
        ensures
            match r {
                Ok(v) => self.spec_payload_result(inode as int) matches Ok(d) && v@ == trim_nuls(
                    d,
                ),
                Err(e) => self.spec_payload_result(inode as int) == Err::<Seq<u8>, Ext2Error>(e),
            },
    {
        let mut data = match self.gather_dir_payload(inode) {
            Ok(v) => v,
            Err(e) => {
                return Err(e);
            },
        };
        let ghost whole = data@;
        let mut end: usize = data.len();
        while end > 0 && data[end - 1] == 0
            invariant
                0 <= end <= data@.len(),
                data@ == whole,
                forall|j: int| end <= j < data@.len() ==> data@[j] == 0,
            decreases end,
        {
            end = end - 1;
        }
        proof {
            lemma_trimmed_at(whole, end as int);
        }
        data.truncate(end);
        Ok(data)
    }

    /// Every record of directory `n` in on-disk order, free records
    /// included, or how reading it fails: the inode checks, the
    /// directory type check, the gather, a size that must be a multiple
    /// of the block size, and the record walk.
    #[verifier::opaque]
    pub open spec fn spec_raw_list(self, n: int) -> Result<Seq<SpecDirEntry>, Ext2Error>
        recommends
            self.wf(),
    {
        match self.spec_payload_result(n) {
            Err(e) => Err(e),
            Ok(d) => if self.spec_size_of(n) % self.block_size as int != 0 {
                Err(Ext2Error::MalformedDirectory)
            } else {
                match parse_from(d, self.block_size as int, 0) {
                    None => Err(Ext2Error::MalformedDirectory),
                    Some(es) => Ok(es),
                }
            },
        }
    }

    /// The listing of directory `n` as enumeration emits it: the walked
    /// records with the free ones, inode 0, skipped.
    pub open spec fn spec_list(self, n: int) -> Result<Seq<SpecDirEntry>, Ext2Error>
        recommends
            self.wf(),
    {
        match self.spec_raw_list(n) {
            Err(e) => Err(e),
            Ok(es) => Ok(live_entries(es)),
        }
    }

    /// Enumerates a directory: the (inode, name) records of inode
    /// `inode`'s data blocks in on-disk order, with free records,
    /// inode 0, skipped.
    ///
    /// On success the walk behind the listing accounts for the whole
    /// declared size: the stored record lengths of all walked records,
    /// free ones included, sum to the directory's size, a multiple of
    /// the block size, and each emitted record's stored name length
    /// fits inside its stored record length.
    pub fn read_dir_inode(&self, inode: usize) -> (r: Result<Vec<DirEntry>, Ext2Error>)
        requires
            self.wf(),
        ensures
            match r {
                Ok(v) => self.spec_list(inode as int) == Ok::<Seq<SpecDirEntry>, Ext2Error>(
                    entries_view(v@),
                ),
                Err(e) => self.spec_list(inode as int) == Err::<Seq<SpecDirEntry>, Ext2Error>(e),
            },
            r matches Ok(v) ==> {
                &&& self.spec_raw_list(inode as int) matches Ok(raw)
                &&& sum_entry_sizes(self.spec_raw_list(inode as int).unwrap()) == self.spec_size_of(
                    inode as int,
                )
                &&& self.spec_size_of(inode as int) % self.block_size as int == 0
                &&& forall|k: int|
                    0 <= k < v@.len() ==> (#[trigger] entries_view(v@)[k]).entry_size >= 8
                        && entries_view(v@)[k].name_length <= entries_view(v@)[k].entry_size - 8
            },
    {
        proof {
            reveal(Ext2::spec_raw_list);
        }
        let ghost n = inode as int;
        let data = match self.gather_dir_payload(inode) {
            Ok(v) => v,
            Err(e) => {
                return Err(e);
            },
        };
        if data.len() % self.block_size != 0 {
            return Err(Ext2Error::MalformedDirectory);
        }
        let raw = match parse_dir_entries(&data, self.block_size) {
            Ok(v) => v,
            Err(e) => {
                return Err(e);
            },
        };
        let ghost raw_ev = entries_view(raw@);
        proof {
            lemma_parse_accounts(data@, self.block_size as int, 0, raw_ev);
            lemma_live_bounds(raw_ev);
            assert(self.spec_raw_list(n) == Ok::<Seq<SpecDirEntry>, Ext2Error>(raw_ev));
        }
        // emit the records in use; free records are skipped
        let nr: usize = raw.len();
        let mut out: Vec<DirEntry> = Vec::new();
        let mut i: usize = 0;
        while i < nr
            invariant
                i <= nr,
                nr == raw@.len(),
                raw_ev == entries_view(raw@),
                entries_view(out@) == live_entries(raw_ev.take(i as int)),
            decreases nr - i,
        {
            proof {
                assert(raw_ev.take(i + 1) =~= raw_ev.take(i as int).push(raw_ev[i as int]));
                lemma_live_snoc(raw_ev.take(i as int), raw_ev[i as int]);
            }
            if raw[i].inode != 0 {
                let ghost pre = entries_view(out@);
                let kept = DirEntry {
                    inode: raw[i].inode,
                    entry_size: raw[i].entry_size,
                    name_length: raw[i].name_length,
                    type_indicator: raw[i].type_indicator,
                    name: crate::bytes::clone_bytes(&raw[i].name),
                };
                proof {
                    assert(kept@ == raw_ev[i as int]);
                }
                out.push(kept);
                proof {
                    assert(entries_view(out@) =~= pre + seq![raw_ev[i as int]]);
                }
            }
            i = i + 1;
        }
        proof {
            assert(raw_ev.take(nr as int) =~= raw_ev);
        }
        Ok(out)
    }
}

/// Round-trip enumeration: a directory that reads back accounts for its
/// whole declared size. The stored record lengths of the records
/// walked, free ones included, sum to the size, itself a multiple of
/// the block size, and each record's stored name length fits inside its
/// stored record length. The emitted listing is the walked records with
/// the free ones skipped.
pub proof fn lemma_list_round_trip(fs: Ext2, n: int)
    requires
        fs.wf(),
        fs.spec_raw_list(n) matches Ok(es),
    ensures
        ({
            let es = fs.spec_raw_list(n).unwrap();
            &&& sum_entry_sizes(es) == fs.spec_size_of(n)
            &&& fs.spec_size_of(n) % fs.block_size as int == 0
            &&& forall|k: int|
                0 <= k < es.len() ==> (#[trigger] es[k]).entry_size >= 8 && es[k].name_length
                    <= es[k].entry_size - 8
            &&& fs.spec_list(n) == Ok::<Seq<SpecDirEntry>, Ext2Error>(live_entries(es))
        }),
{
    reveal(Ext2::spec_raw_list);
    let d = fs.spec_payload_result(n).unwrap();
    lemma_parse_accounts(d, fs.block_size as int, 0, fs.spec_raw_list(n).unwrap());
}

} // verus!
