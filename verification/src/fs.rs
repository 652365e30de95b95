//! The filesystem view: an owned copy of the whole image, the parsed
//! superblock and group descriptors, and inode resolution.

use vstd::prelude::*;
use crate::Ext2Error;
use crate::bytes::{spec_le16, spec_le32, read_le16, read_le32};
use crate::layout::{
    Superblock, BlockGroupDescriptor, Inode, parse_superblock, parse_group_descriptor,
    sb_inodes_count, sb_blocks_count, sb_blocks_per_group, sb_inodes_per_group,
    sb_log_block_size, sb_magic, sb_inode_size, sb_fs_id, bgd_inode_table_block, EXT2_MAGIC,
    TYPE_DIRECTORY, TYPE_FILE,
};

verus! {

#[verifier::external_type_specification]
#[verifier::external_body]
pub struct ExUuid(uuid::Uuid);

/// The UUID value sixteen given bytes denote.
pub uninterp spec fn uuid_of(b: Seq<u8>) -> uuid::Uuid;

/// Relies on uuid::Uuid::from_bytes: the UUID wraps the sixteen given
/// bytes and depends on them alone.
#[verifier::external_body]
pub(crate) fn uuid_from_bytes(b: &[u8; 16]) -> (r: uuid::Uuid)
    ensures
        r == uuid_of(b@),
{
    uuid::Uuid::from_bytes(*b)
}

/// The block size a superblock with the given `log_block_size`
/// declares: `1024 << log_block_size`, written out for the supported
/// range. Sizes past 32768 are refused at load: a directory record's
/// stored length, sixteen bits, must be able to reach a block boundary.
pub open spec fn spec_block_size(log: u32) -> int
    recommends
        log <= 5,
{
    if log == 0 {
        1024
    } else if log == 1 {
        2048
    } else if log == 2 {
        4096
    } else if log == 3 {
        8192
    } else if log == 4 {
        16384
    } else {
        32768
    }
}

/// Device byte offset of the group descriptor table: the block that
/// follows the superblock, which ends at byte 2048.
pub open spec fn spec_table_base(bs: int) -> int {
    if bs == 1024 {
        2048
    } else {
        bs
    }
}

/// The disk block number at which the indexed block run begins: the
/// block after the one holding the descriptor table's start.
pub open spec fn spec_block_offset(bs: int) -> int {
    if bs == 1024 {
        3
    } else {
        2
    }
}

/// One ext2 image, held in memory. `blocks` is the flat byte run of
/// every block from `block_offset` on; the superblock and the group
/// descriptor table lie before it and are kept parsed.
#[derive(Debug)]
pub struct Ext2 {
    /// The parsed superblock.
    pub superblock: Superblock,
    /// The parsed group descriptor table.
    pub block_groups: Vec<BlockGroupDescriptor>,
    /// Data of the device from block `block_offset` on, block after block.
    pub blocks: Vec<u8>,
    /// Bytes per block: `1024 << log_block_size`.
    pub block_size: usize,
    /// The filesystem id of the superblock as a UUID.
    pub uuid: uuid::Uuid,
    /// Disk block number at which `blocks` begins; subtract it from an
    /// on-disk block number before indexing.
    pub block_offset: usize,
}

impl Ext2 {
    /// The structural invariant of a loaded view: `new` establishes it
    /// and every operation preserves it.
    pub open spec fn wf(self) -> bool {
        &&& self.superblock.magic == EXT2_MAGIC
        &&& self.superblock.log_block_size <= 5
        &&& self.block_size == spec_block_size(self.superblock.log_block_size)
        &&& self.block_offset == spec_block_offset(self.block_size as int)
        &&& self.superblock.blocks_per_group >= 1
        &&& self.superblock.inodes_per_group >= 1
        &&& self.superblock.inode_size >= 128
        &&& self.blocks@.len() as int % self.block_size as int == 0
    }

    /// Whether block number `b` lies inside the indexed part of the image.
    pub open spec fn block_in_range(self, b: int) -> bool {
        &&& b >= self.block_offset
        &&& (b - self.block_offset + 1) * self.block_size <= self.blocks@.len()
    }

    /// The bytes of block number `b`.
    pub open spec fn spec_block(self, b: int) -> Seq<u8>
        recommends
            self.block_in_range(b),
    {
        self.blocks@.subrange(
            (b - self.block_offset) * self.block_size,
            (b - self.block_offset + 1) * self.block_size,
        )
    }

    /// The block group inode `n` belongs to.
    pub open spec fn spec_group_of(self, n: int) -> int {
        (n - 1) / self.superblock.inodes_per_group as int
    }

    /// The index of inode `n` inside its group's inode table.
    pub open spec fn spec_index_of(self, n: int) -> int {
        (n - 1) % self.superblock.inodes_per_group as int
    }

    /// Whether `n` names an inode of this image: 1-based and within
    /// `inodes_count`, in a group the descriptor table covers.
    pub open spec fn inode_number_ok(self, n: int) -> bool {
        &&& 1 <= n <= self.superblock.inodes_count
        &&& self.spec_group_of(n) < self.block_groups@.len()
    }

    /// Byte offset of inode `n`'s record inside `blocks`.
    pub open spec fn spec_inode_off(self, n: int) -> int {
        (self.block_groups@[self.spec_group_of(n)].inode_table_block - self.block_offset)
            * self.block_size + self.spec_index_of(n) * self.superblock.inode_size
    }

    /// Whether inode `n`'s record lies inside the indexed image bytes.
    pub open spec fn inode_located(self, n: int) -> bool {
        &&& self.block_groups@[self.spec_group_of(n)].inode_table_block >= self.block_offset
        &&& self.spec_inode_off(n) + self.superblock.inode_size <= self.blocks@.len()
    }

    /// The `type_perm` field of inode `n`.
    pub open spec fn spec_type_perm(self, n: int) -> u16 {
        spec_le16(self.blocks@, self.spec_inode_off(n))
    }

    /// The size in bytes inode `n` declares: `(size_high << 32) | size_low`.
    pub open spec fn spec_size_of(self, n: int) -> int {
        spec_le32(self.blocks@, self.spec_inode_off(n) + 108) * 0x1_0000_0000
            + spec_le32(self.blocks@, self.spec_inode_off(n) + 4)
    }

    /// Direct pointer `i` of inode `n`.
    pub open spec fn spec_direct(self, n: int, i: int) -> u32
        recommends
            0 <= i < 12,
    {
        spec_le32(self.blocks@, self.spec_inode_off(n) + 40 + 4 * i)
    }

    /// The singly indirect pointer of inode `n`.
    pub open spec fn spec_indirect(self, n: int) -> u32 {
        spec_le32(self.blocks@, self.spec_inode_off(n) + 88)
    }

    /// Whether inode `n` carries the directory type bit.
    pub open spec fn spec_is_dir(self, n: int) -> bool {
        self.spec_type_perm(n) & TYPE_DIRECTORY == TYPE_DIRECTORY
    }

    /// Whether inode `n` carries the regular-file type bit.
    pub open spec fn spec_is_file(self, n: int) -> bool {
        self.spec_type_perm(n) & TYPE_FILE == TYPE_FILE
    }

    /// Finds the byte offset of inode `inode`'s record inside `blocks`,
    /// or `None` when the number or the record's location is bad.
    pub(crate) fn locate_inode(&self, inode: usize) -> (r: Option<usize>)
        requires
            self.wf(),
        ensures
            r.is_some() <==> self.inode_number_ok(inode as int) && self.inode_located(
                inode as int,
            ),
            r matches Some(off) ==> off == self.spec_inode_off(inode as int) && off
                + self.superblock.inode_size <= self.blocks@.len(),
    {
        if inode == 0 || inode > self.superblock.inodes_count as usize {
            return None;
        }
        let ipg: usize = self.superblock.inodes_per_group as usize;
        let group: usize = (inode - 1) / ipg;
        let index: usize = (inode - 1) % ipg;
        if group >= self.block_groups.len() {
            return None;
        }
        let table_block: u32 = self.block_groups[group].inode_table_block;
        if (table_block as usize) < self.block_offset {
            return None;
        }
        let isz: u64 = self.superblock.inode_size as u64;
        let diff: u64 = table_block as u64 - self.block_offset as u64;
        proof {
            assert(diff * self.block_size <= 0xffff_ffff * 0x1_0000) by (nonlinear_arith)
                requires
                    0 <= diff <= 0xffff_ffff,
                    0 <= self.block_size <= 0x1_0000,
            ;
            assert((index as int) * (isz as int) <= 0xffff_ffff * 0x1_0000) by (nonlinear_arith)
                requires
                    0 <= index <= 0xffff_ffff,
                    0 <= isz <= 0x1_0000,
            ;
        }
        let base: u64 = diff * (self.block_size as u64);
        let rec: u64 = base + (index as u64) * isz;
        let blen: u64 = self.blocks.len() as u64;
        if rec > blen || blen - rec < isz {
            return None;
        }
        Some(rec as usize)
    }

    /// Given a 1-based inode number, returns that number's inode record.
    pub fn get_inode(&self, inode: usize) -> (r: Result<Inode, Ext2Error>)
        requires
            self.wf(),
        ensures
            r.is_ok() <==> self.inode_number_ok(inode as int) && self.inode_located(inode as int),
            r == Err::<Inode, Ext2Error>(Ext2Error::NoSuchInode) <==> !self.inode_number_ok(
                inode as int,
            ),
            r == Err::<Inode, Ext2Error>(Ext2Error::Truncated) <==> self.inode_number_ok(
                inode as int,
            ) && !self.inode_located(inode as int),
            r matches Ok(ino) ==> {
                &&& ino.type_perm == self.spec_type_perm(inode as int)
                &&& ino.size_low == spec_le32(
                    self.blocks@,
                    self.spec_inode_off(inode as int) + 4,
                )
                &&& ino.size_high == spec_le32(
                    self.blocks@,
                    self.spec_inode_off(inode as int) + 108,
                )
                &&& forall|i: int|
                    0 <= i < 12 ==> ino.direct_pointer@[i] == self.spec_direct(inode as int, i)
                &&& ino.indirect_pointer == self.spec_indirect(inode as int)
            },
    {
        let ghost n = inode as int;
        if inode == 0 || inode > self.superblock.inodes_count as usize {
            return Err(Ext2Error::NoSuchInode);
        }
        let ipg: usize = self.superblock.inodes_per_group as usize;
        let group: usize = (inode - 1) / ipg;
        let index: usize = (inode - 1) % ipg;
        if group >= self.block_groups.len() {
            return Err(Ext2Error::NoSuchInode);
        }
        let table_block: u32 = self.block_groups[group].inode_table_block;
        if (table_block as usize) < self.block_offset {
            return Err(Ext2Error::Truncated);
        }
        let isz: u64 = self.superblock.inode_size as u64;
        let diff: u64 = table_block as u64 - self.block_offset as u64;
        proof {
            assert(diff * self.block_size <= 0xffff_ffff * 0x1_0000) by (nonlinear_arith)
                requires
                    0 <= diff <= 0xffff_ffff,
                    0 <= self.block_size <= 0x1_0000,
            ;
            assert((index as int) * (isz as int) <= 0xffff_ffff * 0x1_0000) by (nonlinear_arith)
                requires
                    0 <= index <= 0xffff_ffff,
                    0 <= isz <= 0x1_0000,
            ;
        }
        let base: u64 = diff * (self.block_size as u64);
        let rec: u64 = base + (index as u64) * isz;
        let blen: u64 = self.blocks.len() as u64;
        if rec > blen || blen - rec < isz {
            return Err(Ext2Error::Truncated);
        }
        let off: usize = rec as usize;
        let mut direct: [u32; 12] = [0; 12];
        let mut i: usize = 0;
        while i < 12
            invariant
                i <= 12,
                self.wf(),
                off + self.superblock.inode_size <= self.blocks@.len(),
                self.blocks@.len() <= usize::MAX,
                self.superblock.inode_size >= 128,
                off == self.spec_inode_off(n),
                forall|j: int| 0 <= j < i ==> direct@[j] == self.spec_direct(n, j),
            decreases 12 - i,
        {
            direct[i] = read_le32(&self.blocks, off + 40 + 4 * i);
            i = i + 1;
        }
        Ok(Inode {
            type_perm: read_le16(&self.blocks, off),
            size_low: read_le32(&self.blocks, off + 4),
            size_high: read_le32(&self.blocks, off + 108),
            direct_pointer: direct,
            indirect_pointer: read_le32(&self.blocks, off + 88),
            doubly_indirect: read_le32(&self.blocks, off + 92),
            triply_indirect: read_le32(&self.blocks, off + 96),
        })
    }
}

/// The condition on which loading an image fails, and how.
pub open spec fn spec_load_error(dev: Seq<u8>) -> Option<Ext2Error> {
    let bs = spec_block_size(sb_log_block_size(dev));
    let gc = (sb_blocks_count(dev) + sb_blocks_per_group(dev) - 1) / sb_blocks_per_group(
        dev,
    ) as int;
    if dev.len() < 2048 {
        Some(Ext2Error::Truncated)
    } else if sb_magic(dev) != EXT2_MAGIC {
        Some(Ext2Error::NotExt2)
    } else if sb_log_block_size(dev) > 5 {
        Some(Ext2Error::UnsupportedGeometry)
    } else if sb_blocks_per_group(dev) == 0 || sb_inodes_per_group(dev) == 0 {
        Some(Ext2Error::UnsupportedGeometry)
    } else if spec_table_base(bs) + gc * 32 > dev.len() {
        Some(Ext2Error::Truncated)
    } else if dev.len() < spec_block_offset(bs) * bs {
        Some(Ext2Error::Truncated)
    } else {
        None
    }
}

/// How many bytes of the device from block `spec_block_offset` on the
/// view indexes: whole blocks only.
pub open spec fn spec_indexed_len(dev: Seq<u8>) -> int {
    let bs = spec_block_size(sb_log_block_size(dev));
    let avail = dev.len() - spec_block_offset(bs) * bs;
    avail - avail % bs
}

impl Ext2 {
    /// Parses a device image into a filesystem view.
    ///
    /// The superblock is read from bytes 1024..2048 and validated; the
    /// group descriptor table from the block that follows it; the rest
    /// of the buffer becomes the indexed block run.
    pub fn new(device_bytes: Vec<u8>) -> (r: Result<Ext2, Ext2Error>)
        ensures
            r.is_err() <==> spec_load_error(device_bytes@).is_some(),
            r matches Err(e) ==> spec_load_error(device_bytes@) == Some(e),
            r matches Ok(fs) ==> {
                &&& fs.wf()
                &&& fs.superblock.inodes_count == sb_inodes_count(device_bytes@)
                &&& fs.superblock.blocks_count == sb_blocks_count(device_bytes@)
                &&& fs.superblock.blocks_per_group == sb_blocks_per_group(device_bytes@)
                &&& fs.superblock.inodes_per_group == sb_inodes_per_group(device_bytes@)
                &&& fs.superblock.log_block_size == sb_log_block_size(device_bytes@)
                &&& fs.superblock.inode_size == sb_inode_size(device_bytes@)
                &&& fs.superblock.fs_id@ == sb_fs_id(device_bytes@)
                &&& fs.uuid == uuid_of(sb_fs_id(device_bytes@))
                &&& fs.block_size == spec_block_size(sb_log_block_size(device_bytes@))
                &&& fs.block_groups@.len() == (sb_blocks_count(device_bytes@)
                    + sb_blocks_per_group(device_bytes@) - 1) / sb_blocks_per_group(
                    device_bytes@,
                ) as int
                &&& forall|g: int|
                    0 <= g < fs.block_groups@.len() ==> fs.block_groups@[g].inode_table_block
                        == bgd_inode_table_block(
                        device_bytes@,
                        spec_table_base(fs.block_size as int),
                        g,
                    )
                &&& fs.blocks@ == device_bytes@.subrange(
                    spec_block_offset(fs.block_size as int) * fs.block_size,
                    spec_block_offset(fs.block_size as int) * fs.block_size + spec_indexed_len(
                        device_bytes@,
                    ),
                )
            },
    {
        let dlen: usize = device_bytes.len();
        if dlen < 2048 {
            return Err(Ext2Error::Truncated);
        }
        let superblock = parse_superblock(&device_bytes);
        if superblock.magic != EXT2_MAGIC {
            return Err(Ext2Error::NotExt2);
        }
        if superblock.log_block_size > 5 {
            return Err(Ext2Error::UnsupportedGeometry);
        }
        if superblock.blocks_per_group == 0 || superblock.inodes_per_group == 0 {
            return Err(Ext2Error::UnsupportedGeometry);
        }
        let block_size: usize = if superblock.log_block_size == 0 {
            1024
        } else if superblock.log_block_size == 1 {
            2048
        } else if superblock.log_block_size == 2 {
            4096
        } else if superblock.log_block_size == 3 {
            8192
        } else if superblock.log_block_size == 4 {
            16384
        } else {
            32768
        };
        let table_base: usize = if block_size == 1024 {
            2048
        } else {
            block_size
        };
        let gc: u64 = ((superblock.blocks_count as u64) + (superblock.blocks_per_group as u64)
            - 1) / (superblock.blocks_per_group as u64);
        if table_base as u64 + gc * 32 > dlen as u64 {
            return Err(Ext2Error::Truncated);
        }
        let start: usize = if block_size == 1024 {
            3 * 1024
        } else {
            2 * block_size
        };
        if dlen < start {
            return Err(Ext2Error::Truncated);
        }
        let group_count: usize = gc as usize;
        let mut block_groups: Vec<BlockGroupDescriptor> = Vec::new();
        let mut g: usize = 0;
        while g < group_count
            invariant
                g <= group_count,
                table_base + group_count * 32 <= device_bytes@.len(),
                device_bytes@.len() <= usize::MAX,
                block_groups@.len() == g,
                forall|k: int|
                    0 <= k < g ==> block_groups@[k].inode_table_block == bgd_inode_table_block(
                        device_bytes@,
                        table_base as int,
                        k,
                    ),
            decreases group_count - g,
        {
            proof {
                assert(32 * (g + 1) <= 32 * group_count) by (nonlinear_arith)
                    requires
                        g + 1 <= group_count,
                ;
                assert(group_count * 32 == 32 * group_count) by (nonlinear_arith);
            }
            block_groups.push(parse_group_descriptor(&device_bytes, table_base, g));
            g = g + 1;
        }
        let avail: usize = dlen - start;
        proof {
            vstd::arithmetic::div_mod::lemma_fundamental_div_mod(avail as int, block_size as int);
            vstd::arithmetic::div_mod::lemma_mod_bound(avail as int, block_size as int);
            vstd::arithmetic::div_mod::lemma_mod_multiples_basic(
                avail as int / block_size as int,
                block_size as int,
            );
        }
        let keep: usize = avail - avail % block_size;
        let mut blocks: Vec<u8> = Vec::new();
        let mut i: usize = 0;
        while i < keep
            invariant
                i <= keep,
                start + keep <= device_bytes@.len(),
                device_bytes@.len() <= usize::MAX,
                blocks@ == device_bytes@.subrange(start as int, start + i),
            decreases keep - i,
        {
            blocks.push(device_bytes[start + i]);
            proof {
                assert(blocks@ =~= device_bytes@.subrange(start as int, start + i + 1));
            }
            i = i + 1;
        }
        let uuid = uuid_from_bytes(&superblock.fs_id);
        let fs = Ext2 {
            superblock,
            block_groups,
            blocks,
            block_size,
            uuid,
            block_offset: if block_size == 1024 {
                3
            } else {
                2
            },
        };
        Ok(fs)
    }
}

} // verus!
