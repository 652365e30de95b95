//! The fixed-size on-disk records of an ext2 image: superblock,
//! block-group descriptor, and inode. All fields are little-endian.
//! Each parser's contract names the byte offset every field comes from.

use vstd::prelude::*;
use crate::bytes::{spec_le16, spec_le32, read_le16, read_le32};

verus! {

/// Magic number at superblock offset 56.
pub const EXT2_MAGIC: u16 = 0xEF53;

/// The root directory is always inode number 2.
pub const ROOT_INODE: usize = 2;

/// Type bit of `type_perm` marking a directory inode.
pub const TYPE_DIRECTORY: u16 = 0x4000;

/// Type bit of `type_perm` marking a regular-file inode.
pub const TYPE_FILE: u16 = 0x8000;

/// The superblock fields this interpreter reads.
#[derive(Clone, Copy, Debug)]
pub struct Superblock {
    /// Total number of inodes (field at offset 0).
    pub inodes_count: u32,
    /// Total number of blocks (offset 4).
    pub blocks_count: u32,
    /// Blocks per block group (offset 32).
    pub blocks_per_group: u32,
    /// Inodes per block group (offset 40).
    pub inodes_per_group: u32,
    /// Block size is `1024 << log_block_size` (offset 24).
    pub log_block_size: u32,
    /// Must hold `EXT2_MAGIC` (offset 56).
    pub magic: u16,
    /// Size of an inode record (offset 88); 128 where the field reads
    /// below 128, as revision-0 images leave it unset.
    pub inode_size: u16,
    /// The sixteen filesystem-id bytes (offset 104).
    pub fs_id: [u8; 16],
}

/// One 32-byte block-group descriptor record.
#[derive(Clone, Copy, Debug)]
pub struct BlockGroupDescriptor {
    /// Block number of the block-usage bitmap (offset 0).
    pub block_usage_bitmap_block: u32,
    /// Block number of the inode-usage bitmap (offset 4).
    pub inode_usage_bitmap_block: u32,
    /// First block of the group's inode table (offset 8).
    pub inode_table_block: u32,
    /// Free blocks in the group (offset 12).
    pub free_blocks_count: u16,
    /// Free inodes in the group (offset 14).
    pub free_inodes_count: u16,
}

/// The inode fields this interpreter reads.
#[derive(Clone, Copy, Debug)]
pub struct Inode {
    /// File type and permission bits (offset 0).
    pub type_perm: u16,
    /// Low 32 bits of the size in bytes (offset 4).
    pub size_low: u32,
    /// High 32 bits of the size (offset 108).
    pub size_high: u32,
    /// The twelve direct block pointers (offsets 40..88); 0 means unused.
    pub direct_pointer: [u32; 12],
    /// Singly indirect block pointer (offset 88).
    pub indirect_pointer: u32,
    /// Doubly indirect block pointer (offset 92).
    pub doubly_indirect: u32,
    /// Triply indirect block pointer (offset 96).
    pub triply_indirect: u32,
}

/// `inodes_count` as stored in `dev`.
pub open spec fn sb_inodes_count(dev: Seq<u8>) -> u32 {
    spec_le32(dev, 1024)
}

/// `blocks_count` as stored in `dev`.
pub open spec fn sb_blocks_count(dev: Seq<u8>) -> u32 {
    spec_le32(dev, 1028)
}

/// `log_block_size` as stored in `dev`.
pub open spec fn sb_log_block_size(dev: Seq<u8>) -> u32 {
    spec_le32(dev, 1048)
}

/// `blocks_per_group` as stored in `dev`.
pub open spec fn sb_blocks_per_group(dev: Seq<u8>) -> u32 {
    spec_le32(dev, 1056)
}

/// `inodes_per_group` as stored in `dev`.
pub open spec fn sb_inodes_per_group(dev: Seq<u8>) -> u32 {
    spec_le32(dev, 1064)
}

/// The magic field as stored in `dev`.
pub open spec fn sb_magic(dev: Seq<u8>) -> u16 {
    spec_le16(dev, 1080)
}

/// The inode record size: the stored field, or 128 where it reads below
/// 128.
pub open spec fn sb_inode_size(dev: Seq<u8>) -> u16 {
    if spec_le16(dev, 1112) < 128 {
        128
    } else {
        spec_le16(dev, 1112)
    }
}

/// The sixteen filesystem-id bytes as stored in `dev`.
pub open spec fn sb_fs_id(dev: Seq<u8>) -> Seq<u8> {
    dev.subrange(1128, 1144)
}

/// Parses the superblock record of a device image.
pub fn parse_superblock(dev: &Vec<u8>) -> (r: Superblock)
    requires
        dev@.len() >= 2048,
    ensures
        r.inodes_count == sb_inodes_count(dev@),
        r.blocks_count == sb_blocks_count(dev@),
        r.blocks_per_group == sb_blocks_per_group(dev@),
        r.inodes_per_group == sb_inodes_per_group(dev@),
        r.log_block_size == sb_log_block_size(dev@),
        r.magic == sb_magic(dev@),
        r.inode_size == sb_inode_size(dev@),
        r.fs_id@ == sb_fs_id(dev@),
{
    let raw_inode_size = read_le16(dev, 1112);
    let mut fs_id: [u8; 16] = [0; 16];
    let mut i: usize = 0;
    while i < 16
        invariant
            i <= 16,
            dev@.len() >= 2048,
            forall|j: int| 0 <= j < i ==> fs_id@[j] == dev@[1128 + j],
        decreases 16 - i,
    {
        fs_id[i] = dev[1128 + i];
        i = i + 1;
    }
    proof {
        assert(fs_id@ =~= sb_fs_id(dev@));
    }
    Superblock {
        inodes_count: read_le32(dev, 1024),
        blocks_count: read_le32(dev, 1028),
        blocks_per_group: read_le32(dev, 1056),
        inodes_per_group: read_le32(dev, 1064),
        log_block_size: read_le32(dev, 1048),
        magic: read_le16(dev, 1080),
        inode_size: if raw_inode_size < 128 {
            128
        } else {
            raw_inode_size
        },
        fs_id,
    }
}

/// The `inode_table_block` field of group descriptor `g`, whose record
/// starts at device byte `table_base + 32 * g`.
pub open spec fn bgd_inode_table_block(dev: Seq<u8>, table_base: int, g: int) -> u32 {
    spec_le32(dev, table_base + 32 * g + 8)
}

/// Parses group descriptor `g` from the table at device byte
/// `table_base`: the start of the block that follows the superblock.
pub fn parse_group_descriptor(dev: &Vec<u8>, table_base: usize, g: usize) -> (r:
    BlockGroupDescriptor)
    requires
        table_base + 32 * (g + 1) <= dev@.len(),
    ensures
        r.block_usage_bitmap_block == spec_le32(dev@, table_base + 32 * g),
        r.inode_usage_bitmap_block == spec_le32(dev@, table_base + 32 * g + 4),
        r.inode_table_block == bgd_inode_table_block(dev@, table_base as int, g as int),
{
    // binding the length bounds the offsets below by the machine word
    let n: usize = dev.len();
    let base: usize = table_base + 32 * g;
    BlockGroupDescriptor {
        block_usage_bitmap_block: read_le32(dev, base),
        inode_usage_bitmap_block: read_le32(dev, base + 4),
        inode_table_block: read_le32(dev, base + 8),
        free_blocks_count: read_le16(dev, base + 12),
        free_inodes_count: read_le16(dev, base + 14),
    }
}

} // verus!
