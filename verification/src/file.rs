//! Reading regular files: the concatenation of a file inode's direct
//! data blocks, truncated to the declared size. Indirect pointers are
//! not followed for files; a zero direct pointer ends the data.

use vstd::prelude::*;
use crate::Ext2Error;
use crate::fs::Ext2;
use crate::dir::spec_min;
use crate::layout::TYPE_FILE;

verus! {

/// The bytes of a regular file from direct pointer `i` on, while bytes
/// are still owed: a zero pointer ends the data, each block is capped
/// at what is owed, and a pointer outside the image yields `None`.
pub open spec fn file_gather_from(fs: Ext2, n: int, i: int, remaining: int) -> Option<Seq<u8>>
    decreases 12 - i,
{
    if i >= 12 || remaining <= 0 {
        Some(Seq::empty())
    } else if fs.spec_direct(n, i) == 0 {
        Some(Seq::empty())
    } else if !fs.block_in_range(fs.spec_direct(n, i) as int) {
        None
    } else {
        let c = spec_min(fs.block_size as int, remaining);
        match file_gather_from(fs, n, i + 1, remaining - c) {
            None => None,
            Some(rest) => Some(fs.spec_block(fs.spec_direct(n, i) as int).take(c) + rest),
        }
    }
}

impl Ext2 {
    /// How reading regular file `n` turns out: the inode checks, the
    /// file type check, then the gather over the direct pointers.
    pub open spec fn spec_file_result(self, n: int) -> Result<Seq<u8>, Ext2Error>
        recommends
            self.wf(),
    {
        if !self.inode_number_ok(n) {
            Err(Ext2Error::NoSuchInode)
        } else if !self.inode_located(n) {
            Err(Ext2Error::Truncated)
        } else if !self.spec_is_file(n) {
            Err(Ext2Error::NotAFile)
        } else {
            match file_gather_from(self, n, 0, self.spec_size_of(n)) {
                None => Err(Ext2Error::Truncated),
                Some(d) => Ok(d),
            }
        }
    }

    /// Reads the contents of regular file inode `inode`.
    pub fn read_file_inode(&self, inode: usize) -> (r: Result<Vec<u8>, Ext2Error>)
        requires
            self.wf(),
        ensures
            match r {
                Ok(v) => self.spec_file_result(inode as int) == Ok::<Seq<u8>, Ext2Error>(v@),
                Err(e) => self.spec_file_result(inode as int) == Err::<Seq<u8>, Ext2Error>(e),
            },
    {
        let ghost n = inode as int;
        let ino = match self.get_inode(inode) {
            Ok(ino) => ino,
            Err(e) => {
                return Err(e);
            },
        };
        if ino.type_perm & TYPE_FILE != TYPE_FILE {
            return Err(Ext2Error::NotAFile);
        }
        let size: u64 = (ino.size_high as u64) * 0x1_0000_0000 + (ino.size_low as u64);
        let mut data: Vec<u8> = Vec::new();
        let mut i: usize = 0;
        while i < 12 && (data.len() as u64) < size && ino.direct_pointer[i] != 0
            invariant
                self.wf(),
                n == inode as int,
                self.inode_number_ok(n),
                self.inode_located(n),
                self.spec_is_file(n),
                0 <= i <= 12,
                data@.len() <= size,
                size == self.spec_size_of(n),
                forall|j: int| 0 <= j < 12 ==> ino.direct_pointer@[j] == self.spec_direct(n, j),
                match file_gather_from(*self, n, i as int, size - data@.len()) {
                    Some(rest) => file_gather_from(*self, n, 0, size as int) == Some(
                        data@ + rest,
                    ),
                    None => file_gather_from(*self, n, 0, size as int).is_none(),
                },
            decreases 12 - i,
        {
            let p: u32 = ino.direct_pointer[i];
            let ghost pre = data@;
            let bytes_read: u64 = data.len() as u64;
            match self.read_dir_entry_block(&mut data, p, size, bytes_read) {
                Ok(c) => {
                    proof {
                        let rem = size - pre.len();
                        let c_s = spec_min(self.block_size as int, rem);
                        match file_gather_from(*self, n, i + 1, rem - c_s) {
                            Some(rest) => {
                                assert(file_gather_from(*self, n, i as int, rem) == Some(
                                    self.spec_block(p as int).take(c_s) + rest,
                                ));
                                assert(pre + (self.spec_block(p as int).take(c_s) + rest)
                                    =~= data@ + rest);
                            },
                            None => {
                                assert(file_gather_from(*self, n, i as int, rem).is_none());
                            },
                        }
                    }
                },
                Err(_) => {
                    proof {
                        assert(file_gather_from(*self, n, i as int, size - data@.len()).is_none());
                    }
                    return Err(Ext2Error::Truncated);
                },
            }
            i = i + 1;
        }
        proof {
            assert(file_gather_from(*self, n, i as int, size - data@.len()) == Some(
                Seq::<u8>::empty(),
            ));
            assert(data@ + Seq::<u8>::empty() =~= data@);
        }
        Ok(data)
    }
}

/// Every in-range block holds exactly `block_size` bytes.
pub proof fn lemma_spec_block_len(fs: Ext2, b: int)
    requires
        fs.wf(),
        fs.block_in_range(b),
    ensures
        fs.spec_block(b).len() == fs.block_size,
        (b - fs.block_offset) * fs.block_size >= 0,
        (b - fs.block_offset) * fs.block_size + fs.block_size <= fs.blocks@.len(),
{
    assert((b - fs.block_offset + 1) * fs.block_size == (b - fs.block_offset) * fs.block_size
        + fs.block_size) by (nonlinear_arith);
    assert((b - fs.block_offset) * fs.block_size >= 0) by (nonlinear_arith)
        requires
            b >= fs.block_offset,
            fs.block_size > 0,
    ;
}

/// The gather over the direct pointers is whole while pointers cover
/// what is owed: with every needed pointer non-zero and in range, it
/// returns exactly `remaining` bytes.
proof fn lemma_file_gather_full(fs: Ext2, n: int, i: int, remaining: int)
    requires
        fs.wf(),
        0 <= i <= 12,
        remaining <= (12 - i) * fs.block_size,
        forall|j: int|
            i <= j < 12 && (j - i) * fs.block_size < remaining ==> fs.spec_direct(n, j) != 0
                && fs.block_in_range(fs.spec_direct(n, j) as int),
    ensures
        remaining >= 0 ==> file_gather_from(fs, n, i, remaining) == Some(
            file_gather_from(fs, n, i, remaining).unwrap(),
        ) && file_gather_from(fs, n, i, remaining).unwrap().len() == remaining,
        remaining < 0 ==> file_gather_from(fs, n, i, remaining) == Some(Seq::<u8>::empty()),
    decreases 12 - i,
{
    let bs = fs.block_size as int;
    if i >= 12 || remaining <= 0 {
        assert(remaining <= (12 - i) * bs);
        if i >= 12 && remaining > 0 {
            assert((12 - i) * bs <= 0) by (nonlinear_arith)
                requires
                    i >= 12,
                    bs > 0,
            ;
        }
    } else {
        assert((i - i) * bs == 0);
        let p = fs.spec_direct(n, i);
        let c = spec_min(bs, remaining);
        lemma_spec_block_len(fs, p as int);
        assert((12 - (i + 1)) * bs == (12 - i) * bs - bs) by (nonlinear_arith);
        assert forall|j: int|
            i + 1 <= j < 12 && (j - (i + 1)) * bs < remaining - c implies fs.spec_direct(n, j)
            != 0 && fs.block_in_range(fs.spec_direct(n, j) as int) by {
            assert((j - i) * bs == (j - (i + 1)) * bs + bs) by (nonlinear_arith);
        }
        lemma_file_gather_full(fs, n, i + 1, remaining - c);
    }
}

/// The size bound of the file reader: a regular file whose declared
/// size fits in the twelve direct blocks, all of them present, reads
/// back exactly `(size_high << 32) | size_low` bytes.
pub proof fn lemma_file_size_bound(fs: Ext2, n: int)
    requires
        fs.wf(),
        fs.inode_number_ok(n),
        fs.inode_located(n),
        fs.spec_is_file(n),
        fs.spec_size_of(n) <= 12 * fs.block_size,
        forall|j: int|
            0 <= j < 12 && j * fs.block_size < fs.spec_size_of(n) ==> fs.spec_direct(n, j) != 0
                && fs.block_in_range(fs.spec_direct(n, j) as int),
    ensures
        fs.spec_file_result(n) == Ok::<Seq<u8>, Ext2Error>(fs.spec_file_result(n).unwrap()),
        fs.spec_file_result(n).unwrap().len() == fs.spec_size_of(n),
{
    lemma_file_gather_full(fs, n, 0, fs.spec_size_of(n));
}

} // verus!
