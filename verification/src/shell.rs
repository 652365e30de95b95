//! The command surface: the computations behind `ls`, `cd`, `cat` and
//! `mkdir`, over plain byte values. Printing and prompting live outside
//! the library; these functions return the exact output bytes or a
//! diagnostic naming what failed.

use vstd::prelude::*;
use crate::Ext2Error;
use crate::fs::Ext2;
use crate::dir::{DirEntry, SpecDirEntry, entries_view};
use crate::path::{Diagnostic, split_path, split_components};
use crate::layout::ROOT_INODE;

verus! {

/// The names of a listing joined by tabs.
pub open spec fn join_names(es: Seq<SpecDirEntry>) -> Seq<u8>
    decreases es.len(),
{
    if es.len() == 0 {
        Seq::empty()
    } else if es.len() == 1 {
        es[0].name
    } else {
        es[0].name + seq![9u8] + join_names(es.drop_first())
    }
}

/// What `ls` prints for a listing: tab-separated names and a newline.
pub open spec fn spec_ls_output(es: Seq<SpecDirEntry>) -> Seq<u8> {
    join_names(es) + seq![10u8]
}

/// Joining grows at the tail, one tab and one name at a time.
proof fn lemma_join_push(es: Seq<SpecDirEntry>, e: SpecDirEntry)
    ensures
        es.len() == 0 ==> join_names(es.push(e)) == e.name,
        es.len() >= 1 ==> join_names(es.push(e)) == join_names(es) + seq![9u8] + e.name,
    decreases es.len(),
{
    if es.len() == 0 {
        assert(es.push(e)[0] == e);
        assert(es.push(e).len() == 1);
    } else if es.len() == 1 {
        assert(es.push(e)[0] == es[0]);
        assert(es.push(e).drop_first() =~= seq![e]);
        assert(join_names(seq![e]) == e.name);
        assert(join_names(es) == es[0].name);
    } else {
        lemma_join_push(es.drop_first(), e);
        assert(es.push(e).drop_first() =~= es.drop_first().push(e));
        assert(es.push(e)[0] == es[0]);
        assert(es[0].name + seq![9u8] + (join_names(es.drop_first()) + seq![9u8] + e.name)
            =~= (es[0].name + seq![9u8] + join_names(es.drop_first())) + seq![9u8] + e.name);
    }
}

/// Formats a listing the way `ls` prints it.
pub fn format_listing(dirs: &Vec<DirEntry>) -> (r: Vec<u8>)
    ensures
        r@ == spec_ls_output(entries_view(dirs@)),
{
    let ghost ev = entries_view(dirs@);
    let n: usize = dirs.len();
    let mut out: Vec<u8> = Vec::new();
    let mut i: usize = 0;
    while i < n
        invariant
            i <= n,
            n == dirs@.len(),
            ev == entries_view(dirs@),
            out@ == join_names(ev.take(i as int)),
        decreases n - i,
    {
        if i > 0 {
            out.push(9);
        }
        let name: &Vec<u8> = &dirs[i].name;
        let nl: usize = name.len();
        let ghost mid = out@;
        let mut j: usize = 0;
        while j < nl
            invariant
                j <= nl,
                nl == name@.len(),
                out@ == mid + name@.take(j as int),
            decreases nl - j,
        {
            out.push(name[j]);
            proof {
                assert(out@ =~= mid + name@.take(j + 1));
            }
            j = j + 1;
        }
        proof {
            assert(name@.take(nl as int) =~= name@);
            assert(ev.take(i as int).push(ev[i as int]) =~= ev.take(i + 1));
            lemma_join_push(ev.take(i as int), ev[i as int]);
            assert(ev[i as int].name == name@);
            if i == 0 {
                assert(out@ =~= join_names(ev.take(1)));
            } else {
                assert(out@ =~= join_names(ev.take(i as int)) + seq![9u8] + name@);
            }
        }
        i = i + 1;
    }
    proof {
        assert(ev.take(n as int) =~= ev);
    }
    out.push(10);
    out
}

/// The bytes a diagnostic is printed as: a short phrase naming the
/// failure, then the path or component it concerns.
pub open spec fn spec_diag_prefix(kind: Ext2Error) -> Seq<u8> {
    match kind {
        Ext2Error::NotAFile => seq![110u8, 111u8, 116u8, 32u8, 97u8, 32u8, 102u8, 105u8, 108u8, 101u8, 58u8, 32u8],
        Ext2Error::NotADirectory => seq![110u8, 111u8, 116u8, 32u8, 97u8, 32u8, 100u8, 105u8, 114u8, 101u8, 99u8, 116u8, 111u8, 114u8, 121u8, 58u8, 32u8],
        Ext2Error::NotADirectoryInPath => seq![110u8, 111u8, 116u8, 32u8, 97u8, 32u8, 100u8, 105u8, 114u8, 101u8, 99u8, 116u8, 111u8, 114u8, 121u8, 58u8, 32u8],
        Ext2Error::NoSuchEntry => seq![117u8, 110u8, 97u8, 98u8, 108u8, 101u8, 32u8, 116u8, 111u8, 32u8, 108u8, 111u8, 99u8, 97u8, 116u8, 101u8, 32u8],
        _ => seq![117u8, 110u8, 97u8, 98u8, 108u8, 101u8, 32u8, 116u8, 111u8, 32u8, 114u8, 101u8, 97u8, 100u8, 58u8, 32u8],
    }
}

/// Renders a diagnostic as one line of output, without the newline.
pub fn diagnostic_bytes(d: &Diagnostic) -> (r: Vec<u8>)
    ensures
        r@ == spec_diag_prefix(d.kind) + d.subject@,
{
    let mut out: Vec<u8> = Vec::new();
    match d.kind {
        Ext2Error::NotAFile => {
            out.push(110);
            out.push(111);
            out.push(116);
            out.push(32);
            out.push(97);
            out.push(32);
            out.push(102);
            out.push(105);
            out.push(108);
            out.push(101);
            out.push(58);
            out.push(32);
        },
        Ext2Error::NotADirectory => {
            out.push(110);
            out.push(111);
            out.push(116);
            out.push(32);
            out.push(97);
            out.push(32);
            out.push(100);
            out.push(105);
            out.push(114);
            out.push(101);
            out.push(99);
            out.push(116);
            out.push(111);
            out.push(114);
            out.push(121);
            out.push(58);
            out.push(32);
        },
        Ext2Error::NotADirectoryInPath => {
            out.push(110);
            out.push(111);
            out.push(116);
            out.push(32);
            out.push(97);
            out.push(32);
            out.push(100);
            out.push(105);
            out.push(114);
            out.push(101);
            out.push(99);
            out.push(116);
            out.push(111);
            out.push(114);
            out.push(121);
            out.push(58);
            out.push(32);
        },
        Ext2Error::NoSuchEntry => {
            out.push(117);
            out.push(110);
            out.push(97);
            out.push(98);
            out.push(108);
            out.push(101);
            out.push(32);
            out.push(116);
            out.push(111);
            out.push(32);
            out.push(108);
            out.push(111);
            out.push(99);
            out.push(97);
            out.push(116);
            out.push(101);
            out.push(32);
        },
        _ => {
            out.push(117);
            out.push(110);
            out.push(97);
            out.push(98);
            out.push(108);
            out.push(101);
            out.push(32);
            out.push(116);
            out.push(111);
            out.push(32);
            out.push(114);
            out.push(101);
            out.push(97);
            out.push(100);
            out.push(58);
            out.push(32);
        },
    }
    let ghost pre = out@;
    proof {
        assert(pre =~= spec_diag_prefix(d.kind));
    }
    let nl: usize = d.subject.len();
    let mut j: usize = 0;
    while j < nl
        invariant
            j <= nl,
            nl == d.subject@.len(),
            out@ == pre + d.subject@.take(j as int),
        decreases nl - j,
    {
        out.push(d.subject[j]);
        proof {
            assert(out@ =~= pre + d.subject@.take(j + 1));
        }
        j = j + 1;
    }
    proof {
        assert(d.subject@.take(nl as int) =~= d.subject@);
    }
    out
}

impl Ext2 {
    /// What `cd` does: no argument goes to the root; a path must
    /// resolve to a directory inode, which becomes the working
    /// directory; any failure leaves the working directory alone.
    pub open spec fn spec_cd(self, ev: Seq<SpecDirEntry>, arg: Option<Seq<u8>>) -> Result<
        int,
        (Ext2Error, Seq<u8>),
    > {
        match arg {
            None => Ok(2),
            Some(p) => match self.spec_resolve(p, ev) {
                Err(d) => Err(d),
                Ok(i) => if !self.inode_number_ok(i) {
                    Err((Ext2Error::NoSuchInode, p))
                } else if !self.inode_located(i) {
                    Err((Ext2Error::Truncated, p))
                } else if self.spec_is_dir(i) {
                    Ok(i)
                } else {
                    Err((Ext2Error::NotADirectory, split_path(p).last()))
                },
            },
        }
    }

    /// Changes the working directory: to the root with no argument,
    /// else to the directory the path resolves to. A path that names a
    /// non-directory is refused with a diagnostic naming its final
    /// component.
    pub fn cd(&self, dirs: Vec<DirEntry>, arg: Option<&Vec<u8>>) -> (r: Result<usize, Diagnostic>)
        requires
            self.wf(),
        ensures
            match r {
                Ok(i) => self.spec_cd(
                    entries_view(dirs@),
                    match arg {
                        None => None,
                        Some(p) => Some(p@),
                    },
                ) == Ok::<int, (Ext2Error, Seq<u8>)>(i as int),
                Err(d) => self.spec_cd(
                    entries_view(dirs@),
                    match arg {
                        None => None,
                        Some(p) => Some(p@),
                    },
                ) == Err::<int, (Ext2Error, Seq<u8>)>((d.kind, d.subject@)),
            },
    {
        let path: &Vec<u8> = match arg {
            None => {
                return Ok(ROOT_INODE);
            },
            Some(p) => p,
        };
        let i: usize = match self.follow_path(path, dirs) {
            Ok(i) => i,
            Err(d) => {
                return Err(d);
            },
        };
        match self.get_inode(i) {
            Err(e) => Err(Diagnostic { kind: e, subject: crate::bytes::clone_bytes(path) }),
            Ok(ino) => {
                if ino.type_perm & crate::layout::TYPE_DIRECTORY == crate::layout::TYPE_DIRECTORY {
                    Ok(i)
                } else {
                    let comps = split_components(path);
                    let lc: &Vec<u8> = &comps[comps.len() - 1];
                    proof {
                        let cv = comps@.map_values(|c: Vec<u8>| c@);
                        assert(lc@ == cv[cv.len() - 1]);
                        assert(lc@ == split_path(path@).last());
                    }
                    Err(
                        Diagnostic {
                            kind: Ext2Error::NotADirectory,
                            subject: crate::bytes::clone_bytes(lc),
                        },
                    )
                }
            },
        }
    }

    /// What `ls` prints: the working directory's listing with no
    /// argument, else the listing of the directory the path resolves
    /// to.
    pub open spec fn spec_ls(self, ev: Seq<SpecDirEntry>, arg: Option<Seq<u8>>) -> Result<
        Seq<u8>,
        (Ext2Error, Seq<u8>),
    > {
        match arg {
            None => Ok(spec_ls_output(ev)),
            Some(p) => match self.spec_resolve(p, ev) {
                Err(d) => Err(d),
                Ok(i) => if !self.inode_number_ok(i) {
                    Err((Ext2Error::NoSuchInode, p))
                } else if !self.inode_located(i) {
                    Err((Ext2Error::Truncated, p))
                } else if !self.spec_is_dir(i) {
                    Err((Ext2Error::NotADirectory, p))
                } else {
                    match self.spec_list(i) {
                        Err(e) => Err((e, p)),
                        Ok(es2) => Ok(spec_ls_output(es2)),
                    }
                },
            },
        }
    }

    /// Lists a directory: tab-separated names, newline-terminated.
    pub fn ls(&self, dirs: Vec<DirEntry>, arg: Option<&Vec<u8>>) -> (r: Result<Vec<u8>, Diagnostic>)
        requires
            self.wf(),
        ensures
            match r {
                Ok(v) => self.spec_ls(
                    entries_view(dirs@),
                    match arg {
                        None => None,
                        Some(p) => Some(p@),
                    },
                ) == Ok::<Seq<u8>, (Ext2Error, Seq<u8>)>(v@),
                Err(d) => self.spec_ls(
                    entries_view(dirs@),
                    match arg {
                        None => None,
                        Some(p) => Some(p@),
                    },
                ) == Err::<Seq<u8>, (Ext2Error, Seq<u8>)>((d.kind, d.subject@)),
            },
    {
        let path: &Vec<u8> = match arg {
            None => {
                return Ok(format_listing(&dirs));
            },
            Some(p) => p,
        };
        let i: usize = match self.follow_path(path, dirs) {
            Ok(i) => i,
            Err(d) => {
                return Err(d);
            },
        };
        match self.get_inode(i) {
            Err(e) => {
                return Err(Diagnostic { kind: e, subject: crate::bytes::clone_bytes(path) });
            },
            Ok(ino) => {
                if ino.type_perm & crate::layout::TYPE_DIRECTORY != crate::layout::TYPE_DIRECTORY {
                    return Err(
                        Diagnostic {
                            kind: Ext2Error::NotADirectory,
                            subject: crate::bytes::clone_bytes(path),
                        },
                    );
                }
            },
        }
        match self.read_dir_inode(i) {
            Err(e) => Err(Diagnostic { kind: e, subject: crate::bytes::clone_bytes(path) }),
            Ok(v) => Ok(format_listing(&v)),
        }
    }

    /// What `cat` emits: the raw bytes of the regular file the path
    /// resolves to.
    pub open spec fn spec_cat(self, ev: Seq<SpecDirEntry>, p: Seq<u8>) -> Result<
        Seq<u8>,
        (Ext2Error, Seq<u8>),
    > {
        match self.spec_resolve(p, ev) {
            Err(d) => Err(d),
            Ok(i) => if !self.inode_number_ok(i) {
                Err((Ext2Error::NoSuchInode, p))
            } else if !self.inode_located(i) {
                Err((Ext2Error::Truncated, p))
            } else if !self.spec_is_file(i) {
                Err((Ext2Error::NotAFile, p))
            } else {
                match self.spec_file_result(i) {
                    Err(e) => Err((e, p)),
                    Ok(d) => Ok(d),
                }
            },
        }
    }

    /// Prints a regular file: resolves the path and hands back the
    /// file's bytes.
    pub fn cat(&self, dirs: Vec<DirEntry>, path: &Vec<u8>) -> (r: Result<Vec<u8>, Diagnostic>)
        requires
            self.wf(),
        ensures
            match r {
                Ok(v) => self.spec_cat(entries_view(dirs@), path@) == Ok::<
                    Seq<u8>,
                    (Ext2Error, Seq<u8>),
                >(v@),
                Err(d) => self.spec_cat(entries_view(dirs@), path@) == Err::<
                    Seq<u8>,
                    (Ext2Error, Seq<u8>),
                >((d.kind, d.subject@)),
            },
    {
        let i: usize = match self.follow_path(path, dirs) {
            Ok(i) => i,
            Err(d) => {
                return Err(d);
            },
        };
        match self.get_inode(i) {
            Err(e) => {
                return Err(Diagnostic { kind: e, subject: crate::bytes::clone_bytes(path) });
            },
            Ok(ino) => {
                if ino.type_perm & crate::layout::TYPE_FILE != crate::layout::TYPE_FILE {
                    return Err(
                        Diagnostic {
                            kind: Ext2Error::NotAFile,
                            subject: crate::bytes::clone_bytes(path),
                        },
                    );
                }
            },
        }
        match self.read_file_inode(i) {
            Err(e) => Err(Diagnostic { kind: e, subject: crate::bytes::clone_bytes(path) }),
            Ok(v) => Ok(v),
        }
    }

    /// Creates a directory entry named `name` in the working
    /// directory. No inode is allocated: the new name is linked to the
    /// working directory's own inode.
    pub fn mkdir(&mut self, current_working_inode: usize, name: &Vec<u8>) -> (r: Result<
        (),
        Ext2Error,
    >)
        requires
            old(self).wf(),
        ensures
            final(self).wf(),
            final(self).superblock == old(self).superblock,
            final(self).block_size == old(self).block_size,
            current_working_inode <= u32::MAX ==> {
                &&& (r.is_ok() <==> old(self).spec_insert_check(
                    current_working_inode as int,
                    name@,
                    current_working_inode as u32,
                ).is_none())
                &&& r matches Ok(()) ==> final(self).spec_raw_list(current_working_inode as int)
                    == Ok::<Seq<SpecDirEntry>, Ext2Error>(
                    old(self).spec_entries_after_insert(
                        current_working_inode as int,
                        name@,
                        current_working_inode as u32,
                    ),
                )
                &&& r matches Err(e) ==> *final(self) == *old(self)
            },
            current_working_inode > u32::MAX ==> r == Err::<(), Ext2Error>(Ext2Error::NoSuchInode)
                && *final(self) == *old(self),
    {
        if current_working_inode > u32::MAX as usize {
            return Err(Ext2Error::NoSuchInode);
        }
        self.insert_dir_entry(current_working_inode, name, current_working_inode as u32)
    }
}

} // verus!
