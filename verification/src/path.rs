//! The path walker: a '/'-separated path is split into components and
//! each component is looked up by linear scan of the current
//! directory's entries, re-reading the directory at every step.

use vstd::prelude::*;
use crate::Ext2Error;
use crate::fs::Ext2;
use crate::dir::{DirEntry, SpecDirEntry, entries_view};
use crate::bytes::{bytes_eq, clone_bytes};

verus! {

/// The byte that separates path components.
pub const PATH_SEP: u8 = 47;

/// A failure together with the path or component it names, as the
/// command surface reports it.
#[derive(Debug)]
pub struct Diagnostic {
    /// What went wrong.
    pub kind: Ext2Error,
    /// The path or component the report names.
    pub subject: Vec<u8>,
}

/// The components of a path: the byte runs between '/' separators.
/// Splitting is total; an empty path and separators at either end
/// yield empty components.
pub open spec fn split_path(p: Seq<u8>) -> Seq<Seq<u8>>
    decreases p.len(),
{
    if p.len() == 0 {
        seq![Seq::<u8>::empty()]
    } else if p[0] == PATH_SEP {
        seq![Seq::<u8>::empty()] + split_path(p.drop_first())
    } else {
        let rest = split_path(p.drop_first());
        seq![seq![p[0]] + rest[0]] + rest.drop_first()
    }
}

/// Splitting always yields at least one component.
pub proof fn lemma_split_nonempty(p: Seq<u8>)
    ensures
        split_path(p).len() >= 1,
    decreases p.len(),
{
    if p.len() > 0 && p[0] != PATH_SEP {
        lemma_split_nonempty(p.drop_first());
    }
}

/// `cs` with `c` prepended to its first element.
pub open spec fn prepend_first(c: Seq<u8>, cs: Seq<Seq<u8>>) -> Seq<Seq<u8>>
    recommends
        cs.len() >= 1,
{
    seq![c + cs[0]] + cs.drop_first()
}

/// Splits a path on '/' into its components.
pub fn split_components(path: &Vec<u8>) -> (r: Vec<Vec<u8>>)
    ensures
        r@.map_values(|c: Vec<u8>| c@) == split_path(path@),
        r@.len() >= 1,
{
    let len: usize = path.len();
    let mut comps: Vec<Vec<u8>> = Vec::new();
    let mut cur: Vec<u8> = Vec::new();
    let mut i: usize = 0;
    proof {
        lemma_split_nonempty(path@);
        assert(path@.skip(0) =~= path@);
        assert(prepend_first(cur@, split_path(path@)) =~~= split_path(path@));
        assert(comps@.map_values(|c: Vec<u8>| c@) + prepend_first(cur@, split_path(path@.skip(0)))
            =~~= split_path(path@));
    }
    while i < len
        invariant
            i <= len,
            len == path@.len(),
            comps@.map_values(|c: Vec<u8>| c@) + prepend_first(
                cur@,
                split_path(path@.skip(i as int)),
            ) =~~= split_path(path@),
        decreases len - i,
    {
        let ghost suffix = path@.skip(i as int);
        let ghost suffix1 = path@.skip(i + 1);
        proof {
            assert(suffix.len() > 0 && suffix[0] == path@[i as int]);
            assert(suffix.drop_first() =~= suffix1);
            lemma_split_nonempty(suffix1);
        }
        if path[i] == PATH_SEP {
            proof {
                assert(split_path(suffix) == seq![Seq::<u8>::empty()] + split_path(suffix1));
                assert(prepend_first(cur@, split_path(suffix)) =~~= seq![cur@] + split_path(
                    suffix1,
                ));
            }
            let ghost old_comps = comps@;
            let ghost old_cur = cur@;
            comps.push(cur);
            cur = Vec::new();
            proof {
                assert(comps@.map_values(|c: Vec<u8>| c@) =~~= old_comps.map_values(
                    |c: Vec<u8>| c@,
                ) + seq![old_cur]);
                assert(prepend_first(cur@, split_path(suffix1)) =~~= split_path(suffix1));
                assert(comps@.map_values(|c: Vec<u8>| c@) + prepend_first(
                    cur@,
                    split_path(suffix1),
                ) =~~= split_path(path@));
            }
        } else {
            let ghost rest = split_path(suffix1);
            proof {
                assert(split_path(suffix) == seq![seq![suffix[0]] + rest[0]]
                    + rest.drop_first());
                assert(cur@ + (seq![path@[i as int]] + rest[0]) =~= (cur@ + seq![
                    path@[i as int],
                ]) + rest[0]);
                assert(prepend_first(cur@, split_path(suffix)) =~~= prepend_first(
                    cur@ + seq![path@[i as int]],
                    rest,
                ));
            }
            cur.push(path[i]);
            proof {
                assert(comps@.map_values(|c: Vec<u8>| c@) + prepend_first(cur@, rest)
                    =~~= split_path(path@));
            }
        }
        i = i + 1;
    }
    proof {
        assert(path@.skip(len as int) =~= Seq::<u8>::empty());
        assert(split_path(Seq::<u8>::empty()) == seq![Seq::<u8>::empty()]);
        assert(prepend_first(cur@, seq![Seq::<u8>::empty()]) =~~= seq![cur@]);
    }
    let ghost old_comps = comps@;
    let ghost last = cur@;
    comps.push(cur);
    proof {
        assert(comps@.map_values(|c: Vec<u8>| c@) =~~= old_comps.map_values(|c: Vec<u8>| c@)
            + seq![last]);
        assert(comps@.map_values(|c: Vec<u8>| c@) =~~= split_path(path@));
    }
    comps
}

/// Index of the first entry whose name is `name`, if any.
pub open spec fn find_entry(dirs: Seq<SpecDirEntry>, name: Seq<u8>) -> Option<int>
    decreases dirs.len(),
{
    if dirs.len() == 0 {
        None
    } else if dirs[0].name == name {
        Some(0)
    } else {
        match find_entry(dirs.drop_first(), name) {
            None => None,
            Some(j) => Some(j + 1),
        }
    }
}

/// A scan that stops at `i` with no earlier match pins `find_entry`.
proof fn lemma_find_entry_at(dirs: Seq<SpecDirEntry>, name: Seq<u8>, i: int)
    requires
        0 <= i <= dirs.len(),
        i < dirs.len() ==> dirs[i].name == name,
        forall|j: int| 0 <= j < i ==> dirs[j].name != name,
    ensures
        i < dirs.len() ==> find_entry(dirs, name) == Some(i),
        i == dirs.len() ==> find_entry(dirs, name).is_none(),
    decreases dirs.len(),
{
    if dirs.len() > 0 && dirs[0].name != name {
        lemma_find_entry_at(dirs.drop_first(), name, i - 1);
    }
}

/// Scans `dirs` in order for the first entry named `name` and hands
/// back its child inode.
fn find_entry_exec(dirs: &Vec<DirEntry>, name: &Vec<u8>) -> (r: Option<u32>)
    ensures
        match find_entry(entries_view(dirs@), name@) {
            Some(j) => r == Some(entries_view(dirs@)[j].inode),
            None => r.is_none(),
        },
{
    let ghost ev = entries_view(dirs@);
    let n: usize = dirs.len();
    let mut i: usize = 0;
    while i < n
        invariant
            i <= n,
            n == dirs@.len(),
            ev == entries_view(dirs@),
            forall|j: int| 0 <= j < i ==> ev[j].name != name@,
        decreases n - i,
    {
        if bytes_eq(&dirs[i].name, name) {
            proof {
                lemma_find_entry_at(ev, name@, i as int);
            }
            return Some(dirs[i].inode);
        }
        i = i + 1;
    }
    proof {
        lemma_find_entry_at(ev, name@, n as int);
    }
    None
}

/// The walk from component `k` on: the current directory's entries are
/// scanned for the component; on a match before the last component the
/// child must resolve to a directory inode, whose listing the walk
/// continues with; the last component may name any inode.
pub open spec fn resolve_loop(
    fs: Ext2,
    comps: Seq<Seq<u8>>,
    k: int,
    dirs: Seq<SpecDirEntry>,
    cur: int,
) -> Result<int, (Ext2Error, Seq<u8>)>
    decreases comps.len() - k,
{
    if k >= comps.len() {
        Ok(cur)
    } else {
        match find_entry(dirs, comps[k]) {
            None => Err((Ext2Error::NoSuchEntry, comps[k])),
            Some(j) => {
                let child = dirs[j].inode as int;
                if k + 1 < comps.len() {
                    if !fs.inode_number_ok(child) {
                        Err((Ext2Error::NoSuchInode, comps[k]))
                    } else if !fs.inode_located(child) {
                        Err((Ext2Error::Truncated, comps[k]))
                    } else if !fs.spec_is_dir(child) {
                        Err((Ext2Error::NotADirectoryInPath, comps[k]))
                    } else {
                        match fs.spec_list(child) {
                            Err(e) => Err((e, comps[k])),
                            Ok(d2) => resolve_loop(fs, comps, k + 1, d2, child),
                        }
                    }
                } else {
                    Ok(child)
                }
            },
        }
    }
}

impl Ext2 {
    /// What resolving `path` against the starting listing `dirs`
    /// yields. A leading '/' anchors the walk at the root directory,
    /// inode 2: the empty first component is consumed and the remaining
    /// components resolve against the root's listing.
    pub open spec fn spec_resolve(self, path: Seq<u8>, dirs: Seq<SpecDirEntry>) -> Result<
        int,
        (Ext2Error, Seq<u8>),
    > {
        if path.len() > 0 && path[0] == PATH_SEP {
            match self.spec_list(2) {
                Err(e) => Err((e, Seq::empty())),
                Ok(root) => resolve_loop(self, split_path(path), 1, root, 2),
            }
        } else {
            resolve_loop(self, split_path(path), 0, dirs, 0)
        }
    }

    /// Resolves a '/'-separated path, starting from the directory whose
    /// listing is `dirs` — or from the root, inode 2, when the path
    /// begins with '/' — to the inode number it names. A failed lookup
    /// or a non-directory met before the last component reports the
    /// offending component.
    #[verifier::rlimit(100)]
    pub fn follow_path(&self, path: &Vec<u8>, dirs: Vec<DirEntry>) -> (r: Result<
        usize,
        Diagnostic,
    >)
        requires
            self.wf(),
        ensures
            match r {
                Ok(i) => self.spec_resolve(path@, entries_view(dirs@)) == Ok::<
                    int,
                    (Ext2Error, Seq<u8>),
                >(i as int),
                Err(d) => self.spec_resolve(path@, entries_view(dirs@)) == Err::<
                    int,
                    (Ext2Error, Seq<u8>),
                >((d.kind, d.subject@)),
            },
    {
        let ghost ev0 = entries_view(dirs@);
        let comps: Vec<Vec<u8>> = split_components(path);
        let ghost cv = comps@.map_values(|c: Vec<u8>| c@);
        let mut cur_dirs: Vec<DirEntry> = dirs;
        let mut cur: usize = 0;
        let mut k: usize = 0;
        let nc: usize = comps.len();
        let anchored: bool = path.len() > 0 && path[0] == PATH_SEP;
        if anchored {
            proof {
                lemma_split_nonempty(path@.drop_first());
                assert(split_path(path@) == seq![Seq::<u8>::empty()] + split_path(
                    path@.drop_first(),
                ));
                assert(nc >= 2);
            }
            match self.read_dir_inode(crate::layout::ROOT_INODE) {
                Err(e) => {
                    return Err(Diagnostic { kind: e, subject: Vec::new() });
                },
                Ok(root) => {
                    cur_dirs = root;
                    cur = crate::layout::ROOT_INODE;
                    k = 1;
                },
            }
        }
        let ghost goal = self.spec_resolve(path@, ev0);
        proof {
            assert(resolve_loop(*self, cv, k as int, entries_view(cur_dirs@), cur as int)
                == goal);
        }
        while k < nc
            invariant
                self.wf(),
                k <= nc,
                nc == comps@.len(),
                cv == comps@.map_values(|c: Vec<u8>| c@),
                goal == self.spec_resolve(path@, ev0),
                cv == split_path(path@),
                ev0 == entries_view(dirs@),
                resolve_loop(*self, cv, k as int, entries_view(cur_dirs@), cur as int) == goal,
            decreases nc - k,
        {
            let ghost ev_cur = entries_view(cur_dirs@);
            let ghost cur0 = cur as int;
            let name: &Vec<u8> = &comps[k];
            proof {
                assert(cv[k as int] == name@);
            }
            match find_entry_exec(&cur_dirs, name) {
                None => {
                    proof {
                        assert(resolve_loop(*self, cv, k as int, ev_cur, cur0) == Err::<
                            int,
                            (Ext2Error, Seq<u8>),
                        >((Ext2Error::NoSuchEntry, cv[k as int])));
                    }
                    return Err(
                        Diagnostic { kind: Ext2Error::NoSuchEntry, subject: clone_bytes(name) },
                    );
                },
                Some(child) => {
                    let ghost jj = find_entry(ev_cur, cv[k as int]).unwrap();
                    proof {
                        assert(child == ev_cur[jj].inode);
                    }
                    cur = child as usize;
                    if k + 1 < nc {
                        let ghost c = child as int;
                        match self.get_inode(cur) {
                            Err(e) => {
                                proof {
                                    assert(e == Ext2Error::NoSuchInode
                                        || e == Ext2Error::Truncated);
                                    assert(resolve_loop(*self, cv, k as int, ev_cur, cur0)
                                        == Err::<int, (Ext2Error, Seq<u8>)>((e, cv[k as int])));
                                }
                                return Err(Diagnostic { kind: e, subject: clone_bytes(name) });
                            },
                            Ok(ino) => {
                                if ino.type_perm & crate::layout::TYPE_DIRECTORY
                                    != crate::layout::TYPE_DIRECTORY {
                                    proof {
                                        assert(resolve_loop(*self, cv, k as int, ev_cur, cur0)
                                            == Err::<int, (Ext2Error, Seq<u8>)>((
                                            Ext2Error::NotADirectoryInPath,
                                            cv[k as int],
                                        )));
                                    }
                                    return Err(
                                        Diagnostic {
                                            kind: Ext2Error::NotADirectoryInPath,
                                            subject: clone_bytes(name),
                                        },
                                    );
                                }
                            },
                        }
                        match self.read_dir_inode(cur) {
                            Err(e) => {
                                proof {
                                    assert(self.spec_list(c) == Err::<
                                        Seq<SpecDirEntry>,
                                        Ext2Error,
                                    >(e));
                                    assert(resolve_loop(*self, cv, k as int, ev_cur, cur0)
                                        == Err::<int, (Ext2Error, Seq<u8>)>((e, cv[k as int])));
                                }
                                return Err(Diagnostic { kind: e, subject: clone_bytes(name) });
                            },
                            Ok(d2) => {
                                proof {
                                    assert(self.spec_list(c) == Ok::<
                                        Seq<SpecDirEntry>,
                                        Ext2Error,
                                    >(entries_view(d2@)));
                                    assert(resolve_loop(*self, cv, k as int, ev_cur, cur0)
                                        == resolve_loop(
                                        *self,
                                        cv,
                                        k + 1,
                                        entries_view(d2@),
                                        c,
                                    ));
                                }
                                cur_dirs = d2;
                            },
                        }
                    } else {
                        proof {
                            assert(resolve_loop(*self, cv, k as int, ev_cur, cur0) == Ok::<
                                int,
                                (Ext2Error, Seq<u8>),
                            >(child as int));
                        }
                    }
                    k = k + 1;
                },
            }
        }
        Ok(cur)
    }
}

/// Path idempotence: resolution reads the image and never changes it,
/// so two resolutions of one path against one view and one starting
/// listing agree. `follow_path`'s contract pins each call's result to
/// `spec_resolve`; this states that the pinned results are one value.
pub proof fn lemma_resolve_idempotent(
    fs: Ext2,
    p: Seq<u8>,
    ev: Seq<SpecDirEntry>,
    r1: Result<int, (Ext2Error, Seq<u8>)>,
    r2: Result<int, (Ext2Error, Seq<u8>)>,
)
    requires
        r1 == fs.spec_resolve(p, ev),
        r2 == fs.spec_resolve(p, ev),
    ensures
        r1 == r2,
{
}

/// A path without a separator is one component.
pub proof fn lemma_split_no_sep(p: Seq<u8>)
    requires
        forall|j: int| 0 <= j < p.len() ==> p[j] != PATH_SEP,
    ensures
        split_path(p) == seq![p],
    decreases p.len(),
{
    if p.len() == 0 {
        assert(split_path(p) =~~= seq![p]);
    } else {
        assert forall|j: int| 0 <= j < p.drop_first().len() implies p.drop_first()[j]
            != PATH_SEP by {
            assert(p.drop_first()[j] == p[j + 1]);
        }
        lemma_split_no_sep(p.drop_first());
        let rest = split_path(p.drop_first());
        assert(rest[0] == p.drop_first());
        assert(seq![p[0]] + p.drop_first() =~= p);
        assert(rest.drop_first() =~= Seq::<Seq<u8>>::empty());
        assert(split_path(p) =~~= seq![p]);
    }
}

/// One step of rebuilding a path from an enumeration: a name taken
/// from a listing, used alone as a path, resolves to the child inode
/// of the first entry carrying that name.
pub proof fn lemma_resolve_listed_name(fs: Ext2, ev: Seq<SpecDirEntry>, name: Seq<u8>, j: int)
    requires
        forall|t: int| 0 <= t < name.len() ==> name[t] != PATH_SEP,
        find_entry(ev, name) == Some(j),
        0 <= j < ev.len(),
    ensures
        fs.spec_resolve(name, ev) == Ok::<int, (Ext2Error, Seq<u8>)>(ev[j].inode as int),
{
    lemma_split_no_sep(name);
    let comps = split_path(name);
    assert(comps[0] == name);
    assert(resolve_loop(fs, comps, 0, ev, 0) == Ok::<int, (Ext2Error, Seq<u8>)>(
        ev[j].inode as int,
    ));
}

} // verus!
