//! The in-memory parcel tree: an inode-addressed directory structure with
//! file bytes, symlinks, per-inode attributes and package metadata.
//!
//! Inode 1 is the root directory and always exists.  Directory entries keep
//! insertion order; inserting a name already present replaces that entry in
//! place, so names stay unique within a directory.  The surrounding binary
//! serializes a finished tree into the on-disk parcel container and reads one
//! back before extraction.

use vstd::pervasive::VecAdditionalExecFns;
use vstd::prelude::*;
use vstd::string::StrSliceExecFns;

use crate::text;

verus! {

/// What an inode is.
#[derive(Debug, Copy, Clone, PartialEq, Eq, Structural)]
pub enum InodeKind {
    Directory,
    RegularFile,
    Symlink,
    CharDevice,
    Whiteout,
}

/// Attributes carried by every inode.  Times are seconds since the epoch.
#[derive(Debug, Copy, Clone, PartialEq, Eq, Structural)]
pub struct InodeAttrs {
    pub atime: u64,
    pub ctime: u64,
    pub mtime: u64,
    pub uid: u32,
    pub gid: u32,
    pub nlink: u32,
    pub perm: u32,
    pub rdev: u64,
}

impl InodeAttrs {
    /// Attributes of the root directory of a fresh parcel.
    pub fn root_default() -> (a: InodeAttrs)
        ensures
            a == (InodeAttrs {
                atime: 0,
                ctime: 0,
                mtime: 0,
                uid: 0,
                gid: 0,
                nlink: 1,
                perm: 0o755,
                rdev: 0,
            }),
    {
        InodeAttrs { atime: 0, ctime: 0, mtime: 0, uid: 0, gid: 0, nlink: 1, perm: 0o755, rdev: 0 }
    }

    /// The default attributes used for directories a build creates on its
    /// own: mode 0644, owned by root, all times set to `now`.
    pub fn build_default(now: u64) -> (a: InodeAttrs)
        ensures
            a == spec_build_attrs(now),
    {
        InodeAttrs {
            atime: now,
            ctime: now,
            mtime: now,
            uid: 0,
            gid: 0,
            nlink: 1,
            perm: 0o644,
            rdev: 0,
        }
    }
}

/// The attributes of everything a build creates on its own: mode 0644,
/// owned by root, all times set to `now`.
pub open spec fn spec_build_attrs(now: u64) -> InodeAttrs {
    InodeAttrs {
        atime: now,
        ctime: now,
        mtime: now,
        uid: 0,
        gid: 0,
        nlink: 1,
        perm: 0o644,
        rdev: 0,
    }
}

/// One name in a directory, naming a child inode.
#[derive(Debug)]
pub struct DirEnt {
    pub name: String,
    pub ino: u64,
}

/// The payload of an inode.
#[derive(Debug)]
pub enum InodeContent {
    Directory(Vec<DirEnt>),
    RegularFile(Vec<u8>),
    Symlink(String),
    CharDevice,
    Whiteout,
}

/// One inode: attributes plus payload.
#[derive(Debug)]
pub struct Inode {
    pub attrs: InodeAttrs,
    pub content: InodeContent,
}

/// Why a parcel operation was refused.
#[derive(Debug, Copy, Clone, PartialEq, Eq, Structural)]
pub enum ParcelError {
    /// The named inode does not exist.
    Enoent,
    /// The named inode is not a directory.
    NotDirectory,
}

/// The directory entries of a payload, empty for non-directories.
pub open spec fn dir_entries(c: InodeContent) -> Seq<DirEnt> {
    match c {
        InodeContent::Directory(v) => v@,
        _ => Seq::empty(),
    }
}

/// The kind of a payload.
pub open spec fn spec_kind(c: InodeContent) -> InodeKind {
    match c {
        InodeContent::Directory(_) => InodeKind::Directory,
        InodeContent::RegularFile(_) => InodeKind::RegularFile,
        InodeContent::Symlink(_) => InodeKind::Symlink,
        InodeContent::CharDevice => InodeKind::CharDevice,
        InodeContent::Whiteout => InodeKind::Whiteout,
    }
}

/// Index of the entry named `name`, or -1.
pub open spec fn find_dirent(entries: Seq<DirEnt>, name: Seq<char>) -> int
    decreases entries.len(),
{
    if entries.len() == 0 {
        -1
    } else if entries[0].name@ == name {
        0
    } else {
        let r = find_dirent(entries.subrange(1, entries.len() as int), name);
        if r < 0 {
            -1
        } else {
            r + 1
        }
    }
}

/// `find_dirent` finds the first entry of that name, or reports absence.
pub proof fn lemma_find_dirent(entries: Seq<DirEnt>, name: Seq<char>)
    ensures
        find_dirent(entries, name) == -1 ==> forall|j: int|
            0 <= j < entries.len() ==> (#[trigger] entries[j]).name@ != name,
        find_dirent(entries, name) != -1 ==> 0 <= find_dirent(entries, name) < entries.len()
            && entries[find_dirent(entries, name)].name@ == name && forall|j: int|
            0 <= j < find_dirent(entries, name) ==> (#[trigger] entries[j]).name@ != name,
    decreases entries.len(),
{
    if entries.len() > 0 && entries[0].name@ != name {
        let t = entries.subrange(1, entries.len() as int);
        lemma_find_dirent(t, name);
        assert forall|j: int| 1 <= j < entries.len() implies entries[j] == t[j - 1] by {}
    }
}

/// Index of the entry named `name`, if any.
pub fn find_dirent_exec(entries: &Vec<DirEnt>, name: &str) -> (r: Option<usize>)
    ensures
        match r {
            Some(k) => k as int == find_dirent(entries@, name@),
            None => find_dirent(entries@, name@) == -1,
        },
{
    let n = entries.len();
    let mut k: usize = 0;
    while k < n
        invariant
            0 <= k <= n,
            n == entries@.len(),
            forall|j: int| 0 <= j < k ==> (#[trigger] entries@[j]).name@ != name@,
        decreases n - k,
    {
        if text::str_eq(entries[k].name.as_str(), name) {
            proof {
                lemma_find_dirent(entries@, name@);
                let f = find_dirent(entries@, name@);
                if f != k as int {
                    if f == -1 || f > k as int {
                        assert(entries@[k as int].name@ != name@);
                    } else {
                        assert(entries@[f].name@ != name@);
                    }
                }
            }
            return Some(k);
        }
        k = k + 1;
    }
    proof {
        lemma_find_dirent(entries@, name@);
        if find_dirent(entries@, name@) != -1 {
            assert(entries@[find_dirent(entries@, name@)].name@ != name@);
        }
    }
    None
}

/// A parcel tree: inode `i` lives at `inodes[i - 1]`, plus the package
/// metadata block (`depends` in ref text form, and a version).
#[derive(Debug)]
pub struct Parcel {
    pub inodes: Vec<Inode>,
    pub depends: Vec<String>,
    pub version: String,
}

impl Parcel {
    /// Whether `ino` names an inode of this parcel.
    pub open spec fn has_ino(self, ino: int) -> bool {
        1 <= ino <= self.inodes@.len()
    }

    /// The inode named by `ino`.
    pub open spec fn inode_at(self, ino: int) -> Inode {
        self.inodes@[ino - 1]
    }

    /// Whether `ino` names a directory.
    pub open spec fn is_dir(self, ino: int) -> bool {
        self.has_ino(ino) && self.inode_at(ino).content is Directory
    }

    /// The entries of directory `ino`.
    pub open spec fn entries_of(self, ino: int) -> Seq<DirEnt> {
        dir_entries(self.inode_at(ino).content)
    }

    /// Well-formedness: the root directory exists, every directory entry
    /// names an existing inode, and names are unique within a directory.
    pub open spec fn wf(self) -> bool {
        &&& self.inodes@.len() >= 1
        &&& self.inodes@[0].content is Directory
        &&& forall|i: int, k: int|
            0 <= i < self.inodes@.len() && 0 <= k < dir_entries(self.inodes@[i].content).len()
                ==> 1 <= (#[trigger] dir_entries(self.inodes@[i].content)[k]).ino
                <= self.inodes@.len()
        &&& forall|i: int, k1: int, k2: int|
            0 <= i < self.inodes@.len() && 0 <= k1 < k2 < dir_entries(
                self.inodes@[i].content,
            ).len() ==> (#[trigger] dir_entries(self.inodes@[i].content)[k1]).name@ != (
            #[trigger] dir_entries(self.inodes@[i].content)[k2]).name@
    }

    /// An empty parcel: the root directory alone, no metadata.
    pub fn new() -> (p: Parcel)
        ensures
            p.wf(),
            p.inodes@.len() == 1,
            p.inode_at(1).attrs == (InodeAttrs {
                atime: 0,
                ctime: 0,
                mtime: 0,
                uid: 0,
                gid: 0,
                nlink: 1,
                perm: 0o755,
                rdev: 0,
            }),
            p.entries_of(1) =~= Seq::<DirEnt>::empty(),
            p.inode_at(1).content is Directory,
            p.depends@ =~= Seq::<String>::empty(),
            p.version@ =~= Seq::<char>::empty(),
    {
        let root = Inode {
            attrs: InodeAttrs::root_default(),
            content: InodeContent::Directory(Vec::new()),
        };
        let mut inodes: Vec<Inode> = Vec::new();
        inodes.push(root);
        Parcel { inodes, depends: Vec::new(), version: String::new() }
    }

    /// Appends a fresh inode and returns its number, one past the previous
    /// inode count.
    fn push_inode(&mut self, node: Inode) -> (ino: u64)
        requires
            old(self).inodes@.len() < u64::MAX,
        ensures
            final(self).inodes@ == old(self).inodes@.push(node),
            final(self).depends@ == old(self).depends@,
            final(self).version@ == old(self).version@,
            ino == old(self).inodes@.len() + 1,
            old(self).wf() && dir_entries(node.content).len() == 0 ==> final(self).wf(),
    {
        let ghost before = *self;
        self.inodes.push(node);
        let ino = self.inodes.len() as u64;
        proof {
            if before.wf() && dir_entries(node.content).len() == 0 {
                assert forall|i: int, k: int|
                    0 <= i < self.inodes@.len() && 0 <= k < dir_entries(
                        self.inodes@[i].content,
                    ).len() implies 1 <= (#[trigger] dir_entries(self.inodes@[i].content)[k]).ino
                    <= self.inodes@.len() by {
                    if i < before.inodes@.len() {
                        assert(self.inodes@[i] == before.inodes@[i]);
                    }
                }
                assert(final(self).wf());
            }
        }
        ino
    }

    /// Adds an empty directory; returns its inode.
    pub fn add_directory(&mut self, attrs: InodeAttrs) -> (ino: u64)
        requires
            old(self).inodes@.len() < u64::MAX,
        ensures
            final(self).inodes@.len() == old(self).inodes@.len() + 1,
            forall|i: int|
                1 <= i <= old(self).inodes@.len() ==> final(self).inode_at(i) == old(
                    self,
                ).inode_at(i),
            final(self).depends@ == old(self).depends@,
            final(self).version@ == old(self).version@,
            ino == old(self).inodes@.len() + 1,
            final(self).inode_at(ino as int).attrs == attrs,
            final(self).is_dir(ino as int),
            final(self).entries_of(ino as int) =~= Seq::<DirEnt>::empty(),
            old(self).wf() ==> final(self).wf(),
    {
        let node = Inode { attrs, content: InodeContent::Directory(Vec::new()) };
        proof {
            assert(dir_entries(node.content) =~= Seq::<DirEnt>::empty());
        }
        self.push_inode(node)
    }

    /// Adds a regular file with the given bytes; returns its inode.
    pub fn add_file(&mut self, bytes: Vec<u8>, attrs: InodeAttrs) -> (ino: u64)
        requires
            old(self).inodes@.len() < u64::MAX,
        ensures
            final(self).inodes@ == old(self).inodes@.push(
                Inode { attrs, content: InodeContent::RegularFile(bytes) },
            ),
            final(self).depends@ == old(self).depends@,
            final(self).version@ == old(self).version@,
            ino == old(self).inodes@.len() + 1,
            final(self).inode_at(ino as int).attrs == attrs,
            final(self).inode_at(ino as int).content == InodeContent::RegularFile(bytes),
            old(self).wf() ==> final(self).wf(),
    {
        self.push_inode(Inode { attrs, content: InodeContent::RegularFile(bytes) })
    }

    /// Adds a symlink pointing at `target`; returns its inode.
    pub fn add_symlink(&mut self, target: String, attrs: InodeAttrs) -> (ino: u64)
        requires
            old(self).inodes@.len() < u64::MAX,
        ensures
            final(self).inodes@ == old(self).inodes@.push(
                Inode { attrs, content: InodeContent::Symlink(target) },
            ),
            final(self).depends@ == old(self).depends@,
            final(self).version@ == old(self).version@,
            ino == old(self).inodes@.len() + 1,
            final(self).inode_at(ino as int).content == InodeContent::Symlink(target),
            old(self).wf() ==> final(self).wf(),
    {
        self.push_inode(Inode { attrs, content: InodeContent::Symlink(target) })
    }

    /// Inserts (or replaces) the directory entry `name -> child` in directory
    /// `parent`.  Fails with `Enoent` when `parent` or `child` does not
    /// exist, with `NotDirectory` when `parent` is no directory.
    pub fn insert_dirent(&mut self, parent: u64, name: &str, child: u64) -> (r: Result<
        (),
        ParcelError,
    >)
        ensures
            match r {
                Ok(_) => {
                    &&& old(self).has_ino(parent as int)
                    &&& old(self).has_ino(child as int)
                    &&& old(self).is_dir(parent as int)
                    &&& final(self).inodes@.len() == old(self).inodes@.len()
                    &&& forall|i: int|
                        1 <= i <= old(self).inodes@.len() && i != parent ==> final(self).inode_at(
                            i,
                        ) == old(self).inode_at(i)
                    &&& final(self).inode_at(parent as int).attrs == old(self).inode_at(
                        parent as int,
                    ).attrs
                    &&& final(self).is_dir(parent as int)
                    &&& entries_updated(
                        old(self).entries_of(parent as int),
                        final(self).entries_of(parent as int),
                        name@,
                        child,
                    )
                    &&& final(self).depends@ == old(self).depends@
                    &&& final(self).version@ == old(self).version@
                    &&& old(self).wf() ==> final(self).wf()
                },
                Err(ParcelError::Enoent) => *final(self) == *old(self) && (!old(self).has_ino(
                    parent as int,
                ) || !old(self).has_ino(child as int)),
                Err(ParcelError::NotDirectory) => *final(self) == *old(self) && old(self).has_ino(
                    parent as int,
                ) && old(self).has_ino(child as int) && !old(self).is_dir(parent as int),
            },
    {
        let np = self.inodes.len() as u64;
        if parent < 1 || parent > np || child < 1 || child > np {
            return Err(ParcelError::Enoent);
        }
        let pidx = (parent - 1) as usize;
        let found: Option<usize> = match &self.inodes[pidx].content {
            InodeContent::Directory(entries) => find_dirent_exec(entries, name),
            _ => {
                return Err(ParcelError::NotDirectory);
            },
        };
        let ghost before = *self;
        proof {
            lemma_find_dirent(before.entries_of(parent as int), name@);
        }
        let d = DirEnt { name: name.to_owned(), ino: child };
        match &mut self.inodes[pidx].content {
            InodeContent::Directory(entries) => {
                match found {
                    Some(k) => {
                        entries.set(k, d);
                    },
                    None => {
                        entries.push(d);
                    },
                }
            },
            _ => {
                proof {
                    assert(false);
                }
            },
        }
        proof {
            let pv = parent as int;
            assert forall|i: int|
                1 <= i <= before.inodes@.len() && i != pv implies self.inode_at(i)
                == before.inode_at(i) by {}
            if before.wf() {
                assert forall|i: int, k: int|
                    0 <= i < self.inodes@.len() && 0 <= k < dir_entries(
                        self.inodes@[i].content,
                    ).len() implies 1 <= (#[trigger] dir_entries(self.inodes@[i].content)[k]).ino
                    <= self.inodes@.len() by {
                    if i != pv - 1 {
                        assert(self.inodes@[i] == before.inodes@[i]);
                    } else {
                        let eb = before.entries_of(pv);
                        let ea = self.entries_of(pv);
                        if k < eb.len() && ea[k] == eb[k] {
                        } else {
                            assert(ea[k].ino == child);
                        }
                    }
                }
                assert forall|i: int, k1: int, k2: int|
                    0 <= i < self.inodes@.len() && 0 <= k1 < k2 < dir_entries(
                        self.inodes@[i].content,
                    ).len() implies (#[trigger] dir_entries(self.inodes@[i].content)[k1]).name@
                    != (#[trigger] dir_entries(self.inodes@[i].content)[k2]).name@ by {
                    if i != pv - 1 {
                        assert(self.inodes@[i] == before.inodes@[i]);
                    } else {
                        let eb = before.entries_of(pv);
                        let ea = self.entries_of(pv);
                        lemma_find_dirent(eb, name@);
                        let f = find_dirent(eb, name@);
                        if f == -1 {
                            if k2 == eb.len() {
                                assert(ea[k1] == eb[k1]);
                                assert(eb[k1].name@ != name@);
                            } else {
                                assert(ea[k1] == eb[k1] && ea[k2] == eb[k2]);
                            }
                        } else {
                            if k1 == f {
                                assert(ea[k2] == eb[k2]);
                                assert(eb[f].name@ == name@);
                            } else if k2 == f {
                                assert(ea[k1] == eb[k1]);
                                assert(eb[f].name@ == name@);
                            } else {
                                assert(ea[k1] == eb[k1] && ea[k2] == eb[k2]);
                            }
                        }
                    }
                }
                assert(self.wf());
            }
        }
        Ok(())
    }
}

/// The target of a symlink payload, empty for others.
pub open spec fn link_target(c: InodeContent) -> Seq<char> {
    match c {
        InodeContent::Symlink(t) => t@,
        _ => Seq::empty(),
    }
}

/// The bytes of a regular-file payload, empty for others.
pub open spec fn file_bytes(c: InodeContent) -> Seq<u8> {
    match c {
        InodeContent::RegularFile(b) => b@,
        _ => Seq::empty(),
    }
}

/// Walks directory entries from `ino` along `segs`.
pub open spec fn spec_walk(p: Parcel, ino: int, segs: Seq<Seq<char>>) -> Option<int>
    decreases segs.len(),
{
    if segs.len() == 0 {
        Some(ino)
    } else if !p.is_dir(ino) {
        None
    } else {
        let f = find_dirent(p.entries_of(ino), segs[0]);
        if f < 0 || f >= p.entries_of(ino).len() {
            None
        } else {
            spec_walk(p, p.entries_of(ino)[f].ino as int, segs.subrange(1, segs.len() as int))
        }
    }
}

impl Parcel {
    /// The attributes of `ino`, if it exists.
    pub fn getattr(&self, ino: u64) -> (r: Option<InodeAttrs>)
        ensures
            match r {
                Some(a) => self.has_ino(ino as int) && a == self.inode_at(ino as int).attrs,
                None => !self.has_ino(ino as int),
            },
    {
        if ino >= 1 && ino <= self.inodes.len() as u64 {
            Some(self.inodes[(ino - 1) as usize].attrs)
        } else {
            None
        }
    }

    /// The kind of `ino`, if it exists.
    pub fn kind_of(&self, ino: u64) -> (r: Option<InodeKind>)
        ensures
            match r {
                Some(k) => self.has_ino(ino as int) && k == spec_kind(
                    self.inode_at(ino as int).content,
                ),
                None => !self.has_ino(ino as int),
            },
    {
        if ino >= 1 && ino <= self.inodes.len() as u64 {
            let k = match &self.inodes[(ino - 1) as usize].content {
                InodeContent::Directory(_) => InodeKind::Directory,
                InodeContent::RegularFile(_) => InodeKind::RegularFile,
                InodeContent::Symlink(_) => InodeKind::Symlink,
                InodeContent::CharDevice => InodeKind::CharDevice,
                InodeContent::Whiteout => InodeKind::Whiteout,
            };
            Some(k)
        } else {
            None
        }
    }

    /// The entries of directory `ino` as `(child, kind, name)` triples, in
    /// stored order.
    pub fn readdir(&self, ino: u64) -> (r: Option<Vec<(u64, InodeKind, String)>>)
        requires
            self.wf(),
        ensures
            match r {
                Some(v) => {
                    &&& self.is_dir(ino as int)
                    &&& v@.len() == self.entries_of(ino as int).len()
                    &&& forall|k: int|
                        0 <= k < v@.len() ==> {
                            let e = self.entries_of(ino as int)[k];
                            (#[trigger] v@[k]).0 == e.ino && v@[k].2@ == e.name@ && v@[k].1
                                == spec_kind(self.inode_at(e.ino as int).content)
                        }
                },
                None => !self.is_dir(ino as int),
            },
    {
        if ino < 1 || ino > self.inodes.len() as u64 {
            return None;
        }
        let idx = (ino - 1) as usize;
        let n = match &self.inodes[idx].content {
            InodeContent::Directory(entries) => entries.len(),
            _ => {
                return None;
            },
        };
        let mut out: Vec<(u64, InodeKind, String)> = Vec::new();
        let mut k: usize = 0;
        while k < n
            invariant
                self.wf(),
                self.is_dir(ino as int),
                1 <= ino,
                idx == ino - 1,
                n == self.entries_of(ino as int).len(),
                0 <= k <= n,
                out@.len() == k,
                forall|j: int|
                    0 <= j < k ==> {
                        let e = self.entries_of(ino as int)[j];
                        (#[trigger] out@[j]).0 == e.ino && out@[j].2@ == e.name@ && out@[j].1
                            == spec_kind(self.inode_at(e.ino as int).content)
                    },
            decreases n - k,
        {
            let (child, name) = match &self.inodes[idx].content {
                InodeContent::Directory(entries) => {
                    let e = &entries[k];
                    (e.ino, e.name.clone())
                },
                _ => {
                    proof {
                        assert(false);
                    }
                    (0u64, String::new())
                },
            };
            let kind = self.kind_of(child).unwrap();
            out.push((child, kind, name));
            k = k + 1;
        }
        Some(out)
    }

    /// The bytes of regular file `ino`.
    pub fn read_file(&self, ino: u64) -> (r: Option<Vec<u8>>)
        ensures
            match r {
                Some(b) => self.has_ino(ino as int) && self.inode_at(ino as int).content
                    is RegularFile && b@ == file_bytes(self.inode_at(ino as int).content),
                None => !self.has_ino(ino as int) || !(self.inode_at(ino as int).content
                    is RegularFile),
            },
    {
        if ino < 1 || ino > self.inodes.len() as u64 {
            return None;
        }
        match &self.inodes[(ino - 1) as usize].content {
            InodeContent::RegularFile(b) => Some(vstd::slice::slice_to_vec(b.as_slice())),
            _ => None,
        }
    }

    /// The target of symlink `ino`.
    pub fn readlink(&self, ino: u64) -> (r: Option<String>)
        ensures
            match r {
                Some(t) => self.has_ino(ino as int) && self.inode_at(ino as int).content is Symlink
                    && t@ == link_target(self.inode_at(ino as int).content),
                None => !self.has_ino(ino as int) || !(self.inode_at(ino as int).content
                    is Symlink),
            },
    {
        if ino < 1 || ino > self.inodes.len() as u64 {
            return None;
        }
        match &self.inodes[(ino - 1) as usize].content {
            InodeContent::Symlink(t) => Some(t.clone()),
            _ => None,
        }
    }

    /// The child of directory `dir` named `name`, if any.
    pub fn child_named(&self, dir: u64, name: &str) -> (r: Option<u64>)
        ensures
            match r {
                Some(c) => self.is_dir(dir as int) && find_dirent(self.entries_of(dir as int), name@)
                    >= 0 && c == self.entries_of(dir as int)[find_dirent(
                    self.entries_of(dir as int),
                    name@,
                )].ino,
                None => !self.is_dir(dir as int) || find_dirent(
                    self.entries_of(dir as int),
                    name@,
                ) == -1,
            },
    {
        if dir < 1 || dir > self.inodes.len() as u64 {
            return None;
        }
        match &self.inodes[(dir - 1) as usize].content {
            InodeContent::Directory(entries) => {
                match find_dirent_exec(entries, name) {
                    Some(f) => {
                        proof {
                            lemma_find_dirent(entries@, name@);
                        }
                        Some(entries[f].ino)
                    },
                    None => None,
                }
            },
            _ => None,
        }
    }

    /// The inode reached by resolving `path` from the root: segments between
    /// `/` separators name directory entries, empty segments are skipped.
    pub fn select(&self, path: &str) -> (r: Option<u64>)
        requires
            self.wf(),
        ensures
            match r {
                Some(ino) => spec_walk(*self, 1, text::split_slash(path@)) == Some(ino as int)
                    && self.has_ino(ino as int),
                None => spec_walk(*self, 1, text::split_slash(path@)) is None,
            },
    {
        let segs = text::split_slash_exec(path);
        let ghost gsegs = text::split_slash(path@);
        let mut cur: u64 = 1;
        let mut i: usize = 0;
        proof {
            assert(gsegs.subrange(0, gsegs.len() as int) =~= gsegs);
        }
        while i < segs.len()
            invariant
                self.wf(),
                gsegs == segs@.map_values(|t: String| t@),
                gsegs == text::split_slash(path@),
                0 <= i <= segs@.len(),
                self.has_ino(cur as int),
                spec_walk(*self, 1, gsegs) == spec_walk(
                    *self,
                    cur as int,
                    gsegs.subrange(i as int, gsegs.len() as int),
                ),
            decreases segs@.len() - i,
        {
            let ghost rest = gsegs.subrange(i as int, gsegs.len() as int);
            proof {
                assert(rest[0] == gsegs[i as int]);
                assert(rest.subrange(1, rest.len() as int) =~= gsegs.subrange(
                    i as int + 1,
                    gsegs.len() as int,
                ));
            }
            let nlen = self.inodes.len();
            proof {
                assert(cur as int - 1 < nlen as int);
            }
            let idx = (cur - 1) as usize;
            proof {
                assert(idx as int == cur as int - 1);
            }
            match &self.inodes[idx].content {
                InodeContent::Directory(entries) => {
                    match find_dirent_exec(entries, segs[i].as_str()) {
                        Some(f) => {
                            proof {
                                lemma_find_dirent(entries@, segs@[i as int]@);
                            }
                            cur = entries[f].ino;
                        },
                        None => {
                            return None;
                        },
                    }
                },
                _ => {
                    return None;
                },
            }
            i = i + 1;
        }
        proof {
            assert(gsegs.subrange(gsegs.len() as int, gsegs.len() as int)
                =~= Seq::<Seq<char>>::empty());
        }
        Some(cur)
    }
}

/// How one insertion changes a directory: a fresh name is appended, an
/// existing one is replaced in place; nothing else moves.
pub open spec fn entries_updated(
    before: Seq<DirEnt>,
    after: Seq<DirEnt>,
    name: Seq<char>,
    child: u64,
) -> bool {
    let f = find_dirent(before, name);
    if f == -1 {
        &&& after.len() == before.len() + 1
        &&& forall|k: int| 0 <= k < before.len() ==> after[k] == before[k]
        &&& after.last().name@ == name
        &&& after.last().ino == child
    } else {
        &&& after.len() == before.len()
        &&& forall|k: int| 0 <= k < before.len() && k != f ==> after[k] == before[k]
        &&& after[f].name@ == name
        &&& after[f].ino == child
    }
}

} // verus!
