//! The parcel-from-tar translator: walks ustar records and materializes a
//! parcel tree, plus the upstream build step that feeds it from a compressed
//! archive.
//!
//! Before any record is added, the reserved subtree
//! `/.PYXIS/<provider>/<name>/` is created as inodes 2, 3 and 4.  Top-level
//! metadata files (`.INSTALL`, `.BUILDINFO`, `.MTREE`, `.PKGINFO`) are
//! redirected into that subtree.  A running map from directory path to inode
//! tracks the directories the archive itself created; every record's parent
//! must be found there.

use vstd::prelude::*;
use vstd::string::StrSliceExecFns;

use crate::archive::{entry_views, TarEntry, TarEntryView};
use crate::parcel::{entries_updated, file_bytes, find_dirent, DirEnt, InodeAttrs, Parcel};
use crate::text;
use crate::ParcelProvider;

verus! {

/// Why a translation failed; every case is fatal for the build.
#[derive(Debug, Copy, Clone, PartialEq, Eq, Structural)]
pub enum BuildError {
    /// A record's path has no name segments.
    EmptyEntryName,
    /// A record's parent directory was never created by the archive.
    MissingParent,
    /// A hardlink names a path that does not resolve.
    BadHardlink,
    /// A record would alias the reserved `/.PYXIS` subtree.
    ReservedName,
    /// A typeflag other than regular file, hardlink, symlink or directory.
    UnsupportedType,
    /// More records than the inode numbering can hold.
    TooLarge,
}

/// The attributes a ustar header assigns: all three times from `mtime`.
pub open spec fn attrs_of_entry(e: TarEntryView) -> InodeAttrs {
    InodeAttrs {
        atime: e.mtime,
        ctime: e.mtime,
        mtime: e.mtime,
        uid: e.uid,
        gid: e.gid,
        nlink: 1,
        perm: e.perm,
        rdev: 0,
    }
}

/// The top-level metadata filenames that are redirected into the reserved
/// subtree.
pub open spec fn is_meta_name(n: Seq<char>) -> bool {
    n == ".INSTALL"@ || n == ".BUILDINFO"@ || n == ".MTREE"@ || n == ".PKGINFO"@
}

/// Whether the record list holds a top-level regular file named `mn`.
pub open spec fn has_top_meta(es: Seq<TarEntryView>, mn: Seq<char>) -> bool {
    exists|k: int|
        0 <= k < es.len() && (#[trigger] es[k]).typeflag == 48 && text::split_slash(es[k].path)
            == seq![mn]
}

/// The character sequences of a list of path segments.
pub open spec fn strs_view(v: Seq<String>) -> Seq<Seq<char>> {
    v.map_values(|s: String| s@)
}

/// Whether `mn` names an entry of `entries`.
pub open spec fn has_name(entries: Seq<DirEnt>, mn: Seq<char>) -> bool {
    exists|k: int| 0 <= k < entries.len() && (#[trigger] entries[k]).name@ == mn
}

/// Executable mirror of `is_meta_name`.
pub fn is_meta_name_exec(n: &str) -> (b: bool)
    ensures
        b == is_meta_name(n@),
{
    text::str_eq(n, ".INSTALL") || text::str_eq(n, ".BUILDINFO") || text::str_eq(n, ".MTREE")
        || text::str_eq(n, ".PKGINFO")
}

/// The running map from created directory paths (as segment lists) to their
/// inodes; later insertions shadow earlier ones.
struct DirMap {
    entries: Vec<(Vec<String>, u64)>,
}

/// Index of the last map entry keyed by `key`, or -1.
pub open spec fn map_find(m: Seq<(Vec<String>, u64)>, key: Seq<Seq<char>>) -> int
    decreases m.len(),
{
    if m.len() == 0 {
        -1
    } else if strs_view(m.last().0@) == key {
        m.len() - 1
    } else {
        map_find(m.drop_last(), key)
    }
}

proof fn lemma_map_find(m: Seq<(Vec<String>, u64)>, key: Seq<Seq<char>>)
    ensures
        map_find(m, key) == -1 ==> forall|j: int|
            0 <= j < m.len() ==> strs_view((#[trigger] m[j]).0@) != key,
        map_find(m, key) != -1 ==> 0 <= map_find(m, key) < m.len() && strs_view(
            m[map_find(m, key)].0@,
        ) == key && forall|j: int|
            map_find(m, key) < j < m.len() ==> strs_view((#[trigger] m[j]).0@) != key,
    decreases m.len(),
{
    if m.len() > 0 && strs_view(m.last().0@) != key {
        lemma_map_find(m.drop_last(), key);
        assert forall|j: int| 0 <= j < m.len() - 1 implies m[j] == m.drop_last()[j] by {}
    }
}

/// Whether the views of `key` equal the first `upto` segment views of `segs`.
fn key_matches(key: &Vec<String>, segs: &Vec<String>, upto: usize) -> (b: bool)
    requires
        upto <= segs@.len(),
    ensures
        b == (strs_view(key@) == strs_view(segs@).take(upto as int)),
{
    if key.len() != upto {
        proof {
            assert(strs_view(key@).len() == key@.len());
            assert(strs_view(segs@).take(upto as int).len() == upto);
        }
        return false;
    }
    let mut i: usize = 0;
    while i < upto
        invariant
            0 <= i <= upto <= segs@.len(),
            key@.len() == upto,
            forall|j: int| 0 <= j < i ==> (#[trigger] key@[j])@ == segs@[j]@,
        decreases upto - i,
    {
        if !text::str_eq(key[i].as_str(), segs[i].as_str()) {
            proof {
                assert(strs_view(key@)[i as int] == key@[i as int]@);
                assert(strs_view(segs@).take(upto as int)[i as int] == segs@[i as int]@);
            }
            return false;
        }
        i = i + 1;
    }
    proof {
        assert(strs_view(key@) =~= strs_view(segs@).take(upto as int));
    }
    true
}

impl DirMap {
    /// The inode recorded for the first `upto` segments of `segs`, if any;
    /// the most recent record wins.
    fn lookup(&self, segs: &Vec<String>, upto: usize) -> (r: Option<u64>)
        requires
            upto <= segs@.len(),
        ensures
            ({
                let f = map_find(self.entries@, strs_view(segs@).take(upto as int));
                match r {
                    Some(ino) => 0 <= f < self.entries@.len() && self.entries@[f].1 == ino
                        && strs_view(self.entries@[f].0@) == strs_view(segs@).take(upto as int),
                    None => f == -1,
                }
            }),
    {
        let ghost key = strs_view(segs@).take(upto as int);
        let mut i: usize = self.entries.len();
        while i > 0
            invariant
                0 <= i <= self.entries@.len(),
                key == strs_view(segs@).take(upto as int),
                upto <= segs@.len(),
                forall|j: int|
                    i <= j < self.entries@.len() ==> strs_view((#[trigger] self.entries@[j]).0@)
                        != key,
            decreases i,
        {
            i = i - 1;
            if key_matches(&self.entries[i].0, segs, upto) {
                proof {
                    lemma_map_find(self.entries@, key);
                    let f = map_find(self.entries@, key);
                    if f == -1 || f < i as int {
                        assert(strs_view(self.entries@[i as int].0@) != key);
                    }
                }
                return Some(self.entries[i].1);
            }
        }
        proof {
            lemma_map_find(self.entries@, key);
            if map_find(self.entries@, key) != -1 {
                assert(strs_view(self.entries@[map_find(self.entries@, key)].0@) != key);
            }
        }
        None
    }
}

/// Whether some entry maps `name` to `ino`.
pub open spec fn linked(entries: Seq<DirEnt>, name: Seq<char>, ino: u64) -> bool {
    exists|k: int|
        0 <= k < entries.len() && (#[trigger] entries[k]).name@ == name && entries[k].ino == ino
}

/// A record's bytes and attributes live in some regular-file inode of `p`.
pub open spec fn file_stored(p: Parcel, e: TarEntryView) -> bool {
    exists|ino: int|
        p.has_ino(ino) && (#[trigger] p.inode_at(ino)).content is RegularFile && file_bytes(
            p.inode_at(ino).content,
        ) == e.body && p.inode_at(ino).attrs == attrs_of_entry(e)
}

/// A record's symlink target and attributes live in some symlink inode of
/// `p`.
pub open spec fn link_stored(p: Parcel, e: TarEntryView) -> bool {
    exists|ino: int|
        p.has_ino(ino) && (#[trigger] p.inode_at(ino)).content is Symlink
            && crate::parcel::link_target(p.inode_at(ino).content) == e.link && p.inode_at(
            ino,
        ).attrs == attrs_of_entry(e)
}

/// A directory with the record's attributes lives in `p`.
pub open spec fn dir_stored(p: Parcel, e: TarEntryView) -> bool {
    exists|ino: int|
        p.has_ino(ino) && (#[trigger] p.inode_at(ino)).content is Directory && p.inode_at(
            ino,
        ).attrs == attrs_of_entry(e)
}

/// Whether the first `k` records have created the directory at `key`; the
/// root (the empty key) always counts as created.
pub open spec fn dir_key_created(es: Seq<TarEntryView>, k: int, key: Seq<Seq<char>>) -> bool {
    key.len() == 0 || exists|j: int|
        0 <= j < k && (#[trigger] es[j]).typeflag == 53 && text::split_slash(es[j].path) == key
}

/// The fatal condition record `k` hits on its own: no name segments, an
/// alias of the reserved subtree, a parent directory the archive never
/// created, or an unknown typeflag.  A hardlink to an unresolvable path is
/// also fatal but depends on the tree built so far, so it is judged
/// separately.
pub open spec fn record_fault(es: Seq<TarEntryView>, k: int) -> Option<BuildError> {
    let segs = text::split_slash(es[k].path);
    if segs.len() == 0 {
        Some(BuildError::EmptyEntryName)
    } else if segs[0] == ".PYXIS"@ {
        Some(BuildError::ReservedName)
    } else if !dir_key_created(es, k, segs.take(segs.len() - 1)) {
        Some(BuildError::MissingParent)
    } else if es[k].typeflag == 48 || es[k].typeflag == 49 || es[k].typeflag == 50 || es[k].typeflag
        == 53 {
        None
    } else {
        Some(BuildError::UnsupportedType)
    }
}

/// Whether a root entry of this name is accounted for: the reserved link, a
/// non-metadata name, or a top-level non-regular record of that name (only
/// regular top-level metadata files are redirected).
pub open spec fn root_entry_ok(es: Seq<TarEntryView>, k: int, n: Seq<char>) -> bool {
    n == ".PYXIS"@ || !is_meta_name(n) || exists|t: int|
        0 <= t < k && (#[trigger] es[t]).typeflag != 48 && text::split_slash(es[t].path) == seq![n]
}

/// The translator's running invariant over the parcel under construction.
pub open spec fn trans_inv(
    p: Parcel,
    provider: ParcelProvider,
    package: Seq<char>,
    es: Seq<TarEntryView>,
    k: int,
    now: u64,
) -> bool {
    &&& p.wf()
    &&& p.inodes@.len() >= 4
    &&& p.is_dir(2) && p.is_dir(3) && p.is_dir(4)
    &&& linked(p.entries_of(1), ".PYXIS"@, 2)
    &&& linked(p.entries_of(2), crate::spec_provider_tag(provider), 3)
    &&& linked(p.entries_of(3), package, 4)
    &&& p.inode_at(2).attrs == crate::parcel::spec_build_attrs(now)
    &&& p.inode_at(3).attrs == crate::parcel::spec_build_attrs(now)
    &&& p.inode_at(4).attrs == crate::parcel::spec_build_attrs(now)
    &&& forall|j: int| 0 <= j < k && (#[trigger] es[j]).typeflag == 48 ==> file_stored(p, es[j])
    &&& forall|j: int| 0 <= j < k && (#[trigger] es[j]).typeflag == 50 ==> link_stored(p, es[j])
    &&& forall|j: int| 0 <= j < k && (#[trigger] es[j]).typeflag == 53 ==> dir_stored(p, es[j])
    &&& forall|mn: Seq<char>|
        is_meta_name(mn) ==> (#[trigger] has_name(p.entries_of(4), mn) <==> has_top_meta(
            es.take(k),
            mn,
        ))
    &&& forall|j: int|
        0 <= j < p.entries_of(4).len() ==> is_meta_name((#[trigger] p.entries_of(4)[j]).name@)
    &&& forall|j: int|
        0 <= j < p.entries_of(1).len() ==> root_entry_ok(
            es,
            k,
            (#[trigger] p.entries_of(1)[j]).name@,
        )
}

/// Growing the inode list (without touching existing inodes or metadata)
/// preserves the translator invariant.
proof fn lemma_grow_preserves(
    before: Parcel,
    after: Parcel,
    provider: ParcelProvider,
    package: Seq<char>,
    es: Seq<TarEntryView>,
    k: int,
    now: u64,
)
    requires
        trans_inv(before, provider, package, es, k, now),
        after.wf(),
        after.inodes@.len() >= before.inodes@.len(),
        forall|i: int| 1 <= i <= before.inodes@.len() ==> after.inode_at(i) == before.inode_at(i),
    ensures
        trans_inv(after, provider, package, es, k, now),
{
    assert(after.entries_of(1) == before.entries_of(1));
    assert(after.entries_of(2) == before.entries_of(2));
    assert(after.entries_of(3) == before.entries_of(3));
    assert(after.entries_of(4) == before.entries_of(4));
    assert forall|j: int|
        0 <= j < k && (#[trigger] es[j]).typeflag == 48 implies file_stored(after, es[j]) by {
        let ino = choose|ino: int|
            before.has_ino(ino) && (#[trigger] before.inode_at(ino)).content is RegularFile
                && file_bytes(before.inode_at(ino).content) == es[j].body && before.inode_at(
                ino,
            ).attrs == attrs_of_entry(es[j]);
        assert(after.inode_at(ino) == before.inode_at(ino));
    }
    assert forall|j: int|
        0 <= j < k && (#[trigger] es[j]).typeflag == 50 implies link_stored(after, es[j]) by {
        let ino = choose|ino: int|
            before.has_ino(ino) && (#[trigger] before.inode_at(ino)).content is Symlink
                && crate::parcel::link_target(before.inode_at(ino).content) == es[j].link
                && before.inode_at(ino).attrs == attrs_of_entry(es[j]);
        assert(after.inode_at(ino) == before.inode_at(ino));
    }
    assert forall|j: int|
        0 <= j < k && (#[trigger] es[j]).typeflag == 53 implies dir_stored(after, es[j]) by {
        let ino = choose|ino: int|
            before.has_ino(ino) && (#[trigger] before.inode_at(ino)).content is Directory
                && before.inode_at(ino).attrs == attrs_of_entry(es[j]);
        assert(after.inode_at(ino) == before.inode_at(ino));
    }
    assert forall|mn: Seq<char>| is_meta_name(mn) implies (#[trigger] has_name(
        after.entries_of(4),
        mn,
    ) <==> has_top_meta(es.take(k), mn)) by {
        assert(has_name(after.entries_of(4), mn) == has_name(before.entries_of(4), mn));
    }
}

/// Root-entry accounting only grows with the processed prefix.
proof fn lemma_root_entry_ok_grows(es: Seq<TarEntryView>, k: int, n: Seq<char>)
    requires
        root_entry_ok(es, k, n),
    ensures
        root_entry_ok(es, k + 1, n),
{
    if n != ".PYXIS"@ && is_meta_name(n) {
        let t = choose|t: int|
            0 <= t < k && (#[trigger] es[t]).typeflag != 48 && text::split_slash(es[t].path)
                == seq![n];
        assert(0 <= t < k + 1 && es[t].typeflag != 48 && text::split_slash(es[t].path) == seq![n]);
    }
}

/// A name inserted at the root by record `k` is accounted for when it is no
/// metadata name, or when record `k` is a top-level non-regular record of
/// that name.
proof fn lemma_root_name_ok(es: Seq<TarEntryView>, k: int, n: Seq<char>)
    requires
        0 <= k < es.len(),
        !is_meta_name(n) || (es[k].typeflag != 48 && text::split_slash(es[k].path) == seq![n]),
    ensures
        root_entry_ok(es, k + 1, n),
{
    if is_meta_name(n) && n != ".PYXIS"@ {
        assert(0 <= k < k + 1 && es[k].typeflag != 48 && text::split_slash(es[k].path) == seq![n]);
    }
}

/// Inserting `name -> child` into a directory other than the reserved ones
/// preserves the translator invariant, provided the name does not alias
/// `/.PYXIS` at the root, and the processed prefix may grow by one record
/// that is no top-level metadata file.
proof fn lemma_insert_elsewhere_preserves(
    before: Parcel,
    after: Parcel,
    provider: ParcelProvider,
    package: Seq<char>,
    es: Seq<TarEntryView>,
    k: int,
    now: u64,
    parent: u64,
    name: Seq<char>,
    child: u64,
)
    requires
        trans_inv(before, provider, package, es, k, now),
        0 <= k < es.len(),
        after.wf(),
        after.inodes@.len() == before.inodes@.len(),
        forall|i: int|
            1 <= i <= before.inodes@.len() && i != parent ==> after.inode_at(i) == before.inode_at(
                i,
            ),
        after.inode_at(parent as int).attrs == before.inode_at(parent as int).attrs,
        after.is_dir(parent as int),
        entries_updated(before.entries_of(parent as int), after.entries_of(parent as int), name, child),
        parent == 1 || parent >= 5,
        before.is_dir(parent as int),
        es[k].typeflag == 48 ==> file_stored(before, es[k]),
        es[k].typeflag == 50 ==> link_stored(before, es[k]),
        es[k].typeflag == 53 ==> dir_stored(before, es[k]),
        parent == 1 ==> name != ".PYXIS"@,
        parent == 1 ==> !is_meta_name(name) || (es[k].typeflag != 48 && text::split_slash(
            es[k].path,
        ) == seq![name]),
        !(es[k].typeflag == 48 && text::split_slash(es[k].path).len() == 1 && is_meta_name(
            text::split_slash(es[k].path)[0],
        )),
    ensures
        trans_inv(after, provider, package, es, k + 1, now),
{
    crate::parcel::lemma_find_dirent(before.entries_of(parent as int), name);
    let eb = before.entries_of(parent as int);
    let ea = after.entries_of(parent as int);
    let f = find_dirent(eb, name);
    assert(after.entries_of(2) == before.entries_of(2));
    assert(after.entries_of(3) == before.entries_of(3));
    assert(after.entries_of(4) == before.entries_of(4));
    if parent == 1 {
        let k0 = choose|k0: int|
            0 <= k0 < eb.len() && (#[trigger] eb[k0]).name@ == ".PYXIS"@ && eb[k0].ino == 2;
        if f != -1 {
            assert(eb[f].name@ == name);
            assert(k0 != f);
        }
        assert(ea[k0] == eb[k0]);
        assert(linked(ea, ".PYXIS"@, 2));
    } else {
        assert(after.entries_of(1) == before.entries_of(1));
    }
    assert forall|j: int|
        0 <= j < k + 1 && (#[trigger] es[j]).typeflag == 48 implies file_stored(after, es[j]) by {
        if j < k {
            let ino = choose|ino: int|
                before.has_ino(ino) && (#[trigger] before.inode_at(ino)).content is RegularFile
                    && file_bytes(before.inode_at(ino).content) == es[j].body && before.inode_at(
                    ino,
                ).attrs == attrs_of_entry(es[j]);
            if ino == parent {
                assert(before.is_dir(parent as int));
                assert(false);
            }
            assert(after.inode_at(ino) == before.inode_at(ino));
        } else {
            // the record just processed: a file was stored for it before the
            // dirent insertion, and directories are the only inode touched
            assert(file_stored(before, es[j]));
            let ino = choose|ino: int|
                before.has_ino(ino) && (#[trigger] before.inode_at(ino)).content is RegularFile
                    && file_bytes(before.inode_at(ino).content) == es[j].body && before.inode_at(
                    ino,
                ).attrs == attrs_of_entry(es[j]);
            if ino == parent {
                assert(before.is_dir(parent as int));
                assert(false);
            }
            assert(after.inode_at(ino) == before.inode_at(ino));
        }
    }
    assert forall|j: int|
        0 <= j < k + 1 && (#[trigger] es[j]).typeflag == 50 implies link_stored(after, es[j]) by {
        assert(link_stored(before, es[j]));
        let ino = choose|ino: int|
            before.has_ino(ino) && (#[trigger] before.inode_at(ino)).content is Symlink
                && crate::parcel::link_target(before.inode_at(ino).content) == es[j].link
                && before.inode_at(ino).attrs == attrs_of_entry(es[j]);
        if ino == parent {
            assert(before.is_dir(parent as int));
            assert(false);
        }
        assert(after.inode_at(ino) == before.inode_at(ino));
    }
    assert forall|j: int|
        0 <= j < k + 1 && (#[trigger] es[j]).typeflag == 53 implies dir_stored(after, es[j]) by {
        assert(dir_stored(before, es[j]));
        let ino = choose|ino: int|
            before.has_ino(ino) && (#[trigger] before.inode_at(ino)).content is Directory
                && before.inode_at(ino).attrs == attrs_of_entry(es[j]);
        if ino == parent {
            assert(after.is_dir(parent as int));
            assert(after.inode_at(parent as int).attrs == attrs_of_entry(es[j]));
        } else {
            assert(after.inode_at(ino) == before.inode_at(ino));
        }
    }
    assert forall|j: int|
        0 <= j < after.entries_of(1).len() implies root_entry_ok(
        es,
        k + 1,
        (#[trigger] after.entries_of(1)[j]).name@,
    ) by {
        if parent != 1 {
            assert(after.entries_of(1) == before.entries_of(1));
            lemma_root_entry_ok_grows(es, k, after.entries_of(1)[j].name@);
        } else {
            let ea1 = after.entries_of(1);
            let eb1 = before.entries_of(1);
            crate::parcel::lemma_find_dirent(eb1, name);
            let f1 = find_dirent(eb1, name);
            if f1 == -1 {
                if j < eb1.len() {
                    assert(ea1[j] == eb1[j]);
                    lemma_root_entry_ok_grows(es, k, eb1[j].name@);
                } else {
                    assert(ea1[j].name@ == name);
                    lemma_root_name_ok(es, k, name);
                }
            } else {
                if j == f1 {
                    assert(ea1[j].name@ == name);
                    lemma_root_name_ok(es, k, name);
                } else {
                    assert(ea1[j] == eb1[j]);
                    lemma_root_entry_ok_grows(es, k, eb1[j].name@);
                }
            }
        }
    }
    assert forall|mn: Seq<char>| is_meta_name(mn) implies (#[trigger] has_name(
        after.entries_of(4),
        mn,
    ) <==> has_top_meta(es.take(k + 1), mn)) by {
        assert(has_name(after.entries_of(4), mn) == has_name(before.entries_of(4), mn));
        assert(es.take(k) =~= es.take(k + 1).take(k));
        if has_top_meta(es.take(k + 1), mn) && !has_top_meta(es.take(k), mn) {
            let w = choose|w: int|
                0 <= w < es.take(k + 1).len() && (#[trigger] es.take(k + 1)[w]).typeflag == 48
                    && text::split_slash(es.take(k + 1)[w].path) == seq![mn];
            if w < k {
                assert(es.take(k)[w] == es.take(k + 1)[w]);
            } else {
                assert(es.take(k + 1)[w] == es[k]);
                assert(text::split_slash(es[k].path) == seq![mn]);
                assert(text::split_slash(es[k].path).len() == 1);
                assert(text::split_slash(es[k].path)[0] == mn);
            }
        }
        if has_top_meta(es.take(k), mn) {
            let w = choose|w: int|
                0 <= w < es.take(k).len() && (#[trigger] es.take(k)[w]).typeflag == 48
                    && text::split_slash(es.take(k)[w].path) == seq![mn];
            assert(es.take(k + 1)[w] == es.take(k)[w]);
            assert(has_top_meta(es.take(k + 1), mn));
        }
    }
}

/// Redirecting a top-level metadata file into the reserved directory
/// preserves the translator invariant and extends the metadata
/// correspondence by that record.
proof fn lemma_insert_meta_preserves(
    before: Parcel,
    after: Parcel,
    provider: ParcelProvider,
    package: Seq<char>,
    es: Seq<TarEntryView>,
    k: int,
    now: u64,
    name: Seq<char>,
    child: u64,
)
    requires
        trans_inv(before, provider, package, es, k, now),
        0 <= k < es.len(),
        after.wf(),
        after.inodes@.len() == before.inodes@.len(),
        forall|i: int|
            1 <= i <= before.inodes@.len() && i != 4 ==> after.inode_at(i) == before.inode_at(i),
        after.is_dir(4),
        after.inode_at(4).attrs == before.inode_at(4).attrs,
        entries_updated(before.entries_of(4), after.entries_of(4), name, child),
        es[k].typeflag == 48,
        text::split_slash(es[k].path) == seq![name],
        is_meta_name(name),
        file_stored(before, es[k]),
    ensures
        trans_inv(after, provider, package, es, k + 1, now),
{
    crate::parcel::lemma_find_dirent(before.entries_of(4), name);
    let eb = before.entries_of(4);
    let ea = after.entries_of(4);
    let f = find_dirent(eb, name);
    assert(after.entries_of(1) == before.entries_of(1));
    assert(after.entries_of(2) == before.entries_of(2));
    assert(after.entries_of(3) == before.entries_of(3));
    assert forall|j: int|
        0 <= j < k + 1 && (#[trigger] es[j]).typeflag == 48 implies file_stored(after, es[j]) by {
        assert(file_stored(before, es[j]));
        let ino = choose|ino: int|
            before.has_ino(ino) && (#[trigger] before.inode_at(ino)).content is RegularFile
                && file_bytes(before.inode_at(ino).content) == es[j].body && before.inode_at(
                ino,
            ).attrs == attrs_of_entry(es[j]);
        if ino == 4 {
            assert(before.is_dir(4));
            assert(false);
        }
        assert(after.inode_at(ino) == before.inode_at(ino));
    }
    assert forall|j: int|
        0 <= j < k + 1 && (#[trigger] es[j]).typeflag == 50 implies link_stored(after, es[j]) by {
        assert(link_stored(before, es[j]));
        let ino = choose|ino: int|
            before.has_ino(ino) && (#[trigger] before.inode_at(ino)).content is Symlink
                && crate::parcel::link_target(before.inode_at(ino).content) == es[j].link
                && before.inode_at(ino).attrs == attrs_of_entry(es[j]);
        if ino == 4 {
            assert(before.is_dir(4));
            assert(false);
        }
        assert(after.inode_at(ino) == before.inode_at(ino));
    }
    assert forall|j: int|
        0 <= j < k + 1 && (#[trigger] es[j]).typeflag == 53 implies dir_stored(after, es[j]) by {
        assert(dir_stored(before, es[j]));
        let ino = choose|ino: int|
            before.has_ino(ino) && (#[trigger] before.inode_at(ino)).content is Directory
                && before.inode_at(ino).attrs == attrs_of_entry(es[j]);
        if ino == 4 {
            assert(after.is_dir(4));
            assert(after.inode_at(4).attrs == attrs_of_entry(es[j]));
        } else {
            assert(after.inode_at(ino) == before.inode_at(ino));
        }
    }
    assert forall|j: int|
        0 <= j < after.entries_of(1).len() implies root_entry_ok(
        es,
        k + 1,
        (#[trigger] after.entries_of(1)[j]).name@,
    ) by {
        assert(after.entries_of(1)[j] == before.entries_of(1)[j]);
        lemma_root_entry_ok_grows(es, k, before.entries_of(1)[j].name@);
    }
    assert forall|mn: Seq<char>| is_meta_name(mn) implies (#[trigger] has_name(ea, mn)
        <==> has_top_meta(es.take(k + 1), mn)) by {
        assert(es.take(k) =~= es.take(k + 1).take(k));
        if mn == name {
            if f == -1 {
                assert(ea[ea.len() - 1].name@ == name);
            } else {
                assert(ea[f].name@ == name);
            }
            assert(has_name(ea, mn));
            assert(es.take(k + 1)[k] == es[k]);
            assert(has_top_meta(es.take(k + 1), mn));
        } else {
            // other metadata names are untouched by this insertion
            if has_name(ea, mn) {
                let w = choose|w: int| 0 <= w < ea.len() && (#[trigger] ea[w]).name@ == mn;
                if f == -1 {
                    if w < eb.len() {
                        assert(eb[w].name@ == mn);
                        assert(has_name(eb, mn));
                    } else {
                        assert(ea[w].name@ == name);
                    }
                } else {
                    if w == f {
                        assert(ea[w].name@ == name);
                    } else {
                        assert(eb[w].name@ == mn);
                        assert(has_name(eb, mn));
                    }
                }
            }
            if has_name(eb, mn) {
                let w = choose|w: int| 0 <= w < eb.len() && (#[trigger] eb[w]).name@ == mn;
                if f != -1 && w == f {
                    assert(eb[f].name@ == name);
                } else {
                    assert(ea[w] == eb[w]);
                    assert(has_name(ea, mn));
                }
            }
            if has_top_meta(es.take(k + 1), mn) && !has_top_meta(es.take(k), mn) {
                let w = choose|w: int|
                    0 <= w < es.take(k + 1).len() && (#[trigger] es.take(k + 1)[w]).typeflag == 48
                        && text::split_slash(es.take(k + 1)[w].path) == seq![mn];
                if w < k {
                    assert(es.take(k)[w] == es.take(k + 1)[w]);
                } else {
                    assert(es.take(k + 1)[w] == es[k]);
                    assert(seq![mn] == seq![name]);
                    assert(seq![mn][0] == seq![name][0]);
                }
            }
            if has_top_meta(es.take(k), mn) {
                let w = choose|w: int|
                    0 <= w < es.take(k).len() && (#[trigger] es.take(k)[w]).typeflag == 48
                        && text::split_slash(es.take(k)[w].path) == seq![mn];
                assert(es.take(k + 1)[w] == es.take(k)[w]);
                assert(has_top_meta(es.take(k + 1), mn));
            }
        }
    }
    assert forall|j: int| 0 <= j < ea.len() implies is_meta_name((#[trigger] ea[j]).name@) by {
        if f == -1 {
            if j < eb.len() {
                assert(ea[j] == eb[j]);
            } else {
                assert(ea[j].name@ == name);
            }
        } else {
            if j == f {
                assert(ea[j].name@ == name);
            } else {
                assert(ea[j] == eb[j]);
            }
        }
    }
}

/// What a successful translation guarantees of the parcel: it is well-formed;
/// it carries the metadata block verbatim; the reserved chain
/// `/.PYXIS/<provider>/<package>/` stands as inodes 2, 3 and 4; some inode
/// holds the exact bytes and attributes of every regular-file record; and the
/// reserved directory holds exactly the top-level metadata filenames that
/// appeared among the records — each once, since names are unique within a
/// well-formed directory.
pub open spec fn translated(
    provider: ParcelProvider,
    package: Seq<char>,
    es: Seq<TarEntryView>,
    depends: Seq<String>,
    version: Seq<char>,
    now: u64,
    p: Parcel,
) -> bool {
    &&& p.wf()
    &&& p.depends@ == depends
    &&& p.version@ == version
    &&& p.is_dir(2) && p.is_dir(3) && p.is_dir(4)
    &&& linked(p.entries_of(1), ".PYXIS"@, 2)
    &&& linked(p.entries_of(2), crate::spec_provider_tag(provider), 3)
    &&& linked(p.entries_of(3), package, 4)
    &&& p.inode_at(2).attrs == crate::parcel::spec_build_attrs(now)
    &&& p.inode_at(3).attrs == crate::parcel::spec_build_attrs(now)
    &&& p.inode_at(4).attrs == crate::parcel::spec_build_attrs(now)
    &&& forall|j: int|
        0 <= j < es.len() && (#[trigger] es[j]).typeflag == 48 ==> file_stored(p, es[j])
    &&& forall|j: int|
        0 <= j < es.len() && (#[trigger] es[j]).typeflag == 50 ==> link_stored(p, es[j])
    &&& forall|j: int|
        0 <= j < es.len() && (#[trigger] es[j]).typeflag == 53 ==> dir_stored(p, es[j])
    &&& forall|mn: Seq<char>|
        is_meta_name(mn) ==> (#[trigger] has_name(p.entries_of(4), mn) <==> has_top_meta(es, mn))
    &&& forall|j: int|
        0 <= j < p.entries_of(4).len() ==> is_meta_name((#[trigger] p.entries_of(4)[j]).name@)
    &&& forall|j: int|
        0 <= j < p.entries_of(1).len() ==> root_entry_ok(
            es,
            es.len() as int,
            (#[trigger] p.entries_of(1)[j]).name@,
        )
}

/// Translates a list of ustar records into a parcel tree.
///
/// On success the result satisfies [`translated`] and no record carries a
/// fault.  Every error names a record that caused it: a record without a
/// name, a record aliasing the reserved subtree, a parent directory the
/// archive never created, a hardlink to nowhere, or an unsupported typeflag
/// — and success is owed whenever no record faults and none is a hardlink
/// (whose resolution depends on the tree built so far).
pub fn parcel_from_tar(
    provider: ParcelProvider,
    package: &str,
    entries: &Vec<TarEntry>,
    depends: Vec<String>,
    version: String,
    now: u64,
) -> (r: Result<Parcel, BuildError>)
    requires
        entries@.len() + 5 < u64::MAX,
    ensures
        ({
            let es = entry_views(entries@);
            match r {
                Ok(p) => translated(provider, package@, es, depends@, version@, now, p)
                    && (forall|k: int|
                    0 <= k < es.len() ==> (#[trigger] record_fault(es, k)) is None),
                Err(e) => match e {
                    BuildError::BadHardlink => exists|k: int|
                        0 <= k < es.len() && (#[trigger] es[k]).typeflag == 49,
                    BuildError::TooLarge => false,
                    _ => exists|k: int|
                        0 <= k < es.len() && (#[trigger] record_fault(es, k)) == Some(e),
                },
            }
        }),
        (forall|k: int|
            0 <= k < entry_views(entries@).len() ==> (#[trigger] record_fault(
                entry_views(entries@),
                k,
            )) is None && entry_views(entries@)[k].typeflag != 49) ==> r is Ok,
{
    let ghost es = entry_views(entries@);
    let ghost gdeps = depends@;
    let ghost gver = version@;
    let mut p = Parcel::new();
    p.depends = depends;
    p.version = version;
    let a0 = InodeAttrs::build_default(now);
    let pyxis_dir = p.add_directory(a0);
    let provider_dir = p.add_directory(a0);
    let parcel_dir = p.add_directory(a0);
    if p.insert_dirent(1, ".PYXIS", pyxis_dir).is_err() {
        proof {
            assert(false);
        }
        return Err(BuildError::MissingParent);
    }
    if p.insert_dirent(pyxis_dir, provider.as_str(), provider_dir).is_err() {
        proof {
            assert(false);
        }
        return Err(BuildError::MissingParent);
    }
    if p.insert_dirent(provider_dir, package, parcel_dir).is_err() {
        proof {
            assert(false);
        }
        return Err(BuildError::MissingParent);
    }
    proof {
        assert(es.take(0) =~= Seq::<TarEntryView>::empty());
        assert forall|mn: Seq<char>| is_meta_name(mn) implies (#[trigger] has_name(
            p.entries_of(4),
            mn,
        ) <==> has_top_meta(es.take(0), mn)) by {
            assert(p.entries_of(4).len() == 0);
        }
        assert(trans_inv(p, provider, package@, es, 0, now));
    }
    let mut dm = DirMap { entries: Vec::new() };
    dm.entries.push((Vec::new(), 1));
    proof {
        assert(strs_view(dm.entries@[0].0@).len() == 0);
    }
    let mut k: usize = 0;
    while k < entries.len()
        invariant
            es == entry_views(entries@),
            entries@.len() + 5 < u64::MAX,
            0 <= k <= entries@.len(),
            pyxis_dir == 2 && provider_dir == 3 && parcel_dir == 4,
            trans_inv(p, provider, package@, es, k as int, now),
            p.depends@ == gdeps,
            p.version@ == gver,
            p.inodes@.len() <= 4 + k,
            forall|j: int|
                0 <= j < dm.entries@.len() ==> {
                    let e = #[trigger] dm.entries@[j];
                    &&& p.is_dir(e.1 as int)
                    &&& (e.1 == 1 || e.1 >= 5)
                    &&& (strs_view(e.0@).len() == 0 <==> e.1 == 1)
                    &&& dir_key_created(es, k as int, strs_view(e.0@))
                },
            exists|m: int|
                0 <= m < dm.entries@.len() && strs_view((#[trigger] dm.entries@[m]).0@).len() == 0,
            forall|j: int|
                0 <= j < k && (#[trigger] es[j]).typeflag == 53 ==> exists|m: int|
                    0 <= m < dm.entries@.len() && strs_view(#[trigger] dm.entries@[m].0@)
                        == text::split_slash(es[j].path),
            forall|j: int| 0 <= j < k ==> (#[trigger] record_fault(es, j)) is None,
        decreases entries@.len() - k,
    {
        let e = &entries[k];
        let ghost dm0 = dm.entries@;
        proof {
            assert(es[k as int] == entries@[k as int]@);
        }
        let segs = text::split_slash_exec(e.path.as_str());
        let nsegs = segs.len();
        if nsegs == 0 {
            proof {
                assert(strs_view(segs@) == text::split_slash(es[k as int].path));
                assert(record_fault(es, k as int) == Some(BuildError::EmptyEntryName));
            }
            return Err(BuildError::EmptyEntryName);
        }
        if text::str_eq(segs[0].as_str(), ".PYXIS") {
            proof {
                assert(strs_view(segs@) == text::split_slash(es[k as int].path));
                assert(strs_view(segs@)[0] == segs@[0]@);
                assert(record_fault(es, k as int) == Some(BuildError::ReservedName));
            }
            return Err(BuildError::ReservedName);
        }
        let name = segs[nsegs - 1].clone();
        proof {
            assert(strs_view(segs@) == text::split_slash(es[k as int].path));
            assert(strs_view(segs@)[nsegs - 1] == segs@[nsegs - 1]@);
            assert(strs_view(segs@)[0] == segs@[0]@);
        }
        let parent = match dm.lookup(&segs, nsegs - 1) {
            Some(i) => i,
            None => {
                proof {
                    let key = strs_view(segs@).take(nsegs - 1);
                    lemma_map_find(dm.entries@, key);
                    assert forall|m: int|
                        0 <= m < dm.entries@.len() implies strs_view(
                        (#[trigger] dm.entries@[m]).0@,
                    ) != key by {}
                    if dir_key_created(es, k as int, key) {
                        if key.len() == 0 {
                            let m = choose|m: int|
                                0 <= m < dm.entries@.len() && strs_view(
                                    (#[trigger] dm.entries@[m]).0@,
                                ).len() == 0;
                            assert(strs_view(dm.entries@[m].0@) =~= key);
                            assert(false);
                        } else {
                            let j = choose|j: int|
                                0 <= j < k && (#[trigger] es[j]).typeflag == 53
                                    && text::split_slash(es[j].path) == key;
                            let m = choose|m: int|
                                0 <= m < dm.entries@.len() && strs_view(
                                    #[trigger] dm.entries@[m].0@,
                                ) == text::split_slash(es[j].path);
                            assert(false);
                        }
                    }
                    assert(strs_view(segs@) == text::split_slash(es[k as int].path));
                    assert(record_fault(es, k as int) == Some(BuildError::MissingParent));
                }
                return Err(BuildError::MissingParent);
            },
        };
        proof {
            let f = map_find(dm.entries@, strs_view(segs@).take(nsegs - 1));
            assert(dm.entries@[f] == dm.entries@[f]);
            assert(p.is_dir(parent as int));
            assert(dir_key_created(es, k as int, strs_view(segs@).take(nsegs - 1)));
            if parent == 1 {
                assert(strs_view(dm.entries@[f].0@).len() == 0);
                assert(nsegs == 1);
            }
        }
        let attrs = InodeAttrs {
            atime: e.mtime,
            ctime: e.mtime,
            mtime: e.mtime,
            uid: e.uid,
            gid: e.gid,
            nlink: 1,
            perm: e.perm,
            rdev: 0,
        };
        proof {
            assert(attrs == attrs_of_entry(es[k as int]));
        }
        let ghost before_k = p;
        if e.typeflag == 48 {
            let bytes = vstd::slice::slice_to_vec(e.body.as_slice());
            let ino = p.add_file(bytes, attrs);
            proof {
                assert(p.inode_at(ino as int).content is RegularFile);
                assert(file_bytes(p.inode_at(ino as int).content) == es[k as int].body);
                assert(file_stored(p, es[k as int]));
                lemma_grow_preserves(before_k, p, provider, package@, es, k as int, now);
            }
            let ghost before_ins = p;
            if parent == 1 && is_meta_name_exec(name.as_str()) {
                if p.insert_dirent(parcel_dir, name.as_str(), ino).is_err() {
                    proof {
                        assert(false);
                    }
                    return Err(BuildError::MissingParent);
                }
                proof {
                    assert(text::split_slash(es[k as int].path) =~= seq![name@]);
                    lemma_insert_meta_preserves(
                        before_ins,
                        p,
                        provider,
                        package@,
                        es,
                        k as int,
                        now,
                        name@,
                        ino,
                    );
                }
            } else {
                if p.insert_dirent(parent, name.as_str(), ino).is_err() {
                    proof {
                        assert(false);
                    }
                    return Err(BuildError::MissingParent);
                }
                proof {
                    if es[k as int].typeflag == 48 && text::split_slash(es[k as int].path).len()
                        == 1 && is_meta_name(text::split_slash(es[k as int].path)[0]) {
                        assert(nsegs == 1);
                        assert(parent == 1);
                        assert(is_meta_name(name@));
                        assert(false);
                    }
                    lemma_insert_elsewhere_preserves(
                        before_ins,
                        p,
                        provider,
                        package@,
                        es,
                        k as int,
                        now,
                        parent,
                        name@,
                        ino,
                    );
                }
            }
        } else if e.typeflag == 49 {
            let target = match p.select(e.link.as_str()) {
                Some(t) => t,
                None => {
                    proof {
                        assert(es[k as int].typeflag == 49);
                    }
                    return Err(BuildError::BadHardlink);
                },
            };
            if p.insert_dirent(parent, name.as_str(), target).is_err() {
                proof {
                    assert(false);
                }
                return Err(BuildError::MissingParent);
            }
            proof {
                if parent == 1 {
                    assert(text::split_slash(es[k as int].path) =~= seq![name@]);
                }
                lemma_insert_elsewhere_preserves(
                    before_k,
                    p,
                    provider,
                    package@,
                    es,
                    k as int,
                    now,
                    parent,
                    name@,
                    target,
                );
            }
        } else if e.typeflag == 50 {
            let target = e.link.clone();
            let ino = p.add_symlink(target, attrs);
            proof {
                assert(p.inode_at(ino as int).content is Symlink);
                assert(crate::parcel::link_target(p.inode_at(ino as int).content)
                    == es[k as int].link);
                assert(link_stored(p, es[k as int]));
                lemma_grow_preserves(before_k, p, provider, package@, es, k as int, now);
            }
            let ghost before_ins = p;
            if p.insert_dirent(parent, name.as_str(), ino).is_err() {
                proof {
                    assert(false);
                }
                return Err(BuildError::MissingParent);
            }
            proof {
                if parent == 1 {
                    assert(text::split_slash(es[k as int].path) =~= seq![name@]);
                }
                lemma_insert_elsewhere_preserves(
                    before_ins,
                    p,
                    provider,
                    package@,
                    es,
                    k as int,
                    now,
                    parent,
                    name@,
                    ino,
                );
            }
        } else if e.typeflag == 53 {
            let ino = p.add_directory(attrs);
            proof {
                assert(p.inode_at(ino as int).content is Directory);
                assert(dir_stored(p, es[k as int]));
                lemma_grow_preserves(before_k, p, provider, package@, es, k as int, now);
            }
            let ghost before_ins = p;
            if p.insert_dirent(parent, name.as_str(), ino).is_err() {
                proof {
                    assert(false);
                }
                return Err(BuildError::MissingParent);
            }
            proof {
                if parent == 1 {
                    assert(text::split_slash(es[k as int].path) =~= seq![name@]);
                }
                lemma_insert_elsewhere_preserves(
                    before_ins,
                    p,
                    provider,
                    package@,
                    es,
                    k as int,
                    now,
                    parent,
                    name@,
                    ino,
                );
            }
            dm.entries.push((segs, ino));
            proof {
                assert(strs_view(dm.entries@.last().0@).len() == nsegs);
                assert(strs_view(dm.entries@.last().0@) == text::split_slash(es[k as int].path));
            }
        } else {
            proof {
                assert(record_fault(es, k as int) == Some(BuildError::UnsupportedType));
            }
            return Err(BuildError::UnsupportedType);
        }
        proof {
            assert(record_fault(es, k as int) is None);
            assert(dm.entries@.len() >= dm0.len());
            assert forall|m: int| 0 <= m < dm0.len() implies dm.entries@[m] == dm0[m] by {}
            assert(exists|m: int|
                0 <= m < dm.entries@.len() && strs_view((#[trigger] dm.entries@[m]).0@).len()
                    == 0) by {
                let m0 = choose|m: int|
                    0 <= m < dm0.len() && strs_view((#[trigger] dm0[m]).0@).len() == 0;
                assert(strs_view(dm.entries@[m0].0@).len() == 0);
            }
            assert forall|j: int|
                0 <= j < k + 1 && (#[trigger] es[j]).typeflag == 53 implies exists|m: int|
                0 <= m < dm.entries@.len() && strs_view(#[trigger] dm.entries@[m].0@)
                    == text::split_slash(es[j].path) by {
                if j < k {
                    let m1 = choose|m: int|
                        0 <= m < dm0.len() && strs_view(#[trigger] dm0[m].0@)
                            == text::split_slash(es[j].path);
                    assert(strs_view(dm.entries@[m1].0@) == text::split_slash(es[j].path));
                } else {
                    assert(strs_view(dm.entries@[dm.entries@.len() - 1].0@) == text::split_slash(
                        es[j].path,
                    ));
                }
            }
            assert forall|m: int| 0 <= m < dm.entries@.len() implies dir_key_created(
                es,
                k as int + 1,
                strs_view((#[trigger] dm.entries@[m]).0@),
            ) by {
                let key = strs_view(dm.entries@[m].0@);
                if m < dm0.len() {
                    assert(dir_key_created(es, k as int, key));
                    if key.len() != 0 {
                        let j = choose|j: int|
                            0 <= j < k && (#[trigger] es[j]).typeflag == 53 && text::split_slash(
                                es[j].path,
                            ) == key;
                        assert(0 <= j < k + 1 && es[j].typeflag == 53 && text::split_slash(
                            es[j].path,
                        ) == key);
                    }
                } else {
                    assert(0 <= k < k + 1 && es[k as int].typeflag == 53 && text::split_slash(
                        es[k as int].path,
                    ) == key);
                }
            }
        }
        k = k + 1;
    }
    proof {
        assert(es.take(entries@.len() as int) =~= es);
    }
    Ok(p)
}

/// The first occurrence of each name, in order: what remains of a
/// satisfier-name list after order-preserving deduplication.
pub open spec fn spec_dedup(s: Seq<Seq<char>>) -> Seq<Seq<char>>
    decreases s.len(),
{
    if s.len() == 0 {
        Seq::empty()
    } else {
        let rest = spec_dedup(s.drop_last());
        if s.drop_last().contains(s.last()) {
            rest
        } else {
            rest.push(s.last())
        }
    }
}

/// Deduplication keeps exactly the names that occur.
proof fn lemma_dedup_membership(s: Seq<Seq<char>>, x: Seq<char>)
    ensures
        spec_dedup(s).contains(x) <==> s.contains(x),
    decreases s.len(),
{
    if s.len() > 0 {
        lemma_dedup_membership(s.drop_last(), x);
        let rest = spec_dedup(s.drop_last());
        if s.contains(x) {
            let j = choose|j: int| 0 <= j < s.len() && s[j] == x;
            if j < s.len() - 1 {
                assert(s.drop_last()[j] == x);
                assert(s.drop_last().contains(x));
                let t = choose|t: int| 0 <= t < rest.len() && rest[t] == x;
                if !s.drop_last().contains(s.last()) {
                    assert(spec_dedup(s)[t] == x);
                } else {
                    assert(spec_dedup(s)[t] == x);
                }
            } else {
                if s.drop_last().contains(s.last()) {
                    let t = choose|t: int| 0 <= t < rest.len() && rest[t] == x;
                    assert(spec_dedup(s)[t] == x);
                } else {
                    assert(spec_dedup(s)[spec_dedup(s).len() - 1] == x);
                }
            }
        }
        if spec_dedup(s).contains(x) {
            let t = choose|t: int| 0 <= t < spec_dedup(s).len() && spec_dedup(s)[t] == x;
            if s.drop_last().contains(s.last()) {
                assert(rest[t] == x);
                let j = choose|j: int| 0 <= j < s.len() - 1 && s.drop_last()[j] == x;
                assert(s[j] == x);
            } else {
                if t < rest.len() {
                    let j = choose|j: int| 0 <= j < s.len() - 1 && s.drop_last()[j] == x;
                    assert(s[j] == x);
                } else {
                    assert(s[s.len() - 1] == x);
                }
            }
        }
    }
}

/// Order-preserving deduplication of satisfier names: each name's first
/// occurrence is kept, later repetitions are dropped.
pub fn dedup_names(v: &Vec<String>) -> (r: Vec<String>)
    ensures
        strs_view(r@) == spec_dedup(strs_view(v@)),
{
    let ghost sv = strs_view(v@);
    let mut out: Vec<String> = Vec::new();
    let mut i: usize = 0;
    proof {
        assert(sv.subrange(0, 0) =~= Seq::<Seq<char>>::empty());
        assert(strs_view(out@) =~= spec_dedup(sv.subrange(0, 0)));
    }
    while i < v.len()
        invariant
            sv == strs_view(v@),
            0 <= i <= v@.len(),
            strs_view(out@) == spec_dedup(sv.subrange(0, i as int)),
        decreases v@.len() - i,
    {
        proof {
            assert(sv.subrange(0, i as int + 1).drop_last() =~= sv.subrange(0, i as int));
            assert(sv.subrange(0, i as int + 1).last() == sv[i as int]);
            assert(sv[i as int] == v@[i as int]@);
            lemma_dedup_membership(sv.subrange(0, i as int), v@[i as int]@);
        }
        if !crate::image::contains_str(&out, v[i].as_str()) {
            let ghost before = strs_view(out@);
            out.push(v[i].clone());
            proof {
                assert(strs_view(out@) =~= before.push(v@[i as int]@));
            }
        }
        i = i + 1;
    }
    proof {
        assert(sv.subrange(0, v@.len() as int) =~= sv);
    }
    out
}

/// Why an upstream build failed.
#[derive(Debug, Copy, Clone, PartialEq, Eq, Structural)]
pub enum UpstreamError {
    /// The fetched archive could not be decoded.
    Archive(crate::archive::ArchiveError),
    /// The decoded records could not be translated.
    Build(BuildError),
}

/// The records an archive's bytes denote under a known suffix.
pub open spec fn archive_records(b: Seq<u8>, ext: Seq<char>) -> Seq<TarEntryView> {
    if ext == "zst"@ {
        crate::archive::tar_records(crate::archive::zstd_plain(b))
    } else {
        crate::archive::tar_records(crate::archive::xz_plain(b))
    }
}

/// Whether the archive bytes decode under the given (known) suffix and both
/// passes over the decompressed ustar stream succeed.
pub open spec fn archive_readable(b: Seq<u8>, ext: Seq<char>) -> bool {
    if ext == "zst"@ {
        crate::archive::zstd_ok(b) && crate::archive::tar_paths_ok(crate::archive::zstd_plain(b))
            && crate::archive::tar_fields_ok(crate::archive::zstd_plain(b))
    } else {
        crate::archive::xz_ok(b) && crate::archive::tar_paths_ok(crate::archive::xz_plain(b))
            && crate::archive::tar_fields_ok(crate::archive::xz_plain(b))
    }
}

/// Builds the parcel tree of an upstream package from its fetched archive
/// bytes and suffix, its resolved dependencies (in ref text form) and its
/// version.
///
/// The disposition is fixed: an unknown suffix is refused as such; a stream
/// that does not decode or read as ustar records is corrupt; a record list
/// with a fatal record fails with that record's error; and success is owed
/// whenever the archive reads, no record faults, no record is a hardlink,
/// and the record count fits the inode numbering.
pub fn upstream_parcel_from_archive(
    package: &str,
    archive_bytes: &Vec<u8>,
    ext: &str,
    depends: Vec<String>,
    version: String,
    now: u64,
) -> (r: Result<Parcel, UpstreamError>)
    ensures
        ({
            let known = ext@ == "zst"@ || ext@ == "xz"@;
            let es = archive_records(archive_bytes@, ext@);
            match r {
                Ok(p) => known && archive_readable(archive_bytes@, ext@) && translated(
                    ParcelProvider::Upstream,
                    package@,
                    es,
                    depends@,
                    version@,
                    now,
                    p,
                ) && (forall|k: int|
                    0 <= k < es.len() ==> (#[trigger] record_fault(es, k)) is None),
                Err(UpstreamError::Archive(crate::archive::ArchiveError::UnknownSuffix)) => !known,
                Err(UpstreamError::Archive(crate::archive::ArchiveError::Corrupt)) => known
                    && !archive_readable(archive_bytes@, ext@),
                Err(UpstreamError::Build(e)) => known && archive_readable(archive_bytes@, ext@)
                    && match e {
                    BuildError::BadHardlink => exists|k: int|
                        0 <= k < es.len() && (#[trigger] es[k]).typeflag == 49,
                    BuildError::TooLarge => es.len() > u64::MAX - 8,
                    _ => exists|k: int|
                        0 <= k < es.len() && (#[trigger] record_fault(es, k)) == Some(e),
                },
            }
        }),
        ext@ != "zst"@ && ext@ != "xz"@ ==> r == Err::<Parcel, UpstreamError>(
            UpstreamError::Archive(crate::archive::ArchiveError::UnknownSuffix),
        ),
        ({
            let es = archive_records(archive_bytes@, ext@);
            ((ext@ == "zst"@ || ext@ == "xz"@) && archive_readable(archive_bytes@, ext@)
                && es.len() <= u64::MAX - 8 && (forall|k: int|
                0 <= k < es.len() ==> (#[trigger] record_fault(es, k)) is None
                    && es[k].typeflag != 49)) ==> r is Ok
        }),
{
    let ghost ges = archive_records(archive_bytes@, ext@);
    proof {
        reveal_strlit("zst");
        reveal_strlit("xz");
        assert("zst"@ =~= seq!['z', 's', 't']);
        assert("xz"@ =~= seq!['x', 'z']);
        assert("zst"@ != "xz"@);
    }
    let plain = match crate::archive::decompress_archive(archive_bytes, ext) {
        Ok(o) => o,
        Err(e) => {
            proof {
                if ext@ != "zst"@ && ext@ != "xz"@ {
                    assert(e == crate::archive::ArchiveError::UnknownSuffix);
                } else {
                    assert(e == crate::archive::ArchiveError::Corrupt);
                    assert(!archive_readable(archive_bytes@, ext@));
                }
            }
            return Err(UpstreamError::Archive(e));
        },
    };
    proof {
        assert(ext@ == "zst"@ ==> plain@ == crate::archive::zstd_plain(archive_bytes@));
        assert(ext@ == "xz"@ ==> plain@ == crate::archive::xz_plain(archive_bytes@));
        assert(crate::archive::tar_records(plain@) == ges);
    }
    let records = match crate::archive::read_tar_entries(&plain) {
        Ok(v) => v,
        Err(e) => {
            proof {
                assert(!archive_readable(archive_bytes@, ext@));
            }
            return Err(UpstreamError::Archive(e));
        },
    };
    proof {
        assert(archive_readable(archive_bytes@, ext@));
        assert(entry_views(records@) == ges);
        assert(records@.len() == ges.len());
    }
    // guards the arithmetic bound of the translator's inode numbering
    if records.len() as u64 > u64::MAX - 8 {
        proof {
            assert(ges.len() > u64::MAX - 8);
        }
        return Err(UpstreamError::Build(BuildError::TooLarge));
    }
    match parcel_from_tar(ParcelProvider::Upstream, package, &records, depends, version, now) {
        Ok(p) => Ok(p),
        Err(e) => Err(UpstreamError::Build(e)),
    }
}

} // verus!
