//! The local provider: packages the files a recipe declares into a parcel.
//!
//! A recipe names a version, dependencies (in explicit `"<provider>|<name>"`
//! text form), an optional install-action script, and an ordered map of
//! source paths to absolute destination paths.  The surrounding binary reads
//! the recipe file and the declared files, and hands their plain contents in.

use vstd::prelude::*;
use vstd::string::StrSliceExecFns;

use crate::parcel::{file_bytes, find_dirent, InodeAttrs, Parcel};
use crate::text;
use crate::ParcelProvider;
use crate::upstream::linked;

verus! {

/// A local recipe, as plain values.
#[derive(Debug)]
pub struct Recipe {
    pub version: String,
    pub depends: Vec<String>,
    pub actions: Option<String>,
    pub files: Vec<(String, String)>,
}

/// The dependencies a recipe declares, in their text form.
pub fn get_deps(recipe: &Recipe) -> (r: Vec<String>)
    ensures
        r@.len() == recipe.depends@.len(),
        forall|i: int| 0 <= i < r@.len() ==> (#[trigger] r@[i])@ == recipe.depends@[i]@,
{
    let mut out: Vec<String> = Vec::new();
    let mut i: usize = 0;
    while i < recipe.depends.len()
        invariant
            0 <= i <= recipe.depends@.len(),
            out@.len() == i,
            forall|j: int| 0 <= j < i ==> (#[trigger] out@[j])@ == recipe.depends@[j]@,
        decreases recipe.depends@.len() - i,
    {
        out.push(recipe.depends[i].clone());
        i = i + 1;
    }
    out
}

/// The version a recipe declares.
pub fn get_version(recipe: &Recipe) -> (r: String)
    ensures
        r@ == recipe.version@,
{
    recipe.version.clone()
}

/// Why a local build failed; every case is fatal.
#[derive(Debug, Copy, Clone, PartialEq, Eq, Structural)]
pub enum LocalBuildError {
    /// A destination path has no name segments.
    EmptyDestination,
    /// A destination path would alias the reserved `/.PYXIS` subtree.
    ReservedDestination,
    /// A destination path runs through a non-directory.
    NotADirectory,
    /// The parcel ran out of inode numbers.
    TooLarge,
}

/// A file with exactly these bytes and these attributes lives in the parcel.
pub open spec fn bytes_stored(p: Parcel, body: Seq<u8>, attrs: InodeAttrs) -> bool {
    exists|ino: int|
        p.has_ino(ino) && (#[trigger] p.inode_at(ino)).content is RegularFile && file_bytes(
            p.inode_at(ino).content,
        ) == body && p.inode_at(ino).attrs == attrs
}

/// The default attributes of everything a local build creates.
pub open spec fn local_attrs(now: u64) -> InodeAttrs {
    InodeAttrs {
        atime: now,
        ctime: now,
        mtime: now,
        uid: 0,
        gid: 0,
        nlink: 1,
        perm: 0o644,
        rdev: 0,
    }
}

/// An edge of the tree respects the reserved subtree: it targets an inode
/// the build itself allocated, or it is one of the three reserved links
/// (`/.PYXIS` from the root onwards).
pub open spec fn reserved_edge_ok(d: int, e: crate::parcel::DirEnt) -> bool {
    ||| e.ino >= 5
    ||| (d == 1 && e.ino == 2 && e.name@ == ".PYXIS"@)
    ||| (d == 2 && e.ino == 3)
    ||| (d == 3 && e.ino == 4)
}

/// Whether every destination is a single non-reserved name at the parcel
/// root; on such a recipe the build is owed success.
pub open spec fn flat_destinations(files: Seq<(String, String)>) -> bool {
    forall|t: int|
        0 <= t < files.len() ==> text::split_slash((#[trigger] files[t]).1@).len() == 1
            && text::split_slash(files[t].1@)[0] != ".PYXIS"@
}

/// Whether the (flat) destinations carry pairwise distinct names.
pub open spec fn flat_distinct(files: Seq<(String, String)>) -> bool {
    forall|t1: int, t2: int|
        0 <= t1 < t2 < files.len() ==> text::split_slash((#[trigger] files[t1]).1@)[0]
            != text::split_slash((#[trigger] files[t2]).1@)[0]
}

/// A root entry named `n` leads to a regular file with exactly these bytes
/// and the default build attributes.
pub open spec fn root_file_at(p: Parcel, n: Seq<char>, b: Seq<u8>, now: u64) -> bool {
    exists|j: int|
        0 <= j < p.entries_of(1).len() && (#[trigger] p.entries_of(1)[j]).name@ == n && p.has_ino(
            p.entries_of(1)[j].ino as int,
        ) && p.inode_at(p.entries_of(1)[j].ino as int).content is RegularFile && file_bytes(
            p.inode_at(p.entries_of(1)[j].ino as int).content,
        ) == b && p.inode_at(p.entries_of(1)[j].ino as int).attrs == local_attrs(now)
}

/// The invariant of the local build: well-formedness, the reserved chain as
/// inodes 2, 3 and 4, the reserved directory still empty, every edge outside
/// the chain targeting a build-allocated inode, and the contents handed over
/// so far stored.
pub open spec fn local_inv(
    p: Parcel,
    package: Seq<char>,
    contents: Seq<Vec<u8>>,
    i: int,
    now: u64,
) -> bool {
    &&& p.wf()
    &&& p.inodes@.len() >= 4
    &&& p.is_dir(2) && p.is_dir(3) && p.is_dir(4)
    &&& linked(p.entries_of(1), ".PYXIS"@, 2)
    &&& linked(p.entries_of(2), "local"@, 3)
    &&& linked(p.entries_of(3), package, 4)
    &&& p.entries_of(4).len() == 0
    &&& forall|d: int, t: int|
        1 <= d <= p.inodes@.len() && 0 <= t < p.entries_of(d).len() ==> reserved_edge_ok(
            d,
            #[trigger] p.entries_of(d)[t],
        )
    &&& forall|j: int|
        0 <= j < i ==> bytes_stored(p, (#[trigger] contents[j])@, local_attrs(now))
}

/// Builds the parcel tree of a local package from its recipe, the bytes of
/// each declared file (aligned with `recipe.files`), and the bytes of the
/// install-action script when the recipe names one.
///
/// On success the parcel is well-formed, carries the recipe's metadata
/// verbatim, holds the reserved chain `/.PYXIS/local/<package>/` as inodes
/// 2, 3 and 4, stores the bytes of every declared file under the default
/// attributes, and its reserved directory holds exactly one `.INSTALL`
/// script with the action bytes when the recipe names an action, and nothing
/// otherwise.  When every destination is a distinct single name at the root,
/// each file is moreover reachable at its destination path, and success is
/// owed.  Every error names a destination that caused it.
pub fn parcel_from_recipe(
    package: &str,
    recipe: &Recipe,
    file_contents: &Vec<Vec<u8>>,
    action_bytes: Option<Vec<u8>>,
    now: u64,
) -> (r: Result<Parcel, LocalBuildError>)
    requires
        file_contents@.len() == recipe.files@.len(),
        file_contents@.len() + 8 < u64::MAX,
        action_bytes is Some <==> recipe.actions is Some,
    ensures
        match r {
            Ok(p) => {
                &&& p.wf()
                &&& p.version@ == recipe.version@
                &&& p.depends@.len() == recipe.depends@.len()
                &&& forall|i: int|
                    0 <= i < p.depends@.len() ==> (#[trigger] p.depends@[i])@
                        == recipe.depends@[i]@
                &&& p.is_dir(2) && p.is_dir(3) && p.is_dir(4)
                &&& linked(p.entries_of(1), ".PYXIS"@, 2)
                &&& linked(p.entries_of(2), "local"@, 3)
                &&& linked(p.entries_of(3), package@, 4)
                &&& forall|j: int|
                    0 <= j < file_contents@.len() ==> bytes_stored(
                        p,
                        (#[trigger] file_contents@[j])@,
                        local_attrs(now),
                    )
                &&& match action_bytes {
                    Some(b) => p.entries_of(4).len() == 1 && p.entries_of(4)[0].name@
                        == ".INSTALL"@ && p.has_ino(p.entries_of(4)[0].ino as int) && p.inode_at(
                        p.entries_of(4)[0].ino as int,
                    ).content is RegularFile && file_bytes(
                        p.inode_at(p.entries_of(4)[0].ino as int).content,
                    ) == b@,
                    None => p.entries_of(4).len() == 0,
                }
                &&& (flat_destinations(recipe.files@) && flat_distinct(recipe.files@)) ==> (forall|
                    t: int,
                |
                    0 <= t < recipe.files@.len() ==> match crate::parcel::spec_walk(
                        p,
                        1,
                        text::split_slash((#[trigger] recipe.files@[t]).1@),
                    ) {
                        Some(w) => p.has_ino(w) && p.inode_at(w).content is RegularFile
                            && file_bytes(p.inode_at(w).content) == file_contents@[t]@
                            && p.inode_at(w).attrs == local_attrs(now),
                        None => false,
                    })
            },
            Err(e) => match e {
                LocalBuildError::EmptyDestination => exists|t: int|
                    0 <= t < recipe.files@.len() && text::split_slash(
                        (#[trigger] recipe.files@[t]).1@,
                    ).len() == 0,
                LocalBuildError::ReservedDestination => exists|t: int|
                    0 <= t < recipe.files@.len() && text::split_slash(
                        (#[trigger] recipe.files@[t]).1@,
                    ).len() > 0 && text::split_slash(recipe.files@[t].1@)[0] == ".PYXIS"@,
                LocalBuildError::NotADirectory => exists|t: int|
                    0 <= t < recipe.files@.len() && text::split_slash(
                        (#[trigger] recipe.files@[t]).1@,
                    ).len() >= 2,
                LocalBuildError::TooLarge => exists|t: int|
                    0 <= t < recipe.files@.len() && text::split_slash(
                        (#[trigger] recipe.files@[t]).1@,
                    ).len() >= 2,
            },
        },
        flat_destinations(recipe.files@) ==> r is Ok,
{
    let ghost gfiles = file_contents@;
    let mut p = Parcel::new();
    p.version = recipe.version.clone();
    p.depends = get_deps(recipe);
    let attrs = InodeAttrs::build_default(now);
    proof {
        assert(attrs == local_attrs(now));
    }
    let pyxis_dir = p.add_directory(attrs);
    let provider_dir = p.add_directory(attrs);
    let parcel_dir = p.add_directory(attrs);
    if p.insert_dirent(1, ".PYXIS", pyxis_dir).is_err() {
        proof {
            assert(false);
        }
        return Err(LocalBuildError::NotADirectory);
    }
    if p.insert_dirent(pyxis_dir, "local", provider_dir).is_err() {
        proof {
            assert(false);
        }
        return Err(LocalBuildError::NotADirectory);
    }
    if p.insert_dirent(provider_dir, package, parcel_dir).is_err() {
        proof {
            assert(false);
        }
        return Err(LocalBuildError::NotADirectory);
    }
    let ghost gver = p.version@;
    let ghost gdeps = p.depends@;
    proof {
        assert(local_inv(p, package@, gfiles, 0, now));
    }
    let mut i: usize = 0;
    while i < file_contents.len()
        invariant
            gfiles == file_contents@,
            gfiles.len() == recipe.files@.len(),
            0 <= i <= gfiles.len(),
            pyxis_dir == 2 && provider_dir == 3 && parcel_dir == 4,
            attrs == local_attrs(now),
            local_inv(p, package@, gfiles, i as int, now),
            p.version@ == gver,
            p.depends@ == gdeps,
            gfiles.len() + 8 < u64::MAX,
            (forall|t: int|
                0 <= t < i ==> text::split_slash((#[trigger] recipe.files@[t]).1@).len() == 1)
                ==> p.inodes@.len() <= 4 + i,
            forall|t: int|
                0 <= t < i ==> text::split_slash((#[trigger] recipe.files@[t]).1@).len() >= 1,
            (flat_destinations(recipe.files@) && flat_distinct(recipe.files@)) ==> (forall|t: int|
                0 <= t < i ==> root_file_at(
                    p,
                    text::split_slash((#[trigger] recipe.files@[t]).1@)[0],
                    gfiles[t]@,
                    now,
                )),
        decreases gfiles.len() - i,
    {
        let dest = &recipe.files[i].1;
        let segs = text::split_slash_exec(dest.as_str());
        let nsegs = segs.len();
        if nsegs == 0 {
            proof {
                assert(crate::upstream::strs_view(segs@) == text::split_slash(recipe.files@[i as int].1@));
            }
            return Err(LocalBuildError::EmptyDestination);
        }
        if text::str_eq(segs[0].as_str(), ".PYXIS") {
            proof {
                assert(crate::upstream::strs_view(segs@) == text::split_slash(recipe.files@[i as int].1@));
                assert(crate::upstream::strs_view(segs@)[0] == segs@[0]@);
            }
            return Err(LocalBuildError::ReservedDestination);
        }
        let mut parent: u64 = 1;
        let ghost base_len = p.inodes@.len();
        let mut j: usize = 0;
        while j < nsegs - 1
            invariant
                0 <= j <= nsegs - 1,
                p.inodes@.len() <= base_len + j,
                base_len >= 4,
                nsegs == segs@.len(),
                crate::upstream::strs_view(segs@) == text::split_slash(
                    recipe.files@[i as int].1@,
                ),
                gfiles.len() == recipe.files@.len(),
                local_inv(p, package@, gfiles, i as int, now),
                p.version@ == gver,
                p.depends@ == gdeps,
                0 <= i < gfiles.len(),
                gfiles == file_contents@,
                p.is_dir(parent as int),
                parent == 1 || parent >= 5,
                parent == 1 ==> j == 0,
                j == 0 ==> parent == 1,
                segs@[0]@ != ".PYXIS"@,
                attrs == local_attrs(now),
                (flat_destinations(recipe.files@) && flat_distinct(recipe.files@)) ==> (forall|
                    t: int,
                |
                    0 <= t < i ==> root_file_at(
                        p,
                        text::split_slash((#[trigger] recipe.files@[t]).1@)[0],
                        gfiles[t]@,
                        now,
                    )),
            decreases nsegs - 1 - j,
        {
            proof {
                assert(text::split_slash(recipe.files@[i as int].1@).len() >= 2);
            }
            let ghost before = p;
            match p.child_named(parent, segs[j].as_str()) {
                Some(c) => {
                    proof {
                        crate::parcel::lemma_find_dirent(
                            before.entries_of(parent as int),
                            segs@[j as int]@,
                        );
                        let f = find_dirent(before.entries_of(parent as int), segs@[j as int]@);
                        assert(reserved_edge_ok(
                            parent as int,
                            before.entries_of(parent as int)[f],
                        ));
                        assert(crate::upstream::strs_view(segs@)[j as int] == segs@[j as int]@);
                        assert(c >= 5);
                    }
                    if c == 2 || c == 3 || c == 4 {
                        proof {
                            assert(false);
                        }
                        return Err(LocalBuildError::ReservedDestination);
                    }
                    if c < 1 || c > p.inodes.len() as u64 {
                        proof {
                            assert(false);
                        }
                        return Err(LocalBuildError::NotADirectory);
                    }
                    match p.kind_of(c) {
                        Some(crate::parcel::InodeKind::Directory) => {
                            if c == 1 {
                                proof {
                                    assert(false);
                                }
                                return Err(LocalBuildError::ReservedDestination);
                            }
                            parent = c;
                        },
                        _ => {
                            return Err(LocalBuildError::NotADirectory);
                        },
                    }
                },
                None => {
                    if p.inodes.len() as u64 >= u64::MAX - 2 {
                        return Err(LocalBuildError::TooLarge);
                    }
                    let d = p.add_directory(attrs);
                    proof {
                        lemma_local_grow(before, p, package@, gfiles, i as int, now);
                    }
                    let ghost before_ins = p;
                    if p.insert_dirent(parent, segs[j].as_str(), d).is_err() {
                        proof {
                            assert(false);
                        }
                        return Err(LocalBuildError::NotADirectory);
                    }
                    proof {
                        lemma_local_insert(
                            before_ins,
                            p,
                            package@,
                            gfiles,
                            i as int,
                            now,
                            parent,
                            segs@[j as int]@,
                            d,
                        );
                    }
                    parent = d;
                },
            }
            j = j + 1;
        }
        if p.inodes.len() as u64 >= u64::MAX - 2 {
            proof {
                assert(exists|t: int|
                    0 <= t < recipe.files@.len() && text::split_slash(
                        (#[trigger] recipe.files@[t]).1@,
                    ).len() >= 2) by {
                    if nsegs >= 2 {
                        assert(text::split_slash(recipe.files@[i as int].1@).len() >= 2);
                    } else {
                        assert(p.inodes@.len() <= base_len);
                        if forall|t: int|
                            0 <= t < i ==> text::split_slash(
                                (#[trigger] recipe.files@[t]).1@,
                            ).len() == 1 {
                            assert(base_len <= 4 + i);
                            assert(false);
                        }
                        let t0 = choose|t: int|
                            0 <= t < i && text::split_slash(
                                (#[trigger] recipe.files@[t]).1@,
                            ).len() != 1;
                        assert(text::split_slash(recipe.files@[t0].1@).len() >= 1);
                        assert(text::split_slash(recipe.files@[t0].1@).len() >= 2);
                    }
                }
            }
            return Err(LocalBuildError::TooLarge);
        }
        let ghost before = p;
        let bytes = vstd::slice::slice_to_vec(file_contents[i].as_slice());
        let ino = p.add_file(bytes, attrs);
        proof {
            lemma_local_grow(before, p, package@, gfiles, i as int, now);
            assert(p.inode_at(ino as int).content is RegularFile);
            assert(file_bytes(p.inode_at(ino as int).content) == gfiles[i as int]@);
        }
        let ghost before_ins = p;
        if p.insert_dirent(parent, segs[nsegs - 1].as_str(), ino).is_err() {
            return Err(LocalBuildError::NotADirectory);
        }
        proof {
            lemma_local_insert(
                before_ins,
                p,
                package@,
                gfiles,
                i as int,
                now,
                parent,
                segs@[nsegs - 1]@,
                ino,
            );
            assert(bytes_stored(p, gfiles[i as int]@, local_attrs(now))) by {
                assert(parent as int <= before.inodes@.len());
                assert(ino as int == before.inodes@.len() + 1);
                assert(p.inode_at(ino as int) == before_ins.inode_at(ino as int));
                assert(p.has_ino(ino as int));
                assert(p.inode_at(ino as int).content is RegularFile);
                assert(file_bytes(p.inode_at(ino as int).content) == gfiles[i as int]@);
                assert(p.inode_at(ino as int).attrs == local_attrs(now));
            }
            assert forall|j2: int|
                0 <= j2 < i + 1 implies bytes_stored(p, (#[trigger] gfiles[j2])@, local_attrs(now))
                by {}
            if flat_destinations(recipe.files@) && flat_distinct(recipe.files@) {
                assert(text::split_slash(recipe.files@[i as int].1@).len() == 1);
                assert(nsegs == 1);
                assert(parent == 1);
                let gname = segs@[nsegs - 1]@;
                assert(gname == text::split_slash(recipe.files@[i as int].1@)[0]);
                let eb1 = before_ins.entries_of(1);
                let ea1 = p.entries_of(1);
                crate::parcel::lemma_find_dirent(eb1, gname);
                let f = find_dirent(eb1, gname);
                assert forall|t: int| 0 <= t < i + 1 implies root_file_at(
                    p,
                    text::split_slash((#[trigger] recipe.files@[t]).1@)[0],
                    gfiles[t]@,
                    now,
                ) by {
                    if t == i {
                        let j = if f == -1 {
                            eb1.len() as int
                        } else {
                            f
                        };
                        assert(ea1[j].name@ == gname && ea1[j].ino == ino);
                        assert(p.inode_at(ino as int) == before_ins.inode_at(ino as int));
                        assert(p.inode_at(ino as int).content is RegularFile);
                        assert(file_bytes(p.inode_at(ino as int).content) == gfiles[i as int]@);
                        assert(p.inode_at(ino as int).attrs == local_attrs(now));
                    } else {
                        let n_t = text::split_slash(recipe.files@[t].1@)[0];
                        assert(root_file_at(before, n_t, gfiles[t]@, now));
                        let j = choose|j: int|
                            0 <= j < before.entries_of(1).len() && (#[trigger] before.entries_of(
                                1,
                            )[j]).name@ == n_t && before.has_ino(before.entries_of(1)[j].ino as int)
                                && before.inode_at(before.entries_of(1)[j].ino as int).content
                                is RegularFile && file_bytes(
                                before.inode_at(before.entries_of(1)[j].ino as int).content,
                            ) == gfiles[t]@ && before.inode_at(
                                before.entries_of(1)[j].ino as int,
                            ).attrs == local_attrs(now);
                        let w = before.entries_of(1)[j].ino;
                        assert(before_ins.entries_of(1)[j] == before.entries_of(1)[j]);
                        assert(n_t != gname);
                        if f != -1 {
                            assert(eb1[f].name@ == gname);
                            assert(j != f);
                        }
                        assert(ea1[j] == eb1[j]);
                        assert(w as int != 1) by {
                            assert(before.inode_at(w as int).content is RegularFile);
                            assert(before.inode_at(1).content is Directory);
                        }
                        assert(before_ins.inode_at(w as int) == before.inode_at(w as int));
                        assert(p.inode_at(w as int) == before_ins.inode_at(w as int));
                        assert(ea1[j].name@ == n_t && p.has_ino(ea1[j].ino as int) && p.inode_at(
                            ea1[j].ino as int,
                        ).content is RegularFile && file_bytes(p.inode_at(ea1[j].ino as int).content)
                            == gfiles[t]@ && p.inode_at(ea1[j].ino as int).attrs == local_attrs(
                            now,
                        ));
                    }
                }
            }
        }
        i = i + 1;
    }
    match action_bytes {
        Some(b) => {
            if p.inodes.len() as u64 >= u64::MAX - 2 {
                proof {
                    assert(exists|t: int|
                        0 <= t < recipe.files@.len() && text::split_slash(
                            (#[trigger] recipe.files@[t]).1@,
                        ).len() >= 2) by {
                        if forall|t: int|
                            0 <= t < gfiles.len() ==> text::split_slash(
                                (#[trigger] recipe.files@[t]).1@,
                            ).len() == 1 {
                            assert(p.inodes@.len() <= 4 + gfiles.len());
                            assert(false);
                        }
                        let t0 = choose|t: int|
                            0 <= t < gfiles.len() && text::split_slash(
                                (#[trigger] recipe.files@[t]).1@,
                            ).len() != 1;
                        assert(text::split_slash(recipe.files@[t0].1@).len() >= 1);
                    }
                }
                return Err(LocalBuildError::TooLarge);
            }
            let ghost before = p;
            let ino = p.add_file(b, attrs);
            proof {
                lemma_local_grow(before, p, package@, gfiles, gfiles.len() as int, now);
            }
            let ghost before_ins = p;
            if p.insert_dirent(parcel_dir, ".INSTALL", ino).is_err() {
                proof {
                    assert(false);
                }
                return Err(LocalBuildError::NotADirectory);
            }
            proof {
                assert(before_ins.entries_of(4).len() == 0);
                assert(find_dirent(before_ins.entries_of(4), ".INSTALL"@) == -1);
                assert(p.entries_of(4).len() == 1);
                assert(p.entries_of(4)[0].name@ == ".INSTALL"@);
                assert(p.entries_of(4)[0].ino == ino);
                assert(p.inode_at(ino as int) == before_ins.inode_at(ino as int));
                assert forall|j2: int|
                    0 <= j2 < gfiles.len() implies bytes_stored(
                    p,
                    (#[trigger] gfiles[j2])@,
                    local_attrs(now),
                ) by {
                    assert(bytes_stored(before_ins, gfiles[j2]@, local_attrs(now)));
                    let w = choose|w: int|
                        before_ins.has_ino(w) && (#[trigger] before_ins.inode_at(w)).content
                            is RegularFile && file_bytes(before_ins.inode_at(w).content)
                            == gfiles[j2]@ && before_ins.inode_at(w).attrs == local_attrs(now);
                    if w == 4 {
                        assert(false);
                    }
                    assert(p.inode_at(w) == before_ins.inode_at(w));
                }
                assert(linked(p.entries_of(1), ".PYXIS"@, 2));
                assert(linked(p.entries_of(2), "local"@, 3));
                assert(linked(p.entries_of(3), package@, 4));
            }
            proof {
                if flat_destinations(recipe.files@) && flat_distinct(recipe.files@) {
                    assert forall|t: int| 0 <= t < recipe.files@.len() implies root_file_at(
                        p,
                        text::split_slash((#[trigger] recipe.files@[t]).1@)[0],
                        gfiles[t]@,
                        now,
                    ) by {
                        let n_t = text::split_slash(recipe.files@[t].1@)[0];
                        assert(root_file_at(before, n_t, gfiles[t]@, now));
                        let j = choose|j: int|
                            0 <= j < before.entries_of(1).len() && (#[trigger] before.entries_of(
                                1,
                            )[j]).name@ == n_t && before.has_ino(before.entries_of(1)[j].ino as int)
                                && before.inode_at(before.entries_of(1)[j].ino as int).content
                                is RegularFile && file_bytes(
                                before.inode_at(before.entries_of(1)[j].ino as int).content,
                            ) == gfiles[t]@ && before.inode_at(
                                before.entries_of(1)[j].ino as int,
                            ).attrs == local_attrs(now);
                        let w = before.entries_of(1)[j].ino;
                        assert(w as int != 4) by {
                            assert(before.inode_at(w as int).content is RegularFile);
                            assert(before.inode_at(4).content is Directory);
                        }
                        assert(before_ins.entries_of(1)[j] == before.entries_of(1)[j]);
                        assert(p.entries_of(1)[j] == before_ins.entries_of(1)[j]);
                        assert(before_ins.inode_at(w as int) == before.inode_at(w as int));
                        assert(p.inode_at(w as int) == before_ins.inode_at(w as int));
                    }
                    lemma_flat_placement(p, recipe.files@, gfiles, now);
                }
            }
            Ok(p)
        },
        None => {
            proof {
                if flat_destinations(recipe.files@) && flat_distinct(recipe.files@) {
                    lemma_flat_placement(p, recipe.files@, gfiles, now);
                }
            }
            Ok(p)
        },
    }
}

/// On a flat recipe with distinct names, a root entry holding each file's
/// bytes yields the path-addressed placement claim.
proof fn lemma_flat_placement(p: Parcel, files: Seq<(String, String)>, contents: Seq<Vec<u8>>, now: u64)
    requires
        p.wf(),
        flat_destinations(files),
        contents.len() == files.len(),
        forall|t: int|
            0 <= t < files.len() ==> root_file_at(
                p,
                text::split_slash((#[trigger] files[t]).1@)[0],
                contents[t]@,
                now,
            ),
    ensures
        forall|t: int|
            0 <= t < files.len() ==> match crate::parcel::spec_walk(
                p,
                1,
                text::split_slash((#[trigger] files[t]).1@),
            ) {
                Some(w) => p.has_ino(w) && p.inode_at(w).content is RegularFile && file_bytes(
                    p.inode_at(w).content,
                ) == contents[t]@ && p.inode_at(w).attrs == local_attrs(now),
                None => false,
            },
{
    assert forall|t: int| 0 <= t < files.len() implies match crate::parcel::spec_walk(
        p,
        1,
        text::split_slash((#[trigger] files[t]).1@),
    ) {
        Some(w) => p.has_ino(w) && p.inode_at(w).content is RegularFile && file_bytes(
            p.inode_at(w).content,
        ) == contents[t]@ && p.inode_at(w).attrs == local_attrs(now),
        None => false,
    } by {
        let segs = text::split_slash(files[t].1@);
        let n = segs[0];
        assert(root_file_at(p, n, contents[t]@, now));
        let j = choose|j: int|
            0 <= j < p.entries_of(1).len() && (#[trigger] p.entries_of(1)[j]).name@ == n
                && p.has_ino(p.entries_of(1)[j].ino as int) && p.inode_at(
                p.entries_of(1)[j].ino as int,
            ).content is RegularFile && file_bytes(p.inode_at(p.entries_of(1)[j].ino as int).content)
                == contents[t]@ && p.inode_at(p.entries_of(1)[j].ino as int).attrs == local_attrs(
                now,
            );
        crate::parcel::lemma_find_dirent(p.entries_of(1), n);
        let f = find_dirent(p.entries_of(1), n);
        if f == -1 {
            assert(p.entries_of(1)[j].name@ != n);
        }
        if f != j {
            // names are unique within a well-formed directory
            assert(p.entries_of(1)[f].name@ == n);
            assert(false);
        }
        assert(segs.subrange(1, segs.len() as int) =~= Seq::<Seq<char>>::empty());
        assert(crate::parcel::spec_walk(p, p.entries_of(1)[j].ino as int, segs.subrange(1, 1))
            == Some(p.entries_of(1)[j].ino as int));
    }
}

/// Growing the inode list preserves the local-build invariant.
proof fn lemma_local_grow(
    before: Parcel,
    after: Parcel,
    package: Seq<char>,
    contents: Seq<Vec<u8>>,
    i: int,
    now: u64,
)
    requires
        local_inv(before, package, contents, i, now),
        after.wf(),
        after.inodes@.len() >= before.inodes@.len(),
        forall|k: int| 1 <= k <= before.inodes@.len() ==> after.inode_at(k) == before.inode_at(k),
        forall|k: int|
            before.inodes@.len() < k <= after.inodes@.len() ==> (#[trigger] after.entries_of(
                k,
            )).len() == 0,
    ensures
        local_inv(after, package, contents, i, now),
{
    assert(after.entries_of(1) == before.entries_of(1));
    assert(after.entries_of(2) == before.entries_of(2));
    assert(after.entries_of(3) == before.entries_of(3));
    assert(after.entries_of(4) == before.entries_of(4));
    assert forall|j: int|
        0 <= j < i implies bytes_stored(after, (#[trigger] contents[j])@, local_attrs(now)) by {
        let w = choose|w: int|
            before.has_ino(w) && (#[trigger] before.inode_at(w)).content is RegularFile
                && file_bytes(before.inode_at(w).content) == contents[j]@ && before.inode_at(
                w,
            ).attrs == local_attrs(now);
        assert(after.inode_at(w) == before.inode_at(w));
    }
    assert forall|d: int, t: int|
        1 <= d <= after.inodes@.len() && 0 <= t < after.entries_of(d).len()
        implies reserved_edge_ok(d, #[trigger] after.entries_of(d)[t]) by {
        if d <= before.inodes@.len() {
            assert(after.inode_at(d) == before.inode_at(d));
            assert(after.entries_of(d)[t] == before.entries_of(d)[t]);
        } else {
            assert(after.entries_of(d).len() == 0);
        }
    }
}

/// Inserting into a directory outside the reserved chain preserves the
/// local-build invariant.
proof fn lemma_local_insert(
    before: Parcel,
    after: Parcel,
    package: Seq<char>,
    contents: Seq<Vec<u8>>,
    i: int,
    now: u64,
    parent: u64,
    name: Seq<char>,
    child: u64,
)
    requires
        local_inv(before, package, contents, i, now),
        after.wf(),
        after.inodes@.len() == before.inodes@.len(),
        forall|k: int|
            1 <= k <= before.inodes@.len() && k != parent ==> after.inode_at(k) == before.inode_at(
                k,
            ),
        after.is_dir(parent as int),
        before.is_dir(parent as int),
        crate::parcel::entries_updated(
            before.entries_of(parent as int),
            after.entries_of(parent as int),
            name,
            child,
        ),
        parent == 1 || parent >= 5,
        parent == 1 ==> name != ".PYXIS"@,
        child >= 5,
    ensures
        local_inv(after, package, contents, i, now),
{
    crate::parcel::lemma_find_dirent(before.entries_of(parent as int), name);
    let eb = before.entries_of(parent as int);
    let ea = after.entries_of(parent as int);
    let f = find_dirent(eb, name);
    assert(after.entries_of(2) == before.entries_of(2));
    assert(after.entries_of(3) == before.entries_of(3));
    assert(after.entries_of(4) == before.entries_of(4));
    if parent == 1 {
        let k0 = choose|k0: int|
            0 <= k0 < eb.len() && (#[trigger] eb[k0]).name@ == ".PYXIS"@ && eb[k0].ino == 2;
        if f != -1 {
            assert(eb[f].name@ == name);
            assert(k0 != f);
        }
        assert(ea[k0] == eb[k0]);
        assert(linked(ea, ".PYXIS"@, 2));
    } else {
        assert(after.entries_of(1) == before.entries_of(1));
    }
    assert forall|j: int|
        0 <= j < i implies bytes_stored(after, (#[trigger] contents[j])@, local_attrs(now)) by {
        let w = choose|w: int|
            before.has_ino(w) && (#[trigger] before.inode_at(w)).content is RegularFile
                && file_bytes(before.inode_at(w).content) == contents[j]@ && before.inode_at(
                w,
            ).attrs == local_attrs(now);
        if w == parent {
            assert(false);
        }
        assert(after.inode_at(w) == before.inode_at(w));
    }
    assert forall|d: int, t: int|
        1 <= d <= after.inodes@.len() && 0 <= t < after.entries_of(d).len()
        implies reserved_edge_ok(d, #[trigger] after.entries_of(d)[t]) by {
        if d != parent {
            assert(after.inode_at(d) == before.inode_at(d));
            assert(after.entries_of(d)[t] == before.entries_of(d)[t]);
        } else {
            if f == -1 {
                if t < eb.len() {
                    assert(ea[t] == eb[t]);
                } else {
                    assert(ea[t].ino == child);
                }
            } else {
                if t == f {
                    assert(ea[t].ino == child);
                } else {
                    assert(ea[t] == eb[t]);
                }
            }
        }
    }
}

} // verus!
