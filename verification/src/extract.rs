//! The parcel extractor: walks a parcel inode tree and produces the ordered
//! list of filesystem actions that materializes it.
//!
//! The surrounding binary performs the actions one by one.  The ordering
//! guarantees of the pipeline are visible in the plan itself: a directory's
//! mode and owner are applied before its entries, and a file's mode and owner
//! after its contents, so read-only modes cannot block the write.  The plan
//! is a function of the parcel alone, which makes extraction order-stable.

use vstd::prelude::*;
use vstd::string::StrSliceExecFns;
use vstd::string::StringExecFns;

use crate::parcel::{file_bytes, link_target, InodeContent, Parcel};

verus! {

/// One filesystem action of an extraction plan.
#[derive(Debug)]
pub enum FsAction {
    /// Create the directory if it does not exist.
    EnsureDir(String),
    /// Set the permission bits of a path.
    Chmod(String, u32),
    /// Set owner and group of a path.
    Chown(String, u32, u32),
    /// Create (or truncate) a regular file with these bytes.
    WriteFile(String, Vec<u8>),
    /// Create a symlink at the first path pointing at the second.
    Symlink(String, String),
}

/// The mathematical value of an [`FsAction`].
pub ghost enum FsActionV {
    EnsureDir(Seq<char>),
    Chmod(Seq<char>, u32),
    Chown(Seq<char>, u32, u32),
    WriteFile(Seq<char>, Seq<u8>),
    Symlink(Seq<char>, Seq<char>),
}

impl View for FsAction {
    type V = FsActionV;

    open spec fn view(&self) -> FsActionV {
        match self {
            FsAction::EnsureDir(p) => FsActionV::EnsureDir(p@),
            FsAction::Chmod(p, m) => FsActionV::Chmod(p@, *m),
            FsAction::Chown(p, u, g) => FsActionV::Chown(p@, *u, *g),
            FsAction::WriteFile(p, b) => FsActionV::WriteFile(p@, b@),
            FsAction::Symlink(p, t) => FsActionV::Symlink(p@, t@),
        }
    }
}

/// The element-wise values of an action list.
pub open spec fn acts_view(s: Seq<FsAction>) -> Seq<FsActionV> {
    s.map_values(|a: FsAction| a@)
}

/// Why an extraction was refused; every case is fatal.
#[derive(Debug, Copy, Clone, PartialEq, Eq, Structural)]
pub enum ExtractError {
    /// The inode does not exist, or is a character device or whiteout, which
    /// this pipeline does not materialize.
    Unsupported,
    /// The directory tree is deeper than the recursion budget.
    TooDeep,
}

/// The plan for the subtree rooted at `ino`, materialized at `path`, or
/// `None` when the subtree holds an unsupported inode or outruns `fuel`.
pub open spec fn spec_plan(p: Parcel, ino: int, path: Seq<char>, fuel: nat) -> Option<
    Seq<FsActionV>,
>
    decreases fuel, 0int, 0int,
{
    if !p.has_ino(ino) {
        None
    } else {
        let node = p.inode_at(ino);
        match node.content {
            InodeContent::Directory(_) => {
                if fuel == 0 {
                    None
                } else {
                    let head = seq![
                        FsActionV::EnsureDir(path),
                        FsActionV::Chmod(path, node.attrs.perm),
                        FsActionV::Chown(path, node.attrs.uid, node.attrs.gid),
                    ];
                    match plan_children(p, ino, 0, path, (fuel - 1) as nat) {
                        Some(t) => Some(head + t),
                        None => None,
                    }
                }
            },
            InodeContent::RegularFile(_) => Some(
                seq![
                    FsActionV::WriteFile(path, file_bytes(node.content)),
                    FsActionV::Chown(path, node.attrs.uid, node.attrs.gid),
                    FsActionV::Chmod(path, node.attrs.perm),
                ],
            ),
            InodeContent::Symlink(_) => Some(
                seq![FsActionV::Symlink(path, link_target(node.content))],
            ),
            _ => None,
        }
    }
}

/// The concatenated plans of the children of directory `ino` from entry `k`
/// on.
pub open spec fn plan_children(p: Parcel, ino: int, k: int, path: Seq<char>, fuel: nat) -> Option<
    Seq<FsActionV>,
>
    decreases fuel, p.entries_of(ino).len() - k, 1int,
{
    if k < 0 || k >= p.entries_of(ino).len() {
        Some(Seq::empty())
    } else {
        let e = p.entries_of(ino)[k];
        let child_path = path + "/"@ + e.name@;
        match spec_plan(p, e.ino as int, child_path, fuel) {
            Some(cp) => {
                match plan_children(p, ino, k + 1, path, fuel) {
                    Some(rest) => Some(cp + rest),
                    None => None,
                }
            },
            None => None,
        }
    }
}

/// Appends the plan for the subtree rooted at `ino` onto `out`.
fn plan_into(p: &Parcel, ino: u64, path: &str, fuel: u64, out: &mut Vec<FsAction>) -> (r: Result<
    (),
    ExtractError,
>)
    requires
        p.wf(),
    ensures
        match r {
            Ok(_) => match spec_plan(*p, ino as int, path@, fuel as nat) {
                Some(pl) => acts_view(final(out)@) == acts_view(old(out)@) + pl,
                None => false,
            },
            Err(_) => spec_plan(*p, ino as int, path@, fuel as nat) is None,
        },
    decreases fuel,
{
    let attrs = match p.getattr(ino) {
        Some(a) => a,
        None => {
            return Err(ExtractError::Unsupported);
        },
    };
    let kind = p.kind_of(ino).unwrap();
    match kind {
        crate::parcel::InodeKind::Directory => {
            if fuel == 0 {
                return Err(ExtractError::TooDeep);
            }
            let ghost out0 = out@;
            out.push(FsAction::EnsureDir(path.to_owned()));
            out.push(FsAction::Chmod(path.to_owned(), attrs.perm));
            out.push(FsAction::Chown(path.to_owned(), attrs.uid, attrs.gid));
            proof {
                assert(acts_view(out@) =~= acts_view(out0) + seq![
                    FsActionV::EnsureDir(path@),
                    FsActionV::Chmod(path@, attrs.perm),
                    FsActionV::Chown(path@, attrs.uid, attrs.gid),
                ]);
            }
            let children = p.readdir(ino).unwrap();
            let ghost f1 = (fuel - 1) as nat;
            let mut j: usize = 0;
            let ghost head = seq![
                FsActionV::EnsureDir(path@),
                FsActionV::Chmod(path@, attrs.perm),
                FsActionV::Chown(path@, attrs.uid, attrs.gid),
            ];
            while j < children.len()
                invariant
                    p.wf(),
                    p.is_dir(ino as int),
                    fuel >= 1,
                    f1 == (fuel - 1) as nat,
                    children@.len() == p.entries_of(ino as int).len(),
                    forall|t: int|
                        0 <= t < children@.len() ==> {
                            let e = p.entries_of(ino as int)[t];
                            (#[trigger] children@[t]).0 == e.ino && children@[t].2@ == e.name@
                        },
                    0 <= j <= children@.len(),
                    ({
                        match plan_children(*p, ino as int, j as int, path@, f1) {
                            Some(rest) => plan_children(*p, ino as int, 0, path@, f1) == Some(
                                acts_view(out@).subrange(
                                    (acts_view(out0) + head).len() as int,
                                    acts_view(out@).len() as int,
                                ) + rest,
                            ),
                            None => plan_children(*p, ino as int, 0, path@, f1) is None,
                        }
                    }),
                    acts_view(out@).len() >= (acts_view(out0) + head).len(),
                    acts_view(out@).subrange(0, (acts_view(out0) + head).len() as int)
                        =~= acts_view(out0) + head,
                decreases children@.len() - j,
            {
                let mut child_path = path.to_owned();
                child_path.append("/");
                child_path.append(children[j].2.as_str());
                proof {
                    reveal_strlit("/");
                    assert(child_path@ == path@ + "/"@ + p.entries_of(ino as int)[j as int].name@);
                }
                let ghost before = out@;
                let res = plan_into(p, children[j].0, child_path.as_str(), fuel - 1, out);
                if res.is_err() {
                    proof {
                        let e = p.entries_of(ino as int)[j as int];
                        assert(spec_plan(*p, e.ino as int, path@ + "/"@ + e.name@, f1) is None);
                        assert(plan_children(*p, ino as int, j as int, path@, f1) is None);
                    }
                    return Err(ExtractError::Unsupported);
                }
                proof {
                    let e = p.entries_of(ino as int)[j as int];
                    let cp = spec_plan(*p, e.ino as int, path@ + "/"@ + e.name@, f1);
                    assert(cp is Some);
                    let done0 = acts_view(before).subrange(
                        (acts_view(out0) + head).len() as int,
                        acts_view(before).len() as int,
                    );
                    let done1 = acts_view(out@).subrange(
                        (acts_view(out0) + head).len() as int,
                        acts_view(out@).len() as int,
                    );
                    assert(acts_view(out@) == acts_view(before) + cp.unwrap());
                    assert(done1 =~= done0 + cp.unwrap());
                    assert(acts_view(out@).subrange(0, (acts_view(out0) + head).len() as int)
                        =~= acts_view(before).subrange(0, (acts_view(out0) + head).len() as int));
                    match plan_children(*p, ino as int, j + 1, path@, f1) {
                        Some(rest) => {
                            assert(plan_children(*p, ino as int, j as int, path@, f1) == Some(
                                cp.unwrap() + rest,
                            ));
                            assert(done0 + (cp.unwrap() + rest) =~= done1 + rest);
                        },
                        None => {
                            assert(plan_children(*p, ino as int, j as int, path@, f1) is None);
                        },
                    }
                }
                j = j + 1;
            }
            proof {
                assert(plan_children(*p, ino as int, children@.len() as int, path@, f1) == Some(
                    Seq::<FsActionV>::empty(),
                ));
                let done = acts_view(out@).subrange(
                    (acts_view(out0) + head).len() as int,
                    acts_view(out@).len() as int,
                );
                assert(plan_children(*p, ino as int, 0, path@, f1) == Some(done + Seq::empty()));
                assert(done + Seq::<FsActionV>::empty() =~= done);
                assert(acts_view(out@) =~= (acts_view(out0) + head) + done);
                assert(acts_view(out@) =~= acts_view(out0) + (head + done));
            }
            Ok(())
        },
        crate::parcel::InodeKind::RegularFile => {
            let bytes = p.read_file(ino).unwrap();
            let ghost out0 = out@;
            out.push(FsAction::WriteFile(path.to_owned(), bytes));
            out.push(FsAction::Chown(path.to_owned(), attrs.uid, attrs.gid));
            out.push(FsAction::Chmod(path.to_owned(), attrs.perm));
            proof {
                assert(acts_view(out@) =~= acts_view(out0) + spec_plan(
                    *p,
                    ino as int,
                    path@,
                    fuel as nat,
                ).unwrap());
            }
            Ok(())
        },
        crate::parcel::InodeKind::Symlink => {
            let target = p.readlink(ino).unwrap();
            let ghost out0 = out@;
            out.push(FsAction::Symlink(path.to_owned(), target));
            proof {
                assert(acts_view(out@) =~= acts_view(out0) + spec_plan(
                    *p,
                    ino as int,
                    path@,
                    fuel as nat,
                ).unwrap());
            }
            Ok(())
        },
        _ => Err(ExtractError::Unsupported),
    }
}

/// The extraction plan for the subtree rooted at `ino`, materialized at
/// `dest`.  `fuel` bounds the directory depth; a parcel deeper than that is
/// refused rather than recursed into without bound.
///
/// The result is exactly `spec_plan`, a function of the parcel alone — so
/// extracting a parcel twice yields identical plans — and an error comes
/// exactly when the subtree holds a character device, a whiteout or a
/// dangling inode, or outruns `fuel`.
pub fn extract_parcel(p: &Parcel, ino: u64, dest: &str, fuel: u64) -> (r: Result<
    Vec<FsAction>,
    ExtractError,
>)
    requires
        p.wf(),
    ensures
        match r {
            Ok(v) => match spec_plan(*p, ino as int, dest@, fuel as nat) {
                Some(pl) => acts_view(v@) == pl,
                None => false,
            },
            Err(_) => spec_plan(*p, ino as int, dest@, fuel as nat) is None,
        },
{
    let mut out: Vec<FsAction> = Vec::new();
    match plan_into(p, ino, dest, fuel, &mut out) {
        Ok(_) => {
            proof {
                assert(acts_view(Seq::<FsAction>::empty()) =~= Seq::<FsActionV>::empty());
                match spec_plan(*p, ino as int, dest@, fuel as nat) {
                    Some(pl) => {
                        assert(acts_view(out@) =~= pl);
                    },
                    None => {
                    },
                }
            }
            Ok(out)
        },
        Err(e) => Err(e),
    }
}

/// Law: extraction is order-stable.  Two runs over the same parcel, inode,
/// destination and depth budget that both succeed produce the same action
/// sequence, since each equals the plan the parcel determines.
pub proof fn lemma_extract_order_stable(
    p: Parcel,
    ino: int,
    dest: Seq<char>,
    fuel: nat,
    a: Seq<FsActionV>,
    b: Seq<FsActionV>,
)
    requires
        spec_plan(p, ino, dest, fuel) == Some(a),
        spec_plan(p, ino, dest, fuel) == Some(b),
    ensures
        a == b,
{
}

} // verus!
