//! The image builder's decisions: which hook targets an install set
//! triggers, whether a hook's action runs and with what input, the scriptlet
//! command line, and the kernel-filesystem mount plan with its reverse
//! unmount order.
//!
//! The surrounding binary stages, mounts, globs the filesystem, runs the
//! chrooted commands and publishes; it hands the results of those steps in
//! as plain values.

use vstd::prelude::*;
use vstd::string::StrSliceExecFns;
use vstd::string::StringExecFns;

use crate::hookfile::{Hook, HookTriggerFlavor, HookTriggerOperation, HookV, TriggerV};
use crate::upstream::strs_view;
use crate::ParcelProvider;

verus! {

/// The views of a list of per-pattern glob results.
pub open spec fn globs_view(v: Seq<Vec<String>>) -> Seq<Seq<Seq<char>>> {
    v.map_values(|x: Vec<String>| strs_view(x@))
}

/// The views of a list of per-trigger glob results.
pub open spec fn globs_all_view(v: Seq<Vec<Vec<String>>>) -> Seq<Seq<Seq<Seq<char>>>> {
    v.map_values(|x: Vec<Vec<String>>| globs_view(x@))
}

/// The package-flavor matches: each target literal is retained exactly when
/// it names an installed package, in target order.
pub open spec fn pkg_matches(targets: Seq<Seq<char>>, names: Seq<Seq<char>>) -> Seq<Seq<char>>
    decreases targets.len(),
{
    if targets.len() == 0 {
        Seq::empty()
    } else {
        let rest = pkg_matches(targets.drop_last(), names);
        if names.contains(targets.last()) {
            rest.push(targets.last())
        } else {
            rest
        }
    }
}

/// The path-flavor matches over per-pattern glob results: all matches in
/// order when the action needs its targets, and only the first match of the
/// first matching pattern otherwise.
pub open spec fn path_matches(globs: Seq<Seq<Seq<char>>>, needs_targets: bool) -> Seq<Seq<char>>
    decreases globs.len(),
{
    if globs.len() == 0 {
        Seq::empty()
    } else {
        let rest = path_matches(globs.subrange(1, globs.len() as int), needs_targets);
        if needs_targets {
            globs[0] + rest
        } else if globs[0].len() == 0 {
            rest
        } else {
            seq![globs[0][0]]
        }
    }
}

/// What one trigger contributes to a hook's target list.
pub open spec fn trigger_matches(
    t: TriggerV,
    names: Seq<Seq<char>>,
    globs: Seq<Seq<Seq<char>>>,
    needs_targets: bool,
) -> Seq<Seq<char>> {
    if !t.operations.contains(HookTriggerOperation::Install) {
        Seq::empty()
    } else if t.flavor == HookTriggerFlavor::Package {
        pkg_matches(t.targets, names)
    } else if t.flavor == HookTriggerFlavor::Path {
        path_matches(globs, needs_targets)
    } else {
        Seq::empty()
    }
}

/// The concatenated contributions of the first `k` triggers: nothing is
/// deduplicated across triggers.
pub open spec fn collect_upto(
    h: HookV,
    names: Seq<Seq<char>>,
    globs_all: Seq<Seq<Seq<Seq<char>>>>,
    k: int,
) -> Seq<Seq<char>>
    decreases k,
{
    if k <= 0 {
        Seq::empty()
    } else {
        collect_upto(h, names, globs_all, k - 1) + trigger_matches(
            h.triggers[k - 1],
            names,
            globs_all[k - 1],
            h.action.needs_targets,
        )
    }
}

/// Law: a path-flavor trigger whose action does not need its targets
/// records at most one target, however many paths matched.
pub proof fn lemma_single_target_without_needs(globs: Seq<Seq<Seq<char>>>)
    ensures
        path_matches(globs, false).len() <= 1,
    decreases globs.len(),
{
    if globs.len() > 0 && globs[0].len() == 0 {
        lemma_single_target_without_needs(globs.subrange(1, globs.len() as int));
    }
}

/// Prefixes of the collection grow monotonically.
proof fn lemma_collect_prefix_len(
    h: HookV,
    names: Seq<Seq<char>>,
    globs_all: Seq<Seq<Seq<Seq<char>>>>,
    i: int,
    j: int,
)
    requires
        0 <= i <= j,
    ensures
        collect_upto(h, names, globs_all, i).len() <= collect_upto(h, names, globs_all, j).len(),
    decreases j - i,
{
    if i < j {
        lemma_collect_prefix_len(h, names, globs_all, i, j - 1);
    }
}

/// Each trigger's contribution stands contiguously inside the collection,
/// starting where the earlier triggers' contributions end.
proof fn lemma_collect_contribution(
    h: HookV,
    names: Seq<Seq<char>>,
    globs_all: Seq<Seq<Seq<Seq<char>>>>,
    k: int,
    n: int,
    idx: int,
)
    requires
        0 <= k < n,
        0 <= idx < trigger_matches(h.triggers[k], names, globs_all[k], h.action.needs_targets).len(),
    ensures
        ({
            let off = collect_upto(h, names, globs_all, k).len();
            let m = trigger_matches(h.triggers[k], names, globs_all[k], h.action.needs_targets);
            off + idx < collect_upto(h, names, globs_all, n).len() && collect_upto(
                h,
                names,
                globs_all,
                n,
            )[off + idx] == m[idx]
        }),
    decreases n - k,
{
    let off = collect_upto(h, names, globs_all, k).len();
    let m = trigger_matches(h.triggers[k], names, globs_all[k], h.action.needs_targets);
    if n == k + 1 {
        assert(collect_upto(h, names, globs_all, n) == collect_upto(h, names, globs_all, k) + m);
    } else {
        lemma_collect_contribution(h, names, globs_all, k, n - 1, idx);
        assert(collect_upto(h, names, globs_all, n) == collect_upto(h, names, globs_all, n - 1)
            + trigger_matches(h.triggers[n - 1], names, globs_all[n - 1], h.action.needs_targets));
    }
}

/// Law: hook trigger collection deduplicates nothing.  A target matched by
/// two different triggers appears at two different positions of the
/// collected list, so downstream scripts observe each match.
pub proof fn lemma_collection_keeps_duplicates(
    h: HookV,
    names: Seq<Seq<char>>,
    globs_all: Seq<Seq<Seq<Seq<char>>>>,
    n: int,
    i: int,
    j: int,
    t: Seq<char>,
)
    requires
        0 <= i < j < n,
        trigger_matches(h.triggers[i], names, globs_all[i], h.action.needs_targets).contains(t),
        trigger_matches(h.triggers[j], names, globs_all[j], h.action.needs_targets).contains(t),
    ensures
        exists|a: int, b: int|
            0 <= a < b < collect_upto(h, names, globs_all, n).len() && collect_upto(
                h,
                names,
                globs_all,
                n,
            )[a] == t && collect_upto(h, names, globs_all, n)[b] == t,
{
    let mi = trigger_matches(h.triggers[i], names, globs_all[i], h.action.needs_targets);
    let mj = trigger_matches(h.triggers[j], names, globs_all[j], h.action.needs_targets);
    let ia = choose|ia: int| 0 <= ia < mi.len() && mi[ia] == t;
    let ib = choose|ib: int| 0 <= ib < mj.len() && mj[ib] == t;
    lemma_collect_contribution(h, names, globs_all, i, n, ia);
    lemma_collect_contribution(h, names, globs_all, j, n, ib);
    let a = collect_upto(h, names, globs_all, i).len() + ia;
    let b = collect_upto(h, names, globs_all, j).len() + ib;
    lemma_collect_prefix_len(h, names, globs_all, i + 1, j);
    assert(collect_upto(h, names, globs_all, i + 1) == collect_upto(h, names, globs_all, i) + mi);
    assert(a < b);
    assert(collect_upto(h, names, globs_all, n)[a] == t);
    assert(collect_upto(h, names, globs_all, n)[b] == t);
}

/// Whether `v` holds a string with the text of `s`.
pub fn contains_str(v: &Vec<String>, s: &str) -> (b: bool)
    ensures
        b == strs_view(v@).contains(s@),
{
    let mut i: usize = 0;
    while i < v.len()
        invariant
            0 <= i <= v@.len(),
            forall|j: int| 0 <= j < i ==> (#[trigger] v@[j])@ != s@,
        decreases v@.len() - i,
    {
        if crate::text::str_eq(v[i].as_str(), s) {
            proof {
                assert(strs_view(v@)[i as int] == v@[i as int]@);
            }
            return true;
        }
        i = i + 1;
    }
    proof {
        if strs_view(v@).contains(s@) {
            let j = choose|j: int| 0 <= j < v@.len() && strs_view(v@)[j] == s@;
            assert(v@[j]@ == s@);
        }
    }
    false
}

/// Whether a trigger fires on the Install operation.
fn fires_on_install(t: &crate::hookfile::HookTrigger) -> (b: bool)
    ensures
        b == t@.operations.contains(HookTriggerOperation::Install),
{
    let mut i: usize = 0;
    while i < t.operations.len()
        invariant
            0 <= i <= t.operations@.len(),
            forall|j: int| 0 <= j < i ==> t.operations@[j] != HookTriggerOperation::Install,
        decreases t.operations@.len() - i,
    {
        if t.operations[i] == HookTriggerOperation::Install {
            return true;
        }
        i = i + 1;
    }
    false
}

fn match_package_trigger(targets: &Vec<String>, names: &Vec<String>) -> (r: Vec<String>)
    ensures
        strs_view(r@) == pkg_matches(strs_view(targets@), strs_view(names@)),
{
    let mut out: Vec<String> = Vec::new();
    let mut i: usize = 0;
    proof {
        assert(strs_view(targets@).subrange(0, 0) =~= Seq::<Seq<char>>::empty());
        assert(strs_view(out@) =~= pkg_matches(strs_view(targets@).subrange(0, 0), strs_view(names@)));
    }
    while i < targets.len()
        invariant
            0 <= i <= targets@.len(),
            strs_view(out@) == pkg_matches(
                strs_view(targets@).subrange(0, i as int),
                strs_view(names@),
            ),
        decreases targets@.len() - i,
    {
        proof {
            let tv = strs_view(targets@);
            assert(tv.subrange(0, i as int + 1).drop_last() =~= tv.subrange(0, i as int));
            assert(tv.subrange(0, i as int + 1).last() == tv[i as int]);
            assert(tv[i as int] == targets@[i as int]@);
        }
        if contains_str(names, targets[i].as_str()) {
            let ghost before = strs_view(out@);
            out.push(targets[i].clone());
            proof {
                assert(strs_view(out@) =~= before.push(targets@[i as int]@));
            }
        }
        i = i + 1;
    }
    proof {
        assert(strs_view(targets@).subrange(0, targets@.len() as int) =~= strs_view(targets@));
    }
    out
}

fn match_path_trigger(globs: &Vec<Vec<String>>, needs_targets: bool) -> (r: Vec<String>)
    ensures
        strs_view(r@) == path_matches(globs_view(globs@), needs_targets),
{
    let ghost gv = globs_view(globs@);
    let mut out: Vec<String> = Vec::new();
    let mut i: usize = 0;
    proof {
        assert(gv.subrange(0, gv.len() as int) =~= gv);
        assert(strs_view(out@) =~= Seq::<Seq<char>>::empty());
    }
    while i < globs.len()
        invariant
            gv == globs_view(globs@),
            0 <= i <= globs@.len(),
            path_matches(gv, needs_targets) == strs_view(out@) + path_matches(
                gv.subrange(i as int, gv.len() as int),
                needs_targets,
            ),
            needs_targets || out@.len() == 0,
        decreases globs@.len() - i,
    {
        let ghost rest = gv.subrange(i as int, gv.len() as int);
        proof {
            assert(rest[0] == gv[i as int]);
            assert(gv[i as int] == strs_view(globs@[i as int]@));
            assert(rest.subrange(1, rest.len() as int) =~= gv.subrange(
                i as int + 1,
                gv.len() as int,
            ));
        }
        let pattern_hits = &globs[i];
        if needs_targets {
            let ghost base = strs_view(out@);
            let mut j: usize = 0;
            proof {
                assert(strs_view(pattern_hits@).subrange(0, 0) =~= Seq::<Seq<char>>::empty());
                assert(base + strs_view(pattern_hits@).subrange(0, 0) =~= base);
            }
            while j < pattern_hits.len()
                invariant
                    0 <= j <= pattern_hits@.len(),
                    strs_view(out@) =~= base + strs_view(pattern_hits@).subrange(0, j as int),
                decreases pattern_hits@.len() - j,
            {
                let ghost b2 = strs_view(out@);
                out.push(pattern_hits[j].clone());
                proof {
                    assert(strs_view(out@) =~= b2.push(pattern_hits@[j as int]@));
                    assert(strs_view(pattern_hits@).subrange(0, j as int + 1) =~= strs_view(
                        pattern_hits@,
                    ).subrange(0, j as int).push(strs_view(pattern_hits@)[j as int]));
                    assert(strs_view(out@) =~= base + strs_view(pattern_hits@).subrange(
                        0,
                        j as int + 1,
                    ));
                }
                j = j + 1;
            }
            proof {
                assert(strs_view(pattern_hits@).subrange(0, pattern_hits@.len() as int)
                    =~= strs_view(pattern_hits@));
                assert(strs_view(out@) =~= base + rest[0]);
                assert((base + rest[0]) + path_matches(
                    gv.subrange(i as int + 1, gv.len() as int),
                    true,
                ) =~= base + (rest[0] + path_matches(
                    gv.subrange(i as int + 1, gv.len() as int),
                    true,
                )));
            }
        } else if pattern_hits.len() > 0 {
            let ghost before = strs_view(out@);
            out.push(pattern_hits[0].clone());
            proof {
                assert(before =~= Seq::<Seq<char>>::empty());
                assert(strs_view(out@) =~= seq![strs_view(globs@[i as int]@)[0]]);
                assert(path_matches(rest, false) == seq![rest[0][0]]);
            }
            return out;
        }
        i = i + 1;
    }
    proof {
        assert(gv.subrange(gv.len() as int, gv.len() as int) =~= Seq::<Seq<Seq<char>>>::empty());
        assert(strs_view(out@) + Seq::<Seq<char>>::empty() =~= strs_view(out@));
    }
    out
}

/// Collects the target list of one hook against an install set, with the
/// filesystem glob results for each path-flavor trigger's patterns supplied
/// per trigger and per pattern.
///
/// The result is the concatenation of each Install-firing trigger's matches
/// in trigger order: package-flavor literals that name an installed package,
/// and path-flavor glob matches (all of them when the action needs its
/// targets, the first one otherwise).  Nothing is deduplicated.
pub fn collect_hook_targets(
    hook: &Hook,
    installed_names: &Vec<String>,
    glob_results: &Vec<Vec<Vec<String>>>,
) -> (r: Vec<String>)
    requires
        glob_results@.len() == hook.triggers@.len(),
    ensures
        strs_view(r@) == collect_upto(
            hook@,
            strs_view(installed_names@),
            globs_all_view(glob_results@),
            hook.triggers@.len() as int,
        ),
{
    let ghost names = strs_view(installed_names@);
    let ghost gall = globs_all_view(glob_results@);
    let mut out: Vec<String> = Vec::new();
    let mut k: usize = 0;
    proof {
        assert(strs_view(out@) =~= Seq::<Seq<char>>::empty());
    }
    while k < hook.triggers.len()
        invariant
            names == strs_view(installed_names@),
            gall == globs_all_view(glob_results@),
            glob_results@.len() == hook.triggers@.len(),
            0 <= k <= hook.triggers@.len(),
            strs_view(out@) == collect_upto(hook@, names, gall, k as int),
        decreases hook.triggers@.len() - k,
    {
        let trigger = &hook.triggers[k];
        proof {
            assert(hook@.triggers[k as int] == trigger@);
            assert(gall[k as int] == globs_view(glob_results@[k as int]@));
        }
        let m: Vec<String>;
        if !fires_on_install(trigger) {
            m = Vec::new();
            proof {
                assert(strs_view(m@) =~= Seq::<Seq<char>>::empty());
            }
        } else if trigger.flavor == HookTriggerFlavor::Package {
            m = match_package_trigger(&trigger.targets, installed_names);
        } else if trigger.flavor == HookTriggerFlavor::Path {
            m = match_path_trigger(&glob_results[k], hook.action.needs_targets);
        } else {
            m = Vec::new();
            proof {
                assert(strs_view(m@) =~= Seq::<Seq<char>>::empty());
            }
        }
        proof {
            assert(strs_view(m@) == trigger_matches(
                hook@.triggers[k as int],
                names,
                gall[k as int],
                hook@.action.needs_targets,
            ));
        }
        let ghost before = strs_view(out@);
        let mut j: usize = 0;
        let ghost mv = strs_view(m@);
        proof {
            assert(mv.subrange(0, 0) =~= Seq::<Seq<char>>::empty());
            assert(before + mv.subrange(0, 0) =~= before);
        }
        while j < m.len()
            invariant
                0 <= j <= m@.len(),
                mv == strs_view(m@),
                strs_view(out@) =~= before + mv.subrange(0, j as int),
            decreases m@.len() - j,
        {
            let ghost b2 = strs_view(out@);
            out.push(m[j].clone());
            proof {
                assert(strs_view(out@) =~= b2.push(m@[j as int]@));
                assert(mv.subrange(0, j as int + 1) =~= mv.subrange(0, j as int).push(
                    mv[j as int],
                ));
            }
            j = j + 1;
        }
        proof {
            assert(mv.subrange(0, m@.len() as int) =~= mv);
            assert(strs_view(out@) =~= before + mv);
        }
        k = k + 1;
    }
    out
}

/// Why a triggered hook's action was refused; every case is fatal.
#[derive(Debug, Copy, Clone, PartialEq, Eq, Structural)]
pub enum HookRunError {
    /// The action's `When` is not `PostTransaction`.
    WrongWhen,
    /// The action carries dependencies, which this pipeline does not run.
    HasDepends,
    /// The action asks to abort on failure, which this pipeline does not
    /// honor.
    AbortOnFail,
}

/// The newline-joined form of a target list.
pub open spec fn join_nl(ts: Seq<Seq<char>>) -> Seq<char>
    decreases ts.len(),
{
    if ts.len() == 0 {
        Seq::empty()
    } else if ts.len() == 1 {
        ts[0]
    } else {
        join_nl(ts.drop_last()) + seq!['\n'] + ts.last()
    }
}

/// Joins targets with newlines.
pub fn join_targets(targets: &Vec<String>) -> (r: String)
    ensures
        r@ == join_nl(strs_view(targets@)),
{
    let ghost tv = strs_view(targets@);
    let mut out = String::new();
    let mut i: usize = 0;
    proof {
        assert(join_nl(tv.subrange(0, 0)) =~= Seq::<char>::empty());
        assert(out@ =~= join_nl(tv.subrange(0, 0)));
    }
    while i < targets.len()
        invariant
            tv == strs_view(targets@),
            0 <= i <= targets@.len(),
            out@ == join_nl(tv.subrange(0, i as int)),
        decreases targets@.len() - i,
    {
        proof {
            vstd::prelude::reveal_strlit("\n");
            assert("\n"@ =~= seq!['\n']);
            assert(tv.subrange(0, i as int + 1).drop_last() =~= tv.subrange(0, i as int));
            assert(tv.subrange(0, i as int + 1).last() == tv[i as int]);
            assert(tv[i as int] == targets@[i as int]@);
        }
        if i > 0 {
            out.append("\n");
        }
        out.append(targets[i].as_str());
        i = i + 1;
    }
    proof {
        assert(tv.subrange(0, targets@.len() as int) =~= tv);
    }
    out
}

/// Decides whether a hook's action runs and with what standard input.
///
/// A hook with no collected targets does not run.  One with targets runs
/// exactly when its action is a plain post-transaction action (no `depends`,
/// no abort-on-fail); the command is the action's `Exec` line, and the input
/// is the newline-joined target list when the action needs its targets and
/// empty otherwise.  Any other combination is fatal.
pub fn decide_hook_run(hook: &Hook, targets: &Vec<String>) -> (r: Result<
    Option<(String, String)>,
    HookRunError,
>)
    ensures
        match r {
            Ok(o) => match o {
                Some(run) => targets@.len() > 0 && hook@.action.when
                    == crate::hookfile::HookActionWhen::PostTransaction && hook@.action.depends.len()
                    == 0 && !hook@.action.abort_on_fail && run.0@ == hook@.action.exec_cmd
                    && run.1@ == if hook@.action.needs_targets {
                    join_nl(strs_view(targets@))
                } else {
                    Seq::<char>::empty()
                },
                None => targets@.len() == 0,
            },
            Err(HookRunError::WrongWhen) => targets@.len() > 0 && hook@.action.when
                != crate::hookfile::HookActionWhen::PostTransaction,
            Err(HookRunError::HasDepends) => targets@.len() > 0 && hook@.action.when
                == crate::hookfile::HookActionWhen::PostTransaction && hook@.action.depends.len()
                > 0,
            Err(HookRunError::AbortOnFail) => targets@.len() > 0 && hook@.action.when
                == crate::hookfile::HookActionWhen::PostTransaction && hook@.action.depends.len()
                == 0 && hook@.action.abort_on_fail,
        },
{
    if targets.len() == 0 {
        return Ok(None);
    }
    if hook.action.when != crate::hookfile::HookActionWhen::PostTransaction {
        return Err(HookRunError::WrongWhen);
    }
    if hook.action.depends.len() > 0 {
        return Err(HookRunError::HasDepends);
    }
    if hook.action.abort_on_fail {
        return Err(HookRunError::AbortOnFail);
    }
    let stdin = if hook.action.needs_targets {
        join_targets(targets)
    } else {
        String::new()
    };
    Ok(Some((hook.action.exec_cmd.clone(), stdin)))
}

/// The scriptlet command: sources the package's install file and calls its
/// `post_install` function if it defines one.
pub fn scriptlet_cmdline(provider: ParcelProvider, package: &str) -> (r: String)
    ensures
        r@ == ". /.PYXIS/"@ + crate::spec_provider_tag(provider) + "/"@ + package@
            + "/.INSTALL; declare -F post_install && post_install 0 || echo No install action"@,
{
    let mut r = ". /.PYXIS/".to_owned();
    r.append(provider.as_str());
    r.append("/");
    r.append(package);
    r.append("/.INSTALL; declare -F post_install && post_install 0 || echo No install action");
    r
}

/// The staged path of a package's scriptlet.
pub fn scriptlet_path(root: &str, provider: ParcelProvider, package: &str) -> (r: String)
    ensures
        r@ == root@ + "/.PYXIS/"@ + crate::spec_provider_tag(provider) + "/"@ + package@
            + "/.INSTALL"@,
{
    let mut r = root.to_owned();
    r.append("/.PYXIS/");
    r.append(provider.as_str());
    r.append("/");
    r.append(package);
    r.append("/.INSTALL");
    r
}

/// A mount flag of the kernel-filesystem plan.
#[derive(Debug, Copy, Clone, PartialEq, Eq, Structural)]
pub enum MountFlag {
    NoSuid,
    NoExec,
    NoDev,
    ReadOnly,
    StrictAtime,
}

/// One mount of the staging plan.
#[derive(Debug)]
pub struct MountSpec {
    pub source: String,
    pub target: String,
    pub fstype: String,
    pub flags: Vec<MountFlag>,
    pub data: Option<String>,
}

/// The staging mount: a 5 GiB tmpfs over the staging root.
pub fn staging_mount(root: &str) -> (r: MountSpec)
    ensures
        r.source@ == "tmpfs"@,
        r.target@ == root@,
        r.fstype@ == "tmpfs"@,
        r.flags@ =~= Seq::<MountFlag>::empty(),
        (r.data matches Some(d) && d@ == "size=5G"@),
{
    MountSpec {
        source: "tmpfs".to_owned(),
        target: root.to_owned(),
        fstype: "tmpfs".to_owned(),
        flags: Vec::new(),
        data: Some("size=5G".to_owned()),
    }
}

fn one_mount(source: &str, root: &str, sub: &str, fstype: &str, flags: Vec<MountFlag>, data: Option<
    String,
>) -> (r: MountSpec)
    ensures
        r.source@ == source@,
        r.target@ == root@ + sub@,
        r.fstype@ == fstype@,
        r.flags == flags,
        r.data == data,
{
    let mut target = root.to_owned();
    target.append(sub);
    MountSpec {
        source: source.to_owned(),
        target,
        fstype: fstype.to_owned(),
        flags,
        data,
    }
}

/// The kernel filesystems bind-mounted into the staged root, in mount order:
/// proc, sys, dev, devpts, shm and tmp, each with the flags and data the
/// pipeline fixes for it.
pub fn kernel_mount_plan(root: &str) -> (r: Vec<MountSpec>)
    ensures
        r@.len() == 6,
        r@[0].source@ == "proc"@ && r@[0].target@ == root@ + "/proc"@ && r@[0].fstype@ == "proc"@
            && r@[0].flags@ =~= seq![MountFlag::NoSuid, MountFlag::NoExec, MountFlag::NoDev]
            && r@[0].data is None,
        r@[1].source@ == "sys"@ && r@[1].target@ == root@ + "/sys"@ && r@[1].fstype@ == "sysfs"@
            && r@[1].flags@ =~= seq![
            MountFlag::NoSuid,
            MountFlag::NoExec,
            MountFlag::NoDev,
            MountFlag::ReadOnly,
        ] && r@[1].data is None,
        r@[2].source@ == "udev"@ && r@[2].target@ == root@ + "/dev"@ && r@[2].fstype@
            == "devtmpfs"@ && r@[2].flags@ =~= seq![MountFlag::NoSuid] && (r@[2].data matches Some(d)
            && d@ == "mode=0755"@),
        r@[3].source@ == "devpts"@ && r@[3].target@ == root@ + "/dev/pts"@ && r@[3].fstype@
            == "devpts"@ && r@[3].flags@ =~= seq![MountFlag::NoSuid, MountFlag::NoExec]
            && (r@[3].data matches Some(d) && d@ == "mode=0620,gid=5"@),
        r@[4].source@ == "shm"@ && r@[4].target@ == root@ + "/dev/shm"@ && r@[4].fstype@
            == "tmpfs"@ && r@[4].flags@ =~= seq![MountFlag::NoSuid, MountFlag::NoDev]
            && (r@[4].data matches Some(d) && d@ == "mode=1777"@),
        r@[5].source@ == "tmp"@ && r@[5].target@ == root@ + "/tmp"@ && r@[5].fstype@ == "tmpfs"@
            && r@[5].flags@ =~= seq![MountFlag::NoSuid, MountFlag::NoDev, MountFlag::StrictAtime]
            && (r@[5].data matches Some(d) && d@ == "mode=1777"@),
{
    let mut out: Vec<MountSpec> = Vec::new();
    let mut f0: Vec<MountFlag> = Vec::new();
    f0.push(MountFlag::NoSuid);
    f0.push(MountFlag::NoExec);
    f0.push(MountFlag::NoDev);
    out.push(one_mount("proc", root, "/proc", "proc", f0, None));
    let mut f1: Vec<MountFlag> = Vec::new();
    f1.push(MountFlag::NoSuid);
    f1.push(MountFlag::NoExec);
    f1.push(MountFlag::NoDev);
    f1.push(MountFlag::ReadOnly);
    out.push(one_mount("sys", root, "/sys", "sysfs", f1, None));
    let mut f2: Vec<MountFlag> = Vec::new();
    f2.push(MountFlag::NoSuid);
    out.push(one_mount("udev", root, "/dev", "devtmpfs", f2, Some("mode=0755".to_owned())));
    let mut f3: Vec<MountFlag> = Vec::new();
    f3.push(MountFlag::NoSuid);
    f3.push(MountFlag::NoExec);
    out.push(one_mount("devpts", root, "/dev/pts", "devpts", f3, Some("mode=0620,gid=5".to_owned())));
    let mut f4: Vec<MountFlag> = Vec::new();
    f4.push(MountFlag::NoSuid);
    f4.push(MountFlag::NoDev);
    out.push(one_mount("shm", root, "/dev/shm", "tmpfs", f4, Some("mode=1777".to_owned())));
    let mut f5: Vec<MountFlag> = Vec::new();
    f5.push(MountFlag::NoSuid);
    f5.push(MountFlag::NoDev);
    f5.push(MountFlag::StrictAtime);
    out.push(one_mount("tmp", root, "/tmp", "tmpfs", f5, Some("mode=1777".to_owned())));
    out
}

/// The unmount order: the mounted targets in strict reverse order of
/// acquisition, so releases unwind the mount stack.
pub fn unmount_targets(mounts: &Vec<MountSpec>) -> (r: Vec<String>)
    ensures
        r@.len() == mounts@.len(),
        forall|i: int|
            0 <= i < r@.len() ==> (#[trigger] r@[i])@ == mounts@[mounts@.len() - 1 - i].target@,
{
    let mut out: Vec<String> = Vec::new();
    let mut i: usize = mounts.len();
    while i > 0
        invariant
            0 <= i <= mounts@.len(),
            out@.len() == mounts@.len() - i,
            forall|j: int|
                0 <= j < out@.len() ==> (#[trigger] out@[j])@ == mounts@[mounts@.len() - 1
                    - j].target@,
        decreases i,
    {
        i = i - 1;
        out.push(mounts[i].target.clone());
    }
    out
}

} // verus!
