//! The hook-file parser: an INI-like format with repeatable `[Trigger]`
//! sections and one `[Action]` section.
//!
//! The parser is a two-phase scanner: non-blank, non-section lines belong to
//! the current section; entering a new section flushes an in-progress
//! trigger (one whose flavor was set) and an in-progress action (one whose
//! `When` was set) into the result.  Unknown keys or values are fatal, as is
//! a second action, a hook without triggers, or a hook whose action never
//! set `When`.

use vstd::prelude::*;
use vstd::string::StrSliceExecFns;

use crate::text::{
    count_char, count_char_exec, find_char, find_char_exec, spec_trim, trim,
};

verus! {

/// When a trigger fires.
#[derive(Debug, Copy, Clone, PartialEq, Eq, Structural)]
pub enum HookTriggerOperation {
    Install,
    Upgrade,
    Remove,
}

/// What a trigger's targets denote; `Unset` marks a trigger still being
/// parsed.
#[derive(Debug, Copy, Clone, PartialEq, Eq, Structural)]
pub enum HookTriggerFlavor {
    Path,
    Package,
    Unset,
}

/// When the action runs; `Unset` marks an action still being parsed.
#[derive(Debug, Copy, Clone, PartialEq, Eq, Structural)]
pub enum HookActionWhen {
    PreTransaction,
    PostTransaction,
    Unset,
}

/// One trigger block.
#[derive(Debug)]
pub struct HookTrigger {
    pub operations: Vec<HookTriggerOperation>,
    pub flavor: HookTriggerFlavor,
    pub targets: Vec<String>,
}

/// The action block.
#[derive(Debug)]
pub struct HookAction {
    pub description: Option<String>,
    pub when: HookActionWhen,
    pub exec_cmd: String,
    pub depends: Vec<String>,
    pub abort_on_fail: bool,
    pub needs_targets: bool,
}

/// One parsed hook file.
#[derive(Debug)]
pub struct Hook {
    pub triggers: Vec<HookTrigger>,
    pub action: HookAction,
}

/// The mathematical value of a [`HookTrigger`].
pub ghost struct TriggerV {
    pub operations: Seq<HookTriggerOperation>,
    pub flavor: HookTriggerFlavor,
    pub targets: Seq<Seq<char>>,
}

/// The mathematical value of a [`HookAction`].
pub ghost struct ActionV {
    pub description: Option<Seq<char>>,
    pub when: HookActionWhen,
    pub exec_cmd: Seq<char>,
    pub depends: Seq<Seq<char>>,
    pub abort_on_fail: bool,
    pub needs_targets: bool,
}

/// The mathematical value of a [`Hook`].
pub ghost struct HookV {
    pub triggers: Seq<TriggerV>,
    pub action: ActionV,
}

impl View for HookTrigger {
    type V = TriggerV;

    open spec fn view(&self) -> TriggerV {
        TriggerV {
            operations: self.operations@,
            flavor: self.flavor,
            targets: self.targets@.map_values(|t: String| t@),
        }
    }
}

impl View for HookAction {
    type V = ActionV;

    open spec fn view(&self) -> ActionV {
        ActionV {
            description: match self.description {
                Some(d) => Some(d@),
                None => None,
            },
            when: self.when,
            exec_cmd: self.exec_cmd@,
            depends: self.depends@.map_values(|t: String| t@),
            abort_on_fail: self.abort_on_fail,
            needs_targets: self.needs_targets,
        }
    }
}

impl View for Hook {
    type V = HookV;

    open spec fn view(&self) -> HookV {
        HookV { triggers: self.triggers@.map_values(|t: HookTrigger| t@), action: self.action@ }
    }
}

/// The value of a trigger before any of its lines were seen.
pub open spec fn trigger_init() -> TriggerV {
    TriggerV { operations: Seq::empty(), flavor: HookTriggerFlavor::Unset, targets: Seq::empty() }
}

/// The value of an action before any of its lines were seen.
pub open spec fn action_init() -> ActionV {
    ActionV {
        description: None,
        when: HookActionWhen::Unset,
        exec_cmd: Seq::empty(),
        depends: Seq::empty(),
        abort_on_fail: false,
        needs_targets: false,
    }
}

impl HookTrigger {
    /// A trigger with nothing set yet.
    pub fn new() -> (r: HookTrigger)
        ensures
            r@ == trigger_init(),
    {
        let r = HookTrigger {
            operations: Vec::new(),
            flavor: HookTriggerFlavor::Unset,
            targets: Vec::new(),
        };
        proof {
            assert(r@.operations =~= trigger_init().operations);
            assert(r@.targets =~= trigger_init().targets);
        }
        r
    }
}

impl HookAction {
    /// An action with nothing set yet.
    pub fn new() -> (r: HookAction)
        ensures
            r@ == action_init(),
    {
        let r = HookAction {
            description: None,
            when: HookActionWhen::Unset,
            exec_cmd: String::new(),
            depends: Vec::new(),
            abort_on_fail: false,
            needs_targets: false,
        };
        proof {
            assert(r@.exec_cmd =~= action_init().exec_cmd);
            assert(r@.depends =~= action_init().depends);
        }
        r
    }
}

impl Hook {
    /// A hook with no triggers and an unset action.
    pub fn new() -> (r: Hook)
        ensures
            r@.triggers =~= Seq::<TriggerV>::empty(),
            r@.action == action_init(),
    {
        Hook { triggers: Vec::new(), action: HookAction::new() }
    }
}

/// Why a hook file was rejected; every case is fatal.
#[derive(Debug, Copy, Clone, PartialEq, Eq, Structural)]
pub enum HookError {
    /// A key line stands before any section header.
    OutsideSection,
    /// A key this format does not know.
    UnknownKey,
    /// A value this format does not know for a known key.
    UnknownValue,
    /// A line with more than one `=`.
    MalformedLine,
    /// A second action section was flushed.
    DuplicateAction,
    /// No trigger was completed.
    NoTriggers,
    /// The action never set `When`.
    NoAction,
}

/// What one (trimmed) line of a hook file is.
pub ghost enum LineV {
    Empty,
    TriggerHeader,
    ActionHeader,
    KeyValue(Seq<char>, Seq<char>),
    Bare(Seq<char>),
    Bad,
}

/// Classifies one raw line.
pub open spec fn classify(l: Seq<char>) -> LineV {
    let t = spec_trim(l);
    if t.len() == 0 {
        LineV::Empty
    } else if t == "[Trigger]"@ {
        LineV::TriggerHeader
    } else if t == "[Action]"@ {
        LineV::ActionHeader
    } else if count_char(t, '=') == 0 {
        LineV::Bare(t)
    } else if count_char(t, '=') == 1 {
        let f = find_char(t, '=');
        LineV::KeyValue(spec_trim(t.subrange(0, f)), spec_trim(t.subrange(f + 1, t.len() as int)))
    } else {
        LineV::Bad
    }
}

/// The parser state: current section (0 none, 1 trigger, 2 action), the
/// trigger and action being assembled, and the result assembled so far.
pub ghost struct ParseSt {
    pub section: int,
    pub ct: TriggerV,
    pub ca: ActionV,
    pub triggers: Seq<TriggerV>,
    pub action: ActionV,
}

/// The state before any line was seen.
pub open spec fn parse_init() -> ParseSt {
    ParseSt {
        section: 0,
        ct: trigger_init(),
        ca: action_init(),
        triggers: Seq::empty(),
        action: action_init(),
    }
}

/// Flushes an in-progress trigger and action into the result, as entering a
/// section header (or the end of the file) does.  A second completed action
/// is fatal.
pub open spec fn spec_flush(st: ParseSt) -> Result<ParseSt, HookError> {
    let st1 = if st.ct.flavor != HookTriggerFlavor::Unset {
        ParseSt { ct: trigger_init(), triggers: st.triggers.push(st.ct), ..st }
    } else {
        st
    };
    if st1.ca.when != HookActionWhen::Unset {
        if st1.action.when != HookActionWhen::Unset {
            Err(HookError::DuplicateAction)
        } else {
            Ok(ParseSt { ca: action_init(), action: st1.ca, ..st1 })
        }
    } else {
        Ok(st1)
    }
}

/// One step of the scanner on a classified line.
pub open spec fn spec_step(st: ParseSt, lv: LineV) -> Result<ParseSt, HookError> {
    match lv {
        LineV::Empty => Ok(st),
        LineV::TriggerHeader => match spec_flush(st) {
            Ok(st1) => Ok(ParseSt { section: 1, ..st1 }),
            Err(e) => Err(e),
        },
        LineV::ActionHeader => match spec_flush(st) {
            Ok(st1) => Ok(ParseSt { section: 2, ..st1 }),
            Err(e) => Err(e),
        },
        LineV::Bad => Err(HookError::MalformedLine),
        LineV::Bare(k) => {
            if st.section == 0 {
                Err(HookError::OutsideSection)
            } else if st.section == 1 {
                Err(HookError::UnknownKey)
            } else if k == "NeedsTargets"@ {
                Ok(ParseSt { ca: ActionV { needs_targets: true, ..st.ca }, ..st })
            } else {
                Err(HookError::UnknownKey)
            }
        },
        LineV::KeyValue(k, v) => {
            if st.section == 0 {
                Err(HookError::OutsideSection)
            } else if st.section == 1 {
                if k == "Type"@ {
                    if v == "Path"@ {
                        Ok(
                            ParseSt {
                                ct: TriggerV { flavor: HookTriggerFlavor::Path, ..st.ct },
                                ..st
                            },
                        )
                    } else if v == "Package"@ {
                        Ok(
                            ParseSt {
                                ct: TriggerV { flavor: HookTriggerFlavor::Package, ..st.ct },
                                ..st
                            },
                        )
                    } else {
                        Err(HookError::UnknownValue)
                    }
                } else if k == "Operation"@ {
                    if v == "Install"@ {
                        Ok(
                            ParseSt {
                                ct: TriggerV {
                                    operations: st.ct.operations.push(
                                        HookTriggerOperation::Install,
                                    ),
                                    ..st.ct
                                },
                                ..st
                            },
                        )
                    } else if v == "Upgrade"@ {
                        Ok(
                            ParseSt {
                                ct: TriggerV {
                                    operations: st.ct.operations.push(
                                        HookTriggerOperation::Upgrade,
                                    ),
                                    ..st.ct
                                },
                                ..st
                            },
                        )
                    } else if v == "Remove"@ {
                        Ok(
                            ParseSt {
                                ct: TriggerV {
                                    operations: st.ct.operations.push(HookTriggerOperation::Remove),
                                    ..st.ct
                                },
                                ..st
                            },
                        )
                    } else {
                        Err(HookError::UnknownValue)
                    }
                } else if k == "Target"@ {
                    Ok(ParseSt { ct: TriggerV { targets: st.ct.targets.push(v), ..st.ct }, ..st })
                } else {
                    Err(HookError::UnknownKey)
                }
            } else {
                if k == "Description"@ {
                    Ok(ParseSt { ca: ActionV { description: Some(v), ..st.ca }, ..st })
                } else if k == "When"@ {
                    if v == "PreTransaction"@ {
                        Ok(
                            ParseSt {
                                ca: ActionV { when: HookActionWhen::PreTransaction, ..st.ca },
                                ..st
                            },
                        )
                    } else if v == "PostTransaction"@ {
                        Ok(
                            ParseSt {
                                ca: ActionV { when: HookActionWhen::PostTransaction, ..st.ca },
                                ..st
                            },
                        )
                    } else {
                        Err(HookError::UnknownValue)
                    }
                } else if k == "Exec"@ {
                    Ok(ParseSt { ca: ActionV { exec_cmd: v, ..st.ca }, ..st })
                } else {
                    Err(HookError::UnknownKey)
                }
            }
        },
    }
}

/// Runs the scanner over all lines.
pub open spec fn run_lines(lines: Seq<Seq<char>>) -> Result<ParseSt, HookError>
    decreases lines.len(),
{
    if lines.len() == 0 {
        Ok(parse_init())
    } else {
        match run_lines(lines.drop_last()) {
            Ok(st) => spec_step(st, classify(lines.last())),
            Err(e) => Err(e),
        }
    }
}

/// What a hook file denotes: the scanner's result after a final flush, which
/// must leave at least one trigger and a completed action.
pub open spec fn spec_parse_hook(lines: Seq<Seq<char>>) -> Result<HookV, HookError> {
    match run_lines(lines) {
        Ok(st) => match spec_flush(st) {
            Ok(st2) => {
                if st2.triggers.len() == 0 {
                    Err(HookError::NoTriggers)
                } else if st2.action.when == HookActionWhen::Unset {
                    Err(HookError::NoAction)
                } else {
                    Ok(HookV { triggers: st2.triggers, action: st2.action })
                }
            },
            Err(e) => Err(e),
        },
        Err(e) => Err(e),
    }
}

proof fn lemma_run_lines_snoc(lines: Seq<Seq<char>>, i: int)
    requires
        0 <= i < lines.len(),
    ensures
        run_lines(lines.subrange(0, i + 1)) == match run_lines(lines.subrange(0, i)) {
            Ok(st) => spec_step(st, classify(lines[i])),
            Err(e) => Err(e),
        },
{
    assert(lines.subrange(0, i + 1).drop_last() =~= lines.subrange(0, i));
    assert(lines.subrange(0, i + 1).last() == lines[i]);
}

proof fn lemma_run_lines_err(lines: Seq<Seq<char>>, i: int, e: HookError)
    requires
        0 <= i <= lines.len(),
        run_lines(lines.subrange(0, i)) == Err::<ParseSt, HookError>(e),
    ensures
        run_lines(lines) == Err::<ParseSt, HookError>(e),
    decreases lines.len() - i,
{
    if i == lines.len() {
        assert(lines.subrange(0, i) =~= lines);
    } else {
        lemma_run_lines_snoc(lines, i);
        lemma_run_lines_err(lines, i + 1, e);
    }
}

/// Classifies one line, with the raw key and value for the key/value case.
fn classify_exec(l: &str) -> (r: (u8, String, String))
    ensures
        ({
            let c = classify(l@);
            match c {
                LineV::Empty => r.0 == 0,
                LineV::TriggerHeader => r.0 == 1,
                LineV::ActionHeader => r.0 == 2,
                LineV::KeyValue(k, v) => r.0 == 3 && r.1@ == k && r.2@ == v,
                LineV::Bare(k) => r.0 == 4 && r.1@ == k,
                LineV::Bad => r.0 == 5,
            }
        }),
{
    let t = trim(l);
    if t.unicode_len() == 0 {
        return (0, String::new(), String::new());
    }
    if crate::text::str_eq(t, "[Trigger]") {
        return (1, String::new(), String::new());
    }
    if crate::text::str_eq(t, "[Action]") {
        return (2, String::new(), String::new());
    }
    let eqs = count_char_exec(t, '=');
    if eqs == 0 {
        return (4, t.to_owned(), String::new());
    }
    if eqs > 1 {
        return (5, String::new(), String::new());
    }
    let f = match find_char_exec(t, '=') {
        Some(f) => f,
        None => {
            proof {
                crate::text::lemma_find_char(t@, '=');
                crate::text::lemma_count_char_zero(t@, '=');
            }
            return (5, String::new(), String::new());
        },
    };
    let len = t.unicode_len();
    let k = trim(t.substring_char(0, f)).to_owned();
    let v = trim(t.substring_char(f + 1, len)).to_owned();
    (3, k, v)
}

/// Parses the lines of one hook file.
///
/// Returns exactly what `spec_parse_hook` assigns to them: the completed
/// triggers in file order and the single completed action, or the first
/// fatal condition hit.
pub fn parse_hook(lines: &Vec<String>) -> (r: Result<Hook, HookError>)
    ensures
        ({
            let sp = spec_parse_hook(crate::manifest::lines_view(lines@));
            match r {
                Ok(h) => sp == Ok::<HookV, HookError>(h@),
                Err(e) => sp == Err::<HookV, HookError>(e),
            }
        }),
{
    let ghost lv = crate::manifest::lines_view(lines@);
    let mut res = Hook::new();
    let mut section: u8 = 0;
    let mut ct = HookTrigger::new();
    let mut ca = HookAction::new();
    proof {
        assert(lv.subrange(0, 0) =~= Seq::<Seq<char>>::empty());
        assert(st_of(section, &ct, &ca, &res) == parse_init());
    }
    let mut i: usize = 0;
    while i < lines.len()
        invariant
            lv == crate::manifest::lines_view(lines@),
            0 <= i <= lines@.len(),
            run_lines(lv.subrange(0, i as int)) == Ok::<ParseSt, HookError>(
                st_of(section, &ct, &ca, &res),
            ),
        decreases lines@.len() - i,
    {
        proof {
            lemma_run_lines_snoc(lv, i as int);
            assert(lv[i as int] == lines@[i as int]@);
        }
        let (cls, k, v) = classify_exec(lines[i].as_str());
        if cls == 0 {
            // blank line
        } else if cls == 1 || cls == 2 {
            match flush_exec(&mut res, &mut ct, &mut ca) {
                Ok(_) => {},
                Err(e) => {
                    proof {
                        lemma_run_lines_err(lv, i as int + 1, e);
                    }
                    return Err(e);
                },
            }
            section = if cls == 1 {
                1
            } else {
                2
            };
        } else if cls == 5 {
            proof {
                lemma_run_lines_err(lv, i as int + 1, HookError::MalformedLine);
            }
            return Err(HookError::MalformedLine);
        } else if cls == 4 {
            let e = if section == 0 {
                HookError::OutsideSection
            } else if section == 1 {
                HookError::UnknownKey
            } else if crate::text::str_eq(k.as_str(), "NeedsTargets") {
                ca.needs_targets = true;
                proof {
                    lemma_run_lines_snoc(lv, i as int);
                }
                i = i + 1;
                continue ;
            } else {
                HookError::UnknownKey
            };
            proof {
                lemma_run_lines_err(lv, i as int + 1, e);
            }
            return Err(e);
        } else {
            // key = value
            let e: HookError;
            if section == 0 {
                e = HookError::OutsideSection;
            } else if section == 1 {
                if crate::text::str_eq(k.as_str(), "Type") {
                    if crate::text::str_eq(v.as_str(), "Path") {
                        ct.flavor = HookTriggerFlavor::Path;
                        i = i + 1;
                        continue ;
                    } else if crate::text::str_eq(v.as_str(), "Package") {
                        ct.flavor = HookTriggerFlavor::Package;
                        i = i + 1;
                        continue ;
                    } else {
                        e = HookError::UnknownValue;
                    }
                } else if crate::text::str_eq(k.as_str(), "Operation") {
                    if crate::text::str_eq(v.as_str(), "Install") {
                        ct.operations.push(HookTriggerOperation::Install);
                        i = i + 1;
                        continue ;
                    } else if crate::text::str_eq(v.as_str(), "Upgrade") {
                        ct.operations.push(HookTriggerOperation::Upgrade);
                        i = i + 1;
                        continue ;
                    } else if crate::text::str_eq(v.as_str(), "Remove") {
                        ct.operations.push(HookTriggerOperation::Remove);
                        i = i + 1;
                        continue ;
                    } else {
                        e = HookError::UnknownValue;
                    }
                } else if crate::text::str_eq(k.as_str(), "Target") {
                    let ghost gv = v@;
                    let ghost before = ct@;
                    ct.targets.push(v);
                    proof {
                        assert(ct@.targets =~= before.targets.push(gv));
                    }
                    i = i + 1;
                    continue ;
                } else {
                    e = HookError::UnknownKey;
                }
            } else {
                if crate::text::str_eq(k.as_str(), "Description") {
                    ca.description = Some(v);
                    i = i + 1;
                    continue ;
                } else if crate::text::str_eq(k.as_str(), "When") {
                    if crate::text::str_eq(v.as_str(), "PreTransaction") {
                        ca.when = HookActionWhen::PreTransaction;
                        i = i + 1;
                        continue ;
                    } else if crate::text::str_eq(v.as_str(), "PostTransaction") {
                        ca.when = HookActionWhen::PostTransaction;
                        i = i + 1;
                        continue ;
                    } else {
                        e = HookError::UnknownValue;
                    }
                } else if crate::text::str_eq(k.as_str(), "Exec") {
                    ca.exec_cmd = v;
                    i = i + 1;
                    continue ;
                } else {
                    e = HookError::UnknownKey;
                }
            }
            proof {
                lemma_run_lines_err(lv, i as int + 1, e);
            }
            return Err(e);
        }
        i = i + 1;
    }
    proof {
        assert(lv.subrange(0, lines@.len() as int) =~= lv);
    }
    match flush_exec(&mut res, &mut ct, &mut ca) {
        Ok(_) => {},
        Err(e) => {
            return Err(e);
        },
    }
    if res.triggers.len() == 0 {
        return Err(HookError::NoTriggers);
    }
    if res.action.when == HookActionWhen::Unset {
        return Err(HookError::NoAction);
    }
    Ok(res)
}

/// The state value carried by the parser's executable variables.
pub open spec fn st_of(section: u8, ct: &HookTrigger, ca: &HookAction, res: &Hook) -> ParseSt {
    ParseSt {
        section: section as int,
        ct: ct@,
        ca: ca@,
        triggers: res@.triggers,
        action: res@.action,
    }
}

/// Flushes the in-progress trigger and action into the result, as
/// `spec_flush` describes.
fn flush_exec(res: &mut Hook, ct: &mut HookTrigger, ca: &mut HookAction) -> (r: Result<
    (),
    HookError,
>)
    ensures
        ({
            let st0 = ParseSt {
                section: 0,
                ct: old(ct)@,
                ca: old(ca)@,
                triggers: old(res)@.triggers,
                action: old(res)@.action,
            };
            match r {
                Ok(_) => spec_flush(st0) == Ok::<ParseSt, HookError>(
                    ParseSt {
                        section: 0,
                        ct: final(ct)@,
                        ca: final(ca)@,
                        triggers: final(res)@.triggers,
                        action: final(res)@.action,
                    },
                ),
                Err(e) => spec_flush(st0) == Err::<ParseSt, HookError>(e),
            }
        }),
{
    if ct.flavor != HookTriggerFlavor::Unset {
        let mut done = HookTrigger::new();
        core::mem::swap(ct, &mut done);
        let ghost gd = done@;
        let ghost before = res@.triggers;
        res.triggers.push(done);
        proof {
            assert(res@.triggers =~= before.push(gd));
        }
    }
    if ca.when != HookActionWhen::Unset {
        if res.action.when != HookActionWhen::Unset {
            return Err(HookError::DuplicateAction);
        }
        let mut done = HookAction::new();
        core::mem::swap(ca, &mut done);
        res.action = done;
    }
    Ok(())
}

} // verus!
