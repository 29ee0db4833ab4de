use pyxis_manage::hookfile::{
    parse_hook, HookActionWhen, HookError, HookTriggerFlavor, HookTriggerOperation,
};
use pyxis_manage::image::{collect_hook_targets, decide_hook_run, HookRunError};
use pyxis_manage::manifest::parse_manifest;
use pyxis_manage::ParcelProvider;
use pyxis_manage::hookfile::{Hook, HookAction, HookTrigger};

fn lines(ls: &[&str]) -> Vec<String> {
    ls.iter().map(|l| l.to_string()).collect()
}

#[test]
fn parses_depmod_hook() {
    let hook = parse_hook(&lines(&[
        "[Trigger]",
        "Type = Path",
        "Operation = Install",
        "Target = usr/lib/modules/*",
        "",
        "[Action]",
        "When = PostTransaction",
        "Exec = /usr/bin/depmod",
        "NeedsTargets",
    ]))
    .unwrap();
    assert_eq!(hook.triggers.len(), 1);
    assert_eq!(hook.triggers[0].flavor, HookTriggerFlavor::Path);
    assert_eq!(hook.triggers[0].operations, vec![HookTriggerOperation::Install]);
    assert_eq!(hook.triggers[0].targets, vec!["usr/lib/modules/*".to_string()]);
    assert_eq!(hook.action.when, HookActionWhen::PostTransaction);
    assert_eq!(hook.action.exec_cmd, "/usr/bin/depmod");
    assert!(hook.action.needs_targets);
    assert!(hook.action.depends.is_empty());
    assert!(!hook.action.abort_on_fail);
}

#[test]
fn depmod_hook_runs_with_matched_module_dir() {
    // path-flavor trigger against an install set containing linux, whose
    // parcel materialized usr/lib/modules/6.1
    let hook = parse_hook(&lines(&[
        "[Trigger]",
        "Type = Path",
        "Operation = Install",
        "Target = usr/lib/modules/*",
        "[Action]",
        "When = PostTransaction",
        "Exec = /usr/bin/depmod",
        "NeedsTargets",
    ]))
    .unwrap();
    let installed = lines(&["linux"]);
    let globs = vec![vec![lines(&["usr/lib/modules/6.1"])]];
    let targets = collect_hook_targets(&hook, &installed, &globs);
    assert_eq!(targets, lines(&["usr/lib/modules/6.1"]));
    let run = decide_hook_run(&hook, &targets).unwrap().unwrap();
    assert_eq!(run.0, "/usr/bin/depmod");
    assert_eq!(run.1, "usr/lib/modules/6.1");
}

#[test]
fn hook_without_matching_triggers_does_not_run() {
    let hook = parse_hook(&lines(&[
        "[Trigger]",
        "Type = Package",
        "Operation = Install",
        "Target = systemd",
        "[Action]",
        "When = PostTransaction",
        "Exec = /usr/bin/systemd-hwdb update",
    ]))
    .unwrap();
    let installed = lines(&["bash", "glibc"]);
    let globs = vec![vec![]];
    let targets = collect_hook_targets(&hook, &installed, &globs);
    assert!(targets.is_empty());
    assert!(decide_hook_run(&hook, &targets).unwrap().is_none());
}

#[test]
fn path_trigger_without_needs_targets_records_one_match() {
    let hook = parse_hook(&lines(&[
        "[Trigger]",
        "Type = Path",
        "Operation = Install",
        "Target = usr/share/fonts/*",
        "Target = usr/share/icons/*",
        "[Action]",
        "When = PostTransaction",
        "Exec = /usr/bin/update-caches",
    ]))
    .unwrap();
    assert!(!hook.action.needs_targets);
    let installed = lines(&[]);
    let globs = vec![vec![
        lines(&["usr/share/fonts/a.ttf", "usr/share/fonts/b.ttf"]),
        lines(&["usr/share/icons/i.png"]),
    ]];
    let targets = collect_hook_targets(&hook, &installed, &globs);
    assert_eq!(targets, lines(&["usr/share/fonts/a.ttf"]));
}

#[test]
fn target_matched_by_two_triggers_appears_twice() {
    let hook = parse_hook(&lines(&[
        "[Trigger]",
        "Type = Package",
        "Operation = Install",
        "Target = bash",
        "[Trigger]",
        "Type = Package",
        "Operation = Install",
        "Target = bash",
        "[Action]",
        "When = PostTransaction",
        "Exec = /usr/bin/true",
        "NeedsTargets",
    ]))
    .unwrap();
    assert_eq!(hook.triggers.len(), 2);
    let installed = lines(&["bash"]);
    let globs = vec![vec![], vec![]];
    let targets = collect_hook_targets(&hook, &installed, &globs);
    assert_eq!(targets, lines(&["bash", "bash"]));
    let run = decide_hook_run(&hook, &targets).unwrap().unwrap();
    assert_eq!(run.1, "bash\nbash");
}

#[test]
fn non_install_operations_do_not_fire() {
    let hook = parse_hook(&lines(&[
        "[Trigger]",
        "Type = Package",
        "Operation = Remove",
        "Target = bash",
        "[Action]",
        "When = PostTransaction",
        "Exec = /usr/bin/true",
    ]))
    .unwrap();
    let targets = collect_hook_targets(&hook, &lines(&["bash"]), &vec![vec![]]);
    assert!(targets.is_empty());
}

#[test]
fn pre_transaction_hook_with_targets_is_refused() {
    let hook = parse_hook(&lines(&[
        "[Trigger]",
        "Type = Package",
        "Operation = Install",
        "Target = bash",
        "[Action]",
        "When = PreTransaction",
        "Exec = /usr/bin/true",
    ]))
    .unwrap();
    let targets = collect_hook_targets(&hook, &lines(&["bash"]), &vec![vec![]]);
    assert_eq!(targets.len(), 1);
    assert!(matches!(decide_hook_run(&hook, &targets), Err(HookRunError::WrongWhen)));
}

#[test]
fn unknown_keys_and_values_are_fatal() {
    assert!(matches!(
        parse_hook(&lines(&["[Trigger]", "Kind = Path"])),
        Err(HookError::UnknownKey)
    ));
    assert!(matches!(
        parse_hook(&lines(&["[Trigger]", "Type = Glob"])),
        Err(HookError::UnknownValue)
    ));
    assert!(matches!(parse_hook(&lines(&["Type = Path"])), Err(HookError::OutsideSection)));
    assert!(matches!(
        parse_hook(&lines(&["[Action]", "When = PostTransaction", "Exec = /bin/true"])),
        Err(HookError::NoTriggers)
    ));
    assert!(matches!(
        parse_hook(&lines(&["[Trigger]", "Type = Path", "Operation = Install", "[Action]", "Exec = /bin/true"])),
        Err(HookError::NoAction)
    ));
}

#[test]
fn manifest_comments_and_blanks_are_skipped() {
    // manifest `# comment\nupstream|vim\n`
    let refs = parse_manifest(&lines(&["# comment", "upstream|vim", ""])).unwrap();
    assert_eq!(refs.len(), 1);
    assert_eq!(refs[0].provider, ParcelProvider::Upstream);
    assert_eq!(refs[0].name, "vim");
}

#[test]
fn manifest_bad_line_is_fatal() {
    assert!(parse_manifest(&lines(&["upstream|vim", "nonsense"])).is_err());
}

#[test]
fn malformed_and_duplicate_lines_are_fatal() {
    assert!(matches!(
        parse_hook(&lines(&["[Trigger]", "Type = Path = Extra"])),
        Err(HookError::MalformedLine)
    ));
    assert!(matches!(
        parse_hook(&lines(&[
            "[Action]",
            "When = PostTransaction",
            "Exec = /bin/true",
            "[Action]",
            "When = PostTransaction",
            "Exec = /bin/false",
            "[Trigger]",
            "Type = Package",
            "Operation = Install",
            "Target = bash",
        ])),
        Err(HookError::DuplicateAction)
    ));
}

#[test]
fn actions_with_depends_or_abort_are_refused() {
    let hook = Hook {
        triggers: vec![HookTrigger {
            operations: vec![HookTriggerOperation::Install],
            flavor: HookTriggerFlavor::Package,
            targets: vec!["bash".to_string()],
        }],
        action: HookAction {
            description: None,
            when: HookActionWhen::PostTransaction,
            exec_cmd: "/bin/true".to_string(),
            depends: vec!["awk".to_string()],
            abort_on_fail: false,
            needs_targets: false,
        },
    };
    let targets = lines(&["bash"]);
    assert!(matches!(decide_hook_run(&hook, &targets), Err(HookRunError::HasDepends)));
    let hook2 = Hook {
        triggers: hook.triggers,
        action: HookAction {
            description: None,
            when: HookActionWhen::PostTransaction,
            exec_cmd: "/bin/true".to_string(),
            depends: vec![],
            abort_on_fail: true,
            needs_targets: false,
        },
    };
    assert!(matches!(decide_hook_run(&hook2, &targets), Err(HookRunError::AbortOnFail)));
}
