use pyxis_manage::resolver::{resolve, DepUniverse, Resolver};
use pyxis_manage::{get_provider, ManifestError, ParcelProvider, ParcelRef};

fn r(provider: ParcelProvider, name: &str) -> ParcelRef {
    ParcelRef { provider, name: name.to_string() }
}

fn universe(entries: Vec<(ParcelRef, Vec<ParcelRef>)>) -> DepUniverse {
    let u = DepUniverse { entries };
    assert!(u.check_wf());
    u
}

#[test]
fn upstream_chain_orders_dependency_first() {
    // manifest `upstream|bash` with bash depending on glibc
    let u = universe(vec![
        (r(ParcelProvider::Upstream, "bash"), vec![r(ParcelProvider::Upstream, "glibc")]),
        (r(ParcelProvider::Upstream, "glibc"), vec![]),
    ]);
    let manifest = vec![r(ParcelProvider::Upstream, "bash")];
    assert!(u.holds_all(&manifest));
    let (inst, _) = resolve(&manifest, &u);
    assert_eq!(inst.len(), 2);
    assert_eq!(inst[0].provider, ParcelProvider::Upstream);
    assert_eq!(inst[0].name, "glibc");
    assert_eq!(inst[1].provider, ParcelProvider::Upstream);
    assert_eq!(inst[1].name, "bash");
}

#[test]
fn local_two_cycle_terminates_with_both_members() {
    // foo depends on bar, bar depends on foo
    let u = universe(vec![
        (r(ParcelProvider::Local, "foo"), vec![r(ParcelProvider::Local, "bar")]),
        (r(ParcelProvider::Local, "bar"), vec![r(ParcelProvider::Local, "foo")]),
    ]);
    let manifest = vec![r(ParcelProvider::Local, "foo")];
    assert!(u.holds_all(&manifest));
    let (inst, _) = resolve(&manifest, &u);
    let names: Vec<&str> = inst.iter().map(|p| p.name.as_str()).collect();
    assert!(names.contains(&"foo"));
    assert!(names.contains(&"bar"));
    assert_eq!(inst.len(), 2);
}

#[test]
fn longer_cycle_has_all_participants() {
    let u = universe(vec![
        (r(ParcelProvider::Upstream, "a"), vec![r(ParcelProvider::Upstream, "b")]),
        (r(ParcelProvider::Upstream, "b"), vec![r(ParcelProvider::Upstream, "c")]),
        (r(ParcelProvider::Upstream, "c"), vec![r(ParcelProvider::Upstream, "a")]),
    ]);
    let manifest = vec![r(ParcelProvider::Upstream, "a")];
    let (inst, _) = resolve(&manifest, &u);
    assert_eq!(inst.len(), 3);
    let names: Vec<&str> = inst.iter().map(|p| p.name.as_str()).collect();
    assert!(names.contains(&"a") && names.contains(&"b") && names.contains(&"c"));
}

#[test]
fn empty_manifest_empty_install_set() {
    let u = universe(vec![(r(ParcelProvider::Upstream, "bash"), vec![])]);
    let manifest: Vec<ParcelRef> = Vec::new();
    let (inst, _) = resolve(&manifest, &u);
    assert!(inst.is_empty());
}

#[test]
fn shared_dependency_listed_once() {
    let u = universe(vec![
        (r(ParcelProvider::Upstream, "a"), vec![r(ParcelProvider::Upstream, "c")]),
        (r(ParcelProvider::Upstream, "b"), vec![r(ParcelProvider::Upstream, "c")]),
        (r(ParcelProvider::Upstream, "c"), vec![]),
    ]);
    let manifest = vec![r(ParcelProvider::Upstream, "a"), r(ParcelProvider::Upstream, "b")];
    let (inst, _) = resolve(&manifest, &u);
    let names: Vec<&str> = inst.iter().map(|p| p.name.as_str()).collect();
    assert_eq!(names, vec!["c", "a", "b"]);
}

#[test]
fn step_skips_installed_ref() {
    let mut res = Resolver::new();
    res.push_root(r(ParcelProvider::Upstream, "x"));
    let deps: Vec<ParcelRef> = Vec::new();
    assert_eq!(res.current().unwrap().name, "x");
    res.step(&deps);
    assert!(res.current().is_none());
    assert_eq!(res.to_install.len(), 1);
    assert_eq!(res.to_install[0].name, "x");
}

#[test]
fn check_wf_rejects_duplicate_keys() {
    let u = DepUniverse {
        entries: vec![
            (r(ParcelProvider::Upstream, "a"), vec![]),
            (r(ParcelProvider::Upstream, "a"), vec![]),
        ],
    };
    assert!(!u.check_wf());
}

#[test]
fn check_wf_rejects_missing_dependency_entry() {
    let u = DepUniverse {
        entries: vec![(r(ParcelProvider::Upstream, "a"), vec![r(ParcelProvider::Upstream, "b")])],
    };
    assert!(!u.check_wf());
}

#[test]
fn get_provider_parses_both_tags() {
    let p = get_provider("upstream|bash").unwrap();
    assert_eq!(p.provider, ParcelProvider::Upstream);
    assert_eq!(p.name, "bash");
    let q = get_provider("local|foo").unwrap();
    assert_eq!(q.provider, ParcelProvider::Local);
    assert_eq!(q.name, "foo");
}

#[test]
fn get_provider_rejects_bad_texts() {
    assert!(matches!(get_provider("bash"), Err(ManifestError::MissingProvider)));
    assert!(matches!(get_provider("arch|bash"), Err(ManifestError::UnknownProvider)));
    assert!(matches!(get_provider("upstream|"), Err(ManifestError::MalformedRef)));
    assert!(matches!(get_provider("a|b|c"), Err(ManifestError::MalformedRef)));
}
