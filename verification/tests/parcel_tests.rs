use pyxis_manage::extract::{extract_parcel, FsAction};
use pyxis_manage::local::{get_deps, get_version, parcel_from_recipe, Recipe};
use pyxis_manage::parcel::{InodeAttrs, InodeKind, Parcel};
use pyxis_manage::upstream::{parcel_from_tar, upstream_parcel_from_archive, UpstreamError};
use pyxis_manage::archive::{ArchiveError, TarEntry};
use pyxis_manage::ParcelProvider;
use pyxis_manage::extract::ExtractError;
use pyxis_manage::local::LocalBuildError;
use pyxis_manage::parcel::ParcelError;
use pyxis_manage::upstream::BuildError;

fn attrs() -> InodeAttrs {
    InodeAttrs { atime: 7, ctime: 7, mtime: 7, uid: 0, gid: 0, nlink: 1, perm: 0o644, rdev: 0 }
}

fn entry(path: &str, typeflag: u8, perm: u32, link: &str, body: &[u8]) -> TarEntry {
    TarEntry {
        path: path.to_string(),
        typeflag,
        mtime: 99,
        uid: 3,
        gid: 4,
        perm,
        link: link.to_string(),
        body: body.to_vec(),
    }
}

#[test]
fn tree_insert_select_read() {
    let mut p = Parcel::new();
    let d = p.add_directory(attrs());
    p.insert_dirent(1, "etc", d).unwrap();
    let f = p.add_file(b"root:x:0:0".to_vec(), attrs());
    p.insert_dirent(d, "passwd", f).unwrap();
    assert_eq!(p.select("/etc/passwd"), Some(f));
    assert_eq!(p.select("etc/passwd"), Some(f));
    assert_eq!(p.select("/etc/shadow"), None);
    assert_eq!(p.read_file(f).unwrap(), b"root:x:0:0".to_vec());
    let listing = p.readdir(d).unwrap();
    assert_eq!(listing.len(), 1);
    assert_eq!(listing[0].0, f);
    assert_eq!(listing[0].1, InodeKind::RegularFile);
    assert_eq!(listing[0].2, "passwd");
}

#[test]
fn inserting_same_name_replaces_entry() {
    let mut p = Parcel::new();
    let f1 = p.add_file(b"one".to_vec(), attrs());
    let f2 = p.add_file(b"two".to_vec(), attrs());
    p.insert_dirent(1, "x", f1).unwrap();
    p.insert_dirent(1, "x", f2).unwrap();
    let listing = p.readdir(1).unwrap();
    assert_eq!(listing.len(), 1);
    assert_eq!(listing[0].0, f2);
}

#[test]
fn translator_preserves_file_bytes_and_metadata_files() {
    // a pacman-like archive: metadata at the root, contents below etc/
    let entries = vec![
        entry(".PKGINFO", b'0', 0o644, "", b"pkgname = demo"),
        entry(".MTREE", b'0', 0o644, "", b"#mtree"),
        entry("etc/", b'5', 0o755, "", b""),
        entry("etc/passwd", b'0', 0o644, "", b"root:x:0:0"),
        entry("etc/shells", b'0', 0o644, "", b"/bin/bash"),
        entry("etc/alias", b'2', 0o777, "passwd", b""),
        entry("etc/hardlink", b'1', 0o644, "etc/passwd", b""),
    ];
    let p = parcel_from_tar(
        ParcelProvider::Upstream,
        "demo",
        &entries,
        vec!["upstream|glibc".to_string()],
        "1.0".to_string(),
        11,
    )
    .unwrap();
    assert_eq!(p.version, "1.0");
    assert_eq!(p.depends, vec!["upstream|glibc".to_string()]);
    // the reserved subtree holds exactly the metadata files that appeared
    let reserved = p.select("/.PYXIS/upstream/demo").unwrap();
    let mut names: Vec<String> = p.readdir(reserved).unwrap().into_iter().map(|e| e.2).collect();
    names.sort();
    assert_eq!(names, vec![".MTREE".to_string(), ".PKGINFO".to_string()]);
    // file bytes are preserved, reachable under their paths
    let passwd = p.select("/etc/passwd").unwrap();
    assert_eq!(p.read_file(passwd).unwrap(), b"root:x:0:0".to_vec());
    let pkginfo = p.select("/.PYXIS/upstream/demo/.PKGINFO").unwrap();
    assert_eq!(p.read_file(pkginfo).unwrap(), b"pkgname = demo".to_vec());
    // the hardlink resolves to the same inode; the symlink keeps its target
    assert_eq!(p.select("/etc/hardlink"), Some(passwd));
    let alias = p.select("/etc/alias").unwrap();
    assert_eq!(p.readlink(alias).unwrap(), "passwd");
    // attributes come from the ustar header
    let a = p.getattr(passwd).unwrap();
    assert_eq!((a.uid, a.gid, a.perm, a.mtime), (3, 4, 0o644, 99));
}

#[test]
fn translator_rejects_unsupported_typeflags_and_orphans() {
    let bad = vec![entry("dev/null", b'3', 0o644, "", b"")];
    assert!(parcel_from_tar(ParcelProvider::Upstream, "x", &bad, vec![], String::new(), 0)
        .is_err());
    let orphan = vec![entry("no/such/parent", b'0', 0o644, "", b"y")];
    assert!(parcel_from_tar(ParcelProvider::Upstream, "x", &orphan, vec![], String::new(), 0)
        .is_err());
}

#[test]
fn upstream_build_from_zst_archive() {
    // a real ustar stream through the tar and zstd wrappers
    let mut builder = tar::Builder::new(Vec::new());
    let mut h = tar::Header::new_ustar();
    h.set_entry_type(tar::EntryType::Directory);
    h.set_path("usr/").unwrap();
    h.set_mode(0o755);
    h.set_uid(0);
    h.set_gid(0);
    h.set_size(0);
    h.set_mtime(5);
    h.set_cksum();
    builder.append(&h, std::io::empty()).unwrap();
    let mut h = tar::Header::new_ustar();
    h.set_entry_type(tar::EntryType::Regular);
    h.set_path("usr/greeting").unwrap();
    h.set_mode(0o600);
    h.set_uid(0);
    h.set_gid(0);
    h.set_size(5);
    h.set_mtime(6);
    h.set_cksum();
    builder.append(&h, &b"HELLO"[..]).unwrap();
    let tar_bytes = builder.into_inner().unwrap();
    let compressed = zstd::stream::encode_all(&tar_bytes[..], 3).unwrap();

    let p = upstream_parcel_from_archive(
        "demo",
        &compressed,
        "zst",
        vec![],
        "2.0".to_string(),
        0,
    )
    .unwrap();
    let f = p.select("/usr/greeting").unwrap();
    assert_eq!(p.read_file(f).unwrap(), b"HELLO".to_vec());
    assert_eq!(p.getattr(f).unwrap().perm, 0o600);
}

#[test]
fn upstream_build_from_xz_archive() {
    let mut builder = tar::Builder::new(Vec::new());
    let mut h = tar::Header::new_ustar();
    h.set_entry_type(tar::EntryType::Regular);
    h.set_path("hello.txt").unwrap();
    h.set_mode(0o644);
    h.set_uid(0);
    h.set_gid(0);
    h.set_size(2);
    h.set_mtime(0);
    h.set_cksum();
    builder.append(&h, &b"hi"[..]).unwrap();
    let tar_bytes = builder.into_inner().unwrap();
    let mut enc = xz::write::XzEncoder::new(Vec::new(), 6);
    std::io::Write::write_all(&mut enc, &tar_bytes).unwrap();
    let compressed = enc.finish().unwrap();

    let p = upstream_parcel_from_archive("demo", &compressed, "xz", vec![], String::new(), 0)
        .unwrap();
    let f = p.select("/hello.txt").unwrap();
    assert_eq!(p.read_file(f).unwrap(), b"hi".to_vec());
}

#[test]
fn unknown_archive_suffix_is_fatal() {
    let r = upstream_parcel_from_archive("demo", &vec![1, 2, 3], "gz", vec![], String::new(), 0);
    assert!(matches!(r, Err(UpstreamError::Archive(ArchiveError::UnknownSuffix))));
}

#[test]
fn corrupt_archive_is_fatal() {
    let r = upstream_parcel_from_archive("demo", &vec![1, 2, 3], "zst", vec![], String::new(), 0);
    assert!(matches!(r, Err(UpstreamError::Archive(ArchiveError::Corrupt))));
}

#[test]
fn local_build_places_files_and_install_script() {
    let recipe = Recipe {
        version: "0.1".to_string(),
        depends: vec!["local|bar".to_string()],
        actions: Some("install.sh".to_string()),
        files: vec![("motd".to_string(), "/etc/motd".to_string())],
    };
    assert_eq!(get_version(&recipe), "0.1");
    assert_eq!(get_deps(&recipe), vec!["local|bar".to_string()]);
    let p = parcel_from_recipe(
        "foo",
        &recipe,
        &vec![b"welcome".to_vec()],
        Some(b"post_install() { true; }".to_vec()),
        42,
    )
    .unwrap();
    assert_eq!(p.version, "0.1");
    let motd = p.select("/etc/motd").unwrap();
    assert_eq!(p.read_file(motd).unwrap(), b"welcome".to_vec());
    let script = p.select("/.PYXIS/local/foo/.INSTALL").unwrap();
    assert_eq!(p.read_file(script).unwrap(), b"post_install() { true; }".to_vec());
}

#[test]
fn local_build_without_action_leaves_reserved_dir_empty() {
    let recipe = Recipe {
        version: String::new(),
        depends: vec![],
        actions: None,
        files: vec![],
    };
    let p = parcel_from_recipe("foo", &recipe, &vec![], None, 0).unwrap();
    let reserved = p.select("/.PYXIS/local/foo").unwrap();
    assert!(p.readdir(reserved).unwrap().is_empty());
}

#[test]
fn extraction_plan_sets_file_modes_after_contents() {
    // parcel with /etc/, /etc/passwd (0644) and /etc/shadow (0000): both
    // files are written before their modes are applied, so shadow is
    // writable during extraction and 0000 on completion
    let entries = vec![
        entry("etc/", b'5', 0o755, "", b""),
        entry("etc/passwd", b'0', 0o644, "", b"root:x:0:0"),
        entry("etc/shadow", b'0', 0o000, "", b"root:!:"),
    ];
    let p = parcel_from_tar(ParcelProvider::Upstream, "demo", &entries, vec![], String::new(), 0)
        .unwrap();
    let plan = extract_parcel(&p, 1, "temp", 64).unwrap();
    let mut shadow_write = None;
    let mut shadow_chmod = None;
    for (i, a) in plan.iter().enumerate() {
        match a {
            FsAction::WriteFile(path, bytes) if path == "temp/etc/shadow" => {
                assert_eq!(bytes, &b"root:!:".to_vec());
                shadow_write = Some(i);
            }
            FsAction::Chmod(path, mode) if path == "temp/etc/shadow" => {
                assert_eq!(*mode, 0o000);
                shadow_chmod = Some(i);
            }
            _ => {}
        }
    }
    assert!(shadow_write.unwrap() < shadow_chmod.unwrap());
    // a directory's mode is applied before its entries are materialized
    let etc_chmod = plan
        .iter()
        .position(|a| matches!(a, FsAction::Chmod(p2, 0o755) if p2 == "temp/etc"))
        .unwrap();
    assert!(etc_chmod < shadow_write.unwrap());
    // passwd keeps its listed mode
    assert!(plan
        .iter()
        .any(|a| matches!(a, FsAction::Chmod(p2, 0o644) if p2 == "temp/etc/passwd")));
}

#[test]
fn extraction_is_order_stable() {
    let entries = vec![
        entry("b/", b'5', 0o755, "", b""),
        entry("a/", b'5', 0o755, "", b""),
        entry("b/one", b'0', 0o644, "", b"1"),
        entry("a/two", b'0', 0o644, "", b"2"),
    ];
    let p = parcel_from_tar(ParcelProvider::Upstream, "demo", &entries, vec![], String::new(), 0)
        .unwrap();
    let plan1 = extract_parcel(&p, 1, "root1", 64).unwrap();
    let plan2 = extract_parcel(&p, 1, "root1", 64).unwrap();
    let shown1: Vec<String> = plan1.iter().map(|a| format!("{:?}", a)).collect();
    let shown2: Vec<String> = plan2.iter().map(|a| format!("{:?}", a)).collect();
    assert_eq!(shown1, shown2);
}

#[test]
fn extraction_refuses_whiteouts_and_bottomless_depth() {
    let mut p = Parcel::new();
    let f = p.add_file(b"x".to_vec(), attrs());
    p.insert_dirent(1, "f", f).unwrap();
    assert!(extract_parcel(&p, 1, "temp", 0).is_err());
    assert!(extract_parcel(&p, 99, "temp", 8).is_err());
}

#[test]
fn translator_refuses_reserved_and_nameless_entries() {
    let reserved = vec![entry(".PYXIS/x", b'5', 0o755, "", b"")];
    assert!(matches!(
        parcel_from_tar(ParcelProvider::Upstream, "x", &reserved, vec![], String::new(), 0),
        Err(BuildError::ReservedName)
    ));
    let nameless = vec![entry("/", b'5', 0o755, "", b"")];
    assert!(matches!(
        parcel_from_tar(ParcelProvider::Upstream, "x", &nameless, vec![], String::new(), 0),
        Err(BuildError::EmptyEntryName)
    ));
    let dangling = vec![entry("link", b'1', 0o644, "no/such/file", b"")];
    assert!(matches!(
        parcel_from_tar(ParcelProvider::Upstream, "x", &dangling, vec![], String::new(), 0),
        Err(BuildError::BadHardlink)
    ));
}

#[test]
fn local_build_refuses_reserved_destinations_and_file_parents() {
    let reserved = Recipe {
        version: String::new(),
        depends: vec![],
        actions: None,
        files: vec![("a".to_string(), "/.PYXIS/evil".to_string())],
    };
    assert!(matches!(
        parcel_from_recipe("foo", &reserved, &vec![b"x".to_vec()], None, 0),
        Err(LocalBuildError::ReservedDestination)
    ));
    let through_file = Recipe {
        version: String::new(),
        depends: vec![],
        actions: None,
        files: vec![
            ("a".to_string(), "/etc/motd".to_string()),
            ("b".to_string(), "/etc/motd/deeper".to_string()),
        ],
    };
    assert!(matches!(
        parcel_from_recipe("foo", &through_file, &vec![b"x".to_vec(), b"y".to_vec()], None, 0),
        Err(LocalBuildError::NotADirectory)
    ));
}

#[test]
fn tree_insert_errors_are_reported() {
    let mut p = Parcel::new();
    let f = p.add_file(b"x".to_vec(), attrs());
    assert!(matches!(p.insert_dirent(9, "a", f), Err(ParcelError::Enoent)));
    assert!(matches!(p.insert_dirent(1, "a", 9), Err(ParcelError::Enoent)));
    assert!(matches!(p.insert_dirent(f, "a", 1), Err(ParcelError::NotDirectory)));
}

#[test]
fn extraction_error_kinds() {
    let mut p = Parcel::new();
    let f = p.add_file(b"x".to_vec(), attrs());
    p.insert_dirent(1, "f", f).unwrap();
    assert!(matches!(extract_parcel(&p, 1, "temp", 0), Err(ExtractError::TooDeep)));
    assert!(matches!(extract_parcel(&p, 99, "temp", 8), Err(ExtractError::Unsupported)));
}

#[test]
fn satisfier_names_deduplicate_in_order() {
    let names = vec![
        "glibc".to_string(),
        "bash".to_string(),
        "glibc".to_string(),
        "zlib".to_string(),
        "bash".to_string(),
    ];
    assert_eq!(
        pyxis_manage::upstream::dedup_names(&names),
        vec!["glibc".to_string(), "bash".to_string(), "zlib".to_string()]
    );
}

#[test]
fn local_build_flat_files_land_at_their_names() {
    let recipe = Recipe {
        version: String::new(),
        depends: vec![],
        actions: None,
        files: vec![
            ("a".to_string(), "/motd".to_string()),
            ("b".to_string(), "/issue".to_string()),
        ],
    };
    let p = parcel_from_recipe(
        "flat",
        &recipe,
        &vec![b"hello".to_vec(), b"login".to_vec()],
        None,
        1,
    )
    .unwrap();
    let motd = p.select("/motd").unwrap();
    assert_eq!(p.read_file(motd).unwrap(), b"hello".to_vec());
    let issue = p.select("/issue").unwrap();
    assert_eq!(p.read_file(issue).unwrap(), b"login".to_vec());
}
