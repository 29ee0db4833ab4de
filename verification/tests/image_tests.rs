use pyxis_manage::chroot::{bash_argv, chroot_io_step, ChrootIo};
use pyxis_manage::image::{kernel_mount_plan, scriptlet_cmdline, scriptlet_path, staging_mount, unmount_targets, MountFlag};
use pyxis_manage::{get_parcel_path, get_recipe_path, ref_text, ParcelProvider, ParcelRef};

#[test]
fn parcel_and_recipe_paths() {
    assert_eq!(
        get_parcel_path("/home/u", ParcelProvider::Upstream, "bash"),
        "/home/u/.pyxis/parcel/upstream/bash.parcel"
    );
    assert_eq!(
        get_parcel_path("/home/u", ParcelProvider::Local, "foo"),
        "/home/u/.pyxis/parcel/local/foo.parcel"
    );
    assert_eq!(get_recipe_path("/home/u", "foo"), "/home/u/.pyxis/recipe/foo");
}

#[test]
fn scriptlet_command_and_path() {
    assert_eq!(
        scriptlet_cmdline(ParcelProvider::Upstream, "bash"),
        ". /.PYXIS/upstream/bash/.INSTALL; declare -F post_install && post_install 0 || echo No install action"
    );
    assert_eq!(
        scriptlet_path("temp", ParcelProvider::Local, "foo"),
        "temp/.PYXIS/local/foo/.INSTALL"
    );
}

#[test]
fn mount_plan_matches_pipeline() {
    let staging = staging_mount("temp");
    assert_eq!(staging.source, "tmpfs");
    assert_eq!(staging.target, "temp");
    assert_eq!(staging.fstype, "tmpfs");
    assert_eq!(staging.data.as_deref(), Some("size=5G"));

    let plan = kernel_mount_plan("temp");
    assert_eq!(plan.len(), 6);
    let targets: Vec<&str> = plan.iter().map(|m| m.target.as_str()).collect();
    assert_eq!(
        targets,
        vec!["temp/proc", "temp/sys", "temp/dev", "temp/dev/pts", "temp/dev/shm", "temp/tmp"]
    );
    assert_eq!(plan[0].fstype, "proc");
    assert_eq!(plan[0].flags, vec![MountFlag::NoSuid, MountFlag::NoExec, MountFlag::NoDev]);
    assert_eq!(
        plan[1].flags,
        vec![MountFlag::NoSuid, MountFlag::NoExec, MountFlag::NoDev, MountFlag::ReadOnly]
    );
    assert_eq!(plan[2].fstype, "devtmpfs");
    assert_eq!(plan[2].data.as_deref(), Some("mode=0755"));
    assert_eq!(plan[3].data.as_deref(), Some("mode=0620,gid=5"));
    assert_eq!(plan[4].data.as_deref(), Some("mode=1777"));
    assert_eq!(
        plan[5].flags,
        vec![MountFlag::NoSuid, MountFlag::NoDev, MountFlag::StrictAtime]
    );
}

#[test]
fn unmounts_unwind_in_reverse_order() {
    let plan = kernel_mount_plan("temp");
    let unmounts = unmount_targets(&plan);
    assert_eq!(
        unmounts,
        vec!["temp/tmp", "temp/dev/shm", "temp/dev/pts", "temp/dev", "temp/sys", "temp/proc"]
    );
}

#[test]
fn chroot_io_prioritizes_child_output() {
    let input = b"hi".to_vec();
    assert_eq!(chroot_io_step(true, true, &input, 0), ChrootIo::CopyChildByte);
    assert_eq!(chroot_io_step(true, false, &input, 2), ChrootIo::CopyChildByte);
}

#[test]
fn chroot_io_feeds_input_one_byte_at_a_time() {
    let input = b"hi".to_vec();
    assert_eq!(chroot_io_step(false, true, &input, 0), ChrootIo::SendByte(b'h'));
    assert_eq!(chroot_io_step(false, true, &input, 1), ChrootIo::SendByte(b'i'));
    assert_eq!(chroot_io_step(false, true, &input, 2), ChrootIo::CloseStdin);
    assert_eq!(chroot_io_step(false, false, &input, 0), ChrootIo::Fail);
}

#[test]
fn chroot_executes_the_shell_with_tracing() {
    // `printf HELLO` with empty stdin: the child execs the shell over it
    let argv = bash_argv("printf HELLO");
    assert_eq!(argv, vec!["/bin/bash", "-x", "-c", "printf HELLO"]);
    let empty = Vec::new();
    assert_eq!(chroot_io_step(false, true, &empty, 0), ChrootIo::CloseStdin);
}

#[test]
fn ref_text_round_trip() {
    let r = ParcelRef { provider: ParcelProvider::Upstream, name: "bash".to_string() };
    assert_eq!(ref_text(&r), "upstream|bash");
    let back = pyxis_manage::get_provider(&ref_text(&r)).unwrap();
    assert_eq!(back.provider, ParcelProvider::Upstream);
    assert_eq!(back.name, "bash");
}
