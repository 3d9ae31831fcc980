use checked_wipe::mounts::{is_mounted, mount_outcome, unmount_outcome, CommandError, MountStatus};

#[test]
fn mounted_partition_is_found() {
    let table = b"/dev/sdb1 /mnt ext4 rw 0 0\n";
    assert!(is_mounted(b"/dev/sdb1", table));
    assert!(!is_mounted(b"/dev/sdb2", table));
}

#[test]
fn only_line_starts_count() {
    let table = b"proc /proc proc rw 0 0\ntmpfs /dev/sdb1 tmpfs rw 0 0\n/dev/sda2 / ext4 rw 0 0";
    assert!(!is_mounted(b"/dev/sdb1", table));
    assert!(is_mounted(b"/dev/sda2", table));
    assert!(is_mounted(b"/dev/sda", table));
    assert!(is_mounted(b"proc", table));
}

#[test]
fn empty_table_mounts_nothing() {
    assert!(!is_mounted(b"/dev/sda1", b""));
    assert!(!is_mounted(b"", b""));
}

#[test]
fn identifier_with_newline_never_matches() {
    assert!(!is_mounted(b"/dev/sda1\n/dev", b"/dev/sda1\n/dev/sdb1 /mnt ext4 rw 0 0\n"));
}

#[test]
fn mount_exit_codes() {
    assert_eq!(mount_outcome(Some(0)), Ok(MountStatus::Mounted));
    assert_eq!(mount_outcome(Some(32)), Ok(MountStatus::UnknownFilesystem));
    assert_eq!(mount_outcome(Some(1)), Err(CommandError::ExitCode(1)));
    assert_eq!(mount_outcome(None), Err(CommandError::Signalled));
}

#[test]
fn unmount_exit_codes() {
    assert_eq!(unmount_outcome(Some(0)), Ok(()));
    assert_eq!(unmount_outcome(Some(32)), Err(CommandError::ExitCode(32)));
    assert_eq!(unmount_outcome(None), Err(CommandError::Signalled));
}
