//! Mount-state questions: membership in the live mount table, and what the
//! exit status of a mount or unmount command means.
use vstd::prelude::*;
use crate::text::range_starts_with;

verus! {

/// Whether a line of the mount table begins at index `i`.
pub open spec fn line_starts_at(table: Seq<u8>, i: int) -> bool {
    0 <= i < table.len() && (i == 0 || table[i - 1] == 10u8)
}

/// Whether the bytes at `i` spell `id` without crossing the end of the line.
pub open spec fn spells_at(table: Seq<u8>, i: int, id: Seq<u8>) -> bool {
    &&& i + id.len() <= table.len()
    &&& table.subrange(i, i + id.len()) == id
    &&& forall|j: int| i <= j < i + id.len() ==> table[j] != 10u8
}

/// Whether some line of the mount table begins with `id`.
pub open spec fn mounted_in(id: Seq<u8>, table: Seq<u8>) -> bool {
    exists|i: int| line_starts_at(table, i) && spells_at(table, i, id)
}

/// Answers whether `id` is mounted according to the mount table `table`
/// (the contents of `/proc/mounts`): true when some line begins with `id`.
pub fn is_mounted(id: &[u8], table: &[u8]) -> (r: bool)
    ensures
        r == mounted_in(id@, table@),
{
    let mut k: usize = 0;
    while k < id.len()
        invariant
            0 <= k <= id@.len(),
            forall|j: int| 0 <= j < k ==> id@[j] != 10u8,
        decreases id@.len() - k,
    {
        if id[k] == 10u8 {
            proof {
                assert forall|i: int| !(line_starts_at(table@, i) && spells_at(table@, i, id@)) by {
                    if line_starts_at(table@, i) && spells_at(table@, i, id@) {
                        assert(table@.subrange(i, i + id@.len())[k as int] == id@[k as int]);
                    }
                }
            }
            return false;
        }
        k = k + 1;
    }
    let mut i: usize = 0;
    while i < table.len()
        invariant
            0 <= i <= table@.len(),
            forall|j: int| 0 <= j < id@.len() ==> id@[j] != 10u8,
            forall|p: int| 0 <= p < i ==> !(line_starts_at(table@, p) && spells_at(table@, p, id@)),
        decreases table@.len() - i,
    {
        if i == 0 || table[i - 1] == 10u8 {
            if range_starts_with(table, i, table.len(), id) {
                proof {
                    assert forall|j: int| i <= j < i + id@.len() implies table@[j] != 10u8 by {
                        assert(table@.subrange(i as int, i + id@.len())[j - i] == id@[j - i]);
                    }
                    assert(line_starts_at(table@, i as int) && spells_at(table@, i as int, id@));
                }
                return true;
            }
        }
        i = i + 1;
    }
    false
}

/// What a finished mount attempt means for the caller.
#[derive(PartialEq, Eq, Structural, Clone, Copy, Debug)]
pub enum MountStatus {
    /// The partition is mounted at the inspection point.
    Mounted,
    /// The command did not recognise the filesystem; nothing was mounted.
    UnknownFilesystem,
}

/// A mount or unmount command that did not succeed.
#[derive(PartialEq, Eq, Structural, Clone, Copy, Debug)]
pub enum CommandError {
    /// It exited with this non-zero code.
    ExitCode(i32),
    /// It was terminated by a signal.
    Signalled,
}

/// The exit code with which `mount` reports a filesystem it does not know.
pub const UNKNOWN_FS_EXIT: i32 = 32;

/// Reads the exit status of a mount command (`None` when a signal ended it):
/// code 0 mounted, code 32 an unrecognised filesystem, anything else a failure.
pub fn mount_outcome(code: Option<i32>) -> (r: Result<MountStatus, CommandError>)
    ensures
        code == Some(0i32) ==> r == Ok::<MountStatus, CommandError>(MountStatus::Mounted),
        code == Some(UNKNOWN_FS_EXIT) ==> r == Ok::<MountStatus, CommandError>(
            MountStatus::UnknownFilesystem,
        ),
        code is None ==> r == Err::<MountStatus, CommandError>(CommandError::Signalled),
        forall|c: i32|
            c != 0 && c != UNKNOWN_FS_EXIT && code == Some(c) ==> r == Err::<
                MountStatus,
                CommandError,
            >(CommandError::ExitCode(c)),
{
    match code {
        Some(0) => Ok(MountStatus::Mounted),
        Some(c) => {
            if c == UNKNOWN_FS_EXIT {
                Ok(MountStatus::UnknownFilesystem)
            } else {
                Err(CommandError::ExitCode(c))
            }
        },
        None => Err(CommandError::Signalled),
    }
}

/// Reads the exit status of an unmount command: only code 0 is success.
pub fn unmount_outcome(code: Option<i32>) -> (r: Result<(), CommandError>)
    ensures
        code == Some(0i32) ==> r is Ok,
        code is None ==> r == Err::<(), CommandError>(CommandError::Signalled),
        forall|c: i32| c != 0 && code == Some(c) ==> r == Err::<(), CommandError>(
            CommandError::ExitCode(c),
        ),
{
    match code {
        Some(0) => Ok(()),
        Some(c) => Err(CommandError::ExitCode(c)),
        None => Err(CommandError::Signalled),
    }
}

} // verus!
