//! The decision logic of the lock-file based atomic commit protocol.
//!
//! The filesystem work itself — exclusive creation, rename, removal — cannot
//! live in verified code, so the protocol is split: this module holds the
//! pure decisions (how the lock path is derived, what each observed outcome
//! means, how a filesystem step transforms the world) with their proofs,
//! and an unverified shell performs the actions it is told to.
use crate::Error;
use vstd::prelude::*;
use vstd::string::StringExecFns;
use vstd::string::StrSliceExecFns;

verus! {

/// The acquisition policy: give up on a held lock at once, or keep retrying
/// with backoff for at most the given number of milliseconds.
#[derive(Clone, Copy, Debug, PartialEq, Eq, Structural)]
pub enum Fail {
    Immediately,
    AfterDurationWithBackoff(u64),
}

/// The lock path: the resource path with a literal `.lock` appended to its
/// final segment, never replacing an existing extension.
pub fn lock_path_of(resource: &str) -> (r: String)
    ensures
        r@ == resource@ + ".lock"@,
{
    let mut r = resource.to_string();
    r.append(".lock");
    r
}

/// What one exclusive-create attempt observed.
#[derive(Clone, Copy, Debug, PartialEq, Eq, Structural)]
pub enum CreateOutcome {
    Created,
    AlreadyExists,
    ParentMissing,
    OtherFailure,
}

/// What the shell must do next.
#[derive(Clone, Copy, Debug, PartialEq, Eq, Structural)]
pub enum Action {
    Hold,
    RetryAfter(u64),
    CreateParentAndRetry,
    FailContention,
    FailIoNotFound,
    FailIo,
}

/// Decides the next step after one exclusive-create attempt: contention is
/// retried only under a backoff policy with time left, a missing parent is
/// created only when a creation root was supplied and only once, and every
/// other failure surfaces as it is.
pub fn on_create_outcome(
    outcome: CreateOutcome,
    policy: Fail,
    elapsed_ms: u64,
    delay_ms: u64,
    has_root: bool,
    parent_created: bool,
) -> (a: Action)
    ensures
        outcome == CreateOutcome::Created ==> a == Action::Hold,
        outcome == CreateOutcome::AlreadyExists ==> (match policy {
            Fail::Immediately => a == Action::FailContention,
            Fail::AfterDurationWithBackoff(total) => (elapsed_ms < total ==> a
                == Action::RetryAfter(spec_next_delay(delay_ms))) && (elapsed_ms >= total ==> a
                == Action::FailContention),
        }),
        outcome == CreateOutcome::ParentMissing ==> ((has_root && !parent_created) ==> a
            == Action::CreateParentAndRetry) && (!(has_root && !parent_created) ==> a
            == Action::FailIoNotFound),
        outcome == CreateOutcome::OtherFailure ==> a == Action::FailIo,
{
    match outcome {
        CreateOutcome::Created => Action::Hold,
        CreateOutcome::AlreadyExists => match policy {
            Fail::Immediately => Action::FailContention,
            Fail::AfterDurationWithBackoff(total) => {
                if elapsed_ms < total {
                    Action::RetryAfter(next_delay(delay_ms))
                } else {
                    Action::FailContention
                }
            },
        },
        CreateOutcome::ParentMissing => {
            if has_root && !parent_created {
                Action::CreateParentAndRetry
            } else {
                Action::FailIoNotFound
            }
        },
        CreateOutcome::OtherFailure => Action::FailIo,
    }
}

/// The next backoff delay: doubled, starting at 1 ms, capped at one second.
pub fn next_delay(delay_ms: u64) -> (r: u64)
    ensures
        r == spec_next_delay(delay_ms),
        r >= 1,
{
    if delay_ms == 0 {
        1
    } else if delay_ms >= 500 {
        1000
    } else {
        2 * delay_ms
    }
}

/// What `next_delay` returns.
pub open spec fn spec_next_delay(delay_ms: u64) -> u64 {
    if delay_ms == 0 {
        1u64
    } else if delay_ms >= 500 {
        1000u64
    } else {
        (2 * delay_ms) as u64
    }
}

/// The world as the protocol sees it: which paths name files with which
/// bytes, and which name directories.
pub ghost struct FsModel {
    pub files: Map<Seq<char>, Seq<u8>>,
    pub dirs: Set<Seq<char>>,
}

/// What one acquisition attempt leaves behind and reports.
pub ghost struct AcquireResult {
    pub fs: FsModel,
    pub outcome: Option<Error>,
}

/// The lock path of a resource path, at the model level.
pub open spec fn spec_lock_path(resource: Seq<char>) -> Seq<char> {
    resource + ".lock"@
}

/// One acquisition attempt under the immediate-fail policy: exclusive
/// creation of the lock file, with at most one parent directory created when
/// a creation root was supplied.
pub open spec fn acquire_step(
    fs: FsModel,
    resource: Seq<char>,
    parent: Seq<char>,
    has_root: bool,
) -> AcquireResult {
    if !fs.dirs.contains(parent) {
        if has_root {
            let fs1 = FsModel { dirs: fs.dirs.insert(parent), files: fs.files };
            if fs1.files.contains_key(spec_lock_path(resource)) {
                AcquireResult { fs: fs1, outcome: Some(Error::Contention) }
            } else {
                AcquireResult {
                    fs: FsModel {
                        dirs: fs1.dirs,
                        files: fs1.files.insert(spec_lock_path(resource), Seq::empty()),
                    },
                    outcome: None,
                }
            }
        } else {
            AcquireResult { fs, outcome: Some(Error::Io) }
        }
    } else if fs.files.contains_key(spec_lock_path(resource)) {
        AcquireResult { fs, outcome: Some(Error::Contention) }
    } else {
        AcquireResult {
            fs: FsModel {
                dirs: fs.dirs,
                files: fs.files.insert(spec_lock_path(resource), Seq::empty()),
            },
            outcome: None,
        }
    }
}

/// Writing into a held lock file replaces the lock file's bytes and nothing
/// else.
pub open spec fn write_step(fs: FsModel, resource: Seq<char>, bytes: Seq<u8>) -> FsModel {
    FsModel { dirs: fs.dirs, files: fs.files.insert(spec_lock_path(resource), bytes) }
}

/// Committing renames the lock file over the resource: afterwards the
/// resource holds the lock file's bytes and the lock file is gone.
pub open spec fn commit_step(fs: FsModel, resource: Seq<char>) -> FsModel {
    FsModel {
        dirs: fs.dirs,
        files: fs.files.insert(
            resource,
            fs.files[spec_lock_path(resource)],
        ).remove(spec_lock_path(resource)),
    }
}

/// Abandoning a held guard deletes the lock file and touches nothing else.
pub open spec fn rollback_step(fs: FsModel, resource: Seq<char>) -> FsModel {
    FsModel { dirs: fs.dirs, files: fs.files.remove(spec_lock_path(resource)) }
}

/// Of two simultaneous immediate-fail acquisitions of one resource, exactly
/// one obtains the guard and the other observes `Contention`; after the
/// winner writes and commits, the resource holds the winner's bytes and no
/// lock file remains.
pub proof fn lemma_exclusive_acquisition(
    fs: FsModel,
    resource: Seq<char>,
    parent: Seq<char>,
    bytes: Seq<u8>,
)
    requires
        fs.dirs.contains(parent),
        !fs.files.contains_key(spec_lock_path(resource)),
        resource != spec_lock_path(resource),
    ensures
        acquire_step(fs, resource, parent, false).outcome is None,
        acquire_step(acquire_step(fs, resource, parent, false).fs, resource, parent, false).outcome
            == Some(Error::Contention),
        acquire_step(acquire_step(fs, resource, parent, false).fs, resource, parent, false).fs
            == acquire_step(fs, resource, parent, false).fs,
        ({
            let won = acquire_step(fs, resource, parent, false).fs;
            let committed = commit_step(write_step(won, resource, bytes), resource);
            &&& committed.files[resource] == bytes
            &&& !committed.files.contains_key(spec_lock_path(resource))
        }),
{
    let won = acquire_step(fs, resource, parent, false).fs;
    let committed = commit_step(write_step(won, resource, bytes), resource);
    assert(committed.files[resource] == bytes);
}

/// An abandoned guard leaves the world exactly as it was: the resource keeps
/// its prior bytes — or stays absent — and the lock file is deleted.
pub proof fn lemma_rollback_restores(
    fs: FsModel,
    resource: Seq<char>,
    parent: Seq<char>,
    bytes: Seq<u8>,
)
    requires
        fs.dirs.contains(parent),
        !fs.files.contains_key(spec_lock_path(resource)),
        resource != spec_lock_path(resource),
    ensures
        ({
            let held = write_step(acquire_step(fs, resource, parent, false).fs, resource, bytes);
            let dropped = rollback_step(held, resource);
            &&& dropped.files =~= fs.files
            &&& dropped.dirs =~= fs.dirs
        }),
{
}

/// Acquisition under a missing parent directory: without a creation root it
/// fails as a not-found filesystem error and creates nothing; with one, the
/// parent is created and the acquisition succeeds.
pub proof fn lemma_missing_parent(fs: FsModel, resource: Seq<char>, parent: Seq<char>)
    requires
        !fs.dirs.contains(parent),
        !fs.files.contains_key(spec_lock_path(resource)),
    ensures
        acquire_step(fs, resource, parent, false).outcome == Some(Error::Io),
        acquire_step(fs, resource, parent, false).fs == fs,
        acquire_step(fs, resource, parent, true).outcome is None,
        acquire_step(fs, resource, parent, true).fs.dirs.contains(parent),
        acquire_step(fs, resource, parent, true).fs.files.contains_key(spec_lock_path(resource)),
{
}

} // verus!
