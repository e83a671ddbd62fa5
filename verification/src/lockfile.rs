//! The lockfile protocol.
//!
//! A lockfile guards a target path `P` with a sibling sentinel `P.lock`.
//! Whoever creates the sentinel exclusively may write a new version of the
//! target and publish it atomically by renaming the sentinel onto it.
//!
//! This type is the protocol's state machine.  The driver performs the
//! file-system steps and reports the outcome of the exclusive creation as a
//! [`LockAttempt`]; the bytes written while the lock is held accumulate
//! here and are handed back by [`Lockfile::commit`] for the driver to
//! publish.  A holder that is dropped without committing or rolling back
//! leaves the sentinel file behind on purpose: the stray file is the
//! recovery cue.

use vstd::prelude::*;

verus! {

/// The outcome of attempting to create the sentinel file exclusively.
#[derive(Clone, Copy, PartialEq, Eq, Structural, Debug)]
pub enum LockAttempt {
    /// The sentinel was created; the caller now holds the lock.
    Created,
    /// The sentinel already exists: another holder is active.
    AlreadyExists,
    /// The directory that should contain the sentinel is absent.
    MissingParent,
    /// Creation was refused for lack of permission.
    PermissionDenied,
}

/// Acquisition failures other than ordinary contention.
#[derive(Clone, Copy, PartialEq, Eq, Structural, Debug)]
pub enum LockError {
    /// The parent directory of the sentinel is absent (a caller bug).
    MissingParent,
    /// Permission to create the sentinel was denied.
    NoPermission,
}

/// An operation was attempted on a lock that is not held.
#[derive(Clone, Copy, PartialEq, Eq, Structural, Debug)]
pub struct StaleLock;

/// The suffix that turns a target path into its sentinel path.
pub open spec fn lock_suffix() -> Seq<u8> {
    seq![46u8, 108u8, 111u8, 99u8, 107u8]
}

/// The state machine of one lockfile.
pub struct Lockfile {
    file_path: Vec<u8>,
    lock_path: Vec<u8>,
    held: bool,
    pending: Vec<u8>,
}

impl Lockfile {
    /// The guarded target path.
    pub closed spec fn file_path_spec(&self) -> Seq<u8> {
        self.file_path@
    }

    /// The sentinel path, the target path with `.lock` appended.
    pub closed spec fn lock_path_spec(&self) -> Seq<u8> {
        self.lock_path@
    }

    /// Whether this state machine holds the lock.
    pub closed spec fn is_held(&self) -> bool {
        self.held
    }

    /// The bytes written so far to the held sentinel.
    pub closed spec fn pending_spec(&self) -> Seq<u8> {
        self.pending@
    }

    /// A fresh, unheld lockfile for target `path`.
    pub fn new(path: Vec<u8>) -> (r: Lockfile)
        ensures
            r.file_path_spec() == path@,
            r.lock_path_spec() == path@ + lock_suffix(),
            !r.is_held(),
            r.pending_spec() == Seq::<u8>::empty(),
    {
        let mut lock_path = path.clone();
        lock_path.push(46);
        lock_path.push(108);
        lock_path.push(111);
        lock_path.push(99);
        lock_path.push(107);
        proof {
            assert(lock_path@ =~= path@ + lock_suffix());
        }
        Lockfile { file_path: path, lock_path, held: false, pending: Vec::new() }
    }

    /// Records the outcome of the driver's exclusive-creation attempt.
    /// Returns `Ok(true)` when the lock was acquired, `Ok(false)` on
    /// contention (or when this holder already holds it), and an error for
    /// a missing parent directory or a permission failure.
    pub fn hold_for_update(&mut self, attempt: LockAttempt) -> (r: Result<bool, LockError>)
        ensures
            final(self).file_path_spec() == old(self).file_path_spec(),
            final(self).lock_path_spec() == old(self).lock_path_spec(),
            final(self).pending_spec() == old(self).pending_spec(),
            old(self).is_held() ==> r == Ok::<bool, LockError>(false) && final(self).is_held(),
            !old(self).is_held() ==> match attempt {
                LockAttempt::Created => r == Ok::<bool, LockError>(true) && final(self).is_held(),
                LockAttempt::AlreadyExists => r == Ok::<bool, LockError>(false)
                    && !final(self).is_held(),
                LockAttempt::MissingParent => r == Err::<bool, LockError>(LockError::MissingParent)
                    && !final(self).is_held(),
                LockAttempt::PermissionDenied => r == Err::<bool, LockError>(
                    LockError::NoPermission,
                ) && !final(self).is_held(),
            },
    {
        if self.held {
            Ok(false)
        } else {
            match attempt {
                LockAttempt::Created => {
                    self.held = true;
                    Ok(true)
                },
                LockAttempt::AlreadyExists => Ok(false),
                LockAttempt::MissingParent => Err(LockError::MissingParent),
                LockAttempt::PermissionDenied => Err(LockError::NoPermission),
            }
        }
    }

    /// Appends `bytes` to the held sentinel; fails when the lock is stale.
    pub fn write(&mut self, bytes: &Vec<u8>) -> (r: Result<(), StaleLock>)
        ensures
            final(self).file_path_spec() == old(self).file_path_spec(),
            final(self).lock_path_spec() == old(self).lock_path_spec(),
            final(self).is_held() == old(self).is_held(),
            old(self).is_held() ==> r == Ok::<(), StaleLock>(())
                && final(self).pending_spec() == old(self).pending_spec() + bytes@,
            !old(self).is_held() ==> r == Err::<(), StaleLock>(StaleLock)
                && final(self).pending_spec() == old(self).pending_spec(),
    {
        if self.held {
            self.pending.extend_from_slice(bytes.as_slice());
            proof {
                assert(self.pending@ =~= old(self).pending_spec() + bytes@);
            }
            Ok(())
        } else {
            Err(StaleLock)
        }
    }

    /// Releases the lock, handing back the accumulated bytes for the driver
    /// to write to the sentinel and rename onto the target path.
    pub fn commit(&mut self) -> (r: Result<Vec<u8>, StaleLock>)
        ensures
            final(self).file_path_spec() == old(self).file_path_spec(),
            final(self).lock_path_spec() == old(self).lock_path_spec(),
            old(self).is_held() ==> !final(self).is_held()
                && final(self).pending_spec() == Seq::<u8>::empty()
                && (r matches Ok(c) && c@ == old(self).pending_spec()),
            !old(self).is_held() ==> r == Err::<Vec<u8>, StaleLock>(StaleLock)
                && *final(self) == *old(self),
    {
        if self.held {
            self.held = false;
            let mut content: Vec<u8> = Vec::new();
            core::mem::swap(&mut self.pending, &mut content);
            Ok(content)
        } else {
            Err(StaleLock)
        }
    }

    /// Releases the lock without publishing; the driver deletes the
    /// sentinel file.
    pub fn rollback(&mut self) -> (r: Result<(), StaleLock>)
        ensures
            final(self).file_path_spec() == old(self).file_path_spec(),
            final(self).lock_path_spec() == old(self).lock_path_spec(),
            old(self).is_held() ==> r == Ok::<(), StaleLock>(()) && !final(self).is_held()
                && final(self).pending_spec() == Seq::<u8>::empty(),
            !old(self).is_held() ==> r == Err::<(), StaleLock>(StaleLock)
                && *final(self) == *old(self),
    {
        if self.held {
            self.held = false;
            self.pending = Vec::new();
            Ok(())
        } else {
            Err(StaleLock)
        }
    }

    /// The guarded target path.
    pub fn file_path(&self) -> (r: &Vec<u8>)
        ensures
            r@ == self.file_path_spec(),
    {
        &self.file_path
    }

    /// The sentinel path.
    pub fn lock_path(&self) -> (r: &Vec<u8>)
        ensures
            r@ == self.lock_path_spec(),
    {
        &self.lock_path
    }
}

} // verus!
