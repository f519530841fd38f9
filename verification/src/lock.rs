//! The lock of a running cluster: a file that names the process which owns it, so that no two
//! fight over the same ports and nobody signals a process that owns nothing.

use crate::paths::{control_dir, control_path, join};
use crate::spawn::is_empty;
use crate::text::{decimal, decimal_text, join3};
use vstd::prelude::*;

verus! {

/// What the lock file says.
#[derive(Debug, Clone)]
pub struct Lock {
    /// The process that owns the cluster.
    pub pid: u32,
    /// Unix seconds of when it took the lock.
    pub started_at: u64,
    /// Where the lock file is; empty where the lock was not taken.
    pub path: String,
}

/// What is said where another process has the lock.
pub open spec fn taken_message(pid: u32) -> Seq<char> {
    "another artzain process is already running for this manifest (pid "@ + decimal_text(
        pid as nat,
    ) + ")"@
}

/// Whether a process is refused the lock: `existing` is the process that the lock file names, if
/// there is one, and `alive` says whether that one lives.
pub open spec fn refused(existing: Option<u32>, pid: u32, alive: bool) -> bool {
    existing matches Some(other) && other != pid && alive
}

/// Whether giving up a lock removes the file, which now names `written`.
pub open spec fn removes(lock: Lock, written: Option<u32>) -> bool {
    lock.path@.len() > 0 && written == Some(lock.pid)
}

impl Lock {
    /// Where the lock file of a cluster is.
    pub fn path(base_dir: &str) -> (r: String)
        ensures
            r@ == control_path(base_dir@, "lock"@),
    {
        let dir = control_dir(base_dir);
        join(dir.as_str(), "lock")
    }

    /// The lock for a process, not taken yet.
    pub fn current(pid: u32, now: u64) -> (r: Lock)
        ensures
            r.pid == pid,
            r.started_at == now,
            r.path@.len() == 0,
    {
        let path = String::new();
        Lock { pid, started_at: now, path }
    }

    /// The lock to write for a process that wants it. `existing` names the process in the lock
    /// file, if there is one, and `alive` says whether that one lives. A lock is refused only to
    /// a process other than the one that has it and lives: the lock of a process that is gone is
    /// replaced.
    pub fn acquire(base_dir: &str, pid: u32, now: u64, existing: Option<u32>, alive: bool) -> (r:
        Result<Lock, String>)
        ensures
            r is Err <==> refused(existing, pid, alive),
            r matches Err(e) ==> e@ == taken_message(existing->0),
            r matches Ok(lock) ==> lock.pid == pid && lock.started_at == now && lock.path@
                == control_path(base_dir@, "lock"@),
    {
        match existing {
            Some(other) => {
                if other != pid && alive {
                    let n = decimal(other as u64);
                    return Err(
                        join3(
                            "another artzain process is already running for this manifest (pid ",
                            n.as_str(),
                            ")",
                        ),
                    );
                }
            },
            None => {},
        }
        let mut lock = Lock::current(pid, now);
        lock.path = Lock::path(base_dir);
        Ok(lock)
    }

    /// Whether the lock file is to be removed when the lock is given up: only where the lock was
    /// taken and the file, which now names `written`, still names its owner.
    pub fn released(&self, written: Option<u32>) -> (r: bool)
        ensures
            r == removes(*self, written),
    {
        if is_empty(self.path.as_str()) {
            return false;
        }
        match written {
            Some(pid) => pid == self.pid,
            None => false,
        }
    }
}

/// While the process that the lock file names lives, no other process takes the lock, and none
/// removes the file: only its owner does both.
pub proof fn law_lock_is_exclusive(lock: Lock, owner: u32, pid: u32)
    ensures
        pid != owner ==> refused(Some(owner), pid, true),
        !refused(Some(owner), owner, true),
        removes(lock, Some(owner)) ==> lock.pid == owner,
{
}

/// A lock whose owner is gone, or that nobody has, is free to take.
pub proof fn law_stale_lock_is_replaced(owner: u32, pid: u32)
    ensures
        !refused(Some(owner), pid, false),
        !refused(None, pid, true),
{
}

} // verus!
