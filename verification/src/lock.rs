//! The lock over a shared object: who may take it, how long to wait for
//! it, and who may release it. The object itself is written and deleted
//! elsewhere.

use vstd::prelude::*;
use vstd::string::StringExecFns;

use crate::text::str_eq;

verus! {

/// What the value of a lock begins with.
pub const LOCK_MARK: &'static str = "locked_";

/// The seconds between two attempts to take the lock.
pub const LOCK_POLL_SECONDS: u64 = 1;

/// The key of a worker: its address and the number of its process.
pub fn get_worker_key(address: &str, process_id: &str) -> (key: String)
    ensures
        key@ == address@ + "_"@ + process_id@,
{
    let mut key = String::from_str(address);
    key.append("_");
    key.append(process_id);
    key
}

/// The value that a worker writes into the lock.
pub fn lock_value(worker_key: &str) -> (value: String)
    ensures
        value@ == LOCK_MARK@ + worker_key@,
{
    let mut value = String::from_str(LOCK_MARK);
    value.append(worker_key);
    value
}

/// Whether the worker may delete the lock: the lock holds its own value.
pub fn may_release(content: &str, lock_value: &str) -> (own: bool)
    ensures
        own == (content@ == lock_value@),
{
    str_eq(content, lock_value)
}

/// How many attempts to take the lock are left.
#[derive(Clone, Copy, Debug, PartialEq, Eq, Structural)]
pub enum Patience {
    /// As many as it takes.
    Forever,
    /// This many, at least one.
    Attempts(i32),
    /// None.
    Spent,
}

/// The attempts that a time limit in seconds allows, one per second: `-1`
/// waits forever, any other limit below one allows none.
pub open spec fn patience_for(timeout: i32) -> Patience {
    if timeout == -1 {
        Patience::Forever
    } else if timeout > 0 {
        Patience::Attempts(timeout)
    } else {
        Patience::Spent
    }
}

/// The attempts that are left after one that failed.
pub open spec fn after_failure(patience: Patience) -> Patience {
    match patience {
        Patience::Forever => Patience::Forever,
        Patience::Attempts(n) => if n > 1 {
            Patience::Attempts((n - 1) as i32)
        } else {
            Patience::Spent
        },
        Patience::Spent => Patience::Spent,
    }
}

/// The attempts that a time limit in seconds allows.
pub fn acquire_or_block(timeout: i32) -> (patience: Patience)
    ensures
        patience == patience_for(timeout),
{
    if timeout == -1 {
        Patience::Forever
    } else if timeout > 0 {
        Patience::Attempts(timeout)
    } else {
        Patience::Spent
    }
}

/// The attempts that are left after one that failed. While any is left,
/// the worker waits `LOCK_POLL_SECONDS` and tries again.
pub fn after_failed_attempt(patience: Patience) -> (left: Patience)
    ensures
        left == after_failure(patience),
{
    match patience {
        Patience::Forever => Patience::Forever,
        Patience::Attempts(n) => if n > 1 {
            Patience::Attempts(n - 1)
        } else {
            Patience::Spent
        },
        Patience::Spent => Patience::Spent,
    }
}

} // verus!
