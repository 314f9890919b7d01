//! What a refused lock on the database directory means.

use crate::error::ErrorKind;
use vstd::prelude::*;

verus! {

/// The name of the lock file.
pub const LOCK_FILE: &'static str = "LOCK";

/// Somebody else holds the lock: the system would have had to wait, the lock
/// file is there already, or it is open elsewhere and not shared.
pub open spec fn is_conflict(kind: ErrorKind, share_violation: bool) -> bool {
    kind == ErrorKind::WouldBlock || kind == ErrorKind::AlreadyExists || share_violation
}

/// Whether a failure to lock says that somebody else holds the lock.
pub fn is_lock_conflict(kind: ErrorKind, share_violation: bool) -> (r: bool)
    ensures
        r == is_conflict(kind, share_violation),
{
    match kind {
        ErrorKind::WouldBlock => true,
        ErrorKind::AlreadyExists => true,
        _ => share_violation,
    }
}

/// The kind of failure that opening the database reports: a lock held by
/// somebody else is `AlreadyExists`, anything else is what it was.
pub fn lock_error(kind: ErrorKind, share_violation: bool) -> (r: ErrorKind)
    ensures
        r == if is_conflict(kind, share_violation) {
            ErrorKind::AlreadyExists
        } else {
            kind
        },
{
    if is_lock_conflict(kind, share_violation) {
        ErrorKind::AlreadyExists
    } else {
        kind
    }
}

} // verus!
