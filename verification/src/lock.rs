//! Profile locking: the decisions that depend on whether a profile directory
//! is held with a shared or an exclusive lock.  Opening and locking the
//! directory itself is the program's business.
use vstd::prelude::*;

verus! {

/// How a profile directory is locked.
#[derive(Debug, Clone, Copy, PartialEq, Eq, Structural)]
pub enum LockMode {
    /// Several readers may hold the profile; nothing may be changed.
    Shared,
    /// One holder may change the profile.
    Exclusive,
}

/// Whether a change may be made under a lock.
#[derive(Debug, Clone, Copy, PartialEq, Eq, Structural)]
pub enum ModifyPermission {
    /// The change may be made now.
    Proceed,
    /// The profile needs an update, which needs the exclusive lock.
    NeedsUpdate,
}

/// A change under a shared lock is refused with `NeedsUpdate`; under an
/// exclusive lock it proceeds.
pub fn modify_permission(mode: LockMode) -> (r: ModifyPermission)
    ensures
        r == (match mode {
            LockMode::Shared => ModifyPermission::NeedsUpdate,
            LockMode::Exclusive => ModifyPermission::Proceed,
        }),
{
    match mode {
        LockMode::Shared => ModifyPermission::NeedsUpdate,
        LockMode::Exclusive => ModifyPermission::Proceed,
    }
}

} // verus!
