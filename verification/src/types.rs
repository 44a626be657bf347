//! Errors and events of the delegation module.

use vstd::prelude::*;

verus! {

/// Everything an operation can fail with. All failures are recoverable by
/// the caller: an operation that fails leaves the module untouched.
#[derive(Clone, Copy, Debug, PartialEq, Eq, Structural)]
pub enum Error {
    /// The referenced tree id has no entry in the registry.
    TreeDNE,
    /// The caller lacks the required membership or ownership relation.
    NotAuthorized,
    /// Adding the members would push the group past the size limit.
    CannotAddGroupAboveMaxSize,
    /// Delegating would create a tree deeper than the depth limit.
    CannotDelegateBelowMaxDepth,
    /// Delegating would give the parent more children than the limit.
    CannotDelegateAboveMaxKids,
    /// The caller's free balance cannot cover the required bond, or the
    /// bond itself does not fit in the balance type.
    InsufficientBalance,
    /// Forfeiting a bond to a treasury has no defined destination yet, so
    /// a removal with `penalty` set is refused instead of guessing one.
    PenaltyUnsupported,
}

/// The events the operations emit, in order, into the module's event log.
#[derive(Clone, Copy, Debug, PartialEq, Eq, Structural)]
pub enum Event {
    /// A root tree was registered: (tree id, creator, bond reserved).
    RegisterIdRoot(u64, u64, u64),
    /// Members were added: (caller, tree id, bond reserved).
    AddedMembers(u64, u64, u64),
    /// Members were removed: (caller, tree id).
    RemovedMembers(u64, u64),
    /// A subtree was delegated: (parent id, child id, caller, bond reserved).
    DelegateBranch(u64, u64, u64, u64),
    /// A branch was revoked together with its whole subtree: (tree id).
    RevokeDelegation(u64),
}

} // verus!
