use vstd::prelude::*;

verus! {

/// What can go wrong in a transaction or a squash. Each variant carries the
/// patch names or the operation involved.
#[derive(Debug, PartialEq, Eq)]
pub enum TxError {
    /// A patch of this name already exists.
    NameCollision(String),
    /// Pushing this patch met a content conflict.
    PushConflict(String),
    /// No patch of this name exists, or none where the operation looks.
    UnknownPatch(String),
    /// This patch is applied already.
    AlreadyApplied(String),
    /// The new commit of this applied patch would break the chain of commits.
    BrokenChain(String),
    /// A merge result came with no push in progress.
    NoPushPending,
    /// Squashing met conflicts; the text names the operation.
    CausedConflicts(String),
    /// Checking out the new top into the worktree failed after the stack was
    /// written.
    CheckoutConflicts(String),
    /// The selection of patches cannot be squashed.
    InvalidSelection(String),
    /// Text that is not valid UTF-8; the text names the field.
    EncodingError(String),
    /// An outside command failed: its name and what it printed.
    GitCommand(String, String),
    /// An earlier operation of the transaction failed, so nothing is written.
    Aborted,
}

} // verus!
