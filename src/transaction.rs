use vstd::prelude::*;
use vstd::string::StringExecFns;

use crate::error::TxError;
use crate::oid::ObjectId;
use crate::stack::{strings, Patch, PatchCommit, Stack, StackModel};

verus! {

/// A three-way merge that a push needs from the tree-merge service: the
/// patch's change (from `base_tree` to `theirs_tree`) replayed onto
/// `ours_tree`, the tree of the top commit `parent`.
#[derive(Debug)]
pub struct MergeRequest {
    pub name: String,
    pub base_tree: ObjectId,
    pub ours_tree: ObjectId,
    pub theirs_tree: ObjectId,
    pub parent: ObjectId,
}

/// What the tree-merge service made of a `MergeRequest`: the commit it wrote
/// (the patch's author and message over `tree`, with the request's parent),
/// and whether the tree holds conflicts.
#[derive(Debug, Clone, Copy)]
pub struct MergeOutcome {
    pub commit: ObjectId,
    pub tree: ObjectId,
    pub conflicted: bool,
}

/// The next step of a push batch.
#[derive(Debug)]
pub enum PushStep {
    /// Nothing is left to push.
    Done,
    /// The named patch was pushed with its commit unchanged.
    FastForwarded(String),
    /// The head of the batch needs this merge; hand its outcome to
    /// `complete_push`.
    Merge(MergeRequest),
}

/// What `execute` leaves for the object store and the worktree.
#[derive(Debug)]
pub struct ExecuteOutcome {
    pub reflog_message: String,
    /// The commit the branch now points at.
    pub head: ObjectId,
    /// The old and new top trees, where the index and worktree follow.
    pub checkout: Option<(ObjectId, ObjectId)>,
}

/// A working copy of a stack, changed by operations and committed at once by
/// `execute`.
#[derive(Debug)]
pub struct Transaction {
    pub stack: Stack,
    pub conflict_allowed: bool,
    pub use_index_and_worktree: bool,
    pub committer_date_is_author_date: bool,
    /// The patches pushed with conflicts, in order.
    pub conflicts: Vec<String>,
    /// An operation failed fatally; `execute` writes nothing.
    pub failed: bool,
    /// The patches of the push batch in progress that are still to go.
    pub pending: Vec<String>,
}

/// Whether the batch `names` can be pushed onto `m`: each name is unapplied
/// or hidden, and none comes twice.
pub open spec fn batch_ok(m: StackModel, names: Seq<Seq<char>>) -> bool {
    &&& names.no_duplicates()
    &&& forall|i: int| 0 <= i < names.len() ==> m.pushable(#[trigger] names[i])
}

/// A copy of `v`.
pub fn copy_strings(v: &Vec<String>) -> (r: Vec<String>)
    ensures
        r@ == v@,
{
    let mut r: Vec<String> = Vec::new();
    let mut i: usize = 0;
    while i < v.len()
        invariant
            i <= v@.len(),
            r@ == v@.subrange(0, i as int),
        decreases v@.len() - i,
    {
        r.push(v[i].clone());
        proof {
            assert(r@ =~= v@.subrange(0, i + 1));
        }
        i = i + 1;
    }
    proof {
        assert(v@.subrange(0, v@.len() as int) =~= v@);
    }
    r
}

impl Transaction {
    pub open spec fn wf(&self) -> bool {
        self.stack@.wf()
    }

    /// A transaction over `stack`, with nothing done yet.
    pub fn setup(
        stack: Stack,
        conflict_allowed: bool,
        use_index_and_worktree: bool,
        committer_date_is_author_date: bool,
    ) -> (r: Transaction)
        requires
            stack@.wf(),
        ensures
            r.wf(),
            r.stack == stack,
            r.conflict_allowed == conflict_allowed,
            r.use_index_and_worktree == use_index_and_worktree,
            r.committer_date_is_author_date == committer_date_is_author_date,
            r.conflicts@.len() == 0,
            !r.failed,
            r.pending@.len() == 0,
    {
        Transaction {
            stack,
            conflict_allowed,
            use_index_and_worktree,
            committer_date_is_author_date,
            conflicts: Vec::new(),
            failed: false,
            pending: Vec::new(),
        }
    }

    /// Pops the patches named in `sel` and every applied patch above the
    /// lowest of them. Returns the names of all popped patches, bottom first.
    /// Popping never fails and never touches a commit.
    pub fn pop_patches(&mut self, sel: &Vec<String>) -> (r: Vec<String>)
        requires
            old(self).wf(),
        ensures
            final(self).wf(),
            final(self).stack@ == old(self).stack@.popped(strings(sel@)),
            strings(r@) == old(self).stack@.pop_names(strings(sel@)),
            final(self).failed == old(self).failed,
            final(self).conflicts == old(self).conflicts,
            final(self).pending == old(self).pending,
            final(self).conflict_allowed == old(self).conflict_allowed,
            final(self).use_index_and_worktree == old(self).use_index_and_worktree,
    {
        self.stack.pop_patches(sel)
    }

    /// Removes the patches named in `sel` from the stack, popping first every
    /// applied patch above the lowest of them. Returns the names of the popped
    /// patches that were not deleted, bottom first, for the caller to push
    /// again.
    pub fn delete_patches(&mut self, sel: &Vec<String>) -> (r: Vec<String>)
        requires
            old(self).wf(),
        ensures
            final(self).wf(),
            final(self).stack@ == old(self).stack@.deleted(strings(sel@)),
            strings(r@) == old(self).stack@.displaced_names(strings(sel@)),
            final(self).failed == old(self).failed,
            final(self).conflicts == old(self).conflicts,
            final(self).pending == old(self).pending,
            final(self).conflict_allowed == old(self).conflict_allowed,
            final(self).use_index_and_worktree == old(self).use_index_and_worktree,
    {
        self.stack.delete_patches(sel)
    }

    /// Adds a patch named `name` for `commit` to the unapplied group at
    /// `insert_index`. Fails with `NameCollision`, changing nothing, where the
    /// name is taken.
    pub fn new_unapplied(&mut self, name: String, commit: PatchCommit, insert_index: usize) -> (r:
        Result<(), TxError>)
        requires
            old(self).wf(),
            insert_index <= old(self).stack@.unapplied.len(),
        ensures
            final(self).wf(),
            r is Ok <==> !old(self).stack@.has(name@),
            r is Ok ==> final(self).stack@ == old(self).stack@.inserted(
                Patch { name, commit },
                insert_index as int,
            ),
            r is Err ==> r == Err::<(), TxError>(TxError::NameCollision(name))
                && final(self).stack == old(self).stack,
            final(self).failed == old(self).failed,
            final(self).conflicts == old(self).conflicts,
            final(self).pending == old(self).pending,
            final(self).conflict_allowed == old(self).conflict_allowed,
            final(self).use_index_and_worktree == old(self).use_index_and_worktree,
    {
        if self.stack.has(&name) {
            return Err(TxError::NameCollision(name));
        }
        self.stack.insert_unapplied(Patch { name, commit }, insert_index);
        Ok(())
    }

    /// Gives the patch named `name` the commit `commit`, in place. Fails with
    /// `UnknownPatch` where no patch has the name, and with `BrokenChain` where
    /// an applied patch would no longer sit on the one below it or carry the
    /// one above it; either failure is fatal to the transaction.
    pub fn update_patch(&mut self, name: &String, commit: PatchCommit) -> (r: Result<(), TxError>)
        requires
            old(self).wf(),
        ensures
            final(self).wf(),
            r is Ok <==> old(self).stack@.has(name@) && old(self).stack@.fits(name@, commit),
            r is Ok ==> final(self).stack@ == old(self).stack@.updated(name@, commit)
                && final(self).failed == old(self).failed,
            !old(self).stack@.has(name@) ==> r == Err::<(), TxError>(
                TxError::UnknownPatch(*name),
            ),
            old(self).stack@.has(name@) && !old(self).stack@.fits(name@, commit) ==> r == Err::<
                (),
                TxError,
            >(TxError::BrokenChain(*name)),
            r is Err ==> final(self).failed && final(self).stack == old(self).stack,
            final(self).conflicts == old(self).conflicts,
            final(self).pending == old(self).pending,
            final(self).conflict_allowed == old(self).conflict_allowed,
            final(self).use_index_and_worktree == old(self).use_index_and_worktree,
    {
        if !self.stack.has(name) {
            self.failed = true;
            return Err(TxError::UnknownPatch(name.clone()));
        }
        if !self.stack.fits(name, &commit) {
            self.failed = true;
            return Err(TxError::BrokenChain(name.clone()));
        }
        self.stack.replace_commit(name, commit);
        Ok(())
    }

    /// Starts a push batch of `names`, in order. Fails, fatally and with
    /// nothing queued, where a name is unknown (`UnknownPatch`), applied or
    /// given twice (`AlreadyApplied`).
    #[verifier::rlimit(30)]
    pub fn push_patches(&mut self, names: &Vec<String>) -> (r: Result<(), TxError>)
        requires
            old(self).wf(),
        ensures
            final(self).wf(),
            final(self).stack == old(self).stack,
            r is Ok <==> batch_ok(old(self).stack@, strings(names@)),
            r is Ok ==> final(self).pending@ == names@ && final(self).failed == old(self).failed,
            r is Err ==> final(self).failed && final(self).pending@.len() == 0,
            final(self).conflicts == old(self).conflicts,
            final(self).conflict_allowed == old(self).conflict_allowed,
            final(self).use_index_and_worktree == old(self).use_index_and_worktree,
    {
        let ghost sn = strings(names@);
        let mut i: usize = 0;
        while i < names.len()
            invariant
                i <= names@.len(),
                *self == *old(self),
                self.wf(),
                sn == strings(names@),
                sn.subrange(0, i as int).no_duplicates(),
                forall|j: int| 0 <= j < i ==> self.stack@.pushable(#[trigger] sn[j]),
            decreases names@.len() - i,
        {
            let name = &names[i];
            let earlier = names_before(names, i);
            let pushable = self.stack.pushable(name);
            if !self.stack.has(name) {
                self.failed = true;
                self.pending = Vec::new();
                proof {
                    lemma_stack_has(self.stack@, name@);
                    assert(!batch_ok(self.stack@, sn)) by {
                        assert(sn[i as int] == name@);
                    }
                }
                return Err(TxError::UnknownPatch(name.clone()));
            }
            if !pushable || earlier {
                self.failed = true;
                self.pending = Vec::new();
                proof {
                    lemma_stack_has(self.stack@, name@);
                    assert(!batch_ok(self.stack@, sn)) by {
                        assert(sn[i as int] == name@);
                        if earlier {
                            let j = choose|j: int| 0 <= j < i && sn[j] == name@;
                            assert(sn[j] == sn[i as int]);
                        }
                    }
                }
                return Err(TxError::AlreadyApplied(name.clone()));
            }
            proof {
                lemma_stack_has(self.stack@, name@);
                assert(sn.subrange(0, i + 1) =~= sn.subrange(0, i as int).push(sn[i as int]));
                let sub = sn.subrange(0, i + 1);
                assert forall|a: int, b: int|
                    0 <= a < b < i + 1 implies #[trigger] sub[a] != #[trigger] sub[b] by {
                    if b == i {
                        assert(sub[a] == sn[a]);
                    } else {
                        assert(sn.subrange(0, i as int)[a] == sn[a]);
                        assert(sn.subrange(0, i as int)[b] == sn[b]);
                    }
                }
            }
            i = i + 1;
        }
        proof {
            assert(sn.subrange(0, names@.len() as int) =~= sn);
        }
        self.pending = copy_strings(names);
        Ok(())
    }

    /// Takes the next step of the push batch in progress. A patch whose
    /// commit already sits on the top is pushed as it is; any other needs a
    /// merge, which this returns without changing anything. Fails, fatally,
    /// where the next patch is no longer unapplied or hidden.
    #[verifier::rlimit(30)]
    pub fn next_push(&mut self) -> (r: Result<PushStep, TxError>)
        requires
            old(self).wf(),
        ensures
            final(self).wf(),
            final(self).conflicts == old(self).conflicts,
            final(self).conflict_allowed == old(self).conflict_allowed,
            final(self).use_index_and_worktree == old(self).use_index_and_worktree,
            old(self).pending@.len() == 0 ==> (r matches Ok(PushStep::Done)) && *final(self)
                == *old(self),
            old(self).pending@.len() > 0 ==> ({
                let head = old(self).pending@[0]@;
                let m = old(self).stack@;
                &&& !m.pushable(head) ==> r is Err && final(self).failed
                    && final(self).pending@.len() == 0 && final(self).stack == old(self).stack
                &&& m.fast_forwards(head) ==> r is Ok && (r->Ok_0 matches PushStep::FastForwarded(
                    n,
                ) && n@ == head) && final(self).stack@ == m.fast_forwarded(head)
                    && final(self).pending@ == old(self).pending@.drop_first()
                    && final(self).failed == old(self).failed
                &&& m.pushable(head) && !m.fast_forwards(head) ==> r is Ok && (r->Ok_0 matches PushStep::Merge(
                    q,
                ) && q.name@ == head && q.base_tree == m.pushable_patch(head).commit.parent_tree
                    && q.theirs_tree == m.pushable_patch(head).commit.tree && q.ours_tree
                    == m.top_tree() && q.parent == m.top_id()) && *final(self) == *old(self)
            }),
    {
        if self.pending.len() == 0 {
            return Ok(PushStep::Done);
        }
        let ghost m = self.stack@;
        let (top_id, top_tree) = self.stack.top();
        let head = &self.pending[0];
        match self.stack.pushable_commit(head) {
            None => {
                let name = head.clone();
                self.failed = true;
                self.pending = Vec::new();
                Err(TxError::UnknownPatch(name))
            },
            Some(c) => {
                if c.parent == top_id && c.parent_tree == top_tree {
                    let name = self.pending.remove(0);
                    self.stack.push_patch(&name, None);
                    proof {
                        assert(self.pending@ =~= old(self).pending@.drop_first());
                    }
                    Ok(PushStep::FastForwarded(name))
                } else {
                    Ok(
                        PushStep::Merge(
                            MergeRequest {
                                name: head.clone(),
                                base_tree: c.parent_tree,
                                ours_tree: top_tree,
                                theirs_tree: c.tree,
                                parent: top_id,
                            },
                        ),
                    )
                }
            },
        }
    }

    /// Finishes the push of the head of the batch with the merge service's
    /// `outcome`: the patch goes to the top of the applied group with the new
    /// commit. On a conflict the patch stays applied, with the conflicted
    /// tree, the rest of the batch is dropped, and `PushConflict` comes back;
    /// it is fatal unless the transaction allows conflicts.
    #[verifier::rlimit(30)]
    pub fn complete_push(&mut self, outcome: MergeOutcome) -> (r: Result<(), TxError>)
        requires
            old(self).wf(),
        ensures
            final(self).wf(),
            final(self).conflict_allowed == old(self).conflict_allowed,
            final(self).use_index_and_worktree == old(self).use_index_and_worktree,
            old(self).pending@.len() == 0 ==> r == Err::<(), TxError>(TxError::NoPushPending)
                && *final(self) == *old(self),
            old(self).pending@.len() > 0 ==> ({
                let head = old(self).pending@[0];
                let m = old(self).stack@;
                &&& !m.pushable(head@) ==> r == Err::<(), TxError>(TxError::UnknownPatch(head))
                    && final(self).failed && final(self).pending@.len() == 0 && final(self).stack
                    == old(self).stack && final(self).conflicts == old(self).conflicts
                &&& m.pushable(head@) ==> final(self).stack@ == m.pushed(
                    head@,
                    m.rewritten(m.pushable_patch(head@), outcome.commit, outcome.tree),
                )
                &&& m.pushable(head@) && !outcome.conflicted ==> r is Ok && final(self).pending@
                    == old(self).pending@.drop_first() && final(self).failed == old(self).failed
                    && final(self).conflicts == old(self).conflicts
                &&& m.pushable(head@) && outcome.conflicted ==> r == Err::<(), TxError>(
                    TxError::PushConflict(head),
                ) && final(self).pending@.len() == 0 && final(self).conflicts@ == old(self).conflicts@.push(head) && final(self).failed == (old(self).failed
                    || !old(self).conflict_allowed)
            }),
    {
        if self.pending.len() == 0 {
            return Err(TxError::NoPushPending);
        }
        let ghost m = self.stack@;
        let pushable = self.stack.pushable(&self.pending[0]);
        let name = self.pending.remove(0);
        if !pushable {
            self.failed = true;
            self.pending = Vec::new();
            return Err(TxError::UnknownPatch(name));
        }
        self.stack.push_patch(&name, Some((outcome.commit, outcome.tree)));
        if outcome.conflicted {
            self.pending = Vec::new();
            self.conflicts.push(name.clone());
            if !self.conflict_allowed {
                self.failed = true;
            }
            return Err(TxError::PushConflict(name));
        }
        proof {
            assert(self.pending@ =~= old(self).pending@.drop_first());
        }
        Ok(())
    }

    /// Commits the transaction into `persisted`. Where an operation failed
    /// fatally, nothing is written and `Aborted` comes back. Otherwise
    /// `persisted` becomes the working copy, and the outcome carries the
    /// reflog message (marked where pushes conflicted), the new head, and the
    /// trees to check out where the transaction updates the worktree.
    pub fn execute(self, persisted: &mut Stack, reflog_message: &str) -> (r: Result<
        ExecuteOutcome,
        TxError,
    >)
        requires
            self.wf(),
        ensures
            !self.failed ==> final(persisted)@.wf(),
            self.failed ==> r == Err::<ExecuteOutcome, TxError>(TxError::Aborted) && *final(persisted) == *old(persisted),
            !self.failed ==> r is Ok && *final(persisted) == self.stack,
            r matches Ok(o) ==> {
                &&& o.head == self.stack@.top_id()
                &&& o.reflog_message@ == (if self.conflicts@.len() == 0 {
                    reflog_message@
                } else {
                    reflog_message@ + conflict_mark()
                })
                &&& o.checkout == (if self.use_index_and_worktree {
                    Some((old(persisted)@.top_tree(), self.stack@.top_tree()))
                } else {
                    None
                })
            },
    {
        if self.failed {
            return Err(TxError::Aborted);
        }
        let (_, old_tree) = persisted.top();
        let (head, new_tree) = self.stack.top();
        let mut message = String::from_str(reflog_message);
        if self.conflicts.len() > 0 {
            message.append(" (CONFLICT)");
        }
        let checkout = if self.use_index_and_worktree {
            Some((old_tree, new_tree))
        } else {
            None
        };
        *persisted = self.stack;
        Ok(ExecuteOutcome { reflog_message: message, head, checkout })
    }
}

/// What the reflog message gains where pushes conflicted.
pub open spec fn conflict_mark() -> Seq<char> {
    " (CONFLICT)"@
}

/// Whether `names[i]` also stands before position `i`.
fn names_before(names: &Vec<String>, i: usize) -> (r: bool)
    requires
        i < names@.len(),
    ensures
        r == exists|j: int| 0 <= j < i && strings(names@)[j] == names@[i as int]@,
{
    let mut j: usize = 0;
    while j < i
        invariant
            j <= i < names@.len(),
            forall|k: int| 0 <= k < j ==> strings(names@)[k] != names@[i as int]@,
        decreases i - j,
    {
        if names[j] == names[i] {
            proof {
                assert(strings(names@)[j as int] == names@[i as int]@);
            }
            return true;
        }
        j = j + 1;
    }
    false
}

/// The facts of `has` and of the groups that the operations above use.
proof fn lemma_stack_has(m: StackModel, n: Seq<char>)
    requires
        m.wf(),
    ensures
        m.has(n) <==> crate::stack::names_of(m.applied).contains(n) || m.pushable(n),
{
    crate::stack::lemma_has(m, n);
}

} // verus!
