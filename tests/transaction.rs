use stgit::error::TxError;
use stgit::oid::ObjectId;
use stgit::signature::Signature;
use stgit::stack::{Patch, PatchCommit, PatchState, Stack};
use stgit::transaction::{MergeOutcome, PushStep, Transaction};

fn oid(n: u32) -> ObjectId {
    ObjectId { hi: 0, mid: 0, lo: n }
}

fn sig(name: &str, email: &str) -> Signature {
    Signature { name: name.as_bytes().to_vec(), email: email.as_bytes().to_vec(), time: 1_700_000_000, offset: 60 }
}

fn commit(id: u32, tree: u32, parent: u32, parent_tree: u32) -> PatchCommit {
    PatchCommit {
        id: oid(id),
        tree: oid(tree),
        parent: oid(parent),
        parent_tree: oid(parent_tree),
        author: sig("Ann", "ann@example.com"),
        message: b"subject\n\nbody\n".to_vec(),
    }
}

fn patch(name: &str, c: PatchCommit) -> Patch {
    Patch { name: name.to_string(), commit: c }
}

/// Base commit 1 (tree 101); applied a, b, c, d chained on it; unapplied u
/// (made on the base); hidden h.
fn sample() -> Stack {
    Stack {
        base: oid(1),
        base_tree: oid(101),
        applied: vec![
            patch("a", commit(2, 102, 1, 101)),
            patch("b", commit(3, 103, 2, 102)),
            patch("c", commit(4, 104, 3, 103)),
            patch("d", commit(5, 105, 4, 104)),
        ],
        unapplied: vec![patch("u", commit(6, 106, 1, 101))],
        hidden: vec![patch("h", commit(7, 107, 1, 101))],
    }
}

fn names(v: &[Patch]) -> Vec<String> {
    v.iter().map(|p| p.name.clone()).collect()
}

fn strs(v: &[&str]) -> Vec<String> {
    v.iter().map(|s| s.to_string()).collect()
}

fn all_names(s: &Stack) -> Vec<String> {
    let mut r = names(&s.applied);
    r.extend(names(&s.unapplied));
    r.extend(names(&s.hidden));
    r
}

fn assert_partition(s: &Stack) {
    let all = all_names(s);
    let mut sorted = all.clone();
    sorted.sort();
    sorted.dedup();
    assert_eq!(sorted.len(), all.len(), "a name stands twice: {all:?}");
}

fn drive_pushes(t: &mut Transaction) -> Vec<String> {
    let mut pushed = Vec::new();
    loop {
        match t.next_push().unwrap() {
            PushStep::Done => return pushed,
            PushStep::FastForwarded(n) => pushed.push(n),
            PushStep::Merge(q) => panic!("unexpected merge for {}", q.name),
        }
    }
}

#[test]
fn pop_takes_everything_above_the_lowest_selected() {
    let mut t = Transaction::setup(sample(), false, true, false);
    let popped = t.pop_patches(&strs(&["c", "b"]));
    assert_eq!(popped, strs(&["b", "c", "d"]));
    assert_eq!(names(&t.stack.applied), strs(&["a"]));
    assert_eq!(names(&t.stack.unapplied), strs(&["b", "c", "d", "u"]));
    assert_partition(&t.stack);
}

#[test]
fn pop_of_unapplied_selection_changes_nothing() {
    let mut t = Transaction::setup(sample(), false, true, false);
    let popped = t.pop_patches(&strs(&["u", "zz"]));
    assert!(popped.is_empty());
    assert_eq!(names(&t.stack.applied), strs(&["a", "b", "c", "d"]));
}

#[test]
fn pop_then_push_back_restores_the_stack() {
    let mut t = Transaction::setup(sample(), false, true, false);
    let popped = t.pop_patches(&strs(&["b"]));
    assert_eq!(popped, strs(&["b", "c", "d"]));
    t.push_patches(&popped).unwrap();
    let pushed = drive_pushes(&mut t);
    assert_eq!(pushed, popped);
    assert_eq!(names(&t.stack.applied), strs(&["a", "b", "c", "d"]));
    assert_eq!(names(&t.stack.unapplied), strs(&["u"]));
    let ids: Vec<u32> = t.stack.applied.iter().map(|p| p.commit.id.lo).collect();
    assert_eq!(ids, vec![2, 3, 4, 5]);
    assert!(t.conflicts.is_empty());
}

#[test]
fn delete_in_the_middle_returns_the_patches_above() {
    let mut t = Transaction::setup(sample(), false, true, false);
    let displaced = t.delete_patches(&strs(&["b"]));
    assert_eq!(displaced, strs(&["c", "d"]));
    assert_eq!(names(&t.stack.applied), strs(&["a"]));
    assert_eq!(names(&t.stack.unapplied), strs(&["c", "d", "u"]));
    assert!(t.stack.locate(&"b".to_string()).is_none());
    assert_partition(&t.stack);
}

#[test]
fn delete_removes_from_every_group() {
    let mut t = Transaction::setup(sample(), false, true, false);
    let displaced = t.delete_patches(&strs(&["u", "h", "d"]));
    assert!(displaced.is_empty());
    assert_eq!(all_names(&t.stack), strs(&["a", "b", "c"]));
}

#[test]
fn push_needs_a_merge_when_the_parent_moved() {
    let mut t = Transaction::setup(sample(), false, true, false);
    t.push_patches(&strs(&["u"])).unwrap();
    match t.next_push().unwrap() {
        PushStep::Merge(q) => {
            assert_eq!(q.name, "u");
            assert_eq!(q.base_tree, oid(101));
            assert_eq!(q.ours_tree, oid(105));
            assert_eq!(q.theirs_tree, oid(106));
            assert_eq!(q.parent, oid(5));
        }
        other => panic!("expected a merge, got {other:?}"),
    }
    t.complete_push(MergeOutcome { commit: oid(60), tree: oid(160), conflicted: false }).unwrap();
    let top = t.stack.applied.last().unwrap();
    assert_eq!(top.name, "u");
    assert_eq!(top.commit.id, oid(60));
    assert_eq!(top.commit.parent, oid(5));
    assert_eq!(top.commit.parent_tree, oid(105));
    assert!(matches!(t.next_push(), Ok(PushStep::Done)));
}

#[test]
fn conflicting_push_stops_the_batch_and_stays_applied() {
    let mut s = sample();
    s.unapplied.push(patch("v", commit(8, 108, 1, 101)));
    let mut t = Transaction::setup(s, false, true, false);
    t.push_patches(&strs(&["u", "v"])).unwrap();
    assert!(matches!(t.next_push(), Ok(PushStep::Merge(_))));
    let r = t.complete_push(MergeOutcome { commit: oid(60), tree: oid(160), conflicted: true });
    assert_eq!(r, Err(TxError::PushConflict("u".to_string())));
    assert_eq!(t.stack.applied.last().unwrap().name, "u");
    assert_eq!(t.stack.applied.last().unwrap().commit.tree, oid(160));
    assert!(t.pending.is_empty());
    assert!(t.stack.locate(&"v".to_string()) == Some((PatchState::Unapplied, 0)));
    assert_eq!(t.conflicts, strs(&["u"]));
    assert!(t.failed);
}

#[test]
fn allowed_conflict_is_recorded_in_the_reflog() {
    let mut t = Transaction::setup(sample(), true, true, false);
    t.push_patches(&strs(&["u"])).unwrap();
    t.next_push().unwrap();
    let r = t.complete_push(MergeOutcome { commit: oid(60), tree: oid(160), conflicted: true });
    assert!(matches!(r, Err(TxError::PushConflict(_))));
    assert!(!t.failed);
    let mut persisted = sample();
    let out = t.execute(&mut persisted, "push").unwrap();
    assert_eq!(out.reflog_message, "push (CONFLICT)");
    assert_eq!(out.head, oid(60));
    assert_eq!(out.checkout, Some((oid(105), oid(160))));
    assert_eq!(persisted.applied.last().unwrap().name, "u");
}

#[test]
fn push_batch_rejects_applied_unknown_and_repeated_names() {
    let mut t = Transaction::setup(sample(), false, true, false);
    assert_eq!(t.push_patches(&strs(&["a"])), Err(TxError::AlreadyApplied("a".to_string())));
    let mut t = Transaction::setup(sample(), false, true, false);
    assert_eq!(t.push_patches(&strs(&["nope"])), Err(TxError::UnknownPatch("nope".to_string())));
    let mut t = Transaction::setup(sample(), false, true, false);
    assert_eq!(t.push_patches(&strs(&["u", "u"])), Err(TxError::AlreadyApplied("u".to_string())));
    assert!(t.failed);
}

#[test]
fn hidden_patch_can_be_pushed() {
    let mut t = Transaction::setup(sample(), false, true, false);
    t.pop_patches(&strs(&["a"]));
    t.push_patches(&strs(&["h"])).unwrap();
    match t.next_push().unwrap() {
        PushStep::FastForwarded(n) => assert_eq!(n, "h"),
        other => panic!("expected a fast-forward, got {other:?}"),
    }
    assert!(t.stack.hidden.is_empty());
    assert_eq!(names(&t.stack.applied), strs(&["h"]));
}

#[test]
fn complete_push_without_batch_is_refused() {
    let mut t = Transaction::setup(sample(), false, true, false);
    let r = t.complete_push(MergeOutcome { commit: oid(60), tree: oid(160), conflicted: false });
    assert_eq!(r, Err(TxError::NoPushPending));
    assert!(!t.failed);
}

#[test]
fn execute_after_fatal_error_leaves_persisted_stack() {
    let mut t = Transaction::setup(sample(), false, true, false);
    t.pop_patches(&strs(&["a"]));
    assert!(t.update_patch(&"nope".to_string(), commit(9, 109, 1, 101)).is_err());
    let mut persisted = sample();
    let before = format!("{persisted:?}");
    assert_eq!(t.execute(&mut persisted, "pop").unwrap_err(), TxError::Aborted);
    assert_eq!(format!("{persisted:?}"), before);
}

#[test]
fn execute_writes_the_working_copy() {
    let mut t = Transaction::setup(sample(), false, false, false);
    t.pop_patches(&strs(&["c"]));
    let mut persisted = sample();
    let out = t.execute(&mut persisted, "pop c").unwrap();
    assert_eq!(out.reflog_message, "pop c");
    assert_eq!(out.head, oid(3));
    assert_eq!(out.checkout, None);
    assert_eq!(names(&persisted.applied), strs(&["a", "b"]));
    assert_partition(&persisted);
}

#[test]
fn new_unapplied_refuses_a_taken_name() {
    let mut t = Transaction::setup(sample(), false, true, false);
    let r = t.new_unapplied("c".to_string(), commit(9, 109, 1, 101), 0);
    assert_eq!(r, Err(TxError::NameCollision("c".to_string())));
    assert!(!t.failed);
    t.new_unapplied("n".to_string(), commit(9, 109, 1, 101), 1).unwrap();
    assert_eq!(names(&t.stack.unapplied), strs(&["u", "n"]));
    assert_partition(&t.stack);
}

#[test]
fn update_patch_keeps_the_chain() {
    let mut t = Transaction::setup(sample(), false, true, false);
    // The top may take a new commit on the same parent.
    t.update_patch(&"d".to_string(), commit(50, 150, 4, 104)).unwrap();
    assert_eq!(t.stack.applied[3].commit.id, oid(50));
    // A patch below the top may not change its commit.
    let r = t.update_patch(&"b".to_string(), commit(30, 130, 2, 102));
    assert_eq!(r, Err(TxError::BrokenChain("b".to_string())));
    assert!(t.failed);
    // Unapplied patches take any commit.
    let mut t = Transaction::setup(sample(), false, true, false);
    t.update_patch(&"u".to_string(), commit(60, 160, 9, 109)).unwrap();
    assert_eq!(t.stack.unapplied[0].commit.parent, oid(9));
}

#[test]
fn locate_and_top() {
    let s = sample();
    assert_eq!(s.locate(&"c".to_string()), Some((PatchState::Applied, 2)));
    assert_eq!(s.locate(&"h".to_string()), Some((PatchState::Hidden, 0)));
    assert_eq!(s.top(), (oid(5), oid(105)));
    assert!(s.has(&"u".to_string()));
    assert!(!s.has(&"x".to_string()));
}

#[test]
fn well_formedness_check() {
    assert!(sample().is_well_formed());
    let mut s = sample();
    s.unapplied.push(patch("b", commit(9, 109, 1, 101)));
    assert!(!s.is_well_formed());
    let mut s = sample();
    s.applied.swap(1, 2);
    assert!(!s.is_well_formed());
    assert!(!s.is_chained());
}

#[test]
fn spilled_commit_keeps_parent_author_and_message() {
    let top = commit(5, 105, 4, 104);
    let c = stgit::stack::spilled_commit(&top, oid(55), oid(104));
    assert_eq!((c.id, c.tree, c.parent, c.parent_tree), (oid(55), oid(104), oid(4), oid(104)));
    assert_eq!(c.message, top.message);
    assert_eq!(c.author.name, top.author.name);
}
