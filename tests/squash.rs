use stgit::error::TxError;
use stgit::oid::ObjectId;
use stgit::signature::{reconcile_authors, CoAuthor, Signature};
use stgit::squash::{
    after_compose, check_squash, compose_plan, prepare_message, propose_squash, squash_message,
    trailer_lines, ComposePlan, SquashNext,
};
use stgit::stack::{Patch, PatchCommit, Stack};
use stgit::transaction::{PushStep, Transaction};

fn oid(n: u32) -> ObjectId {
    ObjectId { hi: 0, mid: 0, lo: n }
}

fn sig(name: &str, email: &str) -> Signature {
    Signature { name: name.as_bytes().to_vec(), email: email.as_bytes().to_vec(), time: 1_600_000_000, offset: 0 }
}

fn patch(name: &str, id: u32, tree: u32, parent: u32, parent_tree: u32, author: Signature, msg: &str) -> Patch {
    Patch {
        name: name.to_string(),
        commit: PatchCommit {
            id: oid(id),
            tree: oid(tree),
            parent: oid(parent),
            parent_tree: oid(parent_tree),
            author,
            message: msg.as_bytes().to_vec(),
        },
    }
}

fn strs(v: &[&str]) -> Vec<String> {
    v.iter().map(|s| s.to_string()).collect()
}

fn names(v: &[Patch]) -> Vec<String> {
    v.iter().map(|p| p.name.clone()).collect()
}

/// Applied a, b, c on base 1; b changes tree 102 into 103.
fn sample(author_b: Signature) -> Stack {
    Stack {
        base: oid(1),
        base_tree: oid(101),
        applied: vec![
            patch("a", 2, 102, 1, 101, sig("Ann", "ann@example.com"), "first patch\n\nmore\n\n"),
            patch("b", 3, 103, 2, 102, author_b, "  second patch  \n"),
            patch("c", 4, 104, 3, 103, sig("Ann", "ann@example.com"), "third\n"),
        ],
        unapplied: vec![],
        hidden: vec![],
    }
}

/// A tree-merge service in miniature: a diff applies where the tree is its
/// starting point.
fn run_plan(plan: &ComposePlan) -> Option<ObjectId> {
    let mut tree = plan.start_tree;
    for (from, to) in &plan.diffs {
        if tree != *from {
            return None;
        }
        tree = *to;
    }
    Some(tree)
}

#[test]
fn check_squash_errors() {
    let s = sample(sig("Ann", "ann@example.com"));
    assert_eq!(check_squash(&s, &strs(&["a", "b"]), None), Ok(()));
    assert_eq!(
        check_squash(&s, &strs(&["a"]), None),
        Err(TxError::InvalidSelection("need at least two patches".to_string()))
    );
    assert!(matches!(check_squash(&s, &strs(&["a", "a"]), None), Err(TxError::InvalidSelection(_))));
    assert!(matches!(check_squash(&s, &strs(&["a", "zz"]), None), Err(TxError::InvalidSelection(_))));
    let c = "c".to_string();
    assert_eq!(check_squash(&s, &strs(&["a", "b"]), Some(&c)), Err(TxError::NameCollision("c".to_string())));
    let b = "b".to_string();
    assert_eq!(check_squash(&s, &strs(&["a", "b"]), Some(&b)), Ok(()));
}

#[test]
fn compose_plan_skips_unchanged_patches() {
    let mut s = sample(sig("Ann", "ann@example.com"));
    s.applied.push(patch("e", 5, 104, 4, 104, sig("Ann", "ann@example.com"), "empty\n"));
    let plan = compose_plan(&s, &strs(&["a", "b", "e", "c"])).unwrap();
    assert_eq!(plan.start_tree, oid(102));
    assert_eq!(plan.diffs, vec![(oid(102), oid(103)), (oid(103), oid(104))]);
    assert!(matches!(compose_plan(&s, &strs(&["a", "x"])), Err(TxError::UnknownPatch(_))));
}

#[test]
fn prepare_message_numbers_each_patch() {
    let s = sample(sig("Ann", "ann@example.com"));
    let m = prepare_message(&s, &strs(&["a", "b"])).unwrap();
    assert_eq!(
        m,
        "# Commit message from patch #1: a\nfirst patch\n\nmore\n\n\
         # Commit message from patch #2: b\n  second patch\n\n"
    );
}

#[test]
fn prepare_message_rejects_bad_utf8() {
    let mut s = sample(sig("Ann", "ann@example.com"));
    s.applied[1].commit.message = vec![0x66, 0xff, 0x0a];
    assert!(matches!(prepare_message(&s, &strs(&["a", "b"])), Err(TxError::EncodingError(_))));
}

#[test]
fn same_author_twice_gives_that_author_and_no_trailers() {
    let mut first = sig("Ann", "ann@example.com");
    first.time = 10;
    let mut second = sig("Ann", "ann@example.com");
    second.time = 20;
    let plan = reconcile_authors(&vec![first, second], &sig("Zed", "zed@example.com"));
    assert_eq!(plan.author.name, b"Ann".to_vec());
    assert_eq!(plan.author.time, 10);
    assert!(plan.co_authors.is_empty());
}

#[test]
fn acting_user_with_two_patches_credits_only_the_other() {
    let x = || sig("Xavier", "x@example.com");
    let plan = reconcile_authors(&vec![x(), sig("Yan", "y@example.com"), x()], &x());
    assert_eq!(plan.author.name, b"Xavier".to_vec());
    assert_eq!(plan.co_authors.len(), 1);
    assert_eq!(plan.co_authors[0].name, b"Yan".to_vec());
    assert_eq!(plan.co_authors[0].count, 1);
}

#[test]
fn tie_is_broken_by_name() {
    let plan = reconcile_authors(
        &vec![sig("Yan", "y@example.com"), sig("Xavier", "x@example.com")],
        &sig("Zed", "z@example.com"),
    );
    assert_eq!(plan.author.name, b"Zed".to_vec());
    let order: Vec<Vec<u8>> = plan.co_authors.iter().map(|c| c.name.clone()).collect();
    assert_eq!(order, vec![b"Xavier".to_vec(), b"Yan".to_vec()]);
}

#[test]
fn more_patches_come_first() {
    let plan = reconcile_authors(
        &vec![
            sig("Amy", "a@example.com"),
            sig("Bob", "b@example.com"),
            sig("Bob", "b@example.com"),
            sig("Amy", "other@example.com"),
        ],
        &sig("Zed", "z@example.com"),
    );
    let order: Vec<(Vec<u8>, Vec<u8>, usize)> =
        plan.co_authors.iter().map(|c| (c.name.clone(), c.email.clone(), c.count)).collect();
    assert_eq!(
        order,
        vec![
            (b"Bob".to_vec(), b"b@example.com".to_vec(), 2),
            (b"Amy".to_vec(), b"a@example.com".to_vec(), 1),
            (b"Amy".to_vec(), b"other@example.com".to_vec(), 1),
        ]
    );
}

#[test]
fn trailer_lines_and_their_errors() {
    let co = vec![CoAuthor { name: b"Yan".to_vec(), email: b"y@example.com".to_vec(), count: 1 }];
    assert_eq!(trailer_lines(&co).unwrap(), vec!["Co-authored-by: Yan <y@example.com>".to_string()]);
    let bad_name = vec![CoAuthor { name: vec![0xc3], email: b"y@example.com".to_vec(), count: 1 }];
    assert_eq!(
        trailer_lines(&bad_name),
        Err(TxError::EncodingError("invalid UTF-8 in author name".to_string()))
    );
    let bad_email = vec![CoAuthor { name: b"Yan".to_vec(), email: vec![0xff], count: 1 }];
    assert_eq!(
        trailer_lines(&bad_email),
        Err(TxError::EncodingError("invalid UTF-8 in author email".to_string()))
    );
}

#[test]
fn message_with_trailers_drops_the_numbering() {
    let s = sample(sig("Yan", "y@example.com"));
    let co = vec![CoAuthor { name: b"Yan".to_vec(), email: b"y@example.com".to_vec(), count: 1 }];
    let m = squash_message(&s, &strs(&["a", "b"]), &co).unwrap();
    assert_eq!(m, "first patch\n\nmore\n\nsecond patch\n\nCo-authored-by: Yan <y@example.com>");
    let single = squash_message(&s, &strs(&["a", "b"]), &vec![]).unwrap();
    assert!(single.starts_with("# Commit message from patch #1: a\n"));
}

#[test]
fn proposal_sits_on_the_first_parent() {
    let s = sample(sig("Yan", "y@example.com"));
    let p = propose_squash(&s, &strs(&["a", "b"]), oid(103), &sig("Ann", "ann@example.com")).unwrap();
    assert_eq!(p.parent, oid(1));
    assert_eq!(p.parent_tree, oid(101));
    assert_eq!(p.tree, oid(103));
    assert_eq!(p.author.name, b"Ann".to_vec());
    assert_eq!(p.co_authors.len(), 1);
    assert!(p.message.ends_with("Co-authored-by: Yan <y@example.com>"));
}

#[test]
fn after_compose_decides() {
    assert_eq!(after_compose(Some(oid(7)), false), Ok(SquashNext::Propose(oid(7))));
    assert_eq!(after_compose(Some(oid(7)), true), Ok(SquashNext::Propose(oid(7))));
    assert_eq!(after_compose(None, false), Ok(SquashNext::FallBack));
    assert!(matches!(after_compose(None, true), Err(TxError::CausedConflicts(_))));
}

fn finish(t: &mut Transaction, names_: &[&str], tree: ObjectId, displaced: &[String], push: bool) -> String {
    let proposal = propose_squash(&t.stack, &strs(names_), tree, &sig("Ann", "ann@example.com")).unwrap();
    let squashed = Patch {
        name: "ab".to_string(),
        commit: PatchCommit {
            id: oid(90),
            tree: proposal.tree,
            parent: proposal.parent,
            parent_tree: proposal.parent_tree,
            author: proposal.author,
            message: proposal.message.into_bytes(),
        },
    };
    t.finish_squash(&strs(names_), squashed, &displaced.to_vec(), push).unwrap();
    "ab".to_string()
}

#[test]
fn squash_fast_path_replaces_the_patches() {
    let mut t = Transaction::setup(sample(sig("Ann", "ann@example.com")), true, true, false);
    let plan = compose_plan(&t.stack, &strs(&["a", "b"])).unwrap();
    let tree = match after_compose(run_plan(&plan), false).unwrap() {
        SquashNext::Propose(t) => t,
        SquashNext::FallBack => panic!("fast path should compose"),
    };
    assert_eq!(tree, oid(103));
    finish(&mut t, &["a", "b"], tree, &[], true);
    assert_eq!(t.pending, strs(&["ab", "c"]));
    loop {
        match t.next_push().unwrap() {
            PushStep::Done => break,
            PushStep::FastForwarded(_) => {}
            PushStep::Merge(q) => {
                assert_eq!(q.name, "c");
                assert_eq!(q.ours_tree, oid(103));
                t.complete_push(stgit::transaction::MergeOutcome { commit: oid(91), tree: oid(104), conflicted: false })
                    .unwrap();
            }
        }
    }
    assert_eq!(names(&t.stack.applied), strs(&["ab", "c"]));
    assert_eq!(t.stack.applied[0].commit.tree, oid(103));
    assert_eq!(t.stack.applied[0].commit.parent, oid(1));
}

#[test]
fn squash_fallback_reorders_then_composes_the_same_tree() {
    // c then a: c's diff does not apply on a's tree, so the fallback runs.
    let mut t = Transaction::setup(sample(sig("Ann", "ann@example.com")), true, true, false);
    let plan = compose_plan(&t.stack, &strs(&["c", "a"])).unwrap();
    assert_eq!(after_compose(run_plan(&plan), false), Ok(SquashNext::FallBack));
    let displaced = t.squash_fallback(&strs(&["c", "a"])).unwrap();
    assert_eq!(displaced, strs(&["b"]));
    assert!(t.stack.applied.is_empty());
    assert_eq!(t.pending, strs(&["c", "a"]));
    // c merges onto the base; a then merges onto c.
    assert!(matches!(t.next_push().unwrap(), PushStep::Merge(_)));
    t.complete_push(stgit::transaction::MergeOutcome { commit: oid(40), tree: oid(140), conflicted: false }).unwrap();
    assert!(matches!(t.next_push().unwrap(), PushStep::Merge(_)));
    t.complete_push(stgit::transaction::MergeOutcome { commit: oid(20), tree: oid(120), conflicted: false }).unwrap();
    assert!(matches!(t.next_push().unwrap(), PushStep::Done));
    let plan = compose_plan(&t.stack, &strs(&["c", "a"])).unwrap();
    let tree = match after_compose(run_plan(&plan), true).unwrap() {
        SquashNext::Propose(t) => t,
        SquashNext::FallBack => panic!("composition after the fallback must succeed"),
    };
    assert_eq!(tree, oid(120));
    finish(&mut t, &["c", "a"], tree, &displaced, true);
    assert_eq!(t.pending, strs(&["ab", "b"]));
    assert!(t.stack.applied.is_empty());
    assert_eq!(names(&t.stack.unapplied), strs(&["ab", "b"]));
}

#[test]
fn squash_name_collision_at_finish() {
    let mut t = Transaction::setup(sample(sig("Ann", "ann@example.com")), true, true, false);
    let squashed = patch("c", 90, 103, 1, 101, sig("Ann", "ann@example.com"), "x\n");
    let r = t.finish_squash(&strs(&["a", "b"]), squashed, &vec![], true);
    assert_eq!(r, Err(TxError::NameCollision("c".to_string())));
}

use stgit::signature::committer_for;
use stgit::squash::strip_comments;

#[test]
fn squash_of_unapplied_patches_keeps_their_place() {
    let ann = || sig("Ann", "ann@example.com");
    let mut s = sample(ann());
    s.unapplied = vec![
        patch("x", 10, 110, 1, 101, ann(), "x\n"),
        patch("u1", 11, 111, 1, 101, ann(), "u1\n"),
        patch("y", 12, 112, 1, 101, ann(), "y\n"),
        patch("u2", 13, 113, 11, 111, ann(), "u2\n"),
    ];
    let mut t = Transaction::setup(s, true, true, false);
    assert_eq!(t.stack.squash_position(&strs(&["u1", "u2"])), 1);
    assert!(!t.stack.has_applied_in(&strs(&["u1", "u2"])));
    assert!(t.stack.has_applied_in(&strs(&["u1", "b"])));
    let squashed = patch("u", 90, 113, 1, 101, ann(), "u\n");
    t.finish_squash(&strs(&["u1", "u2"]), squashed, &vec![], false).unwrap();
    assert_eq!(names(&t.stack.unapplied), strs(&["x", "u", "y"]));
    assert!(t.pending.is_empty());
}

#[test]
fn proposal_fails_on_unreadable_co_author() {
    let mut bad = sig("Yan", "y@example.com");
    bad.email = vec![0xff];
    let s = sample(bad);
    let r = propose_squash(&s, &strs(&["a", "b"]), oid(103), &sig("Ann", "ann@example.com"));
    assert_eq!(r.unwrap_err(), TxError::EncodingError("invalid UTF-8 in author email".to_string()));
    // The same unreadable author is the acting user: nobody is credited, so it succeeds.
    let mut bad_user = sig("Yan", "y@example.com");
    bad_user.email = vec![0xff];
    let mut s = sample(sig("Ann", "ann@example.com"));
    s.applied[1].commit.author = Signature { name: b"Yan".to_vec(), email: vec![0xff], time: 0, offset: 0 };
    let p = propose_squash(&s, &strs(&["a", "b"]), oid(103), &bad_user).unwrap();
    assert_eq!(p.co_authors.len(), 1);
    assert_eq!(p.co_authors[0].name, b"Ann".to_vec());
}

#[test]
fn proposal_for_one_author_keeps_the_base_message() {
    let s = sample(sig("Ann", "ann@example.com"));
    let p = propose_squash(&s, &strs(&["a", "b"]), oid(103), &sig("Zed", "z@example.com")).unwrap();
    assert_eq!(p.author.name, b"Ann".to_vec());
    assert!(p.co_authors.is_empty());
    assert_eq!(p.message, prepare_message(&s, &strs(&["a", "b"])).unwrap());
}

#[test]
fn committer_date_policy() {
    let user = Signature { name: b"Zed".to_vec(), email: b"z@x".to_vec(), time: 100, offset: 0 };
    let author = Signature { name: b"Ann".to_vec(), email: b"a@x".to_vec(), time: 50, offset: 120 };
    let c = committer_for(&user, &author, true);
    assert_eq!((c.name.clone(), c.time, c.offset), (b"Zed".to_vec(), 50, 120));
    let c = committer_for(&user, &author, false);
    assert_eq!((c.time, c.offset), (100, 0));
}

#[test]
fn comments_are_stripped() {
    assert_eq!(strip_comments("# Commit message from patch #1: a\nfirst\n\n# x\nsecond"), "first\n\nsecond");
    assert_eq!(strip_comments("plain"), "plain");
}
