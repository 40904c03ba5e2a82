use vstd::prelude::*;
use vstd::string::StringExecFns;
use vstd::utf8::{decode_utf8, valid_utf8};

use crate::error::TxError;
use crate::signature::{
    copy_signature, credits, same_person, occurrences, one_person, reconcile_authors, same_signature, CoAuthor,
    Signature,
};
use crate::manpage::{first_from, has_prefix, join_texts, starts_with};
use crate::oid::ObjectId;
use crate::stack::{contains_name, patch_named, strings, Patch, Stack, StackModel};
use crate::transaction::{batch_ok, Transaction};
use crate::text::{decimal, decimal_string, trim, trim_end, trim_end_of, trim_of, utf8_text};

verus! {

/// The tree composition that squashing tries first, in a scratch index: read
/// `start_tree`, then apply each diff (from the first tree to the second) in
/// order, then write the index out as a tree.
#[derive(Debug)]
pub struct ComposePlan {
    pub start_tree: ObjectId,
    pub diffs: Vec<(ObjectId, ObjectId)>,
}

/// The diffs that composing the patches `names` applies: for each patch after
/// the first, in order, the change from its parent's tree to its own, where
/// that changes anything.
pub open spec fn plan_diffs(m: StackModel, names: Seq<Seq<char>>) -> Seq<(ObjectId, ObjectId)>
    decreases names.len(),
{
    if names.len() <= 1 {
        seq![]
    } else {
        let c = patch_named(m, names.last()).commit;
        let rest = plan_diffs(m, names.drop_last());
        if c.parent_tree == c.tree {
            rest
        } else {
            rest.push((c.parent_tree, c.tree))
        }
    }
}

/// Whether every one of `names` names a patch of `m`.
pub open spec fn all_known(m: StackModel, names: Seq<Seq<char>>) -> bool {
    forall|i: int| 0 <= i < names.len() ==> m.has(#[trigger] names[i])
}

/// Whether the selection `names`, with the optional new name `new_name`, can
/// be squashed: two or more distinct patches of the stack, and a new name that
/// is one of them or is free.
pub open spec fn squashable(m: StackModel, names: Seq<Seq<char>>, new_name: Option<Seq<char>>) -> bool {
    &&& names.len() >= 2
    &&& names.no_duplicates()
    &&& all_known(m, names)
    &&& !name_taken(m, names, new_name)
}

/// Whether `new_name` is taken by a patch outside the selection `names`.
pub open spec fn name_taken(m: StackModel, names: Seq<Seq<char>>, new_name: Option<Seq<char>>) -> bool {
    new_name matches Some(n) && !names.contains(n) && m.has(n)
}

/// The text of the message of the patch named `n`.
pub open spec fn message_text(m: StackModel, n: Seq<char>) -> Seq<char> {
    decode_utf8(patch_named(m, n).commit.message@)
}

/// Whether every one of `names` names a patch whose message is valid UTF-8.
pub open spec fn messages_readable(m: StackModel, names: Seq<Seq<char>>) -> bool {
    forall|i: int|
        0 <= i < names.len() ==> m.has(#[trigger] names[i]) && valid_utf8(
            patch_named(m, names[i]).commit.message@,
        )
}

/// The part of the default squash message for the `number`th patch.
pub open spec fn message_block(number: nat, name: Seq<char>, text: Seq<char>) -> Seq<char> {
    "# Commit message from patch #"@ + decimal(number) + ": "@ + name + "\n"@ + trim_end_of(text)
        + "\n\n"@
}

/// The default message of a squash of `names`: a block for each patch, in
/// order, numbered from one.
pub open spec fn base_message(m: StackModel, names: Seq<Seq<char>>) -> Seq<char>
    decreases names.len(),
{
    if names.len() == 0 {
        seq![]
    } else {
        base_message(m, names.drop_last()) + message_block(
            names.len() as nat,
            names.last(),
            message_text(m, names.last()),
        )
    }
}

/// The view of an optional name.
pub open spec fn opt_view(n: Option<&String>) -> Option<Seq<char>> {
    match n {
        Some(s) => Some(s@),
        None => None,
    }
}

/// Checks that the selection `names` can be squashed under `new_name`. A new
/// name taken by a patch outside the selection gives `NameCollision`; fewer
/// than two patches, a name given twice or an unknown name gives
/// `InvalidSelection`.
#[verifier::rlimit(30)]
pub fn check_squash(stack: &Stack, names: &Vec<String>, new_name: Option<&String>) -> (r: Result<
    (),
    TxError,
>)
    requires
        stack@.wf(),
    ensures
        r is Ok <==> squashable(
            stack@,
            strings(names@),
            match new_name {
                Some(n) => Some(n@),
                None => None,
            },
        ),
        new_name is Some && name_taken(stack@, strings(names@), Some(new_name->Some_0@)) ==> r
            == Err::<(), TxError>(TxError::NameCollision(*new_name->Some_0)),
        !name_taken(stack@, strings(names@), opt_view(new_name)) && names@.len() < 2 ==> (r matches Err(
            TxError::InvalidSelection(s),
        ) && s@ == "need at least two patches"@),
        !name_taken(stack@, strings(names@), opt_view(new_name)) && !squashable(
            stack@,
            strings(names@),
            opt_view(new_name),
        ) ==> r matches Err(TxError::InvalidSelection(_)),
{
    let ghost sn = strings(names@);
    if let Some(n) = new_name {
        if !contains_name(names, n) && stack.has(n) {
            return Err(TxError::NameCollision(n.clone()));
        }
    }
    let ghost nn = match new_name {
        Some(n) => Some(n@),
        None => None,
    };
    assert(!name_taken(stack@, sn, nn));
    if names.len() < 2 {
        return Err(TxError::InvalidSelection(String::from_str("need at least two patches")));
    }
    let mut i: usize = 0;
    while i < names.len()
        invariant
            i <= names@.len(),
            names@.len() >= 2,
            stack@.wf(),
            sn == strings(names@),
            !name_taken(stack@, sn, nn),
            new_name is Some ==> !name_taken(stack@, sn, Some(new_name->Some_0@)),
            sn.subrange(0, i as int).no_duplicates(),
            forall|j: int| 0 <= j < i ==> stack@.has(#[trigger] sn[j]),
        decreases names@.len() - i,
    {
        if !stack.has(&names[i]) {
            proof {
                assert(sn[i as int] == names@[i as int]@);
            }
            return Err(TxError::InvalidSelection(String::from_str("unknown patch in selection")));
        }
        let mut j: usize = 0;
        while j < i
            invariant
                j <= i < names@.len(),
                sn == strings(names@),
                new_name is Some ==> !name_taken(stack@, sn, Some(new_name->Some_0@)),
                forall|k: int| 0 <= k < j ==> sn[k] != sn[i as int],
            decreases i - j,
        {
            if names[j] == names[i] {
                proof {
                    assert(sn[j as int] == sn[i as int]);
                }
                return Err(TxError::InvalidSelection(String::from_str("patch given twice")));
            }
            j = j + 1;
        }
        proof {
            let sub = sn.subrange(0, i + 1);
            assert forall|a: int, b: int| 0 <= a < b < sub.len() implies #[trigger] sub[a]
                != #[trigger] sub[b] by {
                assert(sub[a] == sn[a]);
                assert(sub[b] == sn[b]);
                if b < i {
                    assert(sn.subrange(0, i as int)[a] == sn[a]);
                    assert(sn.subrange(0, i as int)[b] == sn[b]);
                }
            }
        }
        i = i + 1;
    }
    proof {
        assert(sn.subrange(0, sn.len() as int) =~= sn);
    }
    Ok(())
}

/// The fast-path composition of the patches `names`: start from the first
/// one's tree and apply, in order, the change of each later one. Fails with
/// `UnknownPatch` where a name is not in the stack.
pub fn compose_plan(stack: &Stack, names: &Vec<String>) -> (r: Result<ComposePlan, TxError>)
    requires
        stack@.wf(),
        names@.len() >= 1,
    ensures
        r is Ok <==> all_known(stack@, strings(names@)),
        r matches Ok(p) ==> p.start_tree == patch_named(stack@, names@[0]@).commit.tree
            && p.diffs@ == plan_diffs(stack@, strings(names@)),
{
    let ghost m = stack@;
    let ghost sn = strings(names@);
    let start_tree = match stack.patch(&names[0]) {
        Some(p) => p.commit.tree,
        None => {
            proof {
                assert(sn[0] == names@[0]@);
            }
            return Err(TxError::UnknownPatch(names[0].clone()));
        },
    };
    let mut diffs: Vec<(ObjectId, ObjectId)> = Vec::new();
    let mut i: usize = 1;
    while i < names.len()
        invariant
            1 <= i <= names@.len(),
            m == stack@,
            m.wf(),
            sn == strings(names@),
            diffs@ == plan_diffs(m, sn.subrange(0, i as int)),
            forall|j: int| 0 <= j < i ==> m.has(#[trigger] sn[j]),
        decreases names@.len() - i,
    {
        let c = match stack.patch(&names[i]) {
            Some(p) => &p.commit,
            None => {
                proof {
                    assert(sn[i as int] == names@[i as int]@);
                }
                return Err(TxError::UnknownPatch(names[i].clone()));
            },
        };
        proof {
            assert(sn.subrange(0, i + 1).drop_last() =~= sn.subrange(0, i as int));
            assert(sn.subrange(0, i + 1).last() == sn[i as int]);
        }
        if c.parent_tree != c.tree {
            diffs.push((c.parent_tree, c.tree));
        }
        i = i + 1;
    }
    proof {
        assert(sn.subrange(0, sn.len() as int) =~= sn);
    }
    Ok(ComposePlan { start_tree, diffs })
}

/// The default message of a squash of `names`: for each patch, in order, a
/// comment line naming it and its number, then its message without trailing
/// whitespace, then a blank line. Fails with `UnknownPatch` or
/// `EncodingError` where a patch is missing or its message is not UTF-8.
#[verifier::rlimit(30)]
pub fn prepare_message(stack: &Stack, names: &Vec<String>) -> (r: Result<String, TxError>)
    requires
        stack@.wf(),
        names@.len() < u64::MAX,
    ensures
        r is Ok <==> messages_readable(stack@, strings(names@)),
        r matches Ok(s) ==> s@ == base_message(stack@, strings(names@)),
        r matches Err(e) ==> e is UnknownPatch || e is EncodingError,
        all_known(stack@, strings(names@)) && !messages_readable(stack@, strings(names@)) ==> r matches Err(
            TxError::EncodingError(_),
        ),
{
    let ghost m = stack@;
    let ghost sn = strings(names@);
    let mut out = String::new();
    let mut i: usize = 0;
    while i < names.len()
        invariant
            i <= names@.len() < u64::MAX,
            m == stack@,
            m.wf(),
            sn == strings(names@),
            out@ == base_message(m, sn.subrange(0, i as int)),
            messages_readable(m, sn.subrange(0, i as int)),
        decreases names@.len() - i,
    {
        let name = &names[i];
        proof {
            assert(sn[i as int] == name@);
        }
        let p = match stack.patch(name) {
            Some(p) => p,
            None => {
                return Err(TxError::UnknownPatch(name.clone()));
            },
        };
        let text = match utf8_text(p.commit.message.as_slice()) {
            Some(t) => t,
            None => {
                let mut what = String::from_str("message of patch `");
                what.append(name.as_str());
                what.append("` is not valid UTF-8");
                return Err(TxError::EncodingError(what));
            },
        };
        let body = trim_end(text.as_str());
        let number = decimal_string((i + 1) as u64);
        out.append("# Commit message from patch #");
        out.append(number.as_str());
        out.append(": ");
        out.append(name.as_str());
        out.append("\n");
        out.append(body.as_str());
        out.append("\n\n");
        proof {
            let next = sn.subrange(0, i + 1);
            assert(next.drop_last() =~= sn.subrange(0, i as int));
            assert(next.last() == name@);
            assert(next.len() == i + 1);
            assert(forall|j: int| 0 <= j < i ==> #[trigger] next[j] == sn.subrange(0, i as int)[j]);
        }
        i = i + 1;
    }
    proof {
        assert(sn.subrange(0, sn.len() as int) =~= sn);
    }
    Ok(out)
}

/// The trailer that credits a co-author.
pub open spec fn trailer_line(name: Seq<char>, email: Seq<char>) -> Seq<char> {
    "Co-authored-by: "@ + name + " <"@ + email + ">"@
}

/// The trailer that credits `c`, whose name and email are read as UTF-8.
pub open spec fn trailer_of(c: CoAuthor) -> Seq<char> {
    trailer_line(decode_utf8(c.name@), decode_utf8(c.email@))
}

/// Whether the names and emails of `co` are all valid UTF-8.
pub open spec fn credits_readable(co: Seq<CoAuthor>) -> bool {
    forall|i: int|
        0 <= i < co.len() ==> valid_utf8((#[trigger] co[i]).name@) && valid_utf8(co[i].email@)
}

/// `parts` with `sep` between each two.
pub open spec fn joined(parts: Seq<Seq<char>>, sep: Seq<char>) -> Seq<char>
    decreases parts.len(),
{
    if parts.len() == 0 {
        seq![]
    } else if parts.len() == 1 {
        parts[0]
    } else {
        joined(parts.drop_last(), sep) + sep + parts.last()
    }
}

/// The messages of the patches `names`, each trimmed.
pub open spec fn trimmed_texts(m: StackModel, names: Seq<Seq<char>>) -> Seq<Seq<char>> {
    names.map_values(|n: Seq<char>| trim_of(message_text(m, n)))
}

/// The message of a squash that credits `co`: the trimmed messages, in order,
/// separated by blank lines, then a blank line and a trailer for each of `co`.
pub open spec fn credited_message(m: StackModel, names: Seq<Seq<char>>, co: Seq<CoAuthor>) -> Seq<
    char,
> {
    joined(trimmed_texts(m, names), "\n\n"@) + "\n\n"@ + joined(
        co.map_values(|c: CoAuthor| trailer_of(c)),
        "\n"@,
    )
}

/// The authors of the patches `names`, in order.
pub open spec fn authors_of(m: StackModel, names: Seq<Seq<char>>) -> Seq<Signature> {
    names.map_values(|n: Seq<char>| patch_named(m, n).commit.author)
}

/// Whether the name and email of `c` are valid UTF-8.
pub open spec fn readable(c: CoAuthor) -> bool {
    valid_utf8(c.name@) && valid_utf8(c.email@)
}

/// The first position at or after `k` of a co-author whose name or email is
/// not valid UTF-8, or -1.
pub open spec fn first_unreadable(co: Seq<CoAuthor>, k: int) -> int
    decreases co.len() - k,
{
    if k < 0 || k >= co.len() {
        -1
    } else if !readable(co[k]) {
        k
    } else {
        first_unreadable(co, k + 1)
    }
}

/// The error text for a co-author that cannot be read: it names the name
/// where the name is bad, else the email.
pub open spec fn bad_field(c: CoAuthor) -> Seq<char> {
    if !valid_utf8(c.name@) {
        "invalid UTF-8 in author name"@
    } else {
        "invalid UTF-8 in author email"@
    }
}

/// Whether every author of `s` other than `user` has a name and an email in
/// valid UTF-8.
pub open spec fn others_readable(s: Seq<Signature>, user: Signature) -> bool {
    forall|i: int|
        0 <= i < s.len() && !same_person(#[trigger] s[i], user) ==> valid_utf8(s[i].name@)
            && valid_utf8(s[i].email@)
}

/// The trailer lines that credit `co`, in order. Fails with `EncodingError`,
/// naming the field, where a name or email is not valid UTF-8.
pub fn trailer_lines(co: &Vec<CoAuthor>) -> (r: Result<Vec<String>, TxError>)
    ensures
        r is Ok <==> credits_readable(co@),
        r matches Ok(v) ==> strings(v@) == co@.map_values(|c: CoAuthor| trailer_of(c)),
        r matches Err(e) ==> e is EncodingError,
        r matches Err(TxError::EncodingError(s)) ==> s@ == bad_field(co@[first_unreadable(co@, 0)]),
{
    let mut lines: Vec<String> = Vec::new();
    let mut i: usize = 0;
    while i < co.len()
        invariant
            i <= co@.len(),
            credits_readable(co@.subrange(0, i as int)),
            first_unreadable(co@, 0) == first_unreadable(co@, i as int),
            strings(lines@) == co@.subrange(0, i as int).map_values(|c: CoAuthor| trailer_of(c)),
        decreases co@.len() - i,
    {
        let c = &co[i];
        let name = match utf8_text(c.name.as_slice()) {
            Some(s) => s,
            None => {
                return Err(TxError::EncodingError(String::from_str("invalid UTF-8 in author name")));
            },
        };
        let email = match utf8_text(c.email.as_slice()) {
            Some(s) => s,
            None => {
                return Err(TxError::EncodingError(String::from_str("invalid UTF-8 in author email")));
            },
        };
        let mut line = String::from_str("Co-authored-by: ");
        line.append(name.as_str());
        line.append(" <");
        line.append(email.as_str());
        line.append(">");
        let ghost before = lines@;
        lines.push(line);
        proof {
            let sub = co@.subrange(0, i + 1);
            assert(sub =~= co@.subrange(0, i as int).push(co@[i as int]));
            assert(strings(lines@) =~= strings(before).push(line@));
            assert(sub.map_values(|c: CoAuthor| trailer_of(c)) =~= co@.subrange(0, i as int).map_values(
                |c: CoAuthor| trailer_of(c),
            ).push(trailer_of(co@[i as int])));
            assert forall|j: int| 0 <= j < sub.len() implies valid_utf8((#[trigger] sub[j]).name@)
                && valid_utf8(sub[j].email@) by {
                if j < i {
                    assert(sub[j] == co@.subrange(0, i as int)[j]);
                }
            }
        }
        i = i + 1;
    }
    proof {
        assert(co@.subrange(0, co@.len() as int) =~= co@);
    }
    Ok(lines)
}

/// `parts` joined by `sep`.
fn join(parts: &Vec<String>, sep: &str) -> (r: String)
    ensures
        r@ == joined(strings(parts@), sep@),
{
    let ghost sp = strings(parts@);
    let mut out = String::new();
    let mut i: usize = 0;
    while i < parts.len()
        invariant
            i <= parts@.len(),
            sp == strings(parts@),
            out@ == joined(sp.subrange(0, i as int), sep@),
        decreases parts@.len() - i,
    {
        if i > 0 {
            out.append(sep);
        }
        out.append(parts[i].as_str());
        proof {
            let sub = sp.subrange(0, i + 1);
            assert(sub.drop_last() =~= sp.subrange(0, i as int));
            assert(sub.last() == parts@[i as int]@);
            if i == 0 {
                assert(out@ =~= sub[0]);
            }
        }
        i = i + 1;
    }
    proof {
        assert(sp.subrange(0, sp.len() as int) =~= sp);
    }
    out
}

/// The message of a squash of `names` that credits `co`. With nobody to
/// credit it is `prepare_message`'s. Otherwise it is the trimmed messages
/// separated by blank lines, then a blank line and the trailers.
#[verifier::rlimit(30)]
pub fn squash_message(stack: &Stack, names: &Vec<String>, co: &Vec<CoAuthor>) -> (r: Result<
    String,
    TxError,
>)
    requires
        stack@.wf(),
        names@.len() < u64::MAX,
    ensures
        r is Ok <==> messages_readable(stack@, strings(names@)) && (co@.len() == 0
            || credits_readable(co@)),
        r matches Ok(s) ==> s@ == if co@.len() == 0 {
            base_message(stack@, strings(names@))
        } else {
            credited_message(stack@, strings(names@), co@)
        },
        r matches Err(e) ==> e is UnknownPatch || e is EncodingError,
{
    let ghost m = stack@;
    let ghost sn = strings(names@);
    let base = match prepare_message(stack, names) {
        Ok(b) => b,
        Err(e) => {
            return Err(e);
        },
    };
    if co.len() == 0 {
        return Ok(base);
    }
    let lines = match trailer_lines(co) {
        Ok(l) => l,
        Err(e) => {
            return Err(e);
        },
    };
    let mut texts: Vec<String> = Vec::new();
    let mut i: usize = 0;
    while i < names.len()
        invariant
            i <= names@.len(),
            m == stack@,
            m.wf(),
            sn == strings(names@),
            messages_readable(m, sn),
            strings(texts@) == trimmed_texts(m, sn.subrange(0, i as int)),
        decreases names@.len() - i,
    {
        proof {
            assert(sn[i as int] == names@[i as int]@);
        }
        let p = match stack.patch(&names[i]) {
            Some(p) => p,
            None => {
                return Err(TxError::UnknownPatch(names[i].clone()));
            },
        };
        let text = match utf8_text(p.commit.message.as_slice()) {
            Some(t) => t,
            None => {
                return Err(TxError::EncodingError(String::from_str("invalid UTF-8 in message")));
            },
        };
        let body = trim(text.as_str());
        let ghost before = texts@;
        texts.push(body);
        proof {
            assert(strings(texts@) =~= strings(before).push(body@));
            assert(trimmed_texts(m, sn.subrange(0, i + 1)) =~= trimmed_texts(
                m,
                sn.subrange(0, i as int),
            ).push(trim_of(message_text(m, sn[i as int]))));
        }
        i = i + 1;
    }
    proof {
        assert(sn.subrange(0, sn.len() as int) =~= sn);
    }
    let mut message = join(&texts, "\n\n");
    message.append("\n\n");
    let trailers = join(&lines, "\n");
    message.append(trailers.as_str());
    Ok(message)
}

/// The commit a squash proposes for the edit step: on the first patch's
/// parent, with the composed tree, and the author, the people credited and
/// the message that the squashed patches call for.
#[derive(Debug)]
pub struct SquashProposal {
    pub parent: ObjectId,
    pub parent_tree: ObjectId,
    pub tree: ObjectId,
    pub author: Signature,
    pub co_authors: Vec<CoAuthor>,
    pub message: String,
}

/// Signatures that agree in name and email give the same counts and credits.
proof fn lemma_same_people(s1: Seq<Signature>, s2: Seq<Signature>, co: Seq<CoAuthor>, user: Signature)
    requires
        s1.len() == s2.len(),
        forall|j: int| 0 <= j < s1.len() ==> same_signature(#[trigger] s1[j], s2[j]),
    ensures
        one_person(s1) == one_person(s2),
        credits(co, s1, user) == credits(co, s2, user),
{
    reveal(credits);
    assert forall|name: Seq<u8>, email: Seq<u8>| occurrences(s1, name, email) == #[trigger] occurrences(s2, name, email) by {
        lemma_same_occurrences(s1, s2, name, email);
    }
    if credits(co, s1, user) {
        assert forall|i: int| 0 <= i < co.len() implies crate::signature::signed_in(#[trigger] co[i], s2) by {
            let j = choose|j: int| 0 <= j < s1.len() && crate::signature::is_person(co[i], #[trigger] s1[j]);
            assert(same_signature(s1[j], s2[j]));
        }
        assert forall|j: int| 0 <= j < s2.len() && !crate::signature::same_person(#[trigger] s2[j], user) implies crate::signature::covers(co, s2[j]) by {
            assert(same_signature(s1[j], s2[j]));
            assert(crate::signature::covers(co, s1[j]));
        }
    }
    if credits(co, s2, user) {
        assert forall|i: int| 0 <= i < co.len() implies crate::signature::signed_in(#[trigger] co[i], s1) by {
            let j = choose|j: int| 0 <= j < s2.len() && crate::signature::is_person(co[i], #[trigger] s2[j]);
            assert(same_signature(s1[j], s2[j]));
        }
        assert forall|j: int| 0 <= j < s1.len() && !crate::signature::same_person(#[trigger] s1[j], user) implies crate::signature::covers(co, s1[j]) by {
            assert(same_signature(s1[j], s2[j]));
            assert(crate::signature::covers(co, s2[j]));
        }
    }
    if one_person(s1) {
        assert forall|i: int| 0 <= i < s2.len() implies crate::signature::same_person(#[trigger] s2[i], s2[0]) by {
            assert(same_signature(s1[i], s2[i]));
            assert(same_signature(s1[0], s2[0]));
        }
    }
    if one_person(s2) {
        assert forall|i: int| 0 <= i < s1.len() implies crate::signature::same_person(#[trigger] s1[i], s1[0]) by {
            assert(same_signature(s1[i], s2[i]));
            assert(same_signature(s1[0], s2[0]));
        }
    }
}

proof fn lemma_same_occurrences(s1: Seq<Signature>, s2: Seq<Signature>, name: Seq<u8>, email: Seq<u8>)
    requires
        s1.len() == s2.len(),
        forall|j: int| 0 <= j < s1.len() ==> same_signature(#[trigger] s1[j], s2[j]),
    ensures
        occurrences(s1, name, email) == occurrences(s2, name, email),
    decreases s1.len(),
{
    if s1.len() > 0 {
        assert(same_signature(s1.last(), s2.last()));
        assert forall|j: int| 0 <= j < s1.drop_last().len() implies same_signature(#[trigger] s1.drop_last()[j], s2.drop_last()[j]) by {
            assert(same_signature(s1[j], s2[j]));
        }
        lemma_same_occurrences(s1.drop_last(), s2.drop_last(), name, email);
    }
}

/// Whoever is credited can be written exactly where every author other than
/// the user can be.
proof fn lemma_credits_readable(co: Seq<CoAuthor>, s: Seq<Signature>, user: Signature)
    requires
        credits(co, s, user),
    ensures
        credits_readable(co) <==> others_readable(s, user),
{
    if credits_readable(co) {
        assert forall|i: int| 0 <= i < s.len() && !same_person(#[trigger] s[i], user) implies valid_utf8(
            s[i].name@,
        ) && valid_utf8(s[i].email@) by {
            crate::signature::lemma_credit_cover(co, s, user, i);
            let k = choose|k: int| 0 <= k < co.len() && crate::signature::is_person(#[trigger] co[k], s[i]);
            assert(valid_utf8(co[k].name@) && valid_utf8(co[k].email@));
        }
    }
    if others_readable(s, user) {
        assert forall|k: int| 0 <= k < co.len() implies valid_utf8((#[trigger] co[k]).name@)
            && valid_utf8(co[k].email@) by {
            crate::signature::lemma_credit_entry(co, s, user, k);
            let j = choose|j: int| 0 <= j < s.len() && crate::signature::is_person(co[k], #[trigger] s[j]);
            assert(!same_person(s[j], user));
        }
    }
}

/// Works out the commit that squashing `names` onto the composed `tree`
/// proposes: the first patch's parent, the author and credits of
/// `reconcile_authors` over the patches' authors with `user` acting, and the
/// message of `squash_message`. It succeeds exactly where every patch is
/// known, every message is valid UTF-8, and, where several people wrote the
/// patches, so is the name and email of each one to credit; otherwise it fails
/// with `UnknownPatch` or `EncodingError`.
#[verifier::rlimit(30)]
pub fn propose_squash(stack: &Stack, names: &Vec<String>, tree: ObjectId, user: &Signature) -> (r:
    Result<SquashProposal, TxError>)
    requires
        stack@.wf(),
        1 <= names@.len() < u64::MAX,
    ensures
        r is Ok <==> messages_readable(stack@, strings(names@)) && (one_person(
            authors_of(stack@, strings(names@)),
        ) || others_readable(authors_of(stack@, strings(names@)), *user)),
        r is Ok ==> all_known(stack@, strings(names@)),
        r matches Err(e) ==> e is UnknownPatch || e is EncodingError,
        r matches Ok(p) ==> {
            let m = stack@;
            let sn = strings(names@);
            let first = patch_named(m, sn[0]).commit;
            let authors = authors_of(m, sn);
            &&& p.parent == first.parent
            &&& p.parent_tree == first.parent_tree
            &&& p.tree == tree
            &&& one_person(authors) ==> same_signature(p.author, authors[0]) && p.co_authors@.len()
                == 0
            &&& !one_person(authors) ==> same_signature(p.author, *user) && credits(
                p.co_authors@,
                authors,
                *user,
            )
            &&& p.message@ == if p.co_authors@.len() == 0 {
                base_message(m, sn)
            } else {
                credited_message(m, sn, p.co_authors@)
            }
        },
{
    let ghost m = stack@;
    let ghost sn = strings(names@);
    let mut authors: Vec<Signature> = Vec::new();
    let mut i: usize = 0;
    while i < names.len()
        invariant
            i <= names@.len(),
            m == stack@,
            m.wf(),
            sn == strings(names@),
            authors@.len() == i,
            all_known(m, sn.subrange(0, i as int)),
            forall|j: int| 0 <= j < i ==> same_signature(#[trigger] authors@[j], authors_of(m, sn)[j]),
        decreases names@.len() - i,
    {
        proof {
            assert(sn[i as int] == names@[i as int]@);
        }
        let p = match stack.patch(&names[i]) {
            Some(p) => p,
            None => {
                proof {
                    assert(!m.has(sn[i as int]));
                }
                return Err(TxError::UnknownPatch(names[i].clone()));
            },
        };
        authors.push(copy_signature(&p.commit.author));
        proof {
            let sub = sn.subrange(0, i + 1);
            assert forall|j: int| 0 <= j < sub.len() implies m.has(#[trigger] sub[j]) by {
                if j < i {
                    assert(sub[j] == sn.subrange(0, i as int)[j]);
                }
            }
        }
        i = i + 1;
    }
    proof {
        assert(sn.subrange(0, sn.len() as int) =~= sn);
    }
    proof {
        assert(sn[0] == names@[0]@);
        assert(m.has(sn[0]));
    }
    let first = match stack.patch(&names[0]) {
        Some(p) => &p.commit,
        None => {
            return Err(TxError::UnknownPatch(names[0].clone()));
        },
    };
    let plan = reconcile_authors(&authors, user);
    proof {
        lemma_same_people(authors@, authors_of(m, sn), plan.co_authors@, *user);
    }
    proof {
        if !one_person(authors_of(m, sn)) {
            lemma_credits_readable(plan.co_authors@, authors_of(m, sn), *user);
        }
    }
    let message = match squash_message(stack, names, &plan.co_authors) {
        Ok(s) => s,
        Err(e) => {
            return Err(e);
        },
    };
    Ok(
        SquashProposal {
            parent: first.parent,
            parent_tree: first.parent_tree,
            tree,
            author: plan.author,
            co_authors: plan.co_authors,
            message,
        },
    )
}

/// The names of `s` that `sel` does not hold, in order.
pub open spec fn names_not_in(s: Seq<Seq<char>>, sel: Seq<Seq<char>>) -> Seq<Seq<char>>
    decreases s.len(),
{
    if s.len() == 0 {
        s
    } else {
        let r = names_not_in(s.drop_last(), sel);
        if sel.contains(s.last()) {
            r
        } else {
            r.push(s.last())
        }
    }
}

/// The names of `v` that `sel` does not hold, in order.
fn keep_unselected(v: &Vec<String>, sel: &Vec<String>) -> (r: Vec<String>)
    ensures
        strings(r@) == names_not_in(strings(v@), strings(sel@)),
{
    let ghost sv = strings(v@);
    let mut r: Vec<String> = Vec::new();
    let mut i: usize = 0;
    while i < v.len()
        invariant
            i <= v@.len(),
            sv == strings(v@),
            strings(r@) == names_not_in(sv.subrange(0, i as int), strings(sel@)),
        decreases v@.len() - i,
    {
        let ghost before = r@;
        proof {
            let sub = sv.subrange(0, i + 1);
            assert(sub.drop_last() =~= sv.subrange(0, i as int));
            assert(sub.last() == v@[i as int]@);
        }
        if !contains_name(sel, &v[i]) {
            let n = v[i].clone();
            r.push(n);
            proof {
                assert(strings(r@) =~= strings(before).push(n@));
            }
        }
        i = i + 1;
    }
    proof {
        assert(sv.subrange(0, sv.len() as int) =~= sv);
    }
    r
}

/// What a squash does next, once its tree composition has run.
#[derive(Debug, PartialEq, Eq, Structural)]
pub enum SquashNext {
    /// The composition gave this tree: propose the squashed commit on it.
    Propose(ObjectId),
    /// The composition failed: pop and push the patches, then compose again.
    FallBack,
}

/// Decides the next step of a squash from what the composition gave
/// (`composed`) and whether the fallback has run (`fell_back`). A failed
/// composition after the fallback aborts with `CausedConflicts`.
pub fn after_compose(composed: Option<ObjectId>, fell_back: bool) -> (r: Result<SquashNext, TxError>)
    ensures
        composed matches Some(t) ==> r == Ok::<SquashNext, TxError>(SquashNext::Propose(t)),
        composed is None && !fell_back ==> r == Ok::<SquashNext, TxError>(SquashNext::FallBack),
        composed is None && fell_back ==> (r matches Err(TxError::CausedConflicts(s)) && s@
            == "conflicts while squashing"@),
{
    match composed {
        Some(t) => Ok(SquashNext::Propose(t)),
        None => if fell_back {
            Err(TxError::CausedConflicts(String::from_str("conflicts while squashing")))
        } else {
            Ok(SquashNext::FallBack)
        },
    }
}

impl Transaction {
    /// The fallback of a squash: pops the patches `names` and every applied
    /// patch above them, then starts a push batch of `names` in the order
    /// given. Returns the popped patches that are not squashed, bottom first,
    /// for `finish_squash` to push again.
    pub fn squash_fallback(&mut self, names: &Vec<String>) -> (r: Result<Vec<String>, TxError>)
        requires
            old(self).wf(),
        ensures
            final(self).wf(),
            final(self).stack@ == old(self).stack@.popped(strings(names@)),
            r is Ok <==> batch_ok(old(self).stack@.popped(strings(names@)), strings(names@)),
            r matches Ok(v) ==> strings(v@) == names_not_in(
                old(self).stack@.pop_names(strings(names@)),
                strings(names@),
            ) && final(self).pending@ == names@,
            r is Err ==> final(self).failed,
    {
        let popped = self.pop_patches(names);
        let displaced = keep_unselected(&popped, names);
        match self.push_patches(names) {
            Ok(()) => Ok(displaced),
            Err(e) => Err(e),
        }
    }

    /// Ends a squash of `names` into `patch`: deletes the squashed patches,
    /// puts `patch` into the unapplied group where the squashed patches stood
    /// (`squash_position`), and starts a push
    /// batch of the patches to put back: `patch` first where `push_squashed`,
    /// then the patches the deletion popped, then `displaced`.
    #[verifier::rlimit(30)]
    pub fn finish_squash(
        &mut self,
        names: &Vec<String>,
        patch: Patch,
        displaced: &Vec<String>,
        push_squashed: bool,
    ) -> (r: Result<(), TxError>)
        requires
            old(self).wf(),
        ensures
            final(self).wf(),
            ({
                let m = old(self).stack@;
                let sel = strings(names@);
                let d = m.deleted(sel);
                let queue = (if push_squashed {
                    seq![patch.name@]
                } else {
                    seq![]
                }) + m.displaced_names(sel) + strings(displaced@);
                let at = m.squash_position(sel);
                &&& d.has(patch.name@) ==> r == Err::<(), TxError>(
                    TxError::NameCollision(patch.name),
                ) && final(self).stack@ == d
                &&& !d.has(patch.name@) ==> final(self).stack@ == d.inserted(patch, at) && (r is Ok
                    <==> batch_ok(d.inserted(patch, at), queue)) && (r is Ok ==> strings(
                    final(self).pending@,
                ) == queue)
            }),
    {
        let ghost m = self.stack@;
        let ghost sel = strings(names@);
        let ghost p = patch;
        let at = self.stack.squash_position(names);
        let mut to_push = self.delete_patches(names);
        let ghost from_delete = to_push@;
        let mut i: usize = 0;
        while i < displaced.len()
            invariant
                i <= displaced@.len(),
                to_push@ == from_delete + displaced@.subrange(0, i as int),
            decreases displaced@.len() - i,
        {
            to_push.push(displaced[i].clone());
            proof {
                assert(to_push@ =~= from_delete + displaced@.subrange(0, i + 1));
            }
            i = i + 1;
        }
        proof {
            assert(displaced@.subrange(0, displaced@.len() as int) =~= displaced@);
        }
        let name = patch.name.clone();
        let Patch { name: patch_name, commit } = patch;
        match self.new_unapplied(patch_name, commit, at) {
            Ok(()) => {},
            Err(e) => {
                return Err(e);
            },
        }
        if push_squashed {
            to_push.insert(0, name);
        }
        proof {
            let queue = (if push_squashed {
                seq![p.name@]
            } else {
                seq![]
            }) + m.displaced_names(sel) + strings(displaced@);
            assert(strings(to_push@) =~= queue);
        }
        self.push_patches(&to_push)
    }
}

/// Where two patches `a` below `b` are the top of the applied group, as the
/// fallback leaves a two-patch selection, composing them starts from `a`'s
/// tree and applies at most the one change from it to `b`'s tree: the squash
/// comes out with `b`'s tree, whichever path got there.
pub proof fn lemma_top_pair_composes_to_top(m: StackModel)
    requires
        m.wf(),
        m.applied.len() >= 2,
    ensures
        ({
            let a = m.applied[m.applied.len() - 2];
            let b = m.applied[m.applied.len() - 1];
            let names = seq![a.name@, b.name@];
            &&& patch_named(m, names[0]).commit.tree == a.commit.tree
            &&& plan_diffs(m, names) == if a.commit.tree == b.commit.tree {
                Seq::<(ObjectId, ObjectId)>::empty()
            } else {
                seq![(a.commit.tree, b.commit.tree)]
            }
        }),
{
    let n = m.applied.len() as int;
    let a = m.applied[n - 2];
    let b = m.applied[n - 1];
    let names = seq![a.name@, b.name@];
    crate::stack::lemma_all_distinct(m);
    crate::stack::lemma_chain_at(m, n - 1);
    assert(m.all()[n - 2] == a);
    assert(m.all()[n - 1] == b);
    crate::stack::lemma_find_index(m.all(), n - 2);
    crate::stack::lemma_find_index(m.all(), n - 1);
    assert(names.drop_last() =~= seq![a.name@]);
    assert(names.last() == b.name@);
    assert(plan_diffs(m, seq![a.name@]) == Seq::<(ObjectId, ObjectId)>::empty());
    if a.commit.tree != b.commit.tree {
        assert(plan_diffs(m, names) =~= seq![(a.commit.tree, b.commit.tree)]);
    }
}

/// The pieces of `s` between occurrences of `c`.
pub open spec fn split_char(s: Seq<char>, c: char) -> Seq<Seq<char>>
    decreases s.len(),
{
    let i = first_from(s, c, 0);
    if i < 0 || i >= s.len() {
        seq![s]
    } else {
        seq![s.subrange(0, i)] + split_char(s.subrange(i + 1, s.len() as int), c)
    }
}

/// There is always at least one piece.
pub proof fn lemma_split_char_nonempty(s: Seq<char>, c: char)
    ensures
        split_char(s, c).len() >= 1,
{
}

/// The pieces of `s` between occurrences of `c`.
pub(crate) fn split_at_char(s: &str, c: char) -> (r: Vec<String>)
    ensures
        strings(r@) == split_char(s@, c),
{
    let n = s.unicode_len();
    let mut out: Vec<String> = Vec::new();
    let mut start: usize = 0;
    let mut done = false;
    proof {
        assert(s@.subrange(0, n as int) =~= s@);
        assert(strings(out@) + split_char(s@, c) =~= split_char(s@, c));
    }
    while !done
        invariant
            n == s@.len(),
            start <= n,
            done ==> split_char(s@, c) == strings(out@),
            !done ==> split_char(s@, c) == strings(out@) + split_char(
                s@.subrange(start as int, n as int),
                c,
            ),
        decreases n - start + (if done { 0int } else { 1int }),
    {
        let ghost rest = s@.subrange(start as int, n as int);
        let mut j: usize = 0;
        while start + j < n && s.get_char(start + j) != c
            invariant
                n == s@.len(),
                start <= n,
                start + j <= n,
                rest == s@.subrange(start as int, n as int),
                first_from(rest, c, 0) == first_from(rest, c, j as int),
            decreases n - start - j,
        {
            proof {
                assert(rest[j as int] == s@[start + j]);
            }
            j = j + 1;
        }
        let piece = String::from_str(s.substring_char(start, start + j));
        let ghost before = out@;
        out.push(piece);
        proof {
            assert(strings(out@) =~= strings(before).push(piece@));
            assert(rest.subrange(0, j as int) =~= piece@);
        }
        if start + j < n {
            proof {
                assert(rest[j as int] == c);
                assert(rest.subrange(j + 1, rest.len() as int) =~= s@.subrange(
                    start + j + 1,
                    n as int,
                ));
                assert(strings(out@) + split_char(s@.subrange(start + j + 1, n as int), c)
                    =~= strings(before) + split_char(rest, c));
            }
            start = start + j + 1;
        } else {
            proof {
                assert(first_from(rest, c, j as int) == -1);
                assert(rest =~= piece@);
                assert(strings(out@) =~= strings(before) + split_char(rest, c));
            }
            done = true;
        }
    }
    out
}

/// `text` without its comment lines, those that start with `#`.
pub open spec fn without_comments(text: Seq<char>) -> Seq<char> {
    joined(split_char(text, '\n').filter(|l: Seq<char>| !starts_with(l, "#"@)), "\n"@)
}

/// Drops the comment lines, those that start with `#`, from an edited
/// message.
pub fn strip_comments(text: &str) -> (r: String)
    ensures
        r@ == without_comments(text@),
{
    let lines = split_at_char(text, '\n');
    let ghost sl = strings(lines@);
    let ghost keep = |l: Seq<char>| !starts_with(l, "#"@);
    let mut kept: Vec<String> = Vec::new();
    let mut i: usize = 0;
    while i < lines.len()
        invariant
            i <= lines@.len(),
            sl == strings(lines@),
            sl == split_char(text@, '\n'),
            keep == (|l: Seq<char>| !starts_with(l, "#"@)),
            strings(kept@) == sl.subrange(0, i as int).filter(keep),
        decreases lines@.len() - i,
    {
        let ghost before = kept@;
        proof {
            let sub = sl.subrange(0, i + 1);
            assert(sub =~= sl.subrange(0, i as int).push(lines@[i as int]@));
            sl.subrange(0, i as int).lemma_filter_push(lines@[i as int]@, keep);
        }
        if !has_prefix(lines[i].as_str(), "#") {
            let l = lines[i].clone();
            kept.push(l);
            proof {
                assert(strings(kept@) =~= strings(before).push(l@));
            }
        }
        i = i + 1;
    }
    proof {
        assert(sl.subrange(0, sl.len() as int) =~= sl);
    }
    join_texts(&kept, "\n")
}

/// A squash of `sel` into the patch `p`, as `finish_squash` leaves the stack
/// where it succeeds, keeps the stack well formed, so the three groups still
/// partition the names; and those names are the ones before, without the
/// squashed patches, and with `p`'s.
pub proof fn lemma_squash_keeps_partition(m: StackModel, sel: Seq<Seq<char>>, p: Patch, at: int)
    requires
        m.wf(),
        !m.deleted(sel).has(p.name@),
        0 <= at <= m.deleted(sel).unapplied.len(),
    ensures
        m.deleted(sel).inserted(p, at).wf(),
        m.deleted(sel).inserted(p, at).patch_names() == Set::new(
            |n: Seq<char>| m.has(n) && !sel.contains(n),
        ).insert(p.name@),
{
    let d = m.deleted(sel);
    let r = d.inserted(p, at);
    crate::stack::lemma_pop_point_exists(m.applied, sel);
    crate::stack::lemma_deleted_wf(m, sel, crate::stack::pop_point(m.applied, sel));
    crate::stack::lemma_inserted_wf(d, p, at);
    let want = Set::new(|n: Seq<char>| m.has(n) && !sel.contains(n)).insert(p.name@);
    assert forall|n: Seq<char>| #[trigger] r.patch_names().contains(n) == want.contains(n) by {
        crate::stack::lemma_inserted_names(d, p, at, n);
        crate::stack::lemma_deleted_names(m, sel, n);
    }
    assert(r.patch_names() =~= want);
}

} // verus!
