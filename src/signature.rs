use vstd::prelude::*;

verus! {

/// Who made a change, and when. Two signatures name the same person when
/// their names and emails agree; the time plays no part in that.
#[derive(Debug)]
pub struct Signature {
    pub name: Vec<u8>,
    pub email: Vec<u8>,
    /// Seconds since the epoch.
    pub time: i64,
    /// Offset from UTC, in minutes.
    pub offset: i32,
}

/// One person among the authors of a set of patches, with the number of
/// patches they wrote.
#[derive(Debug)]
pub struct CoAuthor {
    pub name: Vec<u8>,
    pub email: Vec<u8>,
    pub count: usize,
}

/// The author of a squashed patch, and the other people to credit in
/// trailers, in trailer order.
#[derive(Debug)]
pub struct AuthorPlan {
    pub author: Signature,
    pub co_authors: Vec<CoAuthor>,
}

/// Whether `a` and `b` name the same person.
pub open spec fn same_person(a: Signature, b: Signature) -> bool {
    a.name@ == b.name@ && a.email@ == b.email@
}

/// Whether `a` and `b` agree in every field.
pub open spec fn same_signature(a: Signature, b: Signature) -> bool {
    a.name@ == b.name@ && a.email@ == b.email@ && a.time == b.time && a.offset == b.offset
}

/// Whether the person `c` is the one who signed `s`.
pub open spec fn is_person(c: CoAuthor, s: Signature) -> bool {
    c.name@ == s.name@ && c.email@ == s.email@
}

/// How many of `s` were signed by the person with this name and email.
pub open spec fn occurrences(s: Seq<Signature>, name: Seq<u8>, email: Seq<u8>) -> nat
    decreases s.len(),
{
    if s.len() == 0 {
        0
    } else {
        occurrences(s.drop_last(), name, email) + if s.last().name@ == name && s.last().email@
            == email {
            1nat
        } else {
            0nat
        }
    }
}

/// Byte-wise lexicographic order: `a` comes strictly before `b`.
pub open spec fn lex_lt(a: Seq<u8>, b: Seq<u8>) -> bool
    decreases a.len(),
{
    if a.len() == 0 {
        b.len() > 0
    } else if b.len() == 0 {
        false
    } else if a[0] != b[0] {
        a[0] < b[0]
    } else {
        lex_lt(a.drop_first(), b.drop_first())
    }
}

/// Trailer order: more patches first; among equal counts by name, then by
/// email.
pub open spec fn precedes(x: CoAuthor, y: CoAuthor) -> bool {
    x.count > y.count || (x.count == y.count && (lex_lt(x.name@, y.name@) || (x.name@ == y.name@
        && lex_lt(x.email@, y.email@))))
}

/// Whether every one of `s` was signed by the same person.
pub open spec fn one_person(s: Seq<Signature>) -> bool {
    forall|i: int| 0 <= i < s.len() ==> same_person(#[trigger] s[i], s[0])
}

/// Whether some person of `r` signed `sig`.
pub open spec fn covers(r: Seq<CoAuthor>, sig: Signature) -> bool {
    exists|i: int| 0 <= i < r.len() && is_person(#[trigger] r[i], sig)
}

/// Whether the person `c` signed one of `s`.
pub open spec fn signed_in(c: CoAuthor, s: Seq<Signature>) -> bool {
    exists|j: int| 0 <= j < s.len() && is_person(c, #[trigger] s[j])
}

/// The people to credit besides `author`: each distinct signer of `s` who is
/// not `author`, once, with their count, in trailer order.
#[verifier::opaque]
pub open spec fn credits(co: Seq<CoAuthor>, s: Seq<Signature>, author: Signature) -> bool {
    &&& forall|i: int|
        0 <= i < co.len() ==> {
            &&& (#[trigger] co[i]).count == occurrences(s, co[i].name@, co[i].email@)
            &&& signed_in(co[i], s)
            &&& !is_person(co[i], author)
        }
    &&& forall|j: int|
        0 <= j < s.len() && !same_person(#[trigger] s[j], author) ==> covers(co, s[j])
    &&& forall|i: int, k: int| 0 <= i < k < co.len() ==> precedes(#[trigger] co[i], #[trigger] co[k])
}

proof fn lemma_lex_irreflexive(a: Seq<u8>)
    ensures
        !lex_lt(a, a),
    decreases a.len(),
{
    if a.len() > 0 {
        lemma_lex_irreflexive(a.drop_first());
    }
}

proof fn lemma_lex_transitive(a: Seq<u8>, b: Seq<u8>, c: Seq<u8>)
    requires
        lex_lt(a, b),
        lex_lt(b, c),
    ensures
        lex_lt(a, c),
    decreases a.len(),
{
    if a.len() > 0 && a[0] == b[0] && b[0] == c[0] {
        lemma_lex_transitive(a.drop_first(), b.drop_first(), c.drop_first());
    }
}

proof fn lemma_lex_total(a: Seq<u8>, b: Seq<u8>)
    requires
        a != b,
    ensures
        lex_lt(a, b) || lex_lt(b, a),
    decreases a.len(),
{
    if a.len() == 0 {
        assert(b.len() != 0) by {
            if b.len() == 0 {
                assert(a =~= b);
            }
        }
    } else if b.len() > 0 && a[0] == b[0] {
        if a.drop_first() == b.drop_first() {
            assert(a =~= seq![a[0]] + a.drop_first());
            assert(b =~= seq![b[0]] + b.drop_first());
        }
        lemma_lex_total(a.drop_first(), b.drop_first());
    }
}

proof fn lemma_precedes_transitive(x: CoAuthor, y: CoAuthor, z: CoAuthor)
    requires
        precedes(x, y),
        precedes(y, z),
    ensures
        precedes(x, z),
{
    if x.count == y.count && y.count == z.count {
        if lex_lt(x.name@, y.name@) && lex_lt(y.name@, z.name@) {
            lemma_lex_transitive(x.name@, y.name@, z.name@);
        } else if x.name@ == y.name@ && y.name@ == z.name@ {
            lemma_lex_transitive(x.email@, y.email@, z.email@);
        }
    }
}

proof fn lemma_precedes_total(x: CoAuthor, y: CoAuthor)
    requires
        x.name@ != y.name@ || x.email@ != y.email@,
    ensures
        precedes(x, y) || precedes(y, x),
{
    if x.name@ != y.name@ {
        lemma_lex_total(x.name@, y.name@);
    } else {
        lemma_lex_total(x.email@, y.email@);
    }
}

/// A copy of `v`.
pub fn copy_bytes(v: &Vec<u8>) -> (r: Vec<u8>)
    ensures
        r@ == v@,
{
    let mut r: Vec<u8> = Vec::new();
    let mut i: usize = 0;
    while i < v.len()
        invariant
            i <= v@.len(),
            r@ == v@.subrange(0, i as int),
        decreases v@.len() - i,
    {
        r.push(v[i]);
        proof {
            assert(r@ =~= v@.subrange(0, i + 1));
        }
        i = i + 1;
    }
    proof {
        assert(v@.subrange(0, v@.len() as int) =~= v@);
    }
    r
}

/// Whether `a` and `b` hold the same bytes.
pub fn bytes_eq(a: &Vec<u8>, b: &Vec<u8>) -> (r: bool)
    ensures
        r == (a@ == b@),
{
    if a.len() != b.len() {
        return false;
    }
    let mut i: usize = 0;
    while i < a.len()
        invariant
            i <= a@.len() == b@.len(),
            a@.subrange(0, i as int) == b@.subrange(0, i as int),
        decreases a@.len() - i,
    {
        if a[i] != b[i] {
            return false;
        }
        proof {
            assert(a@.subrange(0, i + 1) =~= a@.subrange(0, i as int).push(a@[i as int]));
            assert(b@.subrange(0, i + 1) =~= b@.subrange(0, i as int).push(b@[i as int]));
        }
        i = i + 1;
    }
    proof {
        assert(a@.subrange(0, a@.len() as int) =~= a@);
        assert(b@.subrange(0, b@.len() as int) =~= b@);
    }
    true
}

/// Whether `a` comes strictly before `b`, byte by byte.
pub fn bytes_lt(a: &Vec<u8>, b: &Vec<u8>) -> (r: bool)
    ensures
        r == lex_lt(a@, b@),
{
    let mut i: usize = 0;
    proof {
        assert(a@.subrange(0, a@.len() as int) =~= a@);
        assert(b@.subrange(0, b@.len() as int) =~= b@);
    }
    while i < a.len() && i < b.len()
        invariant
            i <= a@.len(),
            i <= b@.len(),
            lex_lt(a@, b@) == lex_lt(
                a@.subrange(i as int, a@.len() as int),
                b@.subrange(i as int, b@.len() as int),
            ),
        decreases a@.len() - i,
    {
        let ghost sa = a@.subrange(i as int, a@.len() as int);
        let ghost sb = b@.subrange(i as int, b@.len() as int);
        proof {
            assert(sa[0] == a@[i as int]);
            assert(sb[0] == b@[i as int]);
        }
        if a[i] != b[i] {
            return a[i] < b[i];
        }
        proof {
            assert(sa.drop_first() =~= a@.subrange(i + 1, a@.len() as int));
            assert(sb.drop_first() =~= b@.subrange(i + 1, b@.len() as int));
        }
        i = i + 1;
    }
    i < b.len()
}

/// A copy of `s`.
pub fn copy_signature(s: &Signature) -> (r: Signature)
    ensures
        same_signature(r, *s),
{
    Signature { name: copy_bytes(&s.name), email: copy_bytes(&s.email), time: s.time, offset: s.offset }
}

/// Whether `c` comes before `d` in trailer order.
pub fn comes_before(c: &CoAuthor, d: &CoAuthor) -> (r: bool)
    ensures
        r == precedes(*c, *d),
{
    if c.count != d.count {
        return c.count > d.count;
    }
    bytes_lt(&c.name, &d.name) || (bytes_eq(&c.name, &d.name) && bytes_lt(&c.email, &d.email))
}

/// `people` lists the distinct signers of the first `n` of `s`, each once,
/// with the number of those they signed.
pub open spec fn counted(s: Seq<Signature>, n: int, people: Seq<CoAuthor>) -> bool {
    &&& forall|i: int|
        0 <= i < people.len() ==> {
            &&& (#[trigger] people[i]).count == occurrences(
                s.subrange(0, n),
                people[i].name@,
                people[i].email@,
            )
            &&& people[i].count <= n
            &&& exists|j: int| 0 <= j < n && is_person(people[i], #[trigger] s[j])
        }
    &&& forall|j: int| 0 <= j < n ==> covers(people, #[trigger] s[j])
    &&& forall|i: int, k: int|
        0 <= i < people.len() && 0 <= k < people.len() && i != k ==> !(#[trigger] people[i].name@
            == #[trigger] people[k].name@ && people[i].email@ == people[k].email@)
}

/// The position in `people` of the person who signed `sig`.
fn find_person(people: &Vec<CoAuthor>, sig: &Signature) -> (r: Option<usize>)
    ensures
        r matches Some(k) ==> k < people@.len() && is_person(people@[k as int], *sig),
        r is None ==> !covers(people@, *sig),
{
    let mut k: usize = 0;
    while k < people.len()
        invariant
            k <= people@.len(),
            forall|i: int| 0 <= i < k ==> !is_person(#[trigger] people@[i], *sig),
        decreases people@.len() - k,
    {
        if bytes_eq(&people[k].name, &sig.name) && bytes_eq(&people[k].email, &sig.email) {
            return Some(k);
        }
        k = k + 1;
    }
    None
}

proof fn lemma_occurrences_step(s: Seq<Signature>, n: int, name: Seq<u8>, email: Seq<u8>)
    requires
        0 <= n < s.len(),
    ensures
        occurrences(s.subrange(0, n + 1), name, email) == occurrences(s.subrange(0, n), name, email)
            + if s[n].name@ == name && s[n].email@ == email {
            1nat
        } else {
            0nat
        },
{
    assert(s.subrange(0, n + 1).drop_last() =~= s.subrange(0, n));
}

/// Counting one more signature of a person already listed.
#[verifier::rlimit(30)]
proof fn lemma_count_again(s: Seq<Signature>, n: int, before: Seq<CoAuthor>, after: Seq<CoAuthor>, k: int)
    requires
        0 <= n < s.len(),
        counted(s, n, before),
        0 <= k < before.len(),
        is_person(before[k], s[n]),
        after.len() == before.len(),
        forall|i: int| 0 <= i < after.len() && i != k ==> after[i] == before[i],
        after[k].name@ == before[k].name@,
        after[k].email@ == before[k].email@,
        after[k].count == before[k].count + 1,
    ensures
        counted(s, n + 1, after),
{
    assert forall|i: int| 0 <= i < after.len() implies {
        &&& (#[trigger] after[i]).count == occurrences(
            s.subrange(0, n + 1),
            after[i].name@,
            after[i].email@,
        )
        &&& after[i].count <= n + 1
        &&& exists|j: int| 0 <= j < n + 1 && is_person(after[i], #[trigger] s[j])
    } by {
        lemma_occurrences_step(s, n, after[i].name@, after[i].email@);
        if i != k {
            assert(!is_person(before[i], s[n])) by {
                if is_person(before[i], s[n]) {
                    assert(before[i].name@ == before[k].name@);
                }
            }
        }
        let j = choose|j: int| 0 <= j < n && is_person(before[i], #[trigger] s[j]);
        assert(is_person(after[i], s[j]));
    }
    assert forall|j: int| 0 <= j < n + 1 implies covers(after, #[trigger] s[j]) by {
        if j == n {
            assert(is_person(after[k], s[j]));
        } else {
            let i = choose|i: int| 0 <= i < before.len() && is_person(#[trigger] before[i], s[j]);
            assert(is_person(after[i], s[j]));
        }
    }
    assert forall|i: int, m: int|
        0 <= i < after.len() && 0 <= m < after.len() && i != m implies !(
        #[trigger] after[i].name@ == #[trigger] after[m].name@ && after[i].email@ == after[m].email@) by {
        assert(before[i].name@ == after[i].name@ && before[i].email@ == after[i].email@);
        assert(before[m].name@ == after[m].name@ && before[m].email@ == after[m].email@);
    }
}

/// Counting the first signature of a new person.
#[verifier::rlimit(30)]
proof fn lemma_count_new(s: Seq<Signature>, n: int, before: Seq<CoAuthor>, after: Seq<CoAuthor>)
    requires
        0 <= n < s.len(),
        counted(s, n, before),
        !covers(before, s[n]),
        after.len() == before.len() + 1,
        forall|i: int| 0 <= i < before.len() ==> after[i] == before[i],
        is_person(after[before.len() as int], s[n]),
        after[before.len() as int].count == 1,
    ensures
        counted(s, n + 1, after),
{
    let b = before.len() as int;
    assert forall|i: int| 0 <= i < after.len() implies {
        &&& (#[trigger] after[i]).count == occurrences(
            s.subrange(0, n + 1),
            after[i].name@,
            after[i].email@,
        )
        &&& after[i].count <= n + 1
        &&& exists|j: int| 0 <= j < n + 1 && is_person(after[i], #[trigger] s[j])
    } by {
        lemma_occurrences_step(s, n, after[i].name@, after[i].email@);
        if i < b {
            assert(after[i] == before[i]);
            assert(!is_person(before[i], s[n]));
        } else {
            assert forall|j: int| 0 <= j < s.subrange(0, n).len() implies !(
            #[trigger] s.subrange(0, n)[j].name@ == after[i].name@ && s.subrange(0, n)[j].email@
                == after[i].email@) by {
                assert(s.subrange(0, n)[j] == s[j]);
                assert(covers(before, s[j]));
                let x = choose|x: int| 0 <= x < before.len() && is_person(#[trigger] before[x], s[j]);
                if s[j].name@ == after[i].name@ && s[j].email@ == after[i].email@ {
                    assert(is_person(before[x], s[n]));
                }
            }
            lemma_no_occurrences(s.subrange(0, n), after[i].name@, after[i].email@);
            assert(is_person(after[i], s[n]));
        }
    }
    assert forall|j: int| 0 <= j < n + 1 implies covers(after, #[trigger] s[j]) by {
        if j == n {
            assert(is_person(after[b], s[j]));
        } else {
            let i = choose|i: int| 0 <= i < before.len() && is_person(#[trigger] before[i], s[j]);
            assert(after[i] == before[i]);
        }
    }
    assert forall|i: int, m: int|
        0 <= i < after.len() && 0 <= m < after.len() && i != m implies !(
        #[trigger] after[i].name@ == #[trigger] after[m].name@ && after[i].email@ == after[m].email@) by {
        if i < b && m < b {
            assert(after[i] == before[i]);
            assert(after[m] == before[m]);
        } else if i < b {
            assert(after[i] == before[i]);
            assert(!is_person(before[i], s[n]));
        } else {
            assert(after[m] == before[m]);
            assert(!is_person(before[m], s[n]));
        }
    }
}

/// The distinct signers of `s`, in order of first appearance, each with the
/// number of `s` they signed.
fn count_people(s: &Vec<Signature>) -> (r: Vec<CoAuthor>)
    ensures
        counted(s@, s@.len() as int, r@),
{
    let mut people: Vec<CoAuthor> = Vec::new();
    let mut n: usize = 0;
    while n < s.len()
        invariant
            n <= s@.len(),
            counted(s@, n as int, people@),
        decreases s@.len() - n,
    {
        let sig = &s[n];
        let ghost before = people@;
        match find_person(&people, sig) {
            Some(k) => {
                let p = people.remove(k);
                proof {
                    assert(p.count <= n);
                }
                people.insert(k, CoAuthor { name: p.name, email: p.email, count: p.count + 1 });
                proof {
                    lemma_count_again(s@, n as int, before, people@, k as int);
                }
            },
            None => {
                people.push(
                    CoAuthor { name: copy_bytes(&sig.name), email: copy_bytes(&sig.email), count: 1 },
                );
                proof {
                    lemma_count_new(s@, n as int, before, people@);
                }
            },
        }
        n = n + 1;
    }
    people
}

/// A person who signed none of `s` has no occurrences in it.
proof fn lemma_no_occurrences(s: Seq<Signature>, name: Seq<u8>, email: Seq<u8>)
    requires
        forall|j: int| 0 <= j < s.len() ==> !(#[trigger] s[j].name@ == name && s[j].email@ == email),
    ensures
        occurrences(s, name, email) == 0,
    decreases s.len(),
{
    if s.len() > 0 {
        assert forall|j: int| 0 <= j < s.drop_last().len() implies !(
        #[trigger] s.drop_last()[j].name@ == name && s.drop_last()[j].email@ == email) by {
            assert(s.drop_last()[j] == s[j]);
        }
        lemma_no_occurrences(s.drop_last(), name, email);
    }
}

/// Each of `co` comes before every later one.
pub open spec fn in_trailer_order(co: Seq<CoAuthor>) -> bool {
    forall|i: int, k: int| 0 <= i < k < co.len() ==> precedes(#[trigger] co[i], #[trigger] co[k])
}

/// Inserting a new person where the order asks keeps a list in order.
proof fn lemma_insert_in_order(co: Seq<CoAuthor>, p: CoAuthor, pos: int)
    requires
        in_trailer_order(co),
        0 <= pos <= co.len(),
        forall|x: int| 0 <= x < pos ==> !precedes(p, #[trigger] co[x]),
        pos < co.len() ==> precedes(p, co[pos]),
        forall|x: int| 0 <= x < co.len() ==> !(#[trigger] co[x].name@ == p.name@ && co[x].email@ == p.email@),
    ensures
        in_trailer_order(co.insert(pos, p)),
{
    let r = co.insert(pos, p);
    assert forall|i: int, k: int| 0 <= i < k < r.len() implies precedes(#[trigger] r[i], #[trigger] r[k]) by {
        if k < pos {
            assert(r[i] == co[i] && r[k] == co[k]);
        } else if k == pos {
            assert(r[i] == co[i]);
            lemma_precedes_total(co[i], p);
        } else if i < pos {
            assert(r[i] == co[i] && r[k] == co[k - 1]);
        } else if i == pos {
            assert(r[k] == co[k - 1]);
            if k - 1 > pos {
                lemma_precedes_transitive(p, co[pos], co[k - 1]);
            }
        } else {
            assert(r[i] == co[i - 1] && r[k] == co[k - 1]);
        }
    }
}

/// The people of `people` other than `user`, in trailer order.
#[verifier::rlimit(30)]
fn order_credits(people: Vec<CoAuthor>, user: &Signature, Ghost(s): Ghost<Seq<Signature>>) -> (r: Vec<
    CoAuthor,
>)
    requires
        counted(s, s.len() as int, people@),
    ensures
        credits(r@, s, *user),
{
    let ghost orig = people@;
    let mut people = people;
    let mut co: Vec<CoAuthor> = Vec::new();
    let ghost mut i: int = 0;
    while people.len() > 0
        invariant
            0 <= i <= orig.len(),
            people@ == orig.subrange(i, orig.len() as int),
            counted(s, s.len() as int, orig),
            in_trailer_order(co@),
            forall|x: int|
                0 <= x < co@.len() ==> exists|y: int|
                    0 <= y < i && #[trigger] co@[x] == orig[y] && !is_person(orig[y], *user),
            forall|y: int|
                0 <= y < i && !is_person(#[trigger] orig[y], *user) ==> co@.contains(orig[y]),
        decreases people@.len(),
    {
        let p = people.remove(0);
        proof {
            assert(p == orig[i]);
            assert(people@ =~= orig.subrange(i + 1, orig.len() as int));
        }
        if !(bytes_eq(&p.name, &user.name) && bytes_eq(&p.email, &user.email)) {
            let mut pos: usize = 0;
            while pos < co.len() && !comes_before(&p, &co[pos])
                invariant
                    pos <= co@.len(),
                    forall|x: int| 0 <= x < pos ==> !precedes(p, #[trigger] co@[x]),
                decreases co@.len() - pos,
            {
                pos = pos + 1;
            }
            let ghost before = co@;
            proof {
                assert forall|x: int| 0 <= x < before.len() implies !(#[trigger] before[x].name@
                    == p.name@ && before[x].email@ == p.email@) by {
                    let y = choose|y: int| 0 <= y < i && #[trigger] before[x] == orig[y] && !is_person(orig[y], *user);
                    assert(before[x] == orig[y]);
                }
                lemma_insert_in_order(before, p, pos as int);
            }
            co.insert(pos, p);
            proof {
                assert(co@ == before.insert(pos as int, orig[i]));
                assert forall|x: int| 0 <= x < co@.len() implies exists|y: int|
                    0 <= y < i + 1 && #[trigger] co@[x] == orig[y] && !is_person(orig[y], *user) by {
                    if x < pos {
                        assert(co@[x] == before[x]);
                    } else if x == pos {
                        assert(co@[x] == orig[i]);
                    } else {
                        assert(co@[x] == before[x - 1]);
                    }
                }
                assert forall|y: int|
                    0 <= y < i + 1 && !is_person(#[trigger] orig[y], *user) implies co@.contains(orig[y]) by {
                    if y == i {
                        assert(co@[pos as int] == orig[y]);
                    } else {
                        let x = choose|x: int| 0 <= x < before.len() && before[x] == orig[y];
                        if x < pos {
                            assert(co@[x] == orig[y]);
                        } else {
                            assert(co@[x + 1] == orig[y]);
                        }
                    }
                }
            }
        }
        proof {
            i = i + 1;
        }
    }
    proof {
        reveal(credits);
        assert(s.subrange(0, s.len() as int) =~= s);
        assert forall|x: int| 0 <= x < co@.len() implies {
            &&& (#[trigger] co@[x]).count == occurrences(s, co@[x].name@, co@[x].email@)
            &&& exists|j: int| 0 <= j < s.len() && is_person(co@[x], #[trigger] s[j])
            &&& !is_person(co@[x], *user)
        } by {
            let y = choose|y: int| 0 <= y < i && #[trigger] co@[x] == orig[y] && !is_person(orig[y], *user);
            assert(co@[x] == orig[y]);
        }
        assert forall|j: int| 0 <= j < s.len() && !same_person(#[trigger] s[j], *user) implies covers(
            co@,
            s[j],
        ) by {
            assert(covers(orig, s[j]));
            let y = choose|y: int| 0 <= y < orig.len() && is_person(#[trigger] orig[y], s[j]);
            assert(co@.contains(orig[y]));
            let x = choose|x: int| 0 <= x < co@.len() && co@[x] == orig[y];
            assert(is_person(co@[x], s[j]));
        }
    }
    co
}

/// The author of a patch squashed from patches by `authors`, and the people to
/// credit besides. Where one person wrote them all, that signature (the first)
/// is the author and nobody else is credited. Otherwise `user` is the author,
/// and every other person is credited once, most patches first, ties by name
/// and then by email.
#[verifier::rlimit(30)]
pub fn reconcile_authors(authors: &Vec<Signature>, user: &Signature) -> (r: AuthorPlan)
    requires
        authors@.len() > 0,
    ensures
        one_person(authors@) ==> same_signature(r.author, authors@[0]) && r.co_authors@.len()
            == 0,
        !one_person(authors@) ==> same_signature(r.author, *user) && credits(
            r.co_authors@,
            authors@,
            *user,
        ),
{
    let people = count_people(authors);
    let ghost s = authors@;
    proof {
        assert(s.subrange(0, s.len() as int) =~= s);
        assert(covers(people@, s[0]));
    }
    if people.len() == 1 {
        proof {
            assert forall|j: int| 0 <= j < s.len() implies same_person(#[trigger] s[j], s[0]) by {
                assert(covers(people@, s[j]));
            }
        }
        return AuthorPlan { author: copy_signature(&authors[0]), co_authors: Vec::new() };
    }
    proof {
        let a = people@[0];
        let b = people@[1];
        let j0 = choose|j: int| 0 <= j < s.len() && is_person(a, #[trigger] s[j]);
        let j1 = choose|j: int| 0 <= j < s.len() && is_person(b, #[trigger] s[j]);
        assert(!(a.name@ == b.name@ && a.email@ == b.email@));
        if one_person(s) {
            assert(same_person(s[j0], s[0]));
            assert(same_person(s[j1], s[0]));
        }
    }
    let co = order_credits(people, user, Ghost(s));
    AuthorPlan { author: copy_signature(user), co_authors: co }
}

/// An entry of a credits list: its count, a patch its person signed, and
/// not the author.
pub(crate) proof fn lemma_credit_entry(co: Seq<CoAuthor>, s: Seq<Signature>, author: Signature, i: int)
    requires
        credits(co, s, author),
        0 <= i < co.len(),
    ensures
        co[i].count == occurrences(s, co[i].name@, co[i].email@),
        signed_in(co[i], s),
        !is_person(co[i], author),
{
    reveal(credits);
}

/// Every signer other than the author is credited.
pub(crate) proof fn lemma_credit_cover(co: Seq<CoAuthor>, s: Seq<Signature>, author: Signature, j: int)
    requires
        credits(co, s, author),
        0 <= j < s.len(),
        !same_person(s[j], author),
    ensures
        covers(co, s[j]),
{
    reveal(credits);
}

/// A credits list is in trailer order.
proof fn lemma_credit_order(co: Seq<CoAuthor>, s: Seq<Signature>, author: Signature, i: int, k: int)
    requires
        credits(co, s, author),
        0 <= i < k < co.len(),
    ensures
        precedes(co[i], co[k]),
{
    reveal(credits);
}

/// In a list in trailer order no person stands twice.
proof fn lemma_ordered_distinct(co: Seq<CoAuthor>, s: Seq<Signature>, author: Signature, i: int, k: int)
    requires
        credits(co, s, author),
        0 <= i < k < co.len(),
    ensures
        !(co[i].name@ == co[k].name@ && co[i].email@ == co[k].email@),
{
    lemma_credit_order(co, s, author, i, k);
    lemma_credit_entry(co, s, author, i);
    lemma_credit_entry(co, s, author, k);
    if co[i].name@ == co[k].name@ && co[i].email@ == co[k].email@ {
        assert(co[i].count == co[k].count);
        lemma_lex_irreflexive(co[i].name@);
        lemma_lex_irreflexive(co[i].email@);
    }
}

/// Two patches by the same person: that person is the only author, so the
/// squash keeps the first signature and credits nobody else.
pub proof fn lemma_same_author_pair(s: Seq<Signature>)
    requires
        s.len() == 2,
        same_person(s[0], s[1]),
    ensures
        one_person(s),
{
}

/// Three patches, two by `user` and one by someone else: the acting user is
/// the author and exactly one trailer, for the other person, with a count of
/// one, is written.
pub proof fn lemma_user_and_one_other(s: Seq<Signature>, user: Signature, co: Seq<CoAuthor>)
    requires
        s.len() == 3,
        same_person(s[0], user),
        same_person(s[1], user),
        !same_person(s[2], user),
        credits(co, s, user),
    ensures
        !one_person(s),
        co.len() == 1,
        is_person(co[0], s[2]),
        co[0].count == 1,
{
    reveal(credits);
    assert(!same_person(s[2], s[0]));
    assert(covers(co, s[2]));
    let x = choose|x: int| 0 <= x < co.len() && is_person(#[trigger] co[x], s[2]);
    assert forall|i: int| 0 <= i < co.len() implies is_person(#[trigger] co[i], s[2]) by {
        assert(signed_in(co[i], s));
        let j = choose|j: int| 0 <= j < s.len() && is_person(co[i], #[trigger] s[j]);
        assert(!is_person(co[i], user));
    }
    if co.len() > 1 {
        lemma_ordered_distinct(co, s, user, 0, 1);
        assert(is_person(co[0], s[2]) && is_person(co[1], s[2]));
    }
    assert(is_person(co[0], s[2]));
    let n = s[2].name@;
    let e = s[2].email@;
    assert(s.drop_last().drop_last().drop_last() =~= Seq::<Signature>::empty());
    assert(occurrences(s.drop_last().drop_last().drop_last(), n, e) == 0);
    assert(occurrences(s.drop_last().drop_last(), n, e) == 0);
    assert(occurrences(s.drop_last(), n, e) == 0);
    assert(occurrences(s, n, e) == 1);
}

proof fn lemma_pair_counts(s: Seq<Signature>)
    requires
        s.len() == 2,
        !same_person(s[1], s[0]),
    ensures
        occurrences(s, s[0].name@, s[0].email@) == 1,
        occurrences(s, s[1].name@, s[1].email@) == 1,
{
    let n0 = s[0].name@;
    let e0 = s[0].email@;
    let n1 = s[1].name@;
    let e1 = s[1].email@;
    assert(s.drop_last().drop_last() =~= Seq::<Signature>::empty());
    assert(occurrences(s.drop_last().drop_last(), n0, e0) == 0);
    assert(occurrences(s.drop_last().drop_last(), n1, e1) == 0);
    assert(s.drop_last().last() == s[0]);
    assert(s.last() == s[1]);
    assert(occurrences(s.drop_last(), n0, e0) == 1);
    assert(occurrences(s.drop_last(), n1, e1) == 0);
}

/// Where every credited person signed one of two patches, at most two are
/// credited.
proof fn lemma_at_most_two(s: Seq<Signature>, user: Signature, co: Seq<CoAuthor>, a: int, b: int)
    requires
        s.len() == 2,
        credits(co, s, user),
        0 <= a < co.len(),
        0 <= b < co.len(),
        a != b,
        is_person(co[a], s[0]),
        is_person(co[b], s[1]),
        forall|i: int| 0 <= i < co.len() ==> is_person(#[trigger] co[i], s[0]) || is_person(co[i], s[1]),
    ensures
        co.len() <= 2,
{
    if co.len() > 2 {
        let c = if a != 0 && b != 0 {
            0
        } else if a != 1 && b != 1 {
            1
        } else {
            2
        };
        assert(is_person(co[c], s[0]) || is_person(co[c], s[1]));
        if a < c {
            lemma_ordered_distinct(co, s, user, a, c);
        } else {
            lemma_ordered_distinct(co, s, user, c, a);
        }
        if b < c {
            lemma_ordered_distinct(co, s, user, b, c);
        } else {
            lemma_ordered_distinct(co, s, user, c, b);
        }
    }
}

/// Where two patches by two people other than `user` are credited, each
/// credited entry is one of them, and each of them has an entry.
proof fn lemma_pair_entries(s: Seq<Signature>, user: Signature, co: Seq<CoAuthor>) -> (r: (int, int))
    requires
        s.len() == 2,
        !same_person(s[0], user),
        !same_person(s[1], user),
        !same_person(s[1], s[0]),
        credits(co, s, user),
    ensures
        0 <= r.0 < co.len(),
        0 <= r.1 < co.len(),
        r.0 != r.1,
        is_person(co[r.0], s[0]),
        is_person(co[r.1], s[1]),
        forall|i: int| 0 <= i < co.len() ==> is_person(#[trigger] co[i], s[0]) || is_person(co[i], s[1]),
{
    lemma_credit_cover(co, s, user, 0);
    lemma_credit_cover(co, s, user, 1);
    let a = choose|x: int| 0 <= x < co.len() && is_person(#[trigger] co[x], s[0]);
    let b = choose|x: int| 0 <= x < co.len() && is_person(#[trigger] co[x], s[1]);
    assert forall|i: int| 0 <= i < co.len() implies is_person(#[trigger] co[i], s[0]) || is_person(
        co[i],
        s[1],
    ) by {
        lemma_credit_entry(co, s, user, i);
        let j = choose|j: int| 0 <= j < s.len() && is_person(co[i], #[trigger] s[j]);
    }
    (a, b)
}

/// Of two credited people with one patch each, the one whose name comes
/// first stands first.
proof fn lemma_pair_order(s: Seq<Signature>, user: Signature, co: Seq<CoAuthor>, a: int, b: int)
    requires
        s.len() == 2,
        lex_lt(s[0].name@, s[1].name@),
        occurrences(s, s[0].name@, s[0].email@) == 1,
        occurrences(s, s[1].name@, s[1].email@) == 1,
        credits(co, s, user),
        co.len() == 2,
        0 <= a < 2,
        0 <= b < 2,
        a != b,
        is_person(co[a], s[0]),
        is_person(co[b], s[1]),
    ensures
        a == 0,
        b == 1,
{
    if b < a {
        lemma_credit_entry(co, s, user, a);
        lemma_credit_entry(co, s, user, b);
        assert(co[a].count == 1 && co[b].count == 1);
        lemma_credit_order(co, s, user, b, a);
        lemma_lex_irreflexive(s[0].name@);
        if co[b].name@ != co[a].name@ {
            lemma_lex_transitive(s[0].name@, s[1].name@, s[0].name@);
        }
    }
}

/// Two patches by two people, neither of them the acting user: the user is the
/// author and both are credited, once each, the one whose name comes first
/// first.
pub proof fn lemma_two_others(s: Seq<Signature>, user: Signature, co: Seq<CoAuthor>)
    requires
        s.len() == 2,
        !same_person(s[0], user),
        !same_person(s[1], user),
        lex_lt(s[0].name@, s[1].name@),
        credits(co, s, user),
    ensures
        !one_person(s),
        co.len() == 2,
        is_person(co[0], s[0]),
        is_person(co[1], s[1]),
{
    lemma_lex_irreflexive(s[0].name@);
    assert(!same_person(s[1], s[0]));
    lemma_pair_counts(s);
    let (a, b) = lemma_pair_entries(s, user, co);
    lemma_at_most_two(s, user, co, a, b);
    lemma_pair_order(s, user, co, a, b);
}


/// The committer of a new commit: the acting user, dated as the author where
/// `author_date` asks for it.
pub fn committer_for(user: &Signature, author: &Signature, author_date: bool) -> (r: Signature)
    ensures
        r.name@ == user.name@,
        r.email@ == user.email@,
        r.time == (if author_date {
            author.time
        } else {
            user.time
        }),
        r.offset == (if author_date {
            author.offset
        } else {
            user.offset
        }),
{
    let mut r = copy_signature(user);
    if author_date {
        r.time = author.time;
        r.offset = author.offset;
    }
    r
}

} // verus!
