use vstd::prelude::*;

use crate::oid::ObjectId;
use crate::signature::Signature;

verus! {

/// Where a patch stands in its stack.
#[derive(Clone, Copy, Debug, PartialEq, Eq, Structural)]
pub enum PatchState {
    Applied,
    Unapplied,
    Hidden,
}

/// What the stack knows of the commit behind a patch.
#[derive(Debug)]
pub struct PatchCommit {
    pub id: ObjectId,
    pub tree: ObjectId,
    /// The commit's first parent.
    pub parent: ObjectId,
    /// The tree of that parent.
    pub parent_tree: ObjectId,
    pub author: Signature,
    pub message: Vec<u8>,
}

/// A named changeset, backed by one commit.
#[derive(Debug)]
pub struct Patch {
    pub name: String,
    pub commit: PatchCommit,
}

/// The mathematical value of a stack: the base commit and the three groups,
/// each in order (the applied group from bottom to top).
pub struct StackModel {
    pub base: ObjectId,
    pub base_tree: ObjectId,
    pub applied: Seq<Patch>,
    pub unapplied: Seq<Patch>,
    pub hidden: Seq<Patch>,
}

/// The names of the patches of `s`, in order.
pub open spec fn names_of(s: Seq<Patch>) -> Seq<Seq<char>> {
    s.map_values(|p: Patch| p.name@)
}

/// The views of the strings of `v`, in order.
pub open spec fn strings(v: Seq<String>) -> Seq<Seq<char>> {
    v.map_values(|s: String| s@)
}

/// No two patches of `s` share a name.
pub open spec fn distinct_names(s: Seq<Patch>) -> bool {
    forall|i: int, j: int|
        0 <= i < s.len() && 0 <= j < s.len() && i != j ==> #[trigger] s[i].name@ != #[trigger] s[j].name@
}

/// `idx` maps each position of `t` to a position of `s` that holds a patch of
/// the same name, no two positions to the same one.
pub open spec fn embeds(t: Seq<Patch>, s: Seq<Patch>, idx: Seq<int>) -> bool {
    &&& idx.len() == t.len()
    &&& forall|i: int|
        0 <= i < t.len() ==> 0 <= #[trigger] idx[i] < s.len() && t[i].name@ == s[idx[i]].name@
    &&& forall|i: int, j: int|
        0 <= i < t.len() && 0 <= j < t.len() && i != j ==> #[trigger] idx[i] != #[trigger] idx[j]
}

/// The position of the patch named `n` in `s`, or -1 where there is none.
pub open spec fn find_index(s: Seq<Patch>, n: Seq<char>) -> int {
    if exists|i: int| 0 <= i < s.len() && #[trigger] s[i].name@ == n {
        choose|i: int| 0 <= i < s.len() && #[trigger] s[i].name@ == n
    } else {
        -1
    }
}

/// The patch named `n`, in whichever group it stands.
pub open spec fn patch_named(m: StackModel, n: Seq<char>) -> Patch {
    m.all()[find_index(m.all(), n)]
}

/// `p` with its commit replaced by `c`.
pub open spec fn with_commit(p: Patch, c: PatchCommit) -> Patch {
    Patch { name: p.name, commit: c }
}

/// `k` is the lowest position in `s` whose patch is selected, or the length
/// of `s` where none is.
pub open spec fn is_pop_point(s: Seq<Patch>, sel: Seq<Seq<char>>, k: int) -> bool {
    &&& 0 <= k <= s.len()
    &&& k < s.len() ==> sel.contains(s[k].name@)
    &&& forall|j: int| 0 <= j < k ==> !sel.contains(#[trigger] s[j].name@)
}

/// The position from which popping the selection `sel` off `s` starts.
pub open spec fn pop_point(s: Seq<Patch>, sel: Seq<Seq<char>>) -> int {
    choose|k: int| is_pop_point(s, sel, k)
}

/// The patches of `s` that `sel` does not select, in order.
pub open spec fn unselected(s: Seq<Patch>, sel: Seq<Seq<char>>) -> Seq<Patch>
    decreases s.len(),
{
    if s.len() == 0 {
        s
    } else {
        let r = unselected(s.drop_last(), sel);
        if sel.contains(s.last().name@) {
            r
        } else {
            r.push(s.last())
        }
    }
}

impl StackModel {
    /// Every patch: the applied, then the unapplied, then the hidden ones.
    pub open spec fn all(self) -> Seq<Patch> {
        self.applied + self.unapplied + self.hidden
    }

    /// The set of patch names of the stack.
    pub open spec fn patch_names(self) -> Set<Seq<char>> {
        names_of(self.all()).to_set()
    }

    /// The commit on top of the applied group, or the base.
    pub open spec fn top_id(self) -> ObjectId {
        if self.applied.len() == 0 {
            self.base
        } else {
            self.applied.last().commit.id
        }
    }

    /// The tree of the top commit.
    pub open spec fn top_tree(self) -> ObjectId {
        if self.applied.len() == 0 {
            self.base_tree
        } else {
            self.applied.last().commit.tree
        }
    }

    /// Each applied patch's commit has the one below it (or the base) as its
    /// first parent.
    pub open spec fn chained(self) -> bool {
        forall|i: int|
            0 <= i < self.applied.len() ==> {
                &&& (#[trigger] self.applied[i]).commit.parent == (if i == 0 {
                    self.base
                } else {
                    self.applied[i - 1].commit.id
                })
                &&& self.applied[i].commit.parent_tree == (if i == 0 {
                    self.base_tree
                } else {
                    self.applied[i - 1].commit.tree
                })
            }
    }

    /// Names are unique over the three groups, and the applied group is chained.
    #[verifier::opaque]
    pub open spec fn wf(self) -> bool {
        &&& distinct_names(self.all())
        &&& self.chained()
    }

    /// The stack with the selection `sel` popped: every applied patch from the
    /// lowest selected one upward moves, in order, to the front of the
    /// unapplied group.
    pub open spec fn popped(self, sel: Seq<Seq<char>>) -> StackModel {
        let k = pop_point(self.applied, sel);
        StackModel {
            base: self.base,
            base_tree: self.base_tree,
            applied: self.applied.subrange(0, k),
            unapplied: self.applied.subrange(k, self.applied.len() as int) + self.unapplied,
            hidden: self.hidden,
        }
    }

    /// The names that popping `sel` removes from the applied group, bottom first.
    pub open spec fn pop_names(self, sel: Seq<Seq<char>>) -> Seq<Seq<char>> {
        names_of(self.applied.subrange(pop_point(self.applied, sel), self.applied.len() as int))
    }

    /// The stack with the selection `sel` popped and then removed everywhere.
    pub open spec fn deleted(self, sel: Seq<Seq<char>>) -> StackModel {
        let k = pop_point(self.applied, sel);
        StackModel {
            base: self.base,
            base_tree: self.base_tree,
            applied: self.applied.subrange(0, k),
            unapplied: unselected(self.applied.subrange(k, self.applied.len() as int), sel)
                + unselected(self.unapplied, sel),
            hidden: unselected(self.hidden, sel),
        }
    }

    /// The names of the patches that deleting `sel` pops without deleting them.
    pub open spec fn displaced_names(self, sel: Seq<Seq<char>>) -> Seq<Seq<char>> {
        names_of(
            unselected(
                self.applied.subrange(pop_point(self.applied, sel), self.applied.len() as int),
                sel,
            ),
        )
    }

    /// Where a patch that replaces the selection `sel` goes in the unapplied
    /// group once the selection is deleted: at the front where an applied
    /// patch was selected (that is where the popped patches start), else where
    /// the first selected unapplied patch stood.
    pub open spec fn squash_position(self, sel: Seq<Seq<char>>) -> int {
        if pop_point(self.applied, sel) < self.applied.len() {
            0
        } else {
            pop_point(self.unapplied, sel)
        }
    }

    /// Whether the patch named `n` is unapplied or hidden.
    pub open spec fn pushable(self, n: Seq<char>) -> bool {
        names_of(self.unapplied).contains(n) || names_of(self.hidden).contains(n)
    }

    /// The patch named `n` among the unapplied and hidden ones.
    pub open spec fn pushable_patch(self, n: Seq<char>) -> Patch {
        if names_of(self.unapplied).contains(n) {
            self.unapplied[find_index(self.unapplied, n)]
        } else {
            self.hidden[find_index(self.hidden, n)]
        }
    }

    /// The stack with the patch named `n` moved from the unapplied or hidden
    /// group to the top of the applied group, with its commit replaced by `c`.
    pub open spec fn pushed(self, n: Seq<char>, c: PatchCommit) -> StackModel {
        let p = with_commit(self.pushable_patch(n), c);
        if names_of(self.unapplied).contains(n) {
            StackModel {
                base: self.base,
                base_tree: self.base_tree,
                applied: self.applied.push(p),
                unapplied: self.unapplied.remove(find_index(self.unapplied, n)),
                hidden: self.hidden,
            }
        } else {
            StackModel {
                base: self.base,
                base_tree: self.base_tree,
                applied: self.applied.push(p),
                unapplied: self.unapplied,
                hidden: self.hidden.remove(find_index(self.hidden, n)),
            }
        }
    }

    /// Whether the patch named `n` can be pushed with its commit unchanged:
    /// the commit already sits on the top of the stack.
    pub open spec fn fast_forwards(self, n: Seq<char>) -> bool {
        &&& self.pushable(n)
        &&& self.pushable_patch(n).commit.parent == self.top_id()
        &&& self.pushable_patch(n).commit.parent_tree == self.top_tree()
    }

    /// The stack with the patch named `n` pushed, its commit unchanged.
    pub open spec fn fast_forwarded(self, n: Seq<char>) -> StackModel {
        self.pushed(n, self.pushable_patch(n).commit)
    }

    /// The commit that a push of `p` onto this stack writes: the same author
    /// and message over the tree `tree`, with the top as its parent.
    pub open spec fn rewritten(self, p: Patch, id: ObjectId, tree: ObjectId) -> PatchCommit {
        PatchCommit {
            id,
            tree,
            parent: self.top_id(),
            parent_tree: self.top_tree(),
            author: p.commit.author,
            message: p.commit.message,
        }
    }
}

impl StackModel {
    /// Whether some patch of the stack is named `n`.
    pub open spec fn has(self, n: Seq<char>) -> bool {
        names_of(self.all()).contains(n)
    }

    /// The stack with `p` put into the unapplied group at `index`.
    pub open spec fn inserted(self, p: Patch, index: int) -> StackModel {
        StackModel {
            base: self.base,
            base_tree: self.base_tree,
            applied: self.applied,
            unapplied: self.unapplied.insert(index, p),
            hidden: self.hidden,
        }
    }

    /// Whether the patch named `n` may take the commit `c` and leave the
    /// applied group chained: an applied patch keeps its parent, and one below
    /// the top keeps its commit and tree too.
    pub open spec fn fits(self, n: Seq<char>, c: PatchCommit) -> bool {
        names_of(self.applied).contains(n) ==> {
            let i = find_index(self.applied, n);
            let cur = self.applied[i].commit;
            &&& c.parent == cur.parent
            &&& c.parent_tree == cur.parent_tree
            &&& (i == self.applied.len() - 1 || (c.id == cur.id && c.tree == cur.tree))
        }
    }

    /// The stack with the commit of the patch named `n` replaced by `c`, in
    /// whichever group the patch stands.
    pub open spec fn updated(self, n: Seq<char>, c: PatchCommit) -> StackModel {
        if names_of(self.applied).contains(n) {
            let i = find_index(self.applied, n);
            StackModel {
                applied: self.applied.update(i, with_commit(self.applied[i], c)),
                ..self
            }
        } else if names_of(self.unapplied).contains(n) {
            let i = find_index(self.unapplied, n);
            StackModel {
                unapplied: self.unapplied.update(i, with_commit(self.unapplied[i], c)),
                ..self
            }
        } else {
            let i = find_index(self.hidden, n);
            StackModel { hidden: self.hidden.update(i, with_commit(self.hidden[i], c)), ..self }
        }
    }
}

/// The stack after pushing `names` in order, each with its commit unchanged.
pub open spec fn fast_forward_all(m: StackModel, names: Seq<Seq<char>>) -> StackModel
    decreases names.len(),
{
    if names.len() == 0 {
        m
    } else {
        fast_forward_all(m.fast_forwarded(names[0]), names.drop_first())
    }
}

/// Each of `names`, in order, can be pushed with its commit unchanged.
pub open spec fn all_fast_forward(m: StackModel, names: Seq<Seq<char>>) -> bool
    decreases names.len(),
{
    names.len() == 0 || (m.fast_forwards(names[0]) && all_fast_forward(
        m.fast_forwarded(names[0]),
        names.drop_first(),
    ))
}

/// The ordered, partitioned collection of all patches of one branch.
#[derive(Debug)]
pub struct Stack {
    pub base: ObjectId,
    pub base_tree: ObjectId,
    pub applied: Vec<Patch>,
    pub unapplied: Vec<Patch>,
    pub hidden: Vec<Patch>,
}

impl View for Stack {
    type V = StackModel;

    open spec fn view(&self) -> StackModel {
        StackModel {
            base: self.base,
            base_tree: self.base_tree,
            applied: self.applied@,
            unapplied: self.unapplied@,
            hidden: self.hidden@,
        }
    }
}

/// A sequence that embeds into one with distinct names has distinct names.
proof fn lemma_embedded_distinct(t: Seq<Patch>, s: Seq<Patch>, idx: Seq<int>)
    requires
        distinct_names(s),
        embeds(t, s, idx),
    ensures
        distinct_names(t),
{
    assert forall|i: int, j: int|
        0 <= i < t.len() && 0 <= j < t.len() && i != j implies #[trigger] t[i].name@
        != #[trigger] t[j].name@ by {
        assert(idx[i] != idx[j]);
    }
}

/// With distinct names, `find_index` gives back the position of a name.
pub(crate) proof fn lemma_find_index(s: Seq<Patch>, i: int)
    requires
        distinct_names(s),
        0 <= i < s.len(),
    ensures
        find_index(s, s[i].name@) == i,
{
    let n = s[i].name@;
    assert(s[i].name@ == n);
    let j = find_index(s, n);
    assert(0 <= j < s.len() && s[j].name@ == n);
}

/// A name stands in `names_of(s)` exactly where some patch of `s` has it.
pub(crate) proof fn lemma_names_contains(s: Seq<Patch>, n: Seq<char>)
    ensures
        names_of(s).contains(n) <==> exists|i: int| 0 <= i < s.len() && #[trigger] s[i].name@ == n,
{
    if names_of(s).contains(n) {
        let i = choose|i: int| 0 <= i < names_of(s).len() && names_of(s)[i] == n;
        assert(s[i].name@ == n);
    }
    if exists|i: int| 0 <= i < s.len() && #[trigger] s[i].name@ == n {
        let i = choose|i: int| 0 <= i < s.len() && #[trigger] s[i].name@ == n;
        assert(names_of(s)[i] == n);
    }
}

/// A name stands in a concatenation exactly where it stands in a part.
proof fn lemma_concat_contains(x: Seq<Seq<char>>, y: Seq<Seq<char>>, n: Seq<char>)
    ensures
        (x + y).contains(n) <==> x.contains(n) || y.contains(n),
{
    if (x + y).contains(n) {
        let i = choose|i: int| 0 <= i < (x + y).len() && (x + y)[i] == n;
        if i >= x.len() {
            assert(y[i - x.len()] == n);
        }
    }
    if x.contains(n) {
        let i = choose|i: int| 0 <= i < x.len() && x[i] == n;
        assert((x + y)[i] == n);
    }
    if y.contains(n) {
        let i = choose|i: int| 0 <= i < y.len() && y[i] == n;
        assert((x + y)[x.len() + i] == n);
    }
}

/// The names of a stack are those of its three groups.
pub proof fn lemma_has(m: StackModel, n: Seq<char>)
    ensures
        m.has(n) <==> names_of(m.applied).contains(n) || names_of(m.unapplied).contains(n)
            || names_of(m.hidden).contains(n),
{
    let na = names_of(m.applied);
    let nu = names_of(m.unapplied);
    let nh = names_of(m.hidden);
    assert(names_of(m.all()) =~= na + nu + nh);
    lemma_concat_contains(na + nu, nh, n);
    lemma_concat_contains(na, nu, n);
}

/// The applied group of a well formed stack has distinct names.
proof fn lemma_applied_distinct(m: StackModel)
    requires
        m.wf(),
    ensures
        distinct_names(m.applied),
{
    reveal(StackModel::wf);
    assert forall|i: int, j: int|
        0 <= i < m.applied.len() && 0 <= j < m.applied.len() && i != j implies #[trigger] m.applied[i].name@
        != #[trigger] m.applied[j].name@ by {
        assert(m.all()[i] == m.applied[i]);
        assert(m.all()[j] == m.applied[j]);
    }
}

/// The unapplied group of a well formed stack has distinct names.
proof fn lemma_unapplied_distinct(m: StackModel)
    requires
        m.wf(),
    ensures
        distinct_names(m.unapplied),
{
    reveal(StackModel::wf);
    let a = m.applied.len() as int;
    assert forall|i: int, j: int|
        0 <= i < m.unapplied.len() && 0 <= j < m.unapplied.len() && i != j implies #[trigger] m.unapplied[i].name@
        != #[trigger] m.unapplied[j].name@ by {
        assert(m.all()[a + i] == m.unapplied[i]);
        assert(m.all()[a + j] == m.unapplied[j]);
    }
}

/// The hidden group of a well formed stack has distinct names.
proof fn lemma_hidden_distinct(m: StackModel)
    requires
        m.wf(),
    ensures
        distinct_names(m.hidden),
{
    reveal(StackModel::wf);
    let a = (m.applied.len() + m.unapplied.len()) as int;
    assert forall|i: int, j: int|
        0 <= i < m.hidden.len() && 0 <= j < m.hidden.len() && i != j implies #[trigger] m.hidden[i].name@
        != #[trigger] m.hidden[j].name@ by {
        assert(m.all()[a + i] == m.hidden[i]);
        assert(m.all()[a + j] == m.hidden[j]);
    }
}

/// There is exactly one pop point, and `pop_point` is it.
proof fn lemma_pop_point(s: Seq<Patch>, sel: Seq<Seq<char>>, k: int)
    requires
        is_pop_point(s, sel, k),
    ensures
        pop_point(s, sel) == k,
{
    let c = pop_point(s, sel);
    assert(is_pop_point(s, sel, c));
    if c < k {
        assert(!sel.contains(s[c].name@));
    }
    if k < c {
        assert(!sel.contains(s[k].name@));
    }
}

/// A pop point always exists.
pub(crate) proof fn lemma_pop_point_exists(s: Seq<Patch>, sel: Seq<Seq<char>>)
    ensures
        is_pop_point(s, sel, pop_point(s, sel)),
    decreases s.len(),
{
    if s.len() == 0 {
        assert(is_pop_point(s, sel, 0));
    } else {
        let t = s.drop_last();
        lemma_pop_point_exists(t, sel);
        let k = pop_point(t, sel);
        assert forall|j: int| 0 <= j < k implies !sel.contains(#[trigger] s[j].name@) by {
            assert(s[j] == t[j]);
        }
        if k < t.len() {
            assert(s[k] == t[k]);
            assert(is_pop_point(s, sel, k));
        } else if sel.contains(s.last().name@) {
            assert(is_pop_point(s, sel, k));
        } else {
            assert(is_pop_point(s, sel, s.len() as int));
        }
    }
}

/// `unselected(s, sel)` keeps, in order, some of the patches of `s`, none of
/// them selected; `idx` gives where each came from.
#[verifier::rlimit(30)]
pub(crate) proof fn lemma_unselected(s: Seq<Patch>, sel: Seq<Seq<char>>) -> (idx: Seq<int>)
    ensures
        embeds(unselected(s, sel), s, idx),
        forall|i: int|
            0 <= i < idx.len() ==> unselected(s, sel)[i] == s[#[trigger] idx[i]],
        forall|i: int|
            0 <= i < unselected(s, sel).len() ==> !sel.contains(
                #[trigger] unselected(s, sel)[i].name@,
            ),
        forall|i: int|
            0 <= i < s.len() && !sel.contains(#[trigger] s[i].name@) ==> unselected(
                s,
                sel,
            ).contains(s[i]),
    decreases s.len(),
{
    if s.len() == 0 {
        Seq::empty()
    } else {
        let t = s.drop_last();
        let prev = lemma_unselected(t, sel);
        let r = unselected(t, sel);
        if sel.contains(s.last().name@) {
            assert forall|i: int|
                0 <= i < s.len() && !sel.contains(#[trigger] s[i].name@) implies r.contains(
                s[i],
            ) by {
                assert(i < t.len());
                assert(t[i] == s[i]);
            }
            prev
        } else {
            let idx = prev.push(t.len() as int);
            let u = r.push(s.last());
            assert(u == unselected(s, sel));
            assert forall|i: int|
                0 <= i < s.len() && !sel.contains(#[trigger] s[i].name@) implies u.contains(
                s[i],
            ) by {
                if i < t.len() {
                    assert(t[i] == s[i]);
                    let j = choose|j: int| 0 <= j < r.len() && r[j] == t[i];
                    assert(u[j] == s[i]);
                } else {
                    assert(u[r.len() as int] == s[i]);
                }
            }
            idx
        }
    }
}

/// Deleting keeps the stack well formed.
/// Every sequence embeds into itself.
proof fn lemma_embeds_self(s: Seq<Patch>) -> (idx: Seq<int>)
    ensures
        embeds(s, s, idx),
{
    Seq::new(s.len(), |i: int| i)
}

/// Embeddings of two parts combine into one of their concatenation.
proof fn lemma_embeds_concat(
    t1: Seq<Patch>,
    s1: Seq<Patch>,
    i1: Seq<int>,
    t2: Seq<Patch>,
    s2: Seq<Patch>,
    i2: Seq<int>,
) -> (idx: Seq<int>)
    requires
        embeds(t1, s1, i1),
        embeds(t2, s2, i2),
    ensures
        embeds(t1 + t2, s1 + s2, idx),
{
    let n1 = t1.len() as int;
    let idx = Seq::new(
        (t1.len() + t2.len()) as nat,
        |x: int|
            if x < n1 {
                i1[x]
            } else {
                s1.len() + i2[x - n1]
            },
    );
    let t = t1 + t2;
    let s = s1 + s2;
    assert forall|x: int| 0 <= x < t.len() implies 0 <= #[trigger] idx[x] < s.len() && t[x].name@
        == s[idx[x]].name@ by {
        if x >= n1 {
            assert(t[x] == t2[x - n1]);
            assert(s[s1.len() + i2[x - n1]] == s2[i2[x - n1]]);
        }
    }
    assert forall|x: int, y: int|
        0 <= x < t.len() && 0 <= y < t.len() && x != y implies #[trigger] idx[x]
        != #[trigger] idx[y] by {
        if x < n1 && y < n1 {
            assert(i1[x] != i1[y]);
        } else if x >= n1 && y >= n1 {
            assert(i2[x - n1] != i2[y - n1]);
        }
    }
    idx
}

/// The two halves of well-formedness.
proof fn lemma_wf_parts(m: StackModel)
    ensures
        m.wf() <==> distinct_names(m.all()) && m.chained(),
{
    reveal(StackModel::wf);
}

/// A prefix of a chained applied group is chained.
proof fn lemma_prefix_chained(m: StackModel, d: StackModel, k: int)
    requires
        m.chained(),
        0 <= k <= m.applied.len(),
        d.base == m.base,
        d.base_tree == m.base_tree,
        d.applied == m.applied.subrange(0, k),
    ensures
        d.chained(),
{
    assert forall|i: int| 0 <= i < d.applied.len() implies #[trigger] d.applied[i] == m.applied[i] by {}
    assert forall|i: int| 0 <= i < d.applied.len() implies {
        &&& (#[trigger] d.applied[i]).commit.parent == (if i == 0 {
            d.base
        } else {
            d.applied[i - 1].commit.id
        })
        &&& d.applied[i].commit.parent_tree == (if i == 0 {
            d.base_tree
        } else {
            d.applied[i - 1].commit.tree
        })
    } by {
        assert(m.applied[i] == d.applied[i]);
        if i > 0 {
            assert(m.applied[i - 1] == d.applied[i - 1]);
        }
    }
}

/// Deleting keeps the stack well formed.
#[verifier::rlimit(30)]
pub(crate) proof fn lemma_deleted_wf(m: StackModel, sl: Seq<Seq<char>>, k: int)
    requires
        m.wf(),
        is_pop_point(m.applied, sl, k),
    ensures
        m.deleted(sl).wf(),
{
    lemma_wf_parts(m);
    lemma_pop_point(m.applied, sl, k);
    let d = m.deleted(sl);
    let a = m.applied;
    let n = a.len() as int;
    let low = a.subrange(0, k);
    let top = a.subrange(k, n);
    let i0 = lemma_embeds_self(low);
    let i1 = lemma_unselected(top, sl);
    let i2 = lemma_unselected(m.unapplied, sl);
    let i3 = lemma_unselected(m.hidden, sl);
    let u1 = unselected(top, sl);
    let u2 = unselected(m.unapplied, sl);
    let u3 = unselected(m.hidden, sl);
    let j1 = lemma_embeds_concat(low, low, i0, u1, top, i1);
    assert(low + top =~= a);
    let j2 = lemma_embeds_concat(low + u1, a, j1, u2, m.unapplied, i2);
    let j3 = lemma_embeds_concat(low + u1 + u2, a + m.unapplied, j2, u3, m.hidden, i3);
    assert(d.all() =~= low + u1 + u2 + u3);
    lemma_embedded_distinct(d.all(), m.all(), j3);
    lemma_prefix_chained(m, d, k);
    lemma_wf_parts(d);
}

/// Whether `name` is one of `sel`.
pub fn contains_name(sel: &Vec<String>, name: &String) -> (r: bool)
    ensures
        r == strings(sel@).contains(name@),
{
    let mut i: usize = 0;
    while i < sel.len()
        invariant
            i <= sel@.len(),
            forall|j: int| 0 <= j < i ==> sel@[j]@ != name@,
        decreases sel@.len() - i,
    {
        if sel[i] == *name {
            proof {
                assert(strings(sel@)[i as int] == name@);
            }
            return true;
        }
        i = i + 1;
    }
    proof {
        if strings(sel@).contains(name@) {
            let j = choose|j: int| 0 <= j < strings(sel@).len() && strings(sel@)[j] == name@;
            assert(sel@[j]@ == name@);
        }
    }
    false
}

/// The position of the patch named `name` in `v`.
pub fn position(v: &Vec<Patch>, name: &String) -> (r: Option<usize>)
    ensures
        match r {
            Some(i) => i < v@.len() && v@[i as int].name@ == name@ && forall|j: int|
                0 <= j < i ==> v@[j].name@ != name@,
            None => !names_of(v@).contains(name@),
        },
{
    let mut i: usize = 0;
    while i < v.len()
        invariant
            i <= v@.len(),
            forall|j: int| 0 <= j < i ==> v@[j].name@ != name@,
        decreases v@.len() - i,
    {
        if v[i].name == *name {
            return Some(i);
        }
        i = i + 1;
    }
    proof {
        lemma_names_contains(v@, name@);
    }
    None
}

/// The lowest position in `v` whose patch `sel` selects, or the length of `v`.
fn first_selected(v: &Vec<Patch>, sel: &Vec<String>) -> (k: usize)
    ensures
        is_pop_point(v@, strings(sel@), k as int),
{
    let mut i: usize = 0;
    while i < v.len()
        invariant
            i <= v@.len(),
            forall|j: int| 0 <= j < i ==> !strings(sel@).contains(#[trigger] v@[j].name@),
        decreases v@.len() - i,
    {
        if contains_name(sel, &v[i].name) {
            return i;
        }
        i = i + 1;
    }
    i
}

/// The names of the patches of `v`, in order.
fn names(v: &Vec<Patch>) -> (r: Vec<String>)
    ensures
        strings(r@) == names_of(v@),
{
    let mut r: Vec<String> = Vec::new();
    let mut i: usize = 0;
    while i < v.len()
        invariant
            i <= v@.len(),
            strings(r@) == names_of(v@.subrange(0, i as int)),
        decreases v@.len() - i,
    {
        let n = v[i].name.clone();
        let ghost before = r@;
        r.push(n);
        proof {
            assert(v@.subrange(0, i + 1) == v@.subrange(0, i as int).push(v@[i as int]));
            assert(r@ == before.push(n));
            assert(strings(before.push(n)) =~= strings(before).push(n@));
            assert(names_of(v@.subrange(0, i as int).push(v@[i as int])) =~= names_of(
                v@.subrange(0, i as int),
            ).push(v@[i as int].name@));
        }
        i = i + 1;
    }
    proof {
        assert(v@.subrange(0, v@.len() as int) == v@);
    }
    r
}

/// Splits `v` into the patches that `sel` does not select, in order, and
/// their names.
fn take_unselected(v: Vec<Patch>, sel: &Vec<String>) -> (r: (Vec<Patch>, Vec<String>))
    ensures
        r.0@ == unselected(v@, strings(sel@)),
        strings(r.1@) == names_of(r.0@),
{
    let ghost orig = v@;
    let ghost sl = strings(sel@);
    let mut v = v;
    let mut kept: Vec<Patch> = Vec::new();
    let mut kept_names: Vec<String> = Vec::new();
    let ghost mut i: int = 0;
    while v.len() > 0
        invariant
            0 <= i <= orig.len(),
            v@ == orig.subrange(i, orig.len() as int),
            kept@ == unselected(orig.subrange(0, i), sl),
            strings(kept_names@) == names_of(kept@),
            sl == strings(sel@),
        decreases v@.len(),
    {
        let p = v.remove(0);
        proof {
            assert(p == orig[i]);
            assert(orig.subrange(0, i + 1).drop_last() == orig.subrange(0, i));
            assert(orig.subrange(0, i + 1).last() == p);
            assert(v@ == orig.subrange(i + 1, orig.len() as int));
        }
        if !contains_name(sel, &p.name) {
            let n = p.name.clone();
            let ghost kb = kept@;
            let ghost nb = kept_names@;
            kept_names.push(n);
            kept.push(p);
            proof {
                assert(strings(nb.push(n)) =~= strings(nb).push(n@));
                assert(names_of(kb.push(p)) =~= names_of(kb).push(p.name@));
            }
        }
        proof {
            i = i + 1;
        }
    }
    proof {
        assert(orig.subrange(0, i) == orig);
    }
    (kept, kept_names)
}

impl Stack {
    /// Pops the selection `sel` and every applied patch above its lowest
    /// member. The popped patches go, in order, to the front of the unapplied
    /// group; their names come back bottom first.
    pub fn pop_patches(&mut self, sel: &Vec<String>) -> (r: Vec<String>)
        requires
            old(self)@.wf(),
        ensures
            final(self)@ == old(self)@.popped(strings(sel@)),
            strings(r@) == old(self)@.pop_names(strings(sel@)),
            final(self)@.wf(),
    {
        proof {
            reveal(StackModel::wf);
        }
        let ghost m = self@;
        let k = first_selected(&self.applied, sel);
        proof {
            lemma_pop_point(m.applied, strings(sel@), k as int);
        }
        let mut popped = self.applied.split_off(k);
        let r = names(&popped);
        popped.append(&mut self.unapplied);
        self.unapplied = popped;
        proof {
            assert(self@.all() =~= m.all());
            assert(self@.applied =~= m.applied.subrange(0, k as int));
            assert forall|i: int| 0 <= i < self@.applied.len() implies #[trigger] self@.applied[i]
                == m.applied[i] by {}
        }
        r
    }

    /// Pops the selection `sel` as `pop_patches` does, then removes its patches
    /// from every group. Returns the names of the patches popped but kept,
    /// bottom first.
    pub fn delete_patches(&mut self, sel: &Vec<String>) -> (r: Vec<String>)
        requires
            old(self)@.wf(),
        ensures
            final(self)@ == old(self)@.deleted(strings(sel@)),
            strings(r@) == old(self)@.displaced_names(strings(sel@)),
            final(self)@.wf(),
    {
        let ghost m = self@;
        let ghost sl = strings(sel@);
        let k = first_selected(&self.applied, sel);
        proof {
            lemma_pop_point(m.applied, sl, k as int);
        }
        let popped = self.applied.split_off(k);
        let (mut kept, r) = take_unselected(popped, sel);
        let unapplied = self.unapplied.split_off(0);
        assert(unapplied@ =~= m.unapplied);
        let (mut kept_unapplied, _) = take_unselected(unapplied, sel);
        let hidden = self.hidden.split_off(0);
        assert(hidden@ =~= m.hidden);
        let (kept_hidden, _) = take_unselected(hidden, sel);
        kept.append(&mut kept_unapplied);
        self.unapplied = kept;
        self.hidden = kept_hidden;
        proof {
            lemma_deleted_wf(m, sl, k as int);
            assert(self@.applied =~= m.deleted(sl).applied);
            assert(self@.unapplied =~= m.deleted(sl).unapplied);
        }
        r
    }
}

/// Pushing a patch onto the top with a commit whose parent is the top keeps
/// the stack well formed.
#[verifier::rlimit(40)]
proof fn lemma_pushed_wf(m: StackModel, n: Seq<char>, c: PatchCommit)
    requires
        m.wf(),
        m.pushable(n),
        c.parent == m.top_id(),
        c.parent_tree == m.top_tree(),
    ensures
        m.pushed(n, c).wf(),
{
    reveal(StackModel::wf);
    let r = m.pushed(n, c);
    let a = m.applied.len() as int;
    let u = m.unapplied.len() as int;
    let s = m.all();
    let t = r.all();
    assert(t.len() == s.len());
    lemma_names_contains(m.unapplied, n);
    lemma_names_contains(m.hidden, n);
    if names_of(m.unapplied).contains(n) {
        let i = find_index(m.unapplied, n);
        let idx = Seq::new(
            t.len(),
            |x: int|
                if x < a {
                    x
                } else if x == a {
                    a + i
                } else if x < a + u {
                    if x - a - 1 < i {
                        x - 1
                    } else {
                        x
                    }
                } else {
                    x
                },
        );
        assert forall|x: int| 0 <= x < t.len() implies 0 <= #[trigger] idx[x] < s.len()
            && t[x].name@ == s[idx[x]].name@ by {
            if x < a {
                assert(t[x] == m.applied[x]);
            } else if x == a {
                assert(t[x].name@ == m.unapplied[i].name@);
            } else if x < a + u {
                assert(t[x] == m.unapplied.remove(i)[x - a - 1]);
            } else {
                assert(t[x] == m.hidden[x - a - u]);
            }
        }
        lemma_embedded_distinct(t, s, idx);
    } else {
        let j = find_index(m.hidden, n);
        let idx = Seq::new(
            t.len(),
            |x: int|
                if x < a {
                    x
                } else if x == a {
                    a + u + j
                } else if x <= a + u {
                    x - 1
                } else if x - a - u - 1 < j {
                    x - 1
                } else {
                    x
                },
        );
        assert forall|x: int| 0 <= x < t.len() implies 0 <= #[trigger] idx[x] < s.len()
            && t[x].name@ == s[idx[x]].name@ by {
            if x < a {
                assert(t[x] == m.applied[x]);
            } else if x == a {
                assert(t[x].name@ == m.hidden[j].name@);
            } else if x <= a + u {
                assert(t[x] == m.unapplied[x - a - 1]);
            } else {
                assert(t[x] == m.hidden.remove(j)[x - a - u - 1]);
            }
        }
        lemma_embedded_distinct(t, s, idx);
    }
    assert forall|i: int| 0 <= i < a implies #[trigger] r.applied[i] == m.applied[i] by {}
}

/// Putting a patch of a new name into the unapplied group keeps the stack
/// well formed.
#[verifier::rlimit(30)]
pub(crate) proof fn lemma_inserted_wf(m: StackModel, p: Patch, index: int)
    requires
        m.wf(),
        !m.has(p.name@),
        0 <= index <= m.unapplied.len(),
    ensures
        m.inserted(p, index).wf(),
{
    reveal(StackModel::wf);
    let r = m.inserted(p, index);
    let s = m.all();
    let t = r.all();
    let pos = m.applied.len() + index;
    lemma_names_contains(s, p.name@);
    assert forall|x: int| 0 <= x < t.len() && x != pos implies #[trigger] t[x] == s[
        if x < pos {
            x
        } else {
            x - 1
        }
    ] by {}
    assert(t[pos] == p);
    assert forall|x: int, y: int|
        0 <= x < t.len() && 0 <= y < t.len() && x != y implies #[trigger] t[x].name@
        != #[trigger] t[y].name@ by {
        let fx = if x < pos {
            x
        } else {
            x - 1
        };
        let fy = if y < pos {
            y
        } else {
            y - 1
        };
        if x != pos && y != pos {
            assert(t[x] == s[fx]);
            assert(t[y] == s[fy]);
        } else if x == pos {
            assert(t[y] == s[fy]);
        } else {
            assert(t[x] == s[fx]);
        }
    }
}

/// Replacing a commit where it fits keeps the stack well formed.
proof fn lemma_updated_wf(m: StackModel, n: Seq<char>, c: PatchCommit)
    requires
        m.wf(),
        m.has(n),
        m.fits(n, c),
    ensures
        m.updated(n, c).wf(),
{
    reveal(StackModel::wf);
    let r = m.updated(n, c);
    let s = m.all();
    let t = r.all();
    lemma_names_contains(m.applied, n);
    lemma_names_contains(m.unapplied, n);
    assert(t.len() == s.len());
    assert forall|x: int| 0 <= x < t.len() implies #[trigger] t[x].name@ == s[x].name@ by {}
    let idx = lemma_embeds_self(s);
    assert(embeds(t, s, idx));
    lemma_embedded_distinct(t, s, idx);
}

impl Stack {
    /// The top commit and its tree.
    pub fn top(&self) -> (r: (ObjectId, ObjectId))
        ensures
            r == (self@.top_id(), self@.top_tree()),
    {
        if self.applied.len() == 0 {
            (self.base, self.base_tree)
        } else {
            let c = &self.applied[self.applied.len() - 1].commit;
            (c.id, c.tree)
        }
    }

    /// Whether some patch is named `name`.
    pub fn has(&self, name: &String) -> (r: bool)
        ensures
            r == self@.has(name@),
    {
        proof {
            lemma_has(self@, name@);
            lemma_names_contains(self.applied@, name@);
            lemma_names_contains(self.unapplied@, name@);
            lemma_names_contains(self.hidden@, name@);
        }
        position(&self.applied, name).is_some() || position(&self.unapplied, name).is_some()
            || position(&self.hidden, name).is_some()
    }

    /// Where the patch named `name` stands, and its position in that group.
    pub fn locate(&self, name: &String) -> (r: Option<(PatchState, usize)>)
        requires
            self@.wf(),
        ensures
            r is None <==> !self@.has(name@),
            r matches Some((PatchState::Applied, i)) ==> names_of(self@.applied).contains(name@)
                && i == find_index(self@.applied, name@),
            r matches Some((PatchState::Unapplied, i)) ==> !names_of(self@.applied).contains(
                name@,
            ) && names_of(self@.unapplied).contains(name@) && i == find_index(
                self@.unapplied,
                name@,
            ),
            r matches Some((PatchState::Hidden, i)) ==> !names_of(self@.applied).contains(name@)
                && !names_of(self@.unapplied).contains(name@) && names_of(self@.hidden).contains(
                name@,
            ) && i == find_index(self@.hidden, name@),
    {
        proof {
            reveal(StackModel::wf);
        }
        proof {
            lemma_has(self@, name@);
            assert(self@.all() =~= self.applied@ + self.unapplied@ + self.hidden@);
            assert forall|i: int, j: int|
                0 <= i < j < self.applied@.len() implies #[trigger] self.applied@[i].name@
                != #[trigger] self.applied@[j].name@ by {
                assert(self@.all()[i] == self.applied@[i]);
                assert(self@.all()[j] == self.applied@[j]);
            }
            assert forall|i: int, j: int|
                0 <= i < j < self.unapplied@.len() implies #[trigger] self.unapplied@[i].name@
                != #[trigger] self.unapplied@[j].name@ by {
                let a = self.applied@.len() as int;
                assert(self@.all()[a + i] == self.unapplied@[i]);
                assert(self@.all()[a + j] == self.unapplied@[j]);
            }
            assert forall|i: int, j: int|
                0 <= i < j < self.hidden@.len() implies #[trigger] self.hidden@[i].name@
                != #[trigger] self.hidden@[j].name@ by {
                let a = (self.applied@.len() + self.unapplied@.len()) as int;
                assert(self@.all()[a + i] == self.hidden@[i]);
                assert(self@.all()[a + j] == self.hidden@[j]);
            }
        }
        match position(&self.applied, name) {
            Some(i) => {
                proof {
                    lemma_find_index(self.applied@, i as int);
                    assert(names_of(self.applied@)[i as int] == name@);
                }
                Some((PatchState::Applied, i))
            },
            None => match position(&self.unapplied, name) {
                Some(i) => {
                    proof {
                        lemma_find_index(self.unapplied@, i as int);
                        assert(names_of(self.unapplied@)[i as int] == name@);
                    }
                    Some((PatchState::Unapplied, i))
                },
                None => match position(&self.hidden, name) {
                    Some(i) => {
                        proof {
                            lemma_find_index(self.hidden@, i as int);
                            assert(names_of(self.hidden@)[i as int] == name@);
                        }
                        Some((PatchState::Hidden, i))
                    },
                    None => None,
                },
            },
        }
    }
}

impl Stack {
    /// Moves the patch named `name` from the unapplied or hidden group to the
    /// top of the applied group. With `rewrite` its commit becomes a new one
    /// with that id and tree on top of the stack; without, it keeps its commit,
    /// which must already sit on the top.
    pub(crate) fn push_patch(&mut self, name: &String, rewrite: Option<(ObjectId, ObjectId)>)
        requires
            old(self)@.wf(),
            old(self)@.pushable(name@),
            rewrite is None ==> old(self)@.fast_forwards(name@),
        ensures
            final(self)@ == old(self)@.pushed(
                name@,
                match rewrite {
                    None => old(self)@.pushable_patch(name@).commit,
                    Some(r) => old(self)@.rewritten(old(self)@.pushable_patch(name@), r.0, r.1),
                },
            ),
            final(self)@.wf(),
    {
        let ghost m = self@;
        let (top_id, top_tree) = self.top();
        proof {
            lemma_names_contains(m.unapplied, name@);
            lemma_names_contains(m.hidden, name@);
        }
        let p = match position(&self.unapplied, name) {
            Some(i) => {
                proof {
                    lemma_unapplied_distinct(m);
                    lemma_find_index(m.unapplied, i as int);
                }
                self.unapplied.remove(i)
            },
            None => match position(&self.hidden, name) {
                Some(j) => {
                    proof {
                        lemma_hidden_distinct(m);
                        lemma_find_index(m.hidden, j as int);
                    }
                    self.hidden.remove(j)
                },
                None => {
                    return ;
                },
            },
        };
        let Patch { name: pname, commit } = p;
        let commit = match rewrite {
            None => commit,
            Some((id, tree)) => PatchCommit {
                id,
                tree,
                parent: top_id,
                parent_tree: top_tree,
                author: commit.author,
                message: commit.message,
            },
        };
        let ghost c = commit;
        self.applied.push(Patch { name: pname, commit });
        proof {
            lemma_pushed_wf(m, name@, c);
            let r = m.pushed(name@, c);
            assert(self@.applied =~= r.applied);
            assert(self@.unapplied =~= r.unapplied);
            assert(self@.hidden =~= r.hidden);
        }
    }

    /// Puts `p`, whose name is new to the stack, into the unapplied group at
    /// `index`.
    pub(crate) fn insert_unapplied(&mut self, p: Patch, index: usize)
        requires
            old(self)@.wf(),
            !old(self)@.has(p.name@),
            index <= old(self)@.unapplied.len(),
        ensures
            final(self)@ == old(self)@.inserted(p, index as int),
            final(self)@.wf(),
    {
        let ghost m = self@;
        let ghost q = p;
        self.unapplied.insert(index, p);
        proof {
            lemma_inserted_wf(m, q, index as int);
            assert(self@.unapplied =~= m.inserted(q, index as int).unapplied);
        }
    }

    /// Whether the patch named `name` may take the commit `c`.
    pub fn fits(&self, name: &String, c: &PatchCommit) -> (r: bool)
        requires
            self@.wf(),
        ensures
            r == self@.fits(name@, *c),
    {
        match position(&self.applied, name) {
            Some(i) => {
                proof {
                    lemma_applied_distinct(self@);
                    lemma_find_index(self.applied@, i as int);
                    assert(names_of(self.applied@)[i as int] == name@);
                }
                let cur = &self.applied[i].commit;
                let same_parent = c.parent == cur.parent && c.parent_tree == cur.parent_tree;
                let is_top = i == self.applied.len() - 1;
                let same_commit = c.id == cur.id && c.tree == cur.tree;
                same_parent && (is_top || same_commit)
            },
            None => true,
        }
    }

    /// Replaces the commit of the patch named `name` by `c`, where it fits.
    pub(crate) fn replace_commit(&mut self, name: &String, c: PatchCommit)
        requires
            old(self)@.wf(),
            old(self)@.has(name@),
            old(self)@.fits(name@, c),
        ensures
            final(self)@ == old(self)@.updated(name@, c),
            final(self)@.wf(),
    {
        let ghost m = self@;
        let ghost cc = c;
        proof {
            lemma_updated_wf(m, name@, c);
        }
        proof {
            lemma_applied_distinct(m);
            lemma_unapplied_distinct(m);
            lemma_hidden_distinct(m);
            lemma_has(m, name@);
            lemma_names_contains(m.applied, name@);
            lemma_names_contains(m.unapplied, name@);
            lemma_names_contains(m.hidden, name@);
        }
        if let Some(i) = position(&self.applied, name) {
            proof {
                lemma_find_index(m.applied, i as int);
            }
            let p = self.applied.remove(i);
            self.applied.insert(i, Patch { name: p.name, commit: c });
            proof {
                assert(self@.applied =~= m.updated(name@, cc).applied);
            }
        } else if let Some(i) = position(&self.unapplied, name) {
            proof {
                lemma_find_index(m.unapplied, i as int);
            }
            let p = self.unapplied.remove(i);
            self.unapplied.insert(i, Patch { name: p.name, commit: c });
            proof {
                assert(self@.unapplied =~= m.updated(name@, cc).unapplied);
            }
        } else if let Some(i) = position(&self.hidden, name) {
            proof {
                lemma_find_index(m.hidden, i as int);
            }
            let p = self.hidden.remove(i);
            self.hidden.insert(i, Patch { name: p.name, commit: c });
            proof {
                assert(self@.hidden =~= m.updated(name@, cc).hidden);
            }
        }
    }
}

impl Stack {
    /// Whether the patch named `name` is unapplied or hidden.
    pub fn pushable(&self, name: &String) -> (r: bool)
        ensures
            r == self@.pushable(name@),
    {
        proof {
            lemma_names_contains(self.unapplied@, name@);
            lemma_names_contains(self.hidden@, name@);
        }
        position(&self.unapplied, name).is_some() || position(&self.hidden, name).is_some()
    }

    /// The commit of the patch named `name`, where it is unapplied or hidden.
    pub fn pushable_commit(&self, name: &String) -> (r: Option<&PatchCommit>)
        requires
            self@.wf(),
        ensures
            r is Some <==> self@.pushable(name@),
            r matches Some(c) ==> *c == self@.pushable_patch(name@).commit,
    {
        proof {
            reveal(StackModel::wf);
            lemma_unapplied_distinct(self@);
            lemma_hidden_distinct(self@);
            lemma_names_contains(self.unapplied@, name@);
            lemma_names_contains(self.hidden@, name@);
        }
        match position(&self.unapplied, name) {
            Some(i) => {
                proof {
                    lemma_find_index(self.unapplied@, i as int);
                }
                Some(&self.unapplied[i].commit)
            },
            None => match position(&self.hidden, name) {
                Some(j) => {
                    proof {
                        lemma_find_index(self.hidden@, j as int);
                    }
                    Some(&self.hidden[j].commit)
                },
                None => None,
            },
        }
    }
}

/// The names of a well formed stack are distinct.
proof fn lemma_names_distinct(m: StackModel)
    requires
        m.wf(),
    ensures
        names_of(m.all()).no_duplicates(),
{
    reveal(StackModel::wf);
    let s = m.all();
    assert forall|i: int, j: int|
        0 <= i < names_of(s).len() && 0 <= j < names_of(s).len() && i != j implies names_of(s)[i]
        != names_of(s)[j] by {
        assert(s[i].name@ != s[j].name@);
    }
}

/// The names of a well formed stack are distinct.
pub(crate) proof fn lemma_all_distinct(m: StackModel)
    requires
        m.wf(),
    ensures
        distinct_names(m.all()),
{
    reveal(StackModel::wf);
}

/// In a well formed stack no name stands in two groups.
#[verifier::rlimit(30)]
proof fn lemma_groups_disjoint(m: StackModel, n: Seq<char>)
    requires
        m.wf(),
    ensures
        names_of(m.applied).contains(n) ==> !names_of(m.unapplied).contains(n) && !names_of(
            m.hidden,
        ).contains(n),
        names_of(m.unapplied).contains(n) ==> !names_of(m.hidden).contains(n),
{
    lemma_all_distinct(m);
    let s = m.all();
    let a = m.applied.len() as int;
    let u = m.unapplied.len() as int;
    lemma_names_contains(m.applied, n);
    lemma_names_contains(m.unapplied, n);
    lemma_names_contains(m.hidden, n);
    if names_of(m.applied).contains(n) {
        let i = choose|i: int| 0 <= i < m.applied.len() && #[trigger] m.applied[i].name@ == n;
        assert(s[i] == m.applied[i]);
        if names_of(m.unapplied).contains(n) {
            let j = choose|j: int| 0 <= j < m.unapplied.len() && #[trigger] m.unapplied[j].name@ == n;
            assert(s[a + j] == m.unapplied[j]);
        }
        if names_of(m.hidden).contains(n) {
            let j = choose|j: int| 0 <= j < m.hidden.len() && #[trigger] m.hidden[j].name@ == n;
            assert(s[a + u + j] == m.hidden[j]);
        }
    }
    if names_of(m.unapplied).contains(n) {
        let i = choose|i: int| 0 <= i < m.unapplied.len() && #[trigger] m.unapplied[i].name@ == n;
        assert(s[a + i] == m.unapplied[i]);
        if names_of(m.hidden).contains(n) {
            let j = choose|j: int| 0 <= j < m.hidden.len() && #[trigger] m.hidden[j].name@ == n;
            assert(s[a + u + j] == m.hidden[j]);
        }
    }
}

/// In a well formed stack the applied, unapplied and hidden groups partition
/// the set of patch names: no name stands twice, no name stands in two
/// groups, and together they hold every name.
#[verifier::rlimit(30)]
pub proof fn lemma_partition(m: StackModel)
    requires
        m.wf(),
    ensures
        names_of(m.all()).no_duplicates(),
        forall|n: Seq<char>|
            #[trigger] names_of(m.applied).contains(n) ==> !names_of(m.unapplied).contains(n)
                && !names_of(m.hidden).contains(n),
        forall|n: Seq<char>|
            #[trigger] names_of(m.unapplied).contains(n) ==> !names_of(m.hidden).contains(n),
        m.patch_names() == names_of(m.applied).to_set().union(names_of(m.unapplied).to_set()).union(
            names_of(m.hidden).to_set(),
        ),
{
    lemma_names_distinct(m);
    assert forall|n: Seq<char>| #[trigger] names_of(m.applied).contains(n) implies !names_of(
        m.unapplied,
    ).contains(n) && !names_of(m.hidden).contains(n) by {
        lemma_groups_disjoint(m, n);
    }
    assert forall|n: Seq<char>| #[trigger] names_of(m.unapplied).contains(n) implies !names_of(
        m.hidden,
    ).contains(n) by {
        lemma_groups_disjoint(m, n);
    }
    let u = names_of(m.applied).to_set().union(names_of(m.unapplied).to_set()).union(
        names_of(m.hidden).to_set(),
    );
    assert forall|n: Seq<char>| #[trigger] m.patch_names().contains(n) == u.contains(n) by {
        lemma_has(m, n);
    }
    assert(m.patch_names() =~= u);
}

/// The state between popping the applied patches from position `j` of a
/// well formed stack `m` and pushing them back.
spec fn half_popped(m: StackModel, j: int) -> StackModel {
    StackModel {
        base: m.base,
        base_tree: m.base_tree,
        applied: m.applied.subrange(0, j),
        unapplied: m.applied.subrange(j, m.applied.len() as int) + m.unapplied,
        hidden: m.hidden,
    }
}

/// Each state between popping and pushing back is well formed.
proof fn lemma_half_popped_wf(m: StackModel, j: int)
    requires
        m.wf(),
        0 <= j <= m.applied.len(),
    ensures
        half_popped(m, j).wf(),
{
    reveal(StackModel::wf);
    let s = half_popped(m, j);
    assert(s.all() =~= m.all());
    assert forall|i: int| 0 <= i < s.applied.len() implies #[trigger] s.applied[i] == m.applied[i] by {}
}

/// The commit of an applied patch sits on the one below it.
pub(crate) proof fn lemma_chain_at(m: StackModel, j: int)
    requires
        m.wf(),
        0 <= j < m.applied.len(),
    ensures
        m.applied[j].commit.parent == (if j == 0 {
            m.base
        } else {
            m.applied[j - 1].commit.id
        }),
        m.applied[j].commit.parent_tree == (if j == 0 {
            m.base_tree
        } else {
            m.applied[j - 1].commit.tree
        }),
{
    reveal(StackModel::wf);
    assert(m.applied[j] == m.applied[j]);
}

#[verifier::rlimit(30)]
proof fn lemma_push_back(m: StackModel, j: int)
    requires
        m.wf(),
        0 <= j <= m.applied.len(),
    ensures
        all_fast_forward(
            half_popped(m, j),
            names_of(m.applied.subrange(j, m.applied.len() as int)),
        ),
        fast_forward_all(
            half_popped(m, j),
            names_of(m.applied.subrange(j, m.applied.len() as int)),
        ) == m,
    decreases m.applied.len() - j,
{
    let n = m.applied.len() as int;
    let s = half_popped(m, j);
    let names = names_of(m.applied.subrange(j, n));
    if j == n {
        assert(s.applied =~= m.applied);
        assert(s.unapplied =~= m.unapplied);
        assert(s == m);
    } else {
        lemma_half_popped_wf(m, j);
        lemma_unapplied_distinct(s);
        lemma_chain_at(m, j);
        let p = m.applied[j];
        assert(s.unapplied[0] == p);
        lemma_find_index(s.unapplied, 0);
        assert(names_of(s.unapplied)[0] == p.name@);
        assert(names[0] == p.name@);
        assert(s.pushable(p.name@));
        assert(s.pushable_patch(p.name@) == p);
        assert(s.fast_forwards(p.name@));
        let next = s.fast_forwarded(p.name@);
        assert(with_commit(p, p.commit) == p);
        assert(next.applied =~= half_popped(m, j + 1).applied);
        assert(next.unapplied =~= half_popped(m, j + 1).unapplied);
        assert(next == half_popped(m, j + 1));
        assert(names.drop_first() =~= names_of(m.applied.subrange(j + 1, n)));
        lemma_push_back(m, j + 1);
    }
}

/// Popping a selection and then pushing the popped patches back, in the order
/// returned, restores the stack exactly: each of those pushes finds its
/// patch's commit already on top, so none of them can conflict.
pub proof fn lemma_pop_push_round_trip(m: StackModel, sel: Seq<Seq<char>>)
    requires
        m.wf(),
    ensures
        all_fast_forward(m.popped(sel), m.pop_names(sel)),
        fast_forward_all(m.popped(sel), m.pop_names(sel)) == m,
{
    lemma_pop_point_exists(m.applied, sel);
    let k = pop_point(m.applied, sel);
    assert(m.popped(sel) == half_popped(m, k));
    lemma_push_back(m, k);
}

/// Deleting the applied patch at position `k` displaces exactly the applied
/// patches above it, in their order.
pub proof fn lemma_delete_displaces_above(m: StackModel, k: int)
    requires
        m.wf(),
        0 <= k < m.applied.len(),
    ensures
        m.displaced_names(seq![m.applied[k].name@]) == names_of(
            m.applied.subrange(k + 1, m.applied.len() as int),
        ),
{
    reveal(StackModel::wf);
    lemma_applied_distinct(m);
    let sel = seq![m.applied[k].name@];
    let a = m.applied;
    assert forall|j: int| 0 <= j < k implies !sel.contains(#[trigger] a[j].name@) by {
        if sel.contains(a[j].name@) {
            assert(sel[0] == a[j].name@);
        }
    }
    assert(sel[0] == a[k].name@);
    assert(is_pop_point(a, sel, k));
    lemma_pop_point(a, sel, k);
    lemma_unselected_above(a, k, a.len() as int);
    assert(a.subrange(k, a.len() as int).subrange(0, a.len() - k) =~= a.subrange(
        k,
        a.len() as int,
    ));
}

/// Of `a[k..e]`, all but `a[k]` stays unselected when only `a[k]`'s name is
/// selected.
proof fn lemma_unselected_above(a: Seq<Patch>, k: int, e: int)
    requires
        distinct_names(a),
        0 <= k < e <= a.len(),
    ensures
        unselected(a.subrange(k, a.len() as int).subrange(0, e - k), seq![a[k].name@])
            == a.subrange(k + 1, e),
    decreases e - k,
{
    let sel = seq![a[k].name@];
    let t = a.subrange(k, a.len() as int).subrange(0, e - k);
    assert(t =~= a.subrange(k, e));
    if e == k + 1 {
        assert(t.drop_last() =~= Seq::<Patch>::empty());
        assert(unselected(t.drop_last(), sel) == Seq::<Patch>::empty());
        assert(sel.contains(t.last().name@)) by {
            assert(sel[0] == t.last().name@);
        }
        assert(a.subrange(k + 1, e) =~= Seq::<Patch>::empty());
    } else {
        lemma_unselected_above(a, k, e - 1);
        assert(t.drop_last() =~= a.subrange(k, a.len() as int).subrange(0, e - 1 - k));
        assert(t.last() == a[e - 1]);
        assert(!sel.contains(a[e - 1].name@)) by {
            if sel.contains(a[e - 1].name@) {
                assert(sel[0] == a[e - 1].name@);
            }
        }
        assert(a.subrange(k + 1, e - 1).push(a[e - 1]) =~= a.subrange(k + 1, e));
    }
}

impl Stack {
    /// The patch named `name`, in whichever group it stands.
    pub fn patch(&self, name: &String) -> (r: Option<&Patch>)
        requires
            self@.wf(),
        ensures
            r is Some <==> self@.has(name@),
            r matches Some(p) ==> *p == patch_named(self@, name@),
    {
        let ghost m = self@;
        let a = self.applied.len();
        let u = self.unapplied.len();
        proof {
            lemma_all_distinct(m);
            lemma_has(m, name@);
            lemma_names_contains(m.applied, name@);
            lemma_names_contains(m.unapplied, name@);
            lemma_names_contains(m.hidden, name@);
            assert(m.all() =~= m.applied + m.unapplied + m.hidden);
        }
        if let Some(i) = position(&self.applied, name) {
            proof {
                assert(m.all()[i as int] == m.applied[i as int]);
                lemma_find_index(m.all(), i as int);
            }
            Some(&self.applied[i])
        } else if let Some(i) = position(&self.unapplied, name) {
            proof {
                assert(m.all()[a + i] == m.unapplied[i as int]);
                lemma_find_index(m.all(), a + i);
            }
            Some(&self.unapplied[i])
        } else if let Some(i) = position(&self.hidden, name) {
            proof {
                assert(m.all()[a + u + i] == m.hidden[i as int]);
                lemma_find_index(m.all(), a + u + i);
            }
            Some(&self.hidden[i])
        } else {
            None
        }
    }
}

impl Stack {
    /// Whether the stack is well formed: names unique over the three groups,
    /// and each applied patch's commit on the one below it (or the base).
    pub fn is_well_formed(&self) -> (r: bool)
        ensures
            r == self@.wf(),
    {
        if !self.is_chained() {
            proof {
                reveal(StackModel::wf);
            }
            return false;
        }
        let ok = group_unique(&self.applied, &self.unapplied, &self.hidden) && group_unique(
            &self.unapplied,
            &self.applied,
            &self.hidden,
        ) && group_unique(&self.hidden, &self.applied, &self.unapplied);
        proof {
            if ok {
                lemma_groups_unique(self@);
            } else if self@.wf() {
                lemma_unique_groups(self@);
            }
        }
        ok
    }

    /// Whether each applied patch's commit sits on the one below it.
    pub fn is_chained(&self) -> (r: bool)
        ensures
            r == self@.chained(),
    {
        let ghost s = self.applied@;
        let mut i: usize = 0;
        while i < self.applied.len()
            invariant
                i <= s.len(),
                s == self.applied@,
                forall|j: int| 0 <= j < i ==> linked(self.base, self.base_tree, s, j),
            decreases s.len() - i,
        {
            let c = &self.applied[i].commit;
            let ok = if i == 0 {
                c.parent == self.base && c.parent_tree == self.base_tree
            } else {
                let below = &self.applied[i - 1].commit;
                c.parent == below.id && c.parent_tree == below.tree
            };
            if !ok {
                proof {
                    assert(!linked(self.base, self.base_tree, s, i as int));
                    assert(!self@.chained()) by {
                        assert(self@.applied[i as int] == s[i as int]);
                    }
                }
                return false;
            }
            i = i + 1;
        }
        proof {
            assert forall|j: int| 0 <= j < self@.applied.len() implies {
                &&& (#[trigger] self@.applied[j]).commit.parent == (if j == 0 {
                    self@.base
                } else {
                    self@.applied[j - 1].commit.id
                })
                &&& self@.applied[j].commit.parent_tree == (if j == 0 {
                    self@.base_tree
                } else {
                    self@.applied[j - 1].commit.tree
                })
            } by {
                assert(linked(self.base, self.base_tree, s, j));
            }
        }
        true
    }
}

/// The applied patch at `j` sits on the one below it, or on the base.
pub open spec fn linked(base: ObjectId, base_tree: ObjectId, s: Seq<Patch>, j: int) -> bool {
    if j == 0 {
        s[j].commit.parent == base && s[j].commit.parent_tree == base_tree
    } else {
        s[j].commit.parent == s[j - 1].commit.id && s[j].commit.parent_tree == s[j - 1].commit.tree
    }
}

/// Each patch of `v` is the first of its name in `v`, and no patch of `o1` or
/// `o2` has its name.
pub open spec fn unique_against(v: Seq<Patch>, o1: Seq<Patch>, o2: Seq<Patch>) -> bool {
    forall|i: int|
        0 <= i < v.len() ==> {
            &&& forall|j: int| 0 <= j < i ==> v[j].name@ != (#[trigger] v[i]).name@
            &&& !names_of(o1).contains(v[i].name@)
            &&& !names_of(o2).contains(v[i].name@)
        }
}

#[verifier::rlimit(30)]
fn group_unique(v: &Vec<Patch>, o1: &Vec<Patch>, o2: &Vec<Patch>) -> (r: bool)
    ensures
        r == unique_against(v@, o1@, o2@),
{
    let mut i: usize = 0;
    while i < v.len()
        invariant
            i <= v@.len(),
            unique_against(v@.subrange(0, i as int), o1@, o2@),
        decreases v@.len() - i,
    {
        let name = &v[i].name;
        let first = position(v, name);
        let elsewhere = position(o1, name).is_some() || position(o2, name).is_some();
        let ghost sub = v@.subrange(0, i as int);
        let ghost next = v@.subrange(0, i + 1);
        match first {
            Some(k) => {
                if k != i || elsewhere {
                    proof {
                        if k != i {
                            assert(k < i);
                            assert(v@[k as int].name@ == v@[i as int].name@);
                        } else {
                            lemma_names_contains(o1@, name@);
                            lemma_names_contains(o2@, name@);
                        }
                        if unique_against(v@, o1@, o2@) {
                            assert(v@[i as int] == v@[i as int]);
                        }
                    }
                    return false;
                }
            },
            None => {
                proof {
                    assert(names_of(v@)[i as int] == name@);
                }
            },
        }
        proof {
            lemma_names_contains(o1@, name@);
            lemma_names_contains(o2@, name@);
            assert forall|x: int| 0 <= x < next.len() implies {
                &&& forall|j: int| 0 <= j < x ==> next[j].name@ != (#[trigger] next[x]).name@
                &&& !names_of(o1@).contains(next[x].name@)
                &&& !names_of(o2@).contains(next[x].name@)
            } by {
                if x < i {
                    assert(next[x] == sub[x]);
                    assert forall|j: int| 0 <= j < x implies next[j].name@ != (
                    #[trigger] next[x]).name@ by {
                        assert(next[j] == sub[j]);
                    }
                }
            }
        }
        i = i + 1;
    }
    proof {
        assert(v@.subrange(0, v@.len() as int) =~= v@);
    }
    true
}

/// Groups that are each unique against the others make distinct names.
#[verifier::rlimit(30)]
proof fn lemma_groups_unique(m: StackModel)
    requires
        m.chained(),
        unique_against(m.applied, m.unapplied, m.hidden),
        unique_against(m.unapplied, m.applied, m.hidden),
        unique_against(m.hidden, m.applied, m.unapplied),
    ensures
        m.wf(),
{
    reveal(StackModel::wf);
    let s = m.all();
    let a = m.applied.len() as int;
    let u = m.unapplied.len() as int;
    assert forall|p: int, q: int|
        0 <= p < s.len() && 0 <= q < s.len() && p != q implies #[trigger] s[p].name@
        != #[trigger] s[q].name@ by {
        let lo = if p < q {
            p
        } else {
            q
        };
        let hi = if p < q {
            q
        } else {
            p
        };
        if hi < a {
            assert(s[hi] == m.applied[hi] && s[lo] == m.applied[lo]);
            assert(m.applied[lo].name@ != m.applied[hi].name@);
        } else if hi < a + u {
            assert(s[hi] == m.unapplied[hi - a]);
            if lo < a {
                assert(s[lo] == m.applied[lo]);
                assert(names_of(m.applied)[lo] == m.applied[lo].name@);
            } else {
                assert(s[lo] == m.unapplied[lo - a]);
                assert(m.unapplied[lo - a].name@ != m.unapplied[hi - a].name@);
            }
        } else {
            assert(s[hi] == m.hidden[hi - a - u]);
            if lo < a {
                assert(s[lo] == m.applied[lo]);
                assert(names_of(m.applied)[lo] == m.applied[lo].name@);
            } else if lo < a + u {
                assert(s[lo] == m.unapplied[lo - a]);
                assert(names_of(m.unapplied)[lo - a] == m.unapplied[lo - a].name@);
            } else {
                assert(s[lo] == m.hidden[lo - a - u]);
                assert(m.hidden[lo - a - u].name@ != m.hidden[hi - a - u].name@);
            }
        }
    }
}

/// A well formed stack has groups that are each unique against the others.
proof fn lemma_unique_groups(m: StackModel)
    requires
        m.wf(),
    ensures
        unique_against(m.applied, m.unapplied, m.hidden),
        unique_against(m.unapplied, m.applied, m.hidden),
        unique_against(m.hidden, m.applied, m.unapplied),
{
    lemma_applied_distinct(m);
    lemma_unapplied_distinct(m);
    lemma_hidden_distinct(m);
    assert forall|i: int| 0 <= i < m.applied.len() implies !names_of(m.unapplied).contains(
        (#[trigger] m.applied[i]).name@,
    ) && !names_of(m.hidden).contains(m.applied[i].name@) by {
        assert(names_of(m.applied)[i] == m.applied[i].name@);
        lemma_groups_disjoint(m, m.applied[i].name@);
    }
    assert forall|i: int| 0 <= i < m.unapplied.len() implies !names_of(m.applied).contains(
        (#[trigger] m.unapplied[i]).name@,
    ) && !names_of(m.hidden).contains(m.unapplied[i].name@) by {
        assert(names_of(m.unapplied)[i] == m.unapplied[i].name@);
        lemma_groups_disjoint(m, m.unapplied[i].name@);
    }
    assert forall|i: int| 0 <= i < m.hidden.len() implies !names_of(m.applied).contains(
        (#[trigger] m.hidden[i]).name@,
    ) && !names_of(m.unapplied).contains(m.hidden[i].name@) by {
        assert(names_of(m.hidden)[i] == m.hidden[i].name@);
        lemma_groups_disjoint(m, m.hidden[i].name@);
    }
}

/// A prefix with nothing selected stays whole, and the unselected part of a
/// sequence is at least as long as that prefix.
proof fn lemma_unselected_prefix(s: Seq<Patch>, sel: Seq<Seq<char>>, k: int)
    requires
        0 <= k <= s.len(),
        forall|j: int| 0 <= j < k ==> !sel.contains(#[trigger] s[j].name@),
    ensures
        unselected(s.subrange(0, k), sel) == s.subrange(0, k),
        k <= unselected(s, sel).len(),
    decreases s.len(),
{
    if k == s.len() {
        assert(s.subrange(0, k) =~= s);
        if k > 0 {
            let t = s.drop_last();
            lemma_unselected_prefix(t, sel, k - 1);
            assert(t.subrange(0, k - 1) =~= t);
            assert(s.last() == s[k - 1]);
            assert(unselected(t, sel).push(s.last()) =~= s);
        }
    } else {
        let t = s.drop_last();
        assert forall|j: int| 0 <= j < k implies !sel.contains(#[trigger] t[j].name@) by {
            assert(t[j] == s[j]);
        }
        lemma_unselected_prefix(t, sel, k);
        assert(t.subrange(0, k) =~= s.subrange(0, k));
    }
}

impl Stack {
    /// Where a patch that replaces the selection `sel` goes once it is
    /// deleted, as `squash_position` says.
    pub fn squash_position(&self, sel: &Vec<String>) -> (r: usize)
        requires
            self@.wf(),
        ensures
            r == self@.squash_position(strings(sel@)),
            r <= self@.deleted(strings(sel@)).unapplied.len(),
    {
        let ghost sl = strings(sel@);
        let k = first_selected(&self.applied, sel);
        proof {
            lemma_pop_point(self.applied@, sl, k as int);
        }
        if k < self.applied.len() {
            return 0;
        }
        let ku = first_selected(&self.unapplied, sel);
        proof {
            lemma_pop_point(self.unapplied@, sl, ku as int);
            lemma_unselected_prefix(self.unapplied@, sl, ku as int);
            let top = self.applied@.subrange(k as int, self.applied@.len() as int);
            assert(top =~= Seq::<Patch>::empty());
            assert(unselected(top, sl) == top);
        }
        ku
    }
}

impl Stack {
    /// Whether some patch named in `sel` is applied.
    pub fn has_applied_in(&self, sel: &Vec<String>) -> (r: bool)
        ensures
            r == (pop_point(self@.applied, strings(sel@)) < self@.applied.len()),
            r == exists|i: int| 0 <= i < self@.applied.len() && strings(sel@).contains(
                #[trigger] self@.applied[i].name@,
            ),
    {
        let k = first_selected(&self.applied, sel);
        proof {
            lemma_pop_point(self.applied@, strings(sel@), k as int);
        }
        k < self.applied.len()
    }
}

/// The commit that spilling a patch leaves: `tree` on the same parent, with
/// the same author and message, written as `id`.
pub fn spilled_commit(top: &PatchCommit, id: ObjectId, tree: ObjectId) -> (r: PatchCommit)
    ensures
        r.id == id,
        r.tree == tree,
        r.parent == top.parent,
        r.parent_tree == top.parent_tree,
        crate::signature::same_signature(r.author, top.author),
        r.message@ == top.message@,
{
    PatchCommit {
        id,
        tree,
        parent: top.parent,
        parent_tree: top.parent_tree,
        author: crate::signature::copy_signature(&top.author),
        message: crate::signature::copy_bytes(&top.message),
    }
}

/// A name is in the unselected part of `s` exactly where it is in `s` and not
/// selected.
proof fn lemma_unselected_names(s: Seq<Patch>, sel: Seq<Seq<char>>, n: Seq<char>)
    ensures
        names_of(unselected(s, sel)).contains(n) <==> names_of(s).contains(n) && !sel.contains(n),
{
    let u = unselected(s, sel);
    let idx = lemma_unselected(s, sel);
    lemma_names_contains(s, n);
    lemma_names_contains(u, n);
    if names_of(u).contains(n) {
        let i = choose|i: int| 0 <= i < u.len() && #[trigger] u[i].name@ == n;
        assert(u[i] == s[idx[i]]);
        assert(!sel.contains(u[i].name@));
    }
    if names_of(s).contains(n) && !sel.contains(n) {
        let i = choose|i: int| 0 <= i < s.len() && #[trigger] s[i].name@ == n;
        assert(u.contains(s[i]));
        let j = choose|j: int| 0 <= j < u.len() && u[j] == s[i];
        assert(u[j].name@ == n);
    }
}

/// After deleting `sel`, a name is in the stack exactly where it was before
/// and is not selected.
pub proof fn lemma_deleted_names(m: StackModel, sel: Seq<Seq<char>>, n: Seq<char>)
    ensures
        m.deleted(sel).has(n) <==> m.has(n) && !sel.contains(n),
{
    lemma_pop_point_exists(m.applied, sel);
    let k = pop_point(m.applied, sel);
    let d = m.deleted(sel);
    let a = m.applied;
    let low = a.subrange(0, k);
    let top = a.subrange(k, a.len() as int);
    lemma_has(m, n);
    lemma_has(d, n);
    assert(names_of(d.unapplied) =~= names_of(unselected(top, sel)) + names_of(unselected(m.unapplied, sel)));
    lemma_concat_contains(names_of(unselected(top, sel)), names_of(unselected(m.unapplied, sel)), n);
    lemma_unselected_names(top, sel, n);
    lemma_unselected_names(m.unapplied, sel, n);
    lemma_unselected_names(m.hidden, sel, n);
    assert(names_of(a) =~= names_of(low) + names_of(top));
    lemma_concat_contains(names_of(low), names_of(top), n);
    lemma_names_contains(low, n);
    if names_of(low).contains(n) {
        let i = choose|i: int| 0 <= i < low.len() && #[trigger] low[i].name@ == n;
        assert(low[i] == a[i]);
        assert(!sel.contains(a[i].name@));
    }
}

/// After putting `p` into the unapplied group, the names are those before and
/// `p`'s.
pub proof fn lemma_inserted_names(m: StackModel, p: Patch, at: int, n: Seq<char>)
    requires
        0 <= at <= m.unapplied.len(),
    ensures
        m.inserted(p, at).has(n) <==> m.has(n) || n == p.name@,
{
    let r = m.inserted(p, at);
    lemma_has(m, n);
    lemma_has(r, n);
    lemma_names_contains(m.unapplied, n);
    lemma_names_contains(r.unapplied, n);
    assert(r.unapplied[at] == p);
    if names_of(r.unapplied).contains(n) {
        let i = choose|i: int| 0 <= i < r.unapplied.len() && #[trigger] r.unapplied[i].name@ == n;
        if i < at {
            assert(r.unapplied[i] == m.unapplied[i]);
        } else if i > at {
            assert(r.unapplied[i] == m.unapplied[i - 1]);
        }
    }
    if names_of(m.unapplied).contains(n) {
        let i = choose|i: int| 0 <= i < m.unapplied.len() && #[trigger] m.unapplied[i].name@ == n;
        if i < at {
            assert(r.unapplied[i] == m.unapplied[i]);
        } else {
            assert(r.unapplied[i + 1] == m.unapplied[i]);
        }
    }
}

} // verus!
