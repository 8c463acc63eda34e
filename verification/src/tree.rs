//! The shape of the shadow tree: every scope has at most one parent, and
//! destruction takes whole subtrees and nothing else.

use vstd::prelude::*;
use crate::element::ElementView;
use crate::matching::{
    lemma_first_free, lemma_matches_differ, lemma_used_grows, match_at, used_before,
};
use crate::model::{
    declared_keys, destroyed, lemma_destroy_removes, reconcile_upto, unmatched, ModelView,
};
use crate::value::Value;
use crate::scope::{ScopeId, ScopeView};

verus! {

/// Scope `p` is live and lists `c` among its children.
pub open spec fn is_child(scopes: Map<ScopeId, ScopeView>, p: ScopeId, c: ScopeId) -> bool {
    scopes.contains_key(p) && scopes[p].children.contains(c)
}

/// No scope has two parents or stands twice in one child list, and every
/// child has a larger number than its parent, so that no scope is its own
/// descendant.
pub open spec fn single_parents(scopes: Map<ScopeId, ScopeView>) -> bool {
    &&& forall|p: ScopeId, c: ScopeId| #[trigger] is_child(scopes, p, c) ==> c > p
    &&& forall|p: ScopeId, q: ScopeId, c: ScopeId|
        #[trigger] is_child(scopes, p, c) && #[trigger] is_child(scopes, q, c) ==> p == q
    &&& forall|p: ScopeId| #[trigger]
        scopes.contains_key(p) ==> scopes[p].children.no_duplicates()
}

/// The children of every live scope other than `e` are live.
pub open spec fn children_live_except(scopes: Map<ScopeId, ScopeView>, e: ScopeId) -> bool {
    forall|p: ScopeId, c: ScopeId| #[trigger]
        is_child(scopes, p, c) && p != e ==> scopes.contains_key(c)
}

/// The scopes form a forest: single parents, and the children of every
/// live scope are live.
pub open spec fn forest_of(scopes: Map<ScopeId, ScopeView>) -> bool {
    &&& single_parents(scopes)
    &&& forall|p: ScopeId, c: ScopeId| #[trigger] is_child(scopes, p, c) ==> scopes.contains_key(c)
}

/// No live scope other than `e` lists `x` among its children.
pub open spec fn only_child_of(scopes: Map<ScopeId, ScopeView>, x: ScopeId, e: ScopeId) -> bool {
    forall|p: ScopeId| #[trigger] is_child(scopes, p, x) ==> p == e
}

/// Destruction takes subtrees only. Let the scopes in `todo` be children of
/// `e` and of no other live scope. Destroying them leaves `e` live, leaves
/// every scope in `keep` live that is not listed and is a child of `e` at
/// most, and leaves no live scope other than `e` with a child that is
/// gone.
pub proof fn lemma_destroy_subtrees(
    scopes: Map<ScopeId, ScopeView>,
    todo: Seq<ScopeId>,
    e: ScopeId,
    keep: Set<ScopeId>,
)
    requires
        scopes.dom().finite(),
        single_parents(scopes),
        children_live_except(scopes, e),
        forall|i: int| 0 <= i < todo.len() ==> todo[i] > e && only_child_of(scopes, todo[i], e),
        forall|x: ScopeId|
            keep.contains(x) ==> !todo.contains(x) && only_child_of(scopes, x, e),
    ensures
        single_parents(destroyed(scopes, todo)),
        children_live_except(destroyed(scopes, todo), e),
        scopes.contains_key(e) ==> destroyed(scopes, todo).contains_key(e),
        forall|x: ScopeId|
            keep.contains(x) && scopes.contains_key(x) ==> destroyed(scopes, todo).contains_key(
                x,
            ),
    decreases scopes.dom().len(), todo.len(),
{
    if todo.len() == 0 {
    } else if scopes.contains_key(todo[0]) {
        let t = todo[0];
        let left = scopes.remove(t);
        let next = scopes[t].children + todo.drop_first();
        assert forall|p: ScopeId, c: ScopeId| #[trigger] is_child(left, p, c) implies is_child(
            scopes,
            p,
            c,
        ) by {}
        assert(only_child_of(scopes, t, e));
        assert forall|p: ScopeId, c: ScopeId| #[trigger]
            is_child(left, p, c) && p != e implies left.contains_key(c) by {
            assert(is_child(scopes, p, c));
        }
        assert forall|i: int| 0 <= i < next.len() implies next[i] > e && only_child_of(
            left,
            next[i],
            e,
        ) by {
            if i < scopes[t].children.len() {
                let c = scopes[t].children[i];
                assert(is_child(scopes, t, c));
                assert forall|p: ScopeId| #[trigger] is_child(left, p, c) implies p == e by {
                    assert(is_child(scopes, p, c));
                }
            } else {
                let k = i - scopes[t].children.len() + 1;
                assert(next[i] == todo[k]);
                assert forall|p: ScopeId| #[trigger] is_child(left, p, next[i]) implies p == e by {
                    assert(is_child(scopes, p, next[i]));
                }
            }
        }
        assert forall|x: ScopeId| keep.contains(x) implies !next.contains(x) && only_child_of(
            left,
            x,
            e,
        ) by {
            assert(only_child_of(scopes, x, e));
            assert forall|p: ScopeId| #[trigger] is_child(left, p, x) implies p == e by {
                assert(is_child(scopes, p, x));
            }
            if next.contains(x) {
                let i = choose|i: int| 0 <= i < next.len() && next[i] == x;
                if i < scopes[t].children.len() {
                    assert(is_child(scopes, t, x));
                } else {
                    let k = i - scopes[t].children.len() + 1;
                    assert(todo[k] == x);
                }
            }
        }
        assert forall|p: ScopeId| #[trigger] left.contains_key(p) implies left[p].children.no_duplicates() by {
            assert(scopes.contains_key(p));
        }
        lemma_destroy_subtrees(left, next, e, keep);
        assert forall|x: ScopeId| keep.contains(x) && scopes.contains_key(x) implies destroyed(
            scopes,
            todo,
        ).contains_key(x) by {
            assert(!todo.contains(x));
            assert(x != t);
        }
    } else {
        let rest = todo.drop_first();
        assert forall|i: int| 0 <= i < rest.len() implies rest[i] > e && only_child_of(
            scopes,
            rest[i],
            e,
        ) by {
            assert(rest[i] == todo[i + 1]);
        }
        assert forall|x: ScopeId| keep.contains(x) implies !rest.contains(x) && only_child_of(
            scopes,
            x,
            e,
        ) by {
            if rest.contains(x) {
                let i = choose|i: int| 0 <= i < rest.len() && rest[i] == x;
                assert(todo[i + 1] == x);
            }
        }
        lemma_destroy_subtrees(scopes, rest, e, keep);
    }
}

/// What placing the first `i` declared elements does and does not do: it
/// removes nothing, touches nothing of a scope but its element, creates
/// scopes with new numbers only, and lists for every declared element the
/// previous child it continues or the scope created for it.
pub proof fn lemma_reconcile_upto(
    m: ModelView,
    context: Map<u64, Value>,
    prev: Seq<ScopeId>,
    next: Seq<ElementView>,
    i: nat,
)
    requires
        m.sound(),
        i <= next.len(),
        m.next_id + next.len() <= u64::MAX,
        forall|j: int| 0 <= j < prev.len() ==> prev[j] < m.next_id,
    ensures
        ({
            let (m1, ch) = reconcile_upto(m, context, prev, next, i);
            let pk = m.child_keys(prev);
            let nk = declared_keys(next);
            &&& m1 == ModelView { scopes: m1.scopes, queue: m1.queue, next_id: m1.next_id, ..m }
            &&& m.next_id <= m1.next_id <= m.next_id + i
            &&& m1.scopes.dom().finite()
            &&& ch.len() == i
            &&& forall|id: ScopeId| #[trigger]
                m.scopes.contains_key(id) ==> m1.scopes.contains_key(id) && m1.scopes[id]
                    == ScopeView { element: m1.scopes[id].element, ..m.scopes[id] }
            &&& forall|id: ScopeId| #[trigger]
                m1.scopes.contains_key(id) && !m.scopes.contains_key(id) ==> m.next_id <= id
                    < m1.next_id && m1.scopes[id].children.len() == 0 && m1.scopes[id].wf()
            &&& forall|c: int|
                0 <= c < i ==> match #[trigger] match_at(pk, nk, c) {
                    Some(j) => 0 <= j < prev.len() && ch[c] == prev[j] && m.scopes.contains_key(
                        prev[j],
                    ),
                    None => m.next_id <= ch[c] < m1.next_id && m1.scopes.contains_key(ch[c])
                        && forall|c2: int| 0 <= c2 < c ==> ch[c2] < ch[c],
                }
        }),
    decreases i,
{
    if i > 0 {
        lemma_reconcile_upto(m, context, prev, next, (i - 1) as nat);
        let pk = m.child_keys(prev);
        let nk = declared_keys(next);
        let (m0, ch0) = reconcile_upto(m, context, prev, next, (i - 1) as nat);
        let (m1, ch) = reconcile_upto(m, context, prev, next, i);
        lemma_first_free(pk, used_before(pk, nk, (i - 1) as nat), nk[i - 1], 0);
        assert forall|c: int| 0 <= c < i implies match #[trigger] match_at(pk, nk, c) {
            Some(j) => 0 <= j < prev.len() && ch[c] == prev[j] && m.scopes.contains_key(prev[j]),
            None => m.next_id <= ch[c] < m1.next_id && m1.scopes.contains_key(ch[c]) && forall|
                c2: int,
            |
                0 <= c2 < c ==> ch[c2] < ch[c],
        } by {
            if c < i - 1 {
                assert(ch[c] == ch0[c]);
                match match_at(pk, nk, c) {
                    Some(j) => {},
                    None => {
                        assert forall|c2: int| 0 <= c2 < c implies ch[c2] < ch[c] by {
                            assert(ch[c2] == ch0[c2]);
                        }
                    },
                }
            } else {
                match match_at(pk, nk, c) {
                    Some(j) => {},
                    None => {
                        assert forall|c2: int| 0 <= c2 < c implies ch[c2] < ch[c] by {
                            assert(ch[c2] == ch0[c2]);
                            match match_at(pk, nk, c2) {
                                Some(j2) => {},
                                None => {},
                            }
                        }
                    },
                }
            }
        }
    }
}

/// Replacing a live scope by one with the same children keeps the model
/// well formed.
pub proof fn lemma_scope_replaced(m: ModelView, id: ScopeId, scope: ScopeView)
    requires
        m.wf(),
        m.scopes.contains_key(id),
        scope.wf(),
        scope.children == m.scopes[id].children,
    ensures
        (ModelView { scopes: m.scopes.insert(id, scope), ..m }).wf(),
{
    let after = m.scopes.insert(id, scope);
    assert forall|p: ScopeId, c: ScopeId| #[trigger] is_child(after, p, c) implies is_child(
        m.scopes,
        p,
        c,
    ) by {}
    assert forall|p: ScopeId| #[trigger] after.contains_key(p) implies after[p].children.no_duplicates() by {
        assert(m.scopes.contains_key(p));
    }
    if m.root is Some {
        assert forall|p: ScopeId| !is_child(after, p, m.root->0) by {
            if is_child(after, p, m.root->0) {
                assert(is_child(m.scopes, p, m.root->0));
            }
        }
    }
}

/// Every scope among the first `n` unmatched previous children stands at a
/// position of `prev` that was not taken.
pub proof fn lemma_unmatched_members(prev: Seq<ScopeId>, used: Set<int>, n: nat)
    requires
        n <= prev.len(),
    ensures
        forall|i: int|
            0 <= i < unmatched(prev, used, n).len() ==> exists|j: int|
                0 <= j < n && !used.contains(j) && prev[j] == #[trigger] unmatched(prev, used, n)[i],
    decreases n,
{
    if n > 0 {
        lemma_unmatched_members(prev, used, (n - 1) as nat);
        let before = unmatched(prev, used, (n - 1) as nat);
        assert forall|i: int| 0 <= i < unmatched(prev, used, n).len() implies exists|j: int|
            0 <= j < n && !used.contains(j) && prev[j] == #[trigger] unmatched(prev, used, n)[i] by {
            if i < before.len() {
                assert(unmatched(prev, used, n)[i] == before[i]);
                let j = choose|j: int| 0 <= j < n - 1 && !used.contains(j) && prev[j] == before[i];
                assert(0 <= j < n && !used.contains(j) && prev[j] == unmatched(prev, used, n)[i]);
            } else {
                assert(!used.contains(n - 1) && prev[n - 1] == unmatched(prev, used, n)[i]);
            }
        }
    }
}

/// Closing a render keeps the model well formed: the scope in progress and
/// the scopes it keeps or creates as children stay live, everything below
/// the children it drops is gone, and the scopes still form a forest.
pub proof fn lemma_finished_wf(m: ModelView)
    requires
        m.wf(),
        m.is_rendering(),
        m.next_id + m.children_buf.len() <= u64::MAX,
    ensures
        m.finished().wf(),
        m.finished().active is None,
        m.finished().children_buf.len() == 0,
        m.finished().post_update.len() == 0,
        m.finished().scopes.contains_key(m.active->0),
        m.root is Some && m.scopes.contains_key(m.root->0) ==> m.finished().scopes.contains_key(
            m.root->0,
        ),
{
    let id = m.active->0;
    let scope = m.scopes[id];
    let prev = scope.children;
    let next = m.children_buf;
    let cleared = ModelView {
        active: None,
        children_buf: Seq::empty(),
        post_update: Seq::empty(),
        ..m
    };
    let n = next.len();
    let (m1, ch) = reconcile_upto(cleared, scope.context, prev, next, n);
    let pk = cleared.child_keys(prev);
    let nk = declared_keys(next);
    let used = used_before(pk, nk, n);
    let todo = unmatched(prev, used, prev.len());
    let left = destroyed(m1.scopes, todo);
    let keep = Set::new(|x: ScopeId| ch.contains(x) || (m.root is Some && x == m.root->0));

    assert forall|j: int| 0 <= j < prev.len() implies prev[j] < cleared.next_id && is_child(
        m.scopes,
        id,
        prev[j],
    ) by {}
    lemma_reconcile_upto(cleared, scope.context, prev, next, n);
    lemma_unmatched_members(prev, used, prev.len());

    assert forall|p: ScopeId, c: ScopeId| #[trigger] is_child(m1.scopes, p, c) implies is_child(
        m.scopes,
        p,
        c,
    ) by {
        if !m.scopes.contains_key(p) {
            let i = choose|i: int| 0 <= i < m1.scopes[p].children.len() && m1.scopes[p].children[i] == c;
        }
    }
    assert(single_parents(m1.scopes)) by {
        assert forall|p: ScopeId| #[trigger] m1.scopes.contains_key(p) implies m1.scopes[p].children.no_duplicates() by {
            if m.scopes.contains_key(p) {
            }
        }
    }
    assert(children_live_except(m1.scopes, id));
    assert forall|i: int| 0 <= i < todo.len() implies todo[i] > id && only_child_of(
        m1.scopes,
        todo[i],
        id,
    ) by {
        let j = choose|j: int| 0 <= j < prev.len() && !used.contains(j) && prev[j] == todo[i];
        assert(is_child(m.scopes, id, prev[j]));
        assert forall|p: ScopeId| #[trigger] is_child(m1.scopes, p, todo[i]) implies p == id by {
            assert(is_child(m.scopes, p, todo[i]));
        }
    }
    // Every new child is kept: it is either a previous child that was
    // taken, or a scope with a new number.
    assert forall|c: int| 0 <= c < n implies !todo.contains(#[trigger] ch[c]) && only_child_of(
        m1.scopes,
        ch[c],
        id,
    ) && m1.scopes.contains_key(ch[c]) && ch[c] > id && (m.root is Some ==> ch[c] != m.root->0) by {
        match match_at(pk, nk, c) {
            Some(j) => {
                lemma_used_grows(pk, nk, (c + 1) as nat, n);
                assert(used_before(pk, nk, (c + 1) as nat).contains(j));
                assert(used.contains(j));
                assert(is_child(m.scopes, id, prev[j]));
                if todo.contains(ch[c]) {
                    let t = choose|t: int| 0 <= t < todo.len() && todo[t] == ch[c];
                    let j2 = choose|j2: int|
                        0 <= j2 < prev.len() && !used.contains(j2) && prev[j2] == todo[t];
                    assert(prev[j] == prev[j2]);
                }
                assert forall|p: ScopeId| #[trigger] is_child(m1.scopes, p, ch[c]) implies p
                    == id by {
                    assert(is_child(m.scopes, p, ch[c]));
                }
            },
            None => {
                if todo.contains(ch[c]) {
                    let t = choose|t: int| 0 <= t < todo.len() && todo[t] == ch[c];
                    let j2 = choose|j2: int|
                        0 <= j2 < prev.len() && !used.contains(j2) && prev[j2] == todo[t];
                }
                assert forall|p: ScopeId| #[trigger] is_child(m1.scopes, p, ch[c]) implies p
                    == id by {
                    assert(is_child(m.scopes, p, ch[c]));
                    let i = choose|i: int|
                        0 <= i < m.scopes[p].children.len() && m.scopes[p].children[i] == ch[c];
                }
            },
        }
    }
    assert forall|x: ScopeId| keep.contains(x) implies !todo.contains(x) && only_child_of(
        m1.scopes,
        x,
        id,
    ) by {
        if ch.contains(x) {
            let c = choose|c: int| 0 <= c < ch.len() && ch[c] == x;
        } else {
            if todo.contains(x) {
                let t = choose|t: int| 0 <= t < todo.len() && todo[t] == x;
                let j2 = choose|j2: int|
                    0 <= j2 < prev.len() && !used.contains(j2) && prev[j2] == todo[t];
                assert(is_child(m.scopes, id, x));
            }
            assert forall|p: ScopeId| #[trigger] is_child(m1.scopes, p, x) implies p == id by {
                assert(is_child(m.scopes, p, x));
            }
        }
    }
    lemma_destroy_subtrees(m1.scopes, todo, id, keep);
    lemma_destroy_removes(m1.scopes, todo);
    assert(left.contains_key(id));
    let done = left.insert(id, ScopeView { children: ch, ..left[id] });
    assert(m.finished().scopes == done);

    assert(ch.no_duplicates()) by {
        assert forall|a: int, b: int| 0 <= a < b < ch.len() implies ch[a] != ch[b] by {
            match match_at(pk, nk, b) {
                Some(jb) => {
                    match match_at(pk, nk, a) {
                        Some(ja) => {
                            lemma_matches_differ(pk, nk, a, b);
                        },
                        None => {},
                    }
                },
                None => {},
            }
        }
    }
    assert forall|p: ScopeId, c: ScopeId| #[trigger] is_child(done, p, c) implies done.contains_key(
        c,
    ) && c > p && (p != id ==> is_child(m1.scopes, p, c)) && (p == id ==> ch.contains(c)) by {
        if p == id {
            let i = choose|i: int| 0 <= i < ch.len() && ch[i] == c;
            assert(keep.contains(c));
        } else {
            assert(is_child(left, p, c));
            assert(is_child(m1.scopes, p, c));
        }
    }
    assert(forest_of(done)) by {
        assert forall|p: ScopeId, q: ScopeId, c: ScopeId|
            #[trigger] is_child(done, p, c) && #[trigger] is_child(done, q, c) implies p == q by {
            if p == id && q != id {
                let i = choose|i: int| 0 <= i < ch.len() && ch[i] == c;
                assert(is_child(m1.scopes, q, c));
            }
            if q == id && p != id {
                let i = choose|i: int| 0 <= i < ch.len() && ch[i] == c;
                assert(is_child(m1.scopes, p, c));
            }
        }
        assert forall|p: ScopeId| #[trigger] done.contains_key(p) implies done[p].children.no_duplicates() by {
            if p != id {
                assert(m1.scopes.contains_key(p));
            }
        }
    }
    assert(m.finished().sound()) by {
        assert forall|x: ScopeId| #[trigger] done.contains_key(x) implies x < m1.next_id
            && done[x].wf() && forall|i: int|
            0 <= i < done[x].children.len() ==> #[trigger] done[x].children[i] < m1.next_id by {
            assert(m1.scopes.contains_key(x));
            if x == id {
                assert forall|i: int| 0 <= i < ch.len() implies #[trigger] ch[i] < m1.next_id by {
                    assert(m1.scopes.contains_key(ch[i]));
                }
            } else {
                assert forall|i: int| 0 <= i < done[x].children.len() implies #[trigger] done[x].children[i]
                    < m1.next_id by {
                    assert(is_child(done, x, done[x].children[i]));
                }
            }
        }
    }
    if m.root is Some {
        assert forall|p: ScopeId| !is_child(done, p, m.root->0) by {
            if is_child(done, p, m.root->0) {
                if p == id {
                    let i = choose|i: int| 0 <= i < ch.len() && ch[i] == m.root->0;
                } else {
                    assert(is_child(m.scopes, p, m.root->0));
                }
            }
        }
        if m.scopes.contains_key(m.root->0) {
            assert(keep.contains(m.root->0));
        }
    }
}

/// Creating a root scope with the next free number keeps the model well
/// formed.
pub proof fn lemma_root_created(m: ModelView, element: ElementView)
    requires
        m.wf(),
        m.next_id < u64::MAX,
        !(m.root is Some && m.scopes.contains_key(m.root->0)),
    ensures
        m.with_root(element).wf(),
{
    let id = m.next_id as ScopeId;
    let after = m.with_root(element).scopes;
    assert forall|p: ScopeId, c: ScopeId| #[trigger] is_child(after, p, c) implies is_child(
        m.scopes,
        p,
        c,
    ) && c != id by {
        if p != id {
            let i = choose|i: int| 0 <= i < m.scopes[p].children.len() && m.scopes[p].children[i] == c;
        }
    }
    assert forall|p: ScopeId| #[trigger] after.contains_key(p) implies after[p].children.no_duplicates() by {
        if p != id {
            assert(m.scopes.contains_key(p));
        }
    }
}

/// What the scope placed for a declared element holds once the first `i`
/// declared elements have been placed, where no previous child is listed
/// twice: a continued child keeps its element if that equals the declared
/// one and takes the declared one otherwise; a created scope is fresh, with
/// the declared element and the inherited context. Scopes that no declared
/// element was placed on are as they were.
pub proof fn lemma_reconcile_aligned(
    m: ModelView,
    context: Map<u64, Value>,
    prev: Seq<ScopeId>,
    next: Seq<ElementView>,
    i: nat,
)
    requires
        m.sound(),
        i <= next.len(),
        m.next_id + next.len() <= u64::MAX,
        forall|j: int| 0 <= j < prev.len() ==> prev[j] < m.next_id,
        prev.no_duplicates(),
    ensures
        ({
            let (m1, ch) = reconcile_upto(m, context, prev, next, i);
            let pk = m.child_keys(prev);
            let nk = declared_keys(next);
            &&& ch.len() == i
            &&& ch.no_duplicates()
            &&& forall|id: ScopeId| #[trigger]
                m.scopes.contains_key(id) && !ch.contains(id) ==> m1.scopes[id] == m.scopes[id]
            &&& forall|c: int|
                0 <= c < i ==> m1.scopes.contains_key(#[trigger] ch[c]) && match match_at(
                    pk,
                    nk,
                    c,
                ) {
                    Some(j) => ch[c] == prev[j] && m1.scopes[ch[c]] == ScopeView {
                        element: if m.scopes[prev[j]].element.same_as(next[c]) {
                            m.scopes[prev[j]].element
                        } else {
                            next[c]
                        },
                        ..m.scopes[prev[j]]
                    },
                    None => ch[c] >= m.next_id && m1.scopes[ch[c]] == ScopeView::fresh(
                        next[c],
                        context,
                    ),
                }
        }),
    decreases i,
{
    lemma_reconcile_upto(m, context, prev, next, i);
    if i > 0 {
        lemma_reconcile_aligned(m, context, prev, next, (i - 1) as nat);
        lemma_reconcile_upto(m, context, prev, next, (i - 1) as nat);
        let pk = m.child_keys(prev);
        let nk = declared_keys(next);
        let (m0, ch0) = reconcile_upto(m, context, prev, next, (i - 1) as nat);
        let (m1, ch) = reconcile_upto(m, context, prev, next, i);
        let last = ch[i - 1];
        assert forall|c: int| 0 <= c < i - 1 implies ch[c] != last by {
            assert(ch[c] == ch0[c]);
            match match_at(pk, nk, i - 1) {
                Some(jb) => {
                    match match_at(pk, nk, c) {
                        Some(ja) => {
                            lemma_matches_differ(pk, nk, c, i - 1);
                        },
                        None => {},
                    }
                },
                None => {},
            }
        }
        assert(ch.no_duplicates()) by {
            assert forall|a: int, b: int| 0 <= a < b < ch.len() implies ch[a] != ch[b] by {
                if b < i - 1 {
                    assert(ch[a] == ch0[a] && ch[b] == ch0[b]);
                }
            }
        }
        assert(!ch0.contains(last));
        assert forall|id: ScopeId| #[trigger]
            m.scopes.contains_key(id) && !ch.contains(id) implies m1.scopes[id] == m.scopes[id] by {
            assert(ch[i - 1] == last);
            assert(id != last);
            if ch0.contains(id) {
                let c = choose|c: int| 0 <= c < ch0.len() && ch0[c] == id;
                assert(ch[c] == id);
            }
        }
        assert forall|c: int| 0 <= c < i implies m1.scopes.contains_key(#[trigger] ch[c])
            && match match_at(pk, nk, c) {
            Some(j) => ch[c] == prev[j] && m1.scopes[ch[c]] == ScopeView {
                element: if m.scopes[prev[j]].element.same_as(next[c]) {
                    m.scopes[prev[j]].element
                } else {
                    next[c]
                },
                ..m.scopes[prev[j]]
            },
            None => ch[c] >= m.next_id && m1.scopes[ch[c]] == ScopeView::fresh(next[c], context),
        } by {
            if c < i - 1 {
                assert(ch[c] == ch0[c]);
                assert(m1.scopes[ch[c]] == m0.scopes[ch[c]]);
            } else {
                match match_at(pk, nk, c) {
                    Some(j) => {
                        assert(m0.scopes[last] == m.scopes[last]);
                    },
                    None => {},
                }
            }
        }
    }
}

/// The children after an update. When a render is closed, the scope in
/// progress gets one child per declared element, in order, all different.
/// A declared element that continues a previous child gets that child's
/// scope, with its slots, its children and its context untouched, and with
/// the declared element in place of its own unless the two are equal. A
/// declared element that continues nothing gets a fresh scope with a new
/// number, the declared element and the context of the scope in progress.
pub proof fn lemma_finished_children(m: ModelView)
    requires
        m.wf(),
        m.is_rendering(),
        m.next_id + m.children_buf.len() <= u64::MAX,
    ensures
        ({
            let parent = m.current();
            let after = m.finished();
            let children = after.scopes[m.active->0].children;
            let pk = m.child_keys(parent.children);
            let nk = declared_keys(m.children_buf);
            &&& after.scopes.contains_key(m.active->0)
            &&& after.scopes[m.active->0] == ScopeView { children, ..parent }
            &&& children.len() == m.children_buf.len()
            &&& children.no_duplicates()
            &&& forall|c: int|
                0 <= c < children.len() ==> after.scopes.contains_key(#[trigger] children[c])
                    && match match_at(pk, nk, c) {
                    Some(j) => children[c] == parent.children[j] && after.scopes[children[c]]
                        == ScopeView {
                        element: if m.scopes[parent.children[j]].element.same_as(
                            m.children_buf[c],
                        ) {
                            m.scopes[parent.children[j]].element
                        } else {
                            m.children_buf[c]
                        },
                        ..m.scopes[parent.children[j]]
                    },
                    None => children[c] >= m.next_id && after.scopes[children[c]]
                        == ScopeView::fresh(m.children_buf[c], parent.context),
                }
        }),
{
    let id = m.active->0;
    let scope = m.scopes[id];
    let prev = scope.children;
    let next = m.children_buf;
    let cleared = ModelView {
        active: None,
        children_buf: Seq::empty(),
        post_update: Seq::empty(),
        ..m
    };
    let n = next.len();
    let (m1, ch) = reconcile_upto(cleared, scope.context, prev, next, n);
    let pk = cleared.child_keys(prev);
    let nk = declared_keys(next);
    let used = used_before(pk, nk, n);
    let todo = unmatched(prev, used, prev.len());
    let left = destroyed(m1.scopes, todo);
    assert(pk =~= m.child_keys(prev));
    assert forall|j: int| 0 <= j < prev.len() implies prev[j] < cleared.next_id && is_child(
        m.scopes,
        id,
        prev[j],
    ) by {}
    lemma_finished_wf(m);
    lemma_reconcile_upto(cleared, scope.context, prev, next, n);
    lemma_reconcile_aligned(cleared, scope.context, prev, next, n);
    lemma_destroy_removes(m1.scopes, todo);
    let after = m.finished();
    assert(after.scopes == left.insert(id, ScopeView { children: ch, ..left[id] }));
    assert(after.scopes[id].children == ch);
    assert(!ch.contains(id)) by {
        if ch.contains(id) {
            let c = choose|c: int| 0 <= c < ch.len() && ch[c] == id;
            assert(is_child(after.scopes, id, id));
        }
    }
    assert(left[id] == m.scopes[id]);
    assert forall|c: int| 0 <= c < ch.len() implies after.scopes.contains_key(#[trigger] ch[c])
        && after.scopes[ch[c]] == m1.scopes[ch[c]] by {
        assert(is_child(after.scopes, id, ch[c]));
    }
}

/// The previous children that no declared element continues are gone
/// after the update.
pub proof fn lemma_unmatched_gone(m: ModelView, j: int)
    requires
        m.wf(),
        m.is_rendering(),
        m.next_id + m.children_buf.len() <= u64::MAX,
        0 <= j < m.current().children.len(),
        !used_before(
            m.child_keys(m.current().children),
            declared_keys(m.children_buf),
            m.children_buf.len(),
        ).contains(j),
    ensures
        !m.finished().scopes.contains_key(m.current().children[j]),
{
    let id = m.active->0;
    let scope = m.scopes[id];
    let prev = scope.children;
    let next = m.children_buf;
    let cleared = ModelView {
        active: None,
        children_buf: Seq::empty(),
        post_update: Seq::empty(),
        ..m
    };
    let n = next.len();
    let (m1, ch) = reconcile_upto(cleared, scope.context, prev, next, n);
    let pk = cleared.child_keys(prev);
    let nk = declared_keys(next);
    let used = used_before(pk, nk, n);
    let todo = unmatched(prev, used, prev.len());
    assert(pk =~= m.child_keys(prev));
    assert forall|k: int| 0 <= k < prev.len() implies prev[k] < cleared.next_id by {
        assert(is_child(m.scopes, id, prev[k]));
    }
    lemma_reconcile_upto(cleared, scope.context, prev, next, n);
    lemma_unmatched_holds(prev, used, prev.len(), j);
    lemma_destroy_removes(m1.scopes, todo);
    let t = choose|t: int| 0 <= t < todo.len() && todo[t] == prev[j];
    assert(is_child(m.scopes, id, prev[j]));
}

/// A position that was not taken is among the unmatched.
proof fn lemma_unmatched_holds(prev: Seq<ScopeId>, used: Set<int>, n: nat, j: int)
    requires
        0 <= j < n <= prev.len(),
        !used.contains(j),
    ensures
        unmatched(prev, used, n).contains(prev[j]),
    decreases n,
{
    let all = unmatched(prev, used, n);
    if j == n - 1 {
        assert(all[all.len() - 1] == prev[j]);
    } else {
        lemma_unmatched_holds(prev, used, (n - 1) as nat, j);
        let before = unmatched(prev, used, (n - 1) as nat);
        let t = choose|t: int| 0 <= t < before.len() && before[t] == prev[j];
        assert(all[t] == prev[j]);
    }
}

} // verus!
