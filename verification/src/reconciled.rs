//! What reconciliation comes to in three common situations: a child that
//! nothing continues, keyed children in another order, and unkeyed children
//! with other parameters.

use vstd::prelude::*;
use crate::element::{ChildKey, ElementView};
use crate::matching::{
    lemma_first_free, lemma_keyed_match, lemma_positional_match, lemma_used_grows,
    lemma_used_in_range, match_at, used_before,
};
use crate::model::{
    cleanups_from, declared_keys, destroyed, lemma_destroy_leaf, lemma_destroy_removes,
    reconcile_spec, reconcile_upto, unmatched, ModelView,
};
use crate::scope::{ScopeId, ScopeView};
use crate::tree::{lemma_reconcile_aligned, lemma_reconcile_upto};
use crate::value::{cleanups_of, Action, Value};

verus! {

/// Where no declared element has the key of a previous child, nothing is
/// taken and every declared element gets a new scope.
pub proof fn lemma_nothing_continued(prev: Seq<Option<ChildKey>>, next: Seq<ChildKey>, i: nat)
    requires
        i <= next.len(),
        forall|c: int, j: int|
            0 <= c < next.len() && 0 <= j < prev.len() ==> prev[j] != Some(next[c]),
    ensures
        used_before(prev, next, i) == Set::<int>::empty(),
        i < next.len() ==> match_at(prev, next, i as int) is None,
    decreases i,
{
    if i > 0 {
        lemma_nothing_continued(prev, next, (i - 1) as nat);
    }
    if i < next.len() {
        lemma_first_free(prev, used_before(prev, next, i), next[i as int], 0);
    }
}

/// Destruction through reconciliation. Let `s` be the one previous child,
/// and let no declared element have its component and key. Then
/// reconciliation destroys `s`: it is not among the new children and is no
/// longer live, and what falls due is exactly what destroying `s` makes
/// fall due, for `s` as it was before, after everything that was due
/// already. Where `s` has no children that is the cleanups of its own
/// slots, each once, in slot order.
pub proof fn lemma_reconcile_unmatched(
    m: ModelView,
    context: Map<u64, Value>,
    s: ScopeId,
    next: Seq<ElementView>,
)
    requires
        m.sound(),
        m.next_id + next.len() <= u64::MAX,
        s < m.next_id,
        m.scopes.contains_key(s),
        forall|c: int|
            0 <= c < next.len() ==> next[c].child_key() != m.scopes[s].element.child_key(),
    ensures
        ({
            let (after, children) = reconcile_spec(m, context, seq![s], next);
            let placed = reconcile_upto(m, context, seq![s], next, next.len()).0;
            &&& !after.scopes.contains_key(s)
            &&& !children.contains(s)
            &&& children.len() == next.len()
            &&& placed.scopes.contains_key(s)
            &&& placed.scopes[s] == m.scopes[s]
            &&& after.actions == m.actions + cleanups_from(placed.scopes, seq![s])
            &&& m.scopes[s].children.len() == 0 ==> after.actions == m.actions + cleanups_of(
                m.scopes[s].values,
            )
        }),
{
    let prev = seq![s];
    let n = next.len();
    let pk = m.child_keys(prev);
    let nk = declared_keys(next);
    let (placed, children) = reconcile_upto(m, context, prev, next, n);
    assert forall|c: int, j: int| 0 <= c < nk.len() && 0 <= j < pk.len() implies pk[j] != Some(
        nk[c],
    ) by {
        assert(prev[j] == s);
    }
    lemma_nothing_continued(pk, nk, n);
    assert forall|c: int| 0 <= c < n implies match_at(pk, nk, c) is None by {
        lemma_nothing_continued(pk, nk, c as nat);
    }
    let used = used_before(pk, nk, n);
    assert(unmatched(prev, used, 0) =~= Seq::empty());
    assert(unmatched(prev, used, 1) =~= prev);
    lemma_reconcile_upto(m, context, prev, next, n);
    lemma_reconcile_aligned(m, context, prev, next, n);
    assert(!children.contains(s)) by {
        if children.contains(s) {
            let c = choose|c: int| 0 <= c < children.len() && children[c] == s;
            assert(match_at(pk, nk, c) is None);
        }
    }
    lemma_destroy_removes(placed.scopes, prev);
    assert(prev[0] == s);
    if m.scopes[s].children.len() == 0 {
        lemma_destroy_leaf(placed.scopes, s);
    }
}

/// Where every previous child is taken, none is unmatched.
proof fn lemma_all_taken(prev: Seq<ScopeId>, used: Set<int>, n: nat)
    requires
        n <= prev.len(),
        forall|j: int| 0 <= j < prev.len() ==> used.contains(j),
    ensures
        unmatched(prev, used, n) == Seq::<ScopeId>::empty(),
    decreases n,
{
    if n > 0 {
        lemma_all_taken(prev, used, (n - 1) as nat);
    }
}

/// Where nothing is unmatched, reconciliation ends with the placing: no
/// scope is destroyed and nothing falls due.
proof fn lemma_nothing_dropped(
    m: ModelView,
    context: Map<u64, Value>,
    prev: Seq<ScopeId>,
    next: Seq<ElementView>,
)
    requires
        reconcile_upto(m, context, prev, next, next.len()).0.scopes.dom().finite(),
        forall|j: int|
            0 <= j < prev.len() ==> used_before(
                m.child_keys(prev),
                declared_keys(next),
                next.len(),
            ).contains(j),
    ensures
        reconcile_spec(m, context, prev, next) == reconcile_upto(
            m,
            context,
            prev,
            next,
            next.len(),
        ),
{
    let (placed, children) = reconcile_upto(m, context, prev, next, next.len());
    let used = used_before(m.child_keys(prev), declared_keys(next), next.len());
    lemma_all_taken(prev, used, prev.len());
    assert(destroyed(placed.scopes, Seq::empty()) == placed.scopes);
    assert(cleanups_from(placed.scopes, Seq::empty()) == Seq::<Action>::empty());
    assert(placed.actions + Seq::<Action>::empty() =~= placed.actions);
}

/// The children that a rearrangement names: for every declared element the
/// previous child at the position that `from` gives for it.
pub open spec fn rearranged(prev: Seq<ScopeId>, from: Seq<int>) -> Seq<ScopeId> {
    Seq::new(from.len(), |i: int| prev[from[i]])
}

/// Whether `from` gives the position `j` for some declared element.
pub open spec fn names(from: Seq<int>, j: int) -> bool {
    exists|i: int| 0 <= i < from.len() && from[i] == j
}

/// Whether the declared elements `next` are the previous children `prev`
/// in another order: the previous children are live and have different
/// keys, and `from` gives for every declared element the position of a
/// previous child with its component and key and with an element equal to
/// it, each position once and none left out.
pub open spec fn is_reorder(
    m: ModelView,
    prev: Seq<ScopeId>,
    next: Seq<ElementView>,
    from: Seq<int>,
) -> bool {
    &&& from.len() == next.len()
    &&& forall|j: int|
        0 <= j < prev.len() ==> prev[j] < m.next_id && m.scopes.contains_key(#[trigger] prev[j])
    &&& forall|j1: int, j2: int|
        0 <= j1 < j2 < prev.len() ==> m.scopes[prev[j1]].element.child_key()
            != m.scopes[prev[j2]].element.child_key()
    &&& forall|i: int| 0 <= i < from.len() ==> 0 <= #[trigger] from[i] < prev.len()
    &&& forall|i1: int, i2: int| 0 <= i1 < i2 < from.len() ==> from[i1] != from[i2]
    &&& forall|j: int| 0 <= j < prev.len() ==> #[trigger] names(from, j)
    &&& forall|i: int|
        0 <= i < from.len() ==> (#[trigger] next[i]).child_key()
            == m.scopes[prev[from[i]]].element.child_key() && m.scopes[prev[from[i]]].element.same_as(
            next[i],
        )
}

/// What the keys of a reorder give: every declared element continues the
/// previous child that `from` names.
proof fn lemma_reorder_matches(
    m: ModelView,
    prev: Seq<ScopeId>,
    next: Seq<ElementView>,
    from: Seq<int>,
    i: int,
)
    requires
        is_reorder(m, prev, next, from),
        0 <= i < next.len(),
    ensures
        match_at(m.child_keys(prev), declared_keys(next), i) == Some(from[i]),
{
    let pk = m.child_keys(prev);
    let nk = declared_keys(next);
    let j = from[i];
    assert(m.scopes.contains_key(prev[j]));
    assert forall|j2: int| 0 <= j2 < j implies pk[j2] != Some(nk[i]) by {
        assert(m.scopes.contains_key(prev[j2]));
    }
    assert forall|i2: int| 0 <= i2 < i implies nk[i2] != nk[i] by {
        let j2 = from[i2];
        assert(next[i2].child_key() == m.scopes[prev[j2]].element.child_key());
        assert(next[i].child_key() == m.scopes[prev[j]].element.child_key());
        if j2 < j {
            assert(m.scopes[prev[j2]].element.child_key() != m.scopes[prev[j]].element.child_key());
        } else {
            assert(m.scopes[prev[j]].element.child_key() != m.scopes[prev[j2]].element.child_key());
        }
    }
    lemma_keyed_match(pk, nk, i, j);
}

/// Placing the first `i` elements of a reorder changes nothing and lists
/// the children that `from` names.
proof fn lemma_reorder_upto(
    m: ModelView,
    context: Map<u64, Value>,
    prev: Seq<ScopeId>,
    next: Seq<ElementView>,
    from: Seq<int>,
    i: nat,
)
    requires
        is_reorder(m, prev, next, from),
        i <= next.len(),
    ensures
        reconcile_upto(m, context, prev, next, i) == (m, rearranged(prev, from).take(i as int)),
    decreases i,
{
    if i > 0 {
        lemma_reorder_upto(m, context, prev, next, from, (i - 1) as nat);
        lemma_reorder_matches(m, prev, next, from, i - 1);
        assert(rearranged(prev, from).take(i - 1).push(prev[from[i - 1]]) =~= rearranged(
            prev,
            from,
        ).take(i as int));
    } else {
        assert(rearranged(prev, from).take(0) =~= Seq::empty());
    }
}

/// Keyed reorder preserves state. Where the declared elements are the
/// previous children in another order, each with the key and with an
/// element equal to the one its scope holds, reconciliation changes
/// nothing: the new children are the same scopes in the declared order, no
/// scope is created, destroyed or touched, nothing is queued and nothing
/// falls due.
pub proof fn lemma_reconcile_reorder(
    m: ModelView,
    context: Map<u64, Value>,
    prev: Seq<ScopeId>,
    next: Seq<ElementView>,
    from: Seq<int>,
)
    requires
        m.sound(),
        is_reorder(m, prev, next, from),
    ensures
        reconcile_spec(m, context, prev, next) == (m, rearranged(prev, from)),
{
    let n = next.len();
    let pk = m.child_keys(prev);
    let nk = declared_keys(next);
    lemma_reorder_upto(m, context, prev, next, from, n);
    assert(rearranged(prev, from).take(n as int) =~= rearranged(prev, from));
    assert forall|j: int| 0 <= j < prev.len() implies used_before(pk, nk, n).contains(j) by {
        assert(names(from, j));
        let i = choose|i: int| 0 <= i < from.len() && from[i] == j;
        lemma_reorder_matches(m, prev, next, from, i);
        lemma_used_grows(pk, nk, (i + 1) as nat, n);
        assert(used_before(pk, nk, (i + 1) as nat).contains(j));
    }
    lemma_nothing_dropped(m, context, prev, next);
}

/// Whether the previous children `prev` and the declared elements `next`
/// are as many siblings of one component and key `k`, the previous ones
/// live and each listed once.
pub open spec fn is_positional(
    m: ModelView,
    prev: Seq<ScopeId>,
    next: Seq<ElementView>,
    k: ChildKey,
) -> bool {
    &&& next.len() == prev.len()
    &&& prev.no_duplicates()
    &&& m.next_id + next.len() <= u64::MAX
    &&& forall|j: int|
        0 <= j < prev.len() ==> prev[j] < m.next_id && m.scopes.contains_key(#[trigger] prev[j])
            && m.scopes[prev[j]].element.child_key() == k
    &&& forall|i: int| 0 <= i < next.len() ==> (#[trigger] next[i]).child_key() == k
}

/// What the scope at a position holds once the declared element at that
/// position has been placed on it: its own element if the declared one
/// equals it, the declared one otherwise, and everything else as before.
pub open spec fn placed_on(scope: ScopeView, element: ElementView) -> ScopeView {
    ScopeView {
        element: if scope.element.same_as(element) {
            scope.element
        } else {
            element
        },
        ..scope
    }
}

/// Placing the first `i` of unkeyed siblings creates no scope, lists the
/// previous children in their order and, where every declared element
/// differs from the one in place, queues them in that order.
proof fn lemma_positional_upto(
    m: ModelView,
    context: Map<u64, Value>,
    prev: Seq<ScopeId>,
    next: Seq<ElementView>,
    k: ChildKey,
    i: nat,
)
    requires
        m.sound(),
        is_positional(m, prev, next, k),
        i <= next.len(),
    ensures
        ({
            let (placed, children) = reconcile_upto(m, context, prev, next, i);
            &&& children == prev.take(i as int)
            &&& placed.next_id == m.next_id
            &&& placed.scopes.dom() == m.scopes.dom()
            &&& (forall|c: int| 0 <= c < next.len() ==> !m.scopes[prev[c]].element.same_as(next[c]))
                ==> placed.queue == m.queue + prev.take(i as int)
            &&& (forall|c: int| 0 <= c < next.len() ==> m.scopes[prev[c]].element.same_as(next[c]))
                ==> placed.queue == m.queue
        }),
    decreases i,
{
    let pk = m.child_keys(prev);
    let nk = declared_keys(next);
    if i > 0 {
        lemma_positional_upto(m, context, prev, next, k, (i - 1) as nat);
        lemma_reconcile_aligned(m, context, prev, next, (i - 1) as nat);
        lemma_positional_match(pk, nk, k, i - 1);
        let (before, listed) = reconcile_upto(m, context, prev, next, (i - 1) as nat);
        let (placed, children) = reconcile_upto(m, context, prev, next, i);
        let id = prev[i - 1];
        assert(!listed.contains(id)) by {
            if listed.contains(id) {
                let c = choose|c: int| 0 <= c < listed.len() && listed[c] == id;
                assert(prev[c] == prev[i - 1]);
            }
        }
        assert(m.scopes.contains_key(id));
        assert(before.scopes[id] == m.scopes[id]);
        assert(prev.take(i - 1).push(id) =~= prev.take(i as int));
        assert(placed.scopes.dom() =~= m.scopes.dom());
        assert(m.queue + prev.take(i - 1).push(id) =~= (m.queue + prev.take(i - 1)).push(id));
    } else {
        assert(prev.take(0) =~= Seq::empty());
        assert(m.queue + prev.take(0) =~= m.queue);
    }
}

/// Unkeyed siblings keep their scopes by position. Where the previous
/// children and the declared elements are as many siblings of one component
/// without telling keys, the new children are the previous children in
/// their order, whatever the declared elements hold: the scope at a
/// position keeps its slots, its children and its context, and takes the
/// element declared at that position unless that equals its own. No scope
/// is created or destroyed and nothing falls due. Where every declared
/// element differs from the one in place, every scope is queued once, in
/// order; where none differs, nothing is queued.
pub proof fn lemma_reconcile_positional(
    m: ModelView,
    context: Map<u64, Value>,
    prev: Seq<ScopeId>,
    next: Seq<ElementView>,
    k: ChildKey,
)
    requires
        m.sound(),
        is_positional(m, prev, next, k),
    ensures
        ({
            let (after, children) = reconcile_spec(m, context, prev, next);
            &&& children == prev
            &&& after.scopes.dom() == m.scopes.dom()
            &&& after.next_id == m.next_id
            &&& after.actions == m.actions
            &&& forall|i: int|
                0 <= i < prev.len() ==> after.scopes[#[trigger] prev[i]] == placed_on(
                    m.scopes[prev[i]],
                    next[i],
                )
            &&& (forall|c: int| 0 <= c < next.len() ==> !m.scopes[prev[c]].element.same_as(next[c]))
                ==> after.queue == m.queue + prev
            &&& (forall|c: int| 0 <= c < next.len() ==> m.scopes[prev[c]].element.same_as(next[c]))
                ==> after.queue == m.queue
        }),
{
    let n = next.len();
    let pk = m.child_keys(prev);
    let nk = declared_keys(next);
    let (placed, children) = reconcile_upto(m, context, prev, next, n);
    lemma_positional_upto(m, context, prev, next, k, n);
    lemma_reconcile_upto(m, context, prev, next, n);
    lemma_reconcile_aligned(m, context, prev, next, n);
    assert(prev.take(n as int) =~= prev);
    assert forall|j: int| 0 <= j < prev.len() implies used_before(pk, nk, n).contains(j) by {
        lemma_positional_match(pk, nk, k, j);
        lemma_used_grows(pk, nk, (j + 1) as nat, n);
        assert(used_before(pk, nk, (j + 1) as nat).contains(j));
    }
    lemma_nothing_dropped(m, context, prev, next);
    assert forall|i: int| 0 <= i < prev.len() implies placed.scopes[#[trigger] prev[i]]
        == placed_on(m.scopes[prev[i]], next[i]) by {
        lemma_positional_match(pk, nk, k, i);
        assert(children[i] == prev[i]);
    }
}

} // verus!
