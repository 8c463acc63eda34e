//! What processing updates does, given the render logic.

use vstd::prelude::*;
use crate::components::Component;
use crate::model::ModelView;
use crate::scope::{lemma_slot_stability, run_hooks, HookCall, ScopeId, ScopeView};
use crate::tree::{lemma_finished_children, lemma_finished_wf};

verus! {

/// The model after scope `scope` has been processed: its update is begun,
/// the render logic runs on its element, and the update is ended. Nothing
/// happens when a render is in progress or the scope is no longer live.
pub open spec fn updated<C: Component>(components: &C, m: ModelView, scope: ScopeId) -> ModelView {
    if m.active is None && m.scopes.contains_key(scope) {
        components.rendered(m.begun(scope), m.scopes[scope].element).ended(scope)
    } else {
        m
    }
}

/// The model after one step: the oldest queue entry is taken and its scope
/// processed. Nothing happens when a render is in progress or the queue is
/// empty.
pub open spec fn stepped<C: Component>(components: &C, m: ModelView) -> ModelView {
    if m.active is None && m.queue.len() > 0 {
        updated(components, ModelView { queue: m.queue.drop_first(), ..m }, m.queue[0])
    } else {
        m
    }
}

/// The model after `n` steps.
pub open spec fn drained<C: Component>(components: &C, m: ModelView, n: nat) -> ModelView
    decreases n,
{
    if n == 0 {
        m
    } else {
        stepped(components, drained(components, m, (n - 1) as nat))
    }
}

/// Whether `after` is what a request for an update of `scope`, made in the
/// state `m`, leads to. Where the request drains, the scope is queued and
/// steps are taken until the queue is empty (or `u64::MAX` steps have been
/// taken), and no render is in progress afterwards. Where it does not, the
/// scope is queued and nothing else happens.
pub open spec fn requested<C: Component>(
    components: &C,
    m: ModelView,
    scope: ScopeId,
    after: ModelView,
) -> bool {
    if m.drains() {
        &&& after.active is None
        &&& exists|n: nat|
            #[trigger] drained(components, m.enqueue(scope), n) == after && (after.queue.len() == 0
                || n == u64::MAX)
    } else {
        after == m.enqueue(scope)
    }
}

/// Processing a scope. Where no render is in progress, the scope is live
/// and the render logic leaves a render that can be closed, the update is
/// what closing that render gives: the render logic has run on the element
/// of the scope, with the cursor at the first slot; the children of the
/// scope are the declared elements reconciled against its previous
/// children; the scope keeps what the render left of its slots and its
/// context; and afterwards no render is in progress and the buffers are
/// empty.
pub proof fn lemma_update_closed<C: Component>(components: &C, m: ModelView, scope: ScopeId)
    requires
        m.wf(),
        m.active is None,
        m.scopes.contains_key(scope),
        components.rendered(m.begun(scope), m.scopes[scope].element).wf(),
        components.rendered(m.begun(scope), m.scopes[scope].element).closes(scope),
    ensures
        ({
            let left = components.rendered(m.begun(scope), m.scopes[scope].element);
            let after = updated(components, m, scope);
            &&& after == left.finished()
            &&& after.wf()
            &&& after.active is None
            &&& after.children_buf.len() == 0
            &&& after.post_update.len() == 0
            &&& after.scopes.contains_key(scope)
            &&& after.scopes[scope] == ScopeView {
                children: after.scopes[scope].children,
                ..left.scopes[scope]
            }
            &&& after.scopes[scope].children.len() == left.children_buf.len()
        }),
{
    let left = components.rendered(m.begun(scope), m.scopes[scope].element);
    lemma_finished_wf(left);
    lemma_finished_children(left);
}

/// Slot stability across an update. Let the render of a scope make one hook
/// call per slot that the scope has, each of the kind of its slot, and let
/// the update be closed. Then the scope has as many slots after the update
/// as before, every slot holds what its own hook makes of it, and a slot
/// whose hook keeps it is untouched.
pub proof fn lemma_update_keeps_slots<C: Component>(
    components: &C,
    m: ModelView,
    scope: ScopeId,
    calls: Seq<HookCall>,
)
    requires
        m.wf(),
        m.active is None,
        m.scopes.contains_key(scope),
        calls.len() == m.scopes[scope].values.len(),
        forall|i: int| 0 <= i < calls.len() ==> calls[i].fits(m.scopes[scope].values[i]),
        ({
            let left = components.rendered(m.begun(scope), m.scopes[scope].element);
            &&& left.wf()
            &&& left.closes(scope)
            &&& left.scopes[scope].values == run_hooks(m.begun(scope).scopes[scope], calls).values
        }),
    ensures
        ({
            let before = m.scopes[scope].values;
            let after = updated(components, m, scope);
            &&& after.scopes.contains_key(scope)
            &&& after.active is None
            &&& after.scopes[scope].values.len() == before.len()
            &&& forall|i: int|
                0 <= i < before.len() ==> after.scopes[scope].values[i] == calls[i].slot_after(
                    before[i],
                )
            &&& forall|i: int|
                0 <= i < before.len() && calls[i].keeps(before[i]) ==> after.scopes[scope].values[i]
                    == before[i]
        }),
{
    let left = components.rendered(m.begun(scope), m.scopes[scope].element);
    lemma_slot_stability(m.begun(scope).scopes[scope], calls);
    lemma_finished_wf(left);
    lemma_finished_children(left);
}

} // verus!
