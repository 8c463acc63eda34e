//! The mathematical state of the engine and the functions that say how it
//! evolves.

use vstd::prelude::*;
use crate::element::{ChildKey, ElementView};
use crate::scope::{HookCall, ScopeId, ScopeView};
use crate::tree::{forest_of, is_child, lemma_scope_replaced};
use crate::matching::{match_at, used_before};
use crate::value::{cleanups_of, Action, Callback, Value};

verus! {

/// When queued updates are processed.
#[derive(Debug, Clone, Copy, PartialEq, Eq, Structural)]
pub enum UpdateMode {
    /// A request outside a render drains the queue before it returns.
    Instant,
    /// Requests only queue; the caller processes updates one by one.
    Poll,
}

/// The mathematical content of the model.
pub ghost struct ModelView {
    pub mode: UpdateMode,
    /// The scope of the root element, once one has been rendered.
    pub root: Option<ScopeId>,
    /// The scope whose render is in progress.
    pub active: Option<ScopeId>,
    /// The children declared so far by the render in progress.
    pub children_buf: Seq<ElementView>,
    /// The scopes waiting for an update, oldest first.
    pub queue: Seq<ScopeId>,
    /// The callbacks deferred to the end of the update in progress.
    pub post_update: Seq<Callback>,
    /// Every live scope, by number.
    pub scopes: Map<ScopeId, ScopeView>,
    /// The number the next new scope will get.
    pub next_id: nat,
    /// What the host has been asked to do and has not collected yet.
    pub actions: Seq<Action>,
    /// The scopes whose render was given up, oldest first, as far as the
    /// host has not collected them yet.
    pub given_up: Seq<ScopeId>,
}

impl ModelView {
    /// The state of a model that has rendered nothing yet.
    pub open spec fn initial() -> ModelView {
        ModelView {
            mode: UpdateMode::Instant,
            root: None,
            active: None,
            children_buf: Seq::empty(),
            queue: Seq::empty(),
            post_update: Seq::empty(),
            scopes: Map::empty(),
            next_id: 0,
            actions: Seq::empty(),
            given_up: Seq::empty(),
        }
    }

    /// The invariant of the model: scope numbers are sound and the scopes
    /// form a forest in which the root scope is nobody's child.
    pub open spec fn wf(self) -> bool {
        &&& self.sound()
        &&& forest_of(self.scopes)
        &&& self.root is Some ==> self.root->0 < self.next_id && forall|p: ScopeId|
            !is_child(self.scopes, p, self.root->0)
    }

    /// Finitely many scopes, each numbered below `next_id`, with its cursor
    /// in range and with children numbered below `next_id`.
    pub open spec fn sound(self) -> bool {
        &&& self.scopes.dom().finite()
        &&& self.next_id <= u64::MAX
        &&& forall|id: ScopeId| #[trigger]
            self.scopes.contains_key(id) ==> {
                &&& id < self.next_id
                &&& self.scopes[id].wf()
                &&& forall|i: int|
                    0 <= i < self.scopes[id].children.len() ==> #[trigger] self.scopes[id].children[i]
                        < self.next_id
            }
    }

    /// A render is in progress and its scope is live.
    pub open spec fn is_rendering(self) -> bool {
        self.active is Some && self.scopes.contains_key(self.active->0)
    }

    /// The scope whose render is in progress.
    pub open spec fn current(self) -> ScopeView
        recommends
            self.is_rendering(),
    {
        self.scopes[self.active->0]
    }

    /// The same state with the scope in progress replaced by `scope`.
    pub open spec fn with_current(self, scope: ScopeView) -> ModelView
        recommends
            self.is_rendering(),
    {
        ModelView { scopes: self.scopes.insert(self.active->0, scope), ..self }
    }

    /// The keys under which the previous children `prev` can be matched. A
    /// child that is no longer live has none.
    pub open spec fn child_keys(self, prev: Seq<ScopeId>) -> Seq<Option<ChildKey>> {
        Seq::new(
            prev.len(),
            |j: int|
                if self.scopes.contains_key(prev[j]) {
                    Some(self.scopes[prev[j]].element.child_key())
                } else {
                    None
                },
        )
    }
}

/// The scopes that remain once the scopes listed in `todo` have been
/// destroyed, each together with its descendants. A number that names no
/// live scope is passed over.
pub open spec fn destroyed(scopes: Map<ScopeId, ScopeView>, todo: Seq<ScopeId>) -> Map<
    ScopeId,
    ScopeView,
>
    decreases scopes.dom().len(), todo.len(),
    when scopes.dom().finite()
{
    if todo.len() == 0 {
        scopes
    } else if scopes.contains_key(todo[0]) {
        destroyed(scopes.remove(todo[0]), scopes[todo[0]].children + todo.drop_first())
    } else {
        destroyed(scopes, todo.drop_first())
    }
}

/// Destruction removes scopes and adds none.
pub proof fn lemma_destroyed_shrinks(scopes: Map<ScopeId, ScopeView>, todo: Seq<ScopeId>)
    requires
        scopes.dom().finite(),
    ensures
        destroyed(scopes, todo).dom().finite(),
        destroyed(scopes, todo).dom().len() <= scopes.dom().len(),
    decreases scopes.dom().len(), todo.len(),
{
    if todo.len() > 0 {
        if scopes.contains_key(todo[0]) {
            lemma_destroyed_shrinks(
                scopes.remove(todo[0]),
                scopes[todo[0]].children + todo.drop_first(),
            );
        } else {
            lemma_destroyed_shrinks(scopes, todo.drop_first());
        }
    }
}

/// The cleanup actions that fall due when the scopes listed in `todo` are
/// destroyed, first to last, in the order in which they fall due: for each
/// scope first what its children owe, child by child, each with its own
/// descendants before it, and then what its own slots owe, in slot order.
/// A scope owes only once: what has been destroyed on the way is passed
/// over when it is met again.
pub open spec fn cleanups_from(scopes: Map<ScopeId, ScopeView>, todo: Seq<ScopeId>) -> Seq<Action>
    decreases scopes.dom().len(), todo.len(),
    when scopes.dom().finite()
{
    if todo.len() == 0 {
        Seq::empty()
    } else if scopes.contains_key(todo[0]) {
        let scope = scopes[todo[0]];
        let under = scopes.remove(todo[0]);
        proof {
            lemma_destroyed_shrinks(under, scope.children);
        }
        cleanups_from(under, scope.children) + cleanups_of(scope.values) + cleanups_from(
            destroyed(under, scope.children),
            todo.drop_first(),
        )
    } else {
        cleanups_from(scopes, todo.drop_first())
    }
}

/// The previous children that no declared element continues, in their
/// own order, among the first `upto` of `prev`.
pub open spec fn unmatched(prev: Seq<ScopeId>, used: Set<int>, upto: nat) -> Seq<ScopeId>
    decreases upto,
{
    if upto == 0 {
        Seq::empty()
    } else {
        let before = unmatched(prev, used, (upto - 1) as nat);
        if used.contains(upto - 1) {
            before
        } else {
            before.push(prev[upto - 1])
        }
    }
}

/// The matching keys of the declared elements.
pub open spec fn declared_keys(next: Seq<ElementView>) -> Seq<ChildKey> {
    next.map_values(|e: ElementView| e.child_key())
}

/// The model and the new child list after the first `i` declared elements
/// have been placed.
///
/// A declared element that continues a previous child reuses its scope; if
/// the element differs from the one the scope holds, the scope takes the
/// new element and is queued. A declared element that continues nothing
/// gets a new scope with the next free number and a copy of `context`, and
/// that scope is queued for its first render.
pub open spec fn reconcile_upto(
    m: ModelView,
    context: Map<u64, Value>,
    prev: Seq<ScopeId>,
    next: Seq<ElementView>,
    i: nat,
) -> (ModelView, Seq<ScopeId>)
    decreases i,
{
    if i == 0 {
        (m, Seq::empty())
    } else {
        let (m1, children) = reconcile_upto(m, context, prev, next, (i - 1) as nat);
        let e = next[i - 1];
        match match_at(m.child_keys(prev), declared_keys(next), i - 1) {
            Some(j) => {
                let id = prev[j];
                if m1.scopes[id].element.same_as(e) {
                    (m1, children.push(id))
                } else {
                    (
                        ModelView {
                            scopes: m1.scopes.insert(
                                id,
                                ScopeView { element: e, ..m1.scopes[id] },
                            ),
                            queue: m1.queue.push(id),
                            ..m1
                        },
                        children.push(id),
                    )
                }
            },
            None => {
                let id = m1.next_id as ScopeId;
                (
                    ModelView {
                        scopes: m1.scopes.insert(id, ScopeView::fresh(e, context)),
                        queue: m1.queue.push(id),
                        next_id: m1.next_id + 1,
                        ..m1
                    },
                    children.push(id),
                )
            },
        }
    }
}

/// The model and the new child list after reconciling the previous
/// children `prev` against the declared elements `next`: every declared
/// element is placed, then the previous children that none of them
/// continues are destroyed with their descendants.
pub open spec fn reconcile_spec(
    m: ModelView,
    context: Map<u64, Value>,
    prev: Seq<ScopeId>,
    next: Seq<ElementView>,
) -> (ModelView, Seq<ScopeId>) {
    let (m1, children) = reconcile_upto(m, context, prev, next, next.len());
    let used = used_before(m.child_keys(prev), declared_keys(next), next.len());
    let gone = unmatched(prev, used, prev.len());
    (
        ModelView {
            scopes: destroyed(m1.scopes, gone),
            actions: m1.actions + cleanups_from(m1.scopes, gone),
            ..m1
        },
        children,
    )
}

/// The post-update actions for the deferred callbacks `events`, in order.
pub open spec fn post_update_actions(events: Seq<Callback>) -> Seq<Action> {
    events.map_values(|c: Callback| Action::PostUpdate(c))
}

impl ModelView {
    /// The state after `call` has been made in the render in progress.
    pub open spec fn after_hook(self, call: HookCall) -> ModelView
        recommends
            self.is_rendering(),
    {
        ModelView {
            actions: self.actions + self.current().hook_actions(call),
            ..self.with_current(self.current().after_hook(call))
        }
    }

    /// The state with `id` appended to the update queue.
    pub open spec fn enqueue(self, id: ScopeId) -> ModelView {
        ModelView { queue: self.queue.push(id), ..self }
    }

    /// Whether a request made in this state drains the queue before it
    /// returns: only in `Instant` mode, and never while a render is in
    /// progress.
    pub open spec fn drains(self) -> bool {
        self.mode == UpdateMode::Instant && self.active is None
    }

    /// The state after the update of scope `id` has begun: the scope is
    /// the one in progress and its cursor is back at the first slot.
    pub open spec fn begun(self, id: ScopeId) -> ModelView
        recommends
            self.scopes.contains_key(id),
    {
        ModelView {
            active: Some(id),
            scopes: self.scopes.insert(id, ScopeView { cursor: 0, ..self.scopes[id] }),
            ..self
        }
    }

    /// The state after the render in progress has been closed: the declared
    /// children are reconciled against the scope's previous children with the
    /// scope's own context as what new children inherit, the scope takes
    /// the new child list, and the deferred callbacks fall due, in order.
    pub open spec fn finished(self) -> ModelView
        recommends
            self.is_rendering(),
    {
        let id = self.active->0;
        let scope = self.scopes[id];
        let cleared = ModelView {
            active: None,
            children_buf: Seq::empty(),
            post_update: Seq::empty(),
            ..self
        };
        let (m1, children) = reconcile_spec(
            cleared,
            scope.context,
            scope.children,
            self.children_buf,
        );
        ModelView {
            scopes: if m1.scopes.contains_key(id) {
                m1.scopes.insert(id, ScopeView { children, ..m1.scopes[id] })
            } else {
                m1.scopes
            },
            actions: m1.actions + post_update_actions(self.post_update),
            ..m1
        }
    }

    /// Whether the render in progress is that of `scope` and can be closed:
    /// the scope is still live, and there is a number for every child that
    /// the render declared.
    pub open spec fn closes(self, scope: ScopeId) -> bool {
        &&& self.active == Some(scope)
        &&& self.scopes.contains_key(scope)
        &&& self.next_id + self.children_buf.len() <= u64::MAX
    }

    /// The state after the render of `scope` has been given up: no render
    /// is in progress, what the render declared and deferred is dropped, and
    /// the scope is on record as given up.
    pub open spec fn abandoned(self, scope: ScopeId) -> ModelView {
        ModelView {
            active: None,
            children_buf: Seq::empty(),
            post_update: Seq::empty(),
            given_up: self.given_up.push(scope),
            ..self
        }
    }

    /// The state after the update of `scope` has been ended: closed where
    /// that is possible, given up otherwise.
    pub open spec fn ended(self, scope: ScopeId) -> ModelView {
        if self.closes(scope) {
            self.finished()
        } else {
            self.abandoned(scope)
        }
    }

    /// Whether the root scope exists and is live.
    pub open spec fn has_root(self) -> bool {
        self.root is Some && self.scopes.contains_key(self.root->0)
    }

    /// The state after `element` has been made the root element: the root
    /// scope takes it, or a new root scope is created for it when there is
    /// no live root scope.
    pub open spec fn with_root(self, element: ElementView) -> ModelView {
        if self.root is Some && self.scopes.contains_key(self.root->0) {
            let id = self.root->0;
            ModelView {
                scopes: self.scopes.insert(id, ScopeView { element, ..self.scopes[id] }),
                ..self
            }
        } else {
            let id = self.next_id as ScopeId;
            ModelView {
                root: Some(id),
                scopes: self.scopes.insert(id, ScopeView::fresh(element, Map::empty())),
                next_id: self.next_id + 1,
                ..self
            }
        }
    }
}

/// Replacing the scope in progress by one that is well formed and has the
/// same children keeps the model well formed and the render in progress.
pub proof fn lemma_with_current(m: ModelView, scope: ScopeView)
    requires
        m.wf(),
        m.is_rendering(),
        scope.wf(),
        scope.children == m.current().children,
    ensures
        m.with_current(scope).wf(),
        m.with_current(scope).is_rendering(),
        m.with_current(scope).current() == scope,
{
    lemma_scope_replaced(m, m.active->0, scope);
}

/// A hook call keeps the model well formed and the render in progress.
pub proof fn lemma_after_hook(m: ModelView, call: HookCall)
    requires
        m.wf(),
        m.is_rendering(),
    ensures
        m.after_hook(call).wf(),
        m.after_hook(call).is_rendering(),
        m.after_hook(call).active == m.active,
        m.after_hook(call).current() == m.current().after_hook(call),
{
    lemma_with_current(m, m.current().after_hook(call));
}

/// Destruction runs all cleanups. Destroying a live scope without children
/// removes it and makes the cleanups of its slots fall due, each once, in
/// slot order, and nothing else.
pub proof fn lemma_destroy_leaf(scopes: Map<ScopeId, ScopeView>, id: ScopeId)
    requires
        scopes.dom().finite(),
        scopes.contains_key(id),
        scopes[id].children.len() == 0,
    ensures
        destroyed(scopes, seq![id]) == scopes.remove(id),
        cleanups_from(scopes, seq![id]) == cleanups_of(scopes[id].values),
{
    let under = scopes.remove(id);
    assert(scopes[id].children + seq![id].drop_first() =~= Seq::empty());
    assert(scopes[id].children =~= Seq::empty());
    assert(destroyed(under, Seq::empty()) == under);
    assert(cleanups_from(under, Seq::empty()) == Seq::<Action>::empty());
    assert(cleanups_from(under, seq![id].drop_first()) == Seq::<Action>::empty());
    assert(Seq::<Action>::empty() + cleanups_of(scopes[id].values) + Seq::<Action>::empty()
        =~= cleanups_of(scopes[id].values));
}

/// Destruction only removes: what remains was live before and is
/// unchanged, and none of the listed scopes remains.
pub proof fn lemma_destroy_removes(scopes: Map<ScopeId, ScopeView>, todo: Seq<ScopeId>)
    requires
        scopes.dom().finite(),
    ensures
        destroyed(scopes, todo).dom().finite(),
        forall|id: ScopeId| #[trigger]
            destroyed(scopes, todo).contains_key(id) ==> scopes.contains_key(id) && destroyed(
                scopes,
                todo,
            )[id] == scopes[id],
        forall|i: int| 0 <= i < todo.len() ==> !destroyed(scopes, todo).contains_key(todo[i]),
    decreases scopes.dom().len(), todo.len(),
{
    if todo.len() > 0 {
        if scopes.contains_key(todo[0]) {
            let next = scopes[todo[0]].children + todo.drop_first();
            lemma_destroy_removes(scopes.remove(todo[0]), next);
            assert forall|i: int| 0 <= i < todo.len() implies !destroyed(scopes, todo).contains_key(
                todo[i],
            ) by {
                if i > 0 {
                    assert(next[scopes[todo[0]].children.len() + i - 1] == todo[i]);
                }
            }
        } else {
            lemma_destroy_removes(scopes, todo.drop_first());
            assert forall|i: int| 0 <= i < todo.len() implies !destroyed(scopes, todo).contains_key(
                todo[i],
            ) by {
                if i > 0 {
                    assert(todo.drop_first()[i - 1] == todo[i]);
                }
            }
        }
    }
}

/// A destroyed scope owes nothing more: destroying it again removes nothing
/// and makes nothing fall due.
pub proof fn lemma_destroy_once(scopes: Map<ScopeId, ScopeView>, id: ScopeId)
    requires
        scopes.dom().finite(),
    ensures
        destroyed(destroyed(scopes, seq![id]), seq![id]) == destroyed(scopes, seq![id]),
        cleanups_from(destroyed(scopes, seq![id]), seq![id]) == Seq::<Action>::empty(),
{
    lemma_destroy_removes(scopes, seq![id]);
    let left = destroyed(scopes, seq![id]);
    assert(!left.contains_key(seq![id][0]));
    assert(seq![id].drop_first() =~= Seq::empty());
    assert(destroyed(left, Seq::empty()) == left);
    assert(cleanups_from(left, Seq::empty()) == Seq::<Action>::empty());
}

/// Destroying one list and then another is destroying the two lists as
/// one.
pub proof fn lemma_destroyed_in_turn(
    scopes: Map<ScopeId, ScopeView>,
    first: Seq<ScopeId>,
    then: Seq<ScopeId>,
)
    requires
        scopes.dom().finite(),
    ensures
        destroyed(scopes, first + then) == destroyed(destroyed(scopes, first), then),
    decreases scopes.dom().len(), first.len(),
{
    if first.len() == 0 {
        assert(first + then =~= then);
    } else {
        assert((first + then).drop_first() =~= first.drop_first() + then);
        if scopes.contains_key(first[0]) {
            let children = scopes[first[0]].children;
            assert(children + (first.drop_first() + then) =~= (children + first.drop_first())
                + then);
            lemma_destroyed_in_turn(scopes.remove(first[0]), children + first.drop_first(), then);
        } else {
            lemma_destroyed_in_turn(scopes, first.drop_first(), then);
        }
    }
}

/// What two lists of scopes owe when they are destroyed as one is what the
/// first owes, and then what the second owes once the first is gone.
pub proof fn lemma_cleanups_in_turn(
    scopes: Map<ScopeId, ScopeView>,
    first: Seq<ScopeId>,
    then: Seq<ScopeId>,
)
    requires
        scopes.dom().finite(),
    ensures
        cleanups_from(scopes, first + then) == cleanups_from(scopes, first) + cleanups_from(
            destroyed(scopes, first),
            then,
        ),
    decreases scopes.dom().len(), first.len(),
{
    if first.len() == 0 {
        assert(first + then =~= then);
        assert(Seq::<Action>::empty() + cleanups_from(scopes, then) =~= cleanups_from(
            scopes,
            then,
        ));
    } else {
        assert((first + then).drop_first() =~= first.drop_first() + then);
        assert((first + then)[0] == first[0]);
        if scopes.contains_key(first[0]) {
            let scope = scopes[first[0]];
            let under = scopes.remove(first[0]);
            let after = destroyed(under, scope.children);
            lemma_destroyed_shrinks(under, scope.children);
            lemma_cleanups_in_turn(after, first.drop_first(), then);
            lemma_destroyed_in_turn(under, scope.children, first.drop_first());
            let own = cleanups_from(under, scope.children) + cleanups_of(scope.values);
            assert(own + (cleanups_from(after, first.drop_first()) + cleanups_from(
                destroyed(after, first.drop_first()),
                then,
            )) =~= (own + cleanups_from(after, first.drop_first())) + cleanups_from(
                destroyed(after, first.drop_first()),
                then,
            ));
        } else {
            lemma_cleanups_in_turn(scopes, first.drop_first(), then);
        }
    }
}

} // verus!
