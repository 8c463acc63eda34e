//! The model: owner of the scopes, the update queue and the render in
//! progress.

use vstd::prelude::*;
use std::collections::{HashMap, VecDeque};
use crate::components::Component;
use crate::element::Element;
use crate::matching::{first_free, lemma_first_free, used_before};
use crate::model::{
    cleanups_from, declared_keys, destroyed, lemma_cleanups_in_turn, lemma_destroyed_in_turn,
    lemma_destroyed_shrinks, lemma_with_current, post_update_actions, reconcile_spec,
    reconcile_upto, unmatched, ModelView, UpdateMode,
};
use crate::schedule::{drained, requested, stepped, updated};
use crate::scope::{Scope, ScopeId, ScopeView};
use crate::tree::{lemma_finished_wf, lemma_root_created, lemma_scope_replaced};
use crate::value::{cleanups_of, Action, Callback, Slot, Value};

verus! {

broadcast use vstd::std_specs::hash::group_hash_axioms;

/// The engine state. It owns every scope; parents, the queue and hook
/// handles refer to scopes by number.
pub struct AppModel {
    mode: UpdateMode,
    root: Option<ScopeId>,
    scope: Option<ScopeId>,
    children_buf: Vec<Element>,
    update_queue: VecDeque<ScopeId>,
    post_update_events: Vec<Callback>,
    scopes: HashMap<ScopeId, Scope>,
    next_id: u64,
    actions: Vec<Action>,
    given_up: Vec<ScopeId>,
}

impl View for AppModel {
    type V = ModelView;

    closed spec fn view(&self) -> ModelView {
        ModelView {
            mode: self.mode,
            root: self.root,
            active: self.scope,
            children_buf: self.children_buf@.map_values(|e: Element| e@),
            queue: self.update_queue@,
            post_update: self.post_update_events@,
            scopes: self.scopes@.map_values(|s: Scope| s@),
            next_id: self.next_id as nat,
            actions: self.actions@,
            given_up: self.given_up@,
        }
    }
}

/// A model in `Instant` mode that has rendered nothing yet.
pub fn create_app_model() -> (r: AppModel)
    ensures
        r@ == ModelView::initial(),
        r.wf(),
{
    let r = AppModel {
        mode: UpdateMode::Instant,
        root: None,
        scope: None,
        children_buf: Vec::new(),
        update_queue: VecDeque::new(),
        post_update_events: Vec::new(),
        scopes: HashMap::new(),
        next_id: 0,
        actions: Vec::new(),
        given_up: Vec::new(),
    };
    assert(r@.children_buf =~= Seq::empty());
    assert(r@.scopes =~= Map::empty());
    r
}

impl AppModel {
    /// The invariant of the model; see [`ModelView::wf`].
    pub open spec fn wf(&self) -> bool {
        self@.wf()
    }

    /// The part of the invariant that holds even while a child list is
    /// being rebuilt; see [`ModelView::sound`].
    pub open spec fn sound(&self) -> bool {
        self@.sound()
    }

    /// The live scope numbered `id`, if there is one.
    pub(crate) fn scope_ref(&self, id: ScopeId) -> (r: Option<&Scope>)
        ensures
            r is Some <==> self@.scopes.contains_key(id),
            r is Some ==> r->0@ == self@.scopes[id],
    {
        self.scopes.get(&id)
    }

    /// Takes the scope numbered `id` out of the model.
    pub(crate) fn take_scope(&mut self, id: ScopeId) -> (r: Option<Scope>)
        ensures
            r is Some <==> old(self)@.scopes.contains_key(id),
            r is Some ==> r->0@ == old(self)@.scopes[id],
            final(self)@ == (ModelView { scopes: old(self)@.scopes.remove(id), ..old(self)@ }),
    {
        let r = self.scopes.remove(&id);
        assert(self@.scopes =~= old(self)@.scopes.remove(id));
        r
    }

    /// Puts `scope` into the model under the number `id`.
    pub(crate) fn put_scope(&mut self, id: ScopeId, scope: Scope)
        ensures
            final(self)@ == (ModelView {
                scopes: old(self)@.scopes.insert(id, scope@),
                ..old(self)@
            }),
    {
        self.scopes.insert(id, scope);
        assert(self@.scopes =~= old(self)@.scopes.insert(id, scope@));
    }

    /// Switches between draining at once and waiting to be polled.
    pub fn set_update_mode(&mut self, update_mode: UpdateMode)
        ensures
            final(self)@ == (ModelView { mode: update_mode, ..old(self)@ }),
    {
        self.mode = update_mode;
    }

    /// The scope whose render is in progress, if any.
    pub fn current_scope(&self) -> (r: Option<ScopeId>)
        ensures
            r == self@.active,
    {
        self.scope
    }

    /// The cursor of the scope in progress.
    pub fn cursor(&self) -> (r: usize)
        requires
            self@.is_rendering(),
        ensures
            r == self@.current().cursor,
    {
        let id = self.scope.unwrap();
        self.scope_ref(id).unwrap().value_cursor
    }

    /// The slot under the cursor of the scope in progress, without moving
    /// on: what the next hook call will find.
    pub fn peek_value(&self) -> (r: Option<Slot>)
        requires
            self@.is_rendering(),
        ensures
            r == self@.current().read(),
    {
        let id = self.scope.unwrap();
        let scope = self.scope_ref(id).unwrap();
        if scope.value_cursor < scope.values.len() {
            Some(scope.values[scope.value_cursor])
        } else {
            None
        }
    }

    /// Declares `element` as the next child of the render in progress.
    pub fn push_child(&mut self, element: Element)
        ensures
            final(self)@ == (ModelView {
                children_buf: old(self)@.children_buf.push(element@),
                ..old(self)@
            }),
    {
        self.children_buf.push(element);
        assert(self@.children_buf =~= old(self)@.children_buf.push(element@));
    }

    /// Declares `element` as the next child of the render in progress. The
    /// same as [`AppModel::push_child`].
    pub fn add_child(&mut self, element: Element)
        ensures
            final(self)@ == (ModelView {
                children_buf: old(self)@.children_buf.push(element@),
                ..old(self)@
            }),
    {
        self.push_child(element)
    }

    /// Stores `context` under the type number `key` in the context of the
    /// scope in progress. Children created from now on inherit it.
    pub fn provide_context(&mut self, key: u64, context: Value)
        requires
            old(self)@.is_rendering(),
        ensures
            final(self)@ == old(self)@.with_current(
                ScopeView {
                    context: old(self)@.current().context.insert(key, context),
                    ..old(self)@.current()
                },
            ),
            final(self)@.is_rendering(),
            old(self).wf() ==> final(self).wf(),
    {
        proof {
            if self.wf() {
                lemma_with_current(
                    self@,
                    ScopeView {
                        context: self@.current().context.insert(key, context),
                        ..self@.current()
                    },
                );
            }
        }
        let id = self.scope.unwrap();
        let mut scope = self.take_scope(id).unwrap();
        scope.context_map.insert(key, context);
        self.put_scope(id, scope);
        assert(self@.scopes =~= old(self)@.with_current(
            ScopeView {
                context: old(self)@.current().context.insert(key, context),
                ..old(self)@.current()
            },
        ).scopes);
    }

    /// The context value stored under the type number `key` for the scope
    /// in progress, or `None` when neither it nor an ancestor provided
    /// one before it was created.
    pub fn use_context(&self, key: u64) -> (r: Option<Value>)
        requires
            self@.is_rendering(),
        ensures
            r == if self@.current().context.contains_key(key) {
                Some(self@.current().context[key])
            } else {
                None
            },
    {
        let id = self.scope.unwrap();
        let scope = self.scope_ref(id).unwrap();
        match scope.context_map.get(&key) {
            Some(v) => Some(*v),
            None => None,
        }
    }

    /// Moves the cursor of the scope in progress back by one slot.
    pub fn backward_value(&mut self)
        requires
            old(self)@.is_rendering(),
            old(self)@.current().cursor > 0,
        ensures
            final(self)@ == old(self)@.with_current(old(self)@.current().after_backward()),
            final(self)@.is_rendering(),
            old(self).wf() ==> final(self).wf(),
    {
        proof {
            if self.wf() {
                lemma_with_current(self@, self@.current().after_backward());
            }
        }
        let id = self.scope.unwrap();
        let mut scope = self.take_scope(id).unwrap();
        scope.backward_value();
        self.put_scope(id, scope);
        assert(self@.scopes =~= old(self)@.with_current(
            old(self)@.current().after_backward(),
        ).scopes);
    }

    /// Reads the slot under the cursor of the scope in progress and moves
    /// on; returns `None` and changes nothing when the cursor is behind the
    /// last slot.
    pub fn get_value(&mut self) -> (r: Option<Slot>)
        requires
            old(self)@.is_rendering(),
            old(self)@.current().wf(),
        ensures
            r == old(self)@.current().read(),
            final(self)@ == old(self)@.with_current(old(self)@.current().after_read()),
            final(self)@.is_rendering(),
            old(self).wf() ==> final(self).wf(),
    {
        proof {
            if self.wf() {
                lemma_with_current(self@, self@.current().after_read());
            }
        }
        let id = self.scope.unwrap();
        let mut scope = self.take_scope(id).unwrap();
        let r = scope.get_value();
        self.put_scope(id, scope);
        assert(self@.scopes =~= old(self)@.with_current(old(self)@.current().after_read()).scopes);
        r
    }

    /// Writes `slot` under the cursor of the scope in progress and moves
    /// on. The slot is appended when the cursor is behind the last slot and
    /// replaced otherwise.
    pub fn set_value(&mut self, slot: Slot)
        requires
            old(self)@.is_rendering(),
            old(self)@.current().wf(),
        ensures
            final(self)@ == old(self)@.with_current(old(self)@.current().after_write(slot)),
            final(self)@.is_rendering(),
            old(self).wf() ==> final(self).wf(),
    {
        proof {
            if self.wf() {
                lemma_with_current(self@, self@.current().after_write(slot));
            }
        }
        let id = self.scope.unwrap();
        let mut scope = self.take_scope(id).unwrap();
        scope.set_value(slot);
        self.put_scope(id, scope);
        assert(self@.scopes =~= old(self)@.with_current(
            old(self)@.current().after_write(slot),
        ).scopes);
    }

    /// Defers `f` until the update in progress has reconciled its
    /// children.
    pub fn add_post_update_event(&mut self, f: Callback)
        ensures
            final(self)@ == (ModelView {
                post_update: old(self)@.post_update.push(f),
                ..old(self)@
            }),
    {
        self.post_update_events.push(f);
    }

    /// Hands over the actions recorded since the last call, oldest first,
    /// and forgets them.
    pub fn take_actions(&mut self) -> (r: Vec<Action>)
        ensures
            r@ == old(self)@.actions,
            final(self)@ == (ModelView { actions: Seq::empty(), ..old(self)@ }),
    {
        let mut out: Vec<Action> = Vec::new();
        std::mem::swap(&mut self.actions, &mut out);
        out
    }

    /// Records the cleanups owed by `values`, in slot order.
    fn push_cleanups(&mut self, values: &Vec<Slot>)
        ensures
            final(self)@ == (ModelView {
                actions: old(self)@.actions + cleanups_of(values@),
                ..old(self)@
            }),
    {
        let n = values.len();
        let mut i: usize = 0;
        assert(values@.take(0) =~= Seq::empty());
        assert(old(self)@.actions + cleanups_of(values@.take(0)) =~= old(self)@.actions);
        while i < n
            invariant
                i <= n,
                n == values.len(),
                self@ == (ModelView {
                    actions: old(self)@.actions + cleanups_of(values@.take(i as int)),
                    ..old(self)@
                }),
            decreases n - i,
        {
            proof {
                assert(values@.take(i + 1).drop_last() =~= values@.take(i as int));
                assert(values@.take(i + 1).last() == values@[i as int]);
            }
            match values[i] {
                Slot::Effect { dependency, cleanup } => {
                    match cleanup {
                        Some(c) => {
                            self.actions.push(Action::Cleanup(c));
                            assert(self@.actions =~= old(self)@.actions + cleanups_of(
                                values@.take(i + 1),
                            ));
                        },
                        None => {},
                    }
                },
                _ => {},
            }
            i += 1;
        }
        assert(values@.take(n as int) =~= values@);
    }

    /// Destroys the scopes listed in `ids`, first to last, each with its
    /// descendants, and records the cleanups they owe: for every scope
    /// first what is below it, then its own, in slot order. See
    /// [`cleanups_from`].
    ///
    /// The child lists of the scopes that remain are left as they are, so
    /// they may afterwards name scopes that are gone.
    pub fn destroy(&mut self, ids: &Vec<ScopeId>)
        requires
            old(self).sound(),
        ensures
            final(self)@ == (ModelView {
                scopes: destroyed(old(self)@.scopes, ids@),
                actions: old(self)@.actions + cleanups_from(old(self)@.scopes, ids@),
                ..old(self)@
            }),
            final(self).sound(),
        decreases old(self)@.scopes.dom().len(),
    {
        let ghost scopes0 = self@.scopes;
        let ghost actions0 = self@.actions;
        let mut k: usize = 0;
        proof {
            assert(ids@.take(0) =~= Seq::empty());
            assert(actions0 + cleanups_from(scopes0, ids@.take(0)) =~= actions0);
        }
        while k < ids.len()
            invariant
                k <= ids.len(),
                self.sound(),
                scopes0 == old(self)@.scopes,
                actions0 == old(self)@.actions,
                scopes0.dom().finite(),
                self@ == (ModelView {
                    scopes: destroyed(scopes0, ids@.take(k as int)),
                    actions: actions0 + cleanups_from(scopes0, ids@.take(k as int)),
                    ..old(self)@
                }),
            decreases ids.len() - k,
        {
            let id = ids[k];
            let ghost before = self@;
            proof {
                // Destroying one more scope is destroying it in what is
                // left of the others.
                assert(ids@.take(k + 1) =~= ids@.take(k as int) + seq![id]);
                lemma_destroyed_in_turn(scopes0, ids@.take(k as int), seq![id]);
                lemma_cleanups_in_turn(scopes0, ids@.take(k as int), seq![id]);
                lemma_destroyed_shrinks(scopes0, ids@.take(k as int));
                assert(seq![id].drop_first() =~= Seq::empty());
            }
            let ghost owed = cleanups_from(before.scopes, seq![id]);
            match self.take_scope(id) {
                Some(scope) => {
                    let ghost under = before.scopes.remove(id);
                    let ghost below = cleanups_from(under, scope@.children);
                    let ghost own = cleanups_of(scope@.values);
                    proof {
                        lemma_destroyed_shrinks(under, scope@.children);
                        assert(scope@.children + seq![id].drop_first() =~= scope@.children);
                        assert(cleanups_from(destroyed(under, scope@.children), Seq::empty())
                            =~= Seq::empty());
                        assert(owed =~= below + own);
                    }
                    self.destroy(&scope.children);
                    self.push_cleanups(&scope.values);
                    assert(self@.actions =~= before.actions + owed);
                    assert(self@.scopes == destroyed(before.scopes, seq![id]));
                },
                None => {
                    assert(self@.scopes =~= before.scopes);
                    assert(destroyed(before.scopes, Seq::empty()) == before.scopes);
                    assert(cleanups_from(before.scopes, Seq::empty()) =~= Seq::empty());
                    assert(owed =~= Seq::empty());
                    assert(self@.actions =~= before.actions + owed);
                    assert(self@.scopes == destroyed(before.scopes, seq![id]));
                },
            }
            assert(self@.scopes == destroyed(scopes0, ids@.take(k + 1)));
            assert(self@.actions =~= actions0 + cleanups_from(scopes0, ids@.take(k + 1)));
            k += 1;
        }
        assert(ids@.take(ids.len() as int) =~= ids@);
    }

    /// The first previous child that is not taken yet and has the matching
    /// key of `element`.
    fn find_match(&self, prev: &Vec<ScopeId>, used: &Vec<bool>, element: &Element) -> (r: Option<
        usize,
    >)
        requires
            used.len() == prev.len(),
        ensures
            match r {
                Some(j) => first_free(self@.child_keys(prev@), taken(used@), element@.child_key(), 0)
                    == Some(j as int) && j < prev.len(),
                None => first_free(self@.child_keys(prev@), taken(used@), element@.child_key(), 0)
                    is None,
            },
    {
        let ghost keys = self@.child_keys(prev@);
        let ghost k = element@.child_key();
        let mut j: usize = 0;
        while j < prev.len()
            invariant
                j <= prev.len(),
                used.len() == prev.len(),
                keys == self@.child_keys(prev@),
                k == element@.child_key(),
                forall|j2: int| 0 <= j2 < j ==> taken(used@).contains(j2) || keys[j2] != Some(k),
            decreases prev.len() - j,
        {
            if !used[j] {
                match self.scope_ref(prev[j]) {
                    Some(scope) => {
                        if scope.element.same_child_key(element) {
                            proof {
                                lemma_first_free(keys, taken(used@), k, 0);
                                assert(keys[j as int] == Some(k));
                                assert(!taken(used@).contains(j as int));
                                let f = first_free(keys, taken(used@), k, 0);
                                assert(f is Some);
                                assert(!(f->0 < j));
                                assert(!(j < f->0));
                            }
                            return Some(j);
                        }
                    },
                    None => {},
                }
            }
            j += 1;
        }
        proof {
            lemma_first_free(keys, taken(used@), k, 0);
        }
        None
    }

    /// Matches the previous children `prev` against the declared elements
    /// `next` and returns the new child list, index-aligned to `next`.
    ///
    /// Scopes are reused wherever a declared element continues a previous
    /// child; changed and new scopes are queued; previous children that
    /// nothing continues are destroyed with their descendants. New scopes
    /// inherit `context_map`.
    ///
    /// The returned list is not stored anywhere: it is for the caller to
    /// make it the child list of the parent, as [`AppModel::finish_update`]
    /// does.
    pub fn reconcile(
        &mut self,
        context_map: &HashMap<u64, Value>,
        prev: Vec<ScopeId>,
        next: Vec<Element>,
    ) -> (children: Vec<ScopeId>)
        requires
            old(self).sound(),
            old(self)@.next_id + next.len() <= u64::MAX,
            forall|j: int| 0 <= j < prev.len() ==> prev[j] < old(self)@.next_id,
        ensures
            (final(self)@, children@) == reconcile_spec(
                old(self)@,
                context_map@,
                prev@,
                next@.map_values(|e: Element| e@),
            ),
            final(self).sound(),
            children.len() == next.len(),
            forall|i: int| 0 <= i < children.len() ==> children[i] < final(self)@.next_id,
            old(self)@.next_id <= final(self)@.next_id <= old(self)@.next_id + next.len(),
            final(self)@ == (ModelView {
                scopes: final(self)@.scopes,
                queue: final(self)@.queue,
                next_id: final(self)@.next_id,
                actions: final(self)@.actions,
                ..old(self)@
            }),
    {
        let ghost m0 = old(self)@;
        let ghost ctx = context_map@;
        let ghost nextv = next@.map_values(|e: Element| e@);
        let ghost pk = m0.child_keys(prev@);
        let ghost nk = declared_keys(nextv);
        let mut used: Vec<bool> = Vec::new();
        let mut u: usize = 0;
        while u < prev.len()
            invariant
                u <= prev.len(),
                used.len() == u,
                forall|j: int| 0 <= j < u ==> !used@[j],
            decreases prev.len() - u,
        {
            used.push(false);
            u += 1;
        }
        assert(taken(used@) =~= used_before(pk, nk, 0));
        let mut children: Vec<ScopeId> = Vec::new();
        let mut i: usize = 0;
        while i < next.len()
            invariant
                i <= next.len(),
                m0 == old(self)@,
                m0.sound(),
                m0.next_id + next.len() <= u64::MAX,
                forall|j: int| 0 <= j < prev.len() ==> prev[j] < m0.next_id,
                ctx == context_map@,
                nextv == next@.map_values(|e: Element| e@),
                pk == m0.child_keys(prev@),
                nk == declared_keys(nextv),
                used.len() == prev.len(),
                children.len() == i,
                taken(used@) == used_before(pk, nk, i as nat),
                (self@, children@) == reconcile_upto(m0, ctx, prev@, nextv, i as nat),
                self.sound(),
                m0.next_id <= self@.next_id <= m0.next_id + i,
                self@.child_keys(prev@) == pk,
                forall|c: int| 0 <= c < children.len() ==> children[c] < self@.next_id,
                self@ == (ModelView {
                    scopes: self@.scopes,
                    queue: self@.queue,
                    next_id: self@.next_id,
                    ..m0
                }),
            decreases next.len() - i,
        {
            let ghost m1 = self@;
            let ghost ch1 = children@;
            let element = next[i].clone();
            assert(element@ == nextv[i as int]);
            assert(nk[i as int] == element@.child_key());
            let found = self.find_match(&prev, &used, &element);
            proof {
                lemma_first_free(pk, taken(used@), element@.child_key(), 0);
            }
            match found {
                Some(j) => {
                    let id = prev[j];
                    assert(pk[j as int] == Some(element@.child_key()));
                    assert(m1.scopes.contains_key(id));
                    let mut scope = self.take_scope(id).unwrap();
                    if scope.element.same_as(&element) {
                        self.put_scope(id, scope);
                        assert(self@.scopes =~= m1.scopes);
                    } else {
                        scope.element = element;
                        self.put_scope(id, scope);
                        self.update_queue.push_back(id);
                        assert(self@.scopes =~= m1.scopes.insert(
                            id,
                            ScopeView { element: element@, ..m1.scopes[id] },
                        ));
                        assert(self@.child_keys(prev@) =~= pk);
                    }
                    used.set(j, true);
                    assert(taken(used@) =~= used_before(pk, nk, (i + 1) as nat));
                    children.push(id);
                },
                None => {
                    let id = self.next_id;
                    let mut scope = Scope::new(element);
                    scope.context_map = context_map.clone();
                    self.next_id = self.next_id + 1;
                    self.put_scope(id, scope);
                    self.update_queue.push_back(id);
                    assert(self@.scopes =~= m1.scopes.insert(
                        id,
                        ScopeView::fresh(element@, ctx),
                    ));
                    assert(self@.child_keys(prev@) =~= pk);
                    assert(taken(used@) =~= used_before(pk, nk, (i + 1) as nat));
                    children.push(id);
                },
            }
            i += 1;
        }
        let ghost m1 = self@;
        let ghost used_set = used_before(pk, nk, next.len() as nat);
        let mut gone: Vec<ScopeId> = Vec::new();
        let mut j: usize = 0;
        while j < prev.len()
            invariant
                j <= prev.len(),
                used.len() == prev.len(),
                taken(used@) == used_set,
                gone@ == unmatched(prev@, used_set, j as nat),
            decreases prev.len() - j,
        {
            if !used[j] {
                gone.push(prev[j]);
            }
            j += 1;
        }
        self.destroy(&gone);
        children
    }

    /// Begins the update of scope `id`: makes it the scope in progress, puts
    /// its cursor back to the first slot and returns the element to render.
    /// Returns `None` and changes nothing when the scope is no longer live
    /// or another render is in progress.
    pub fn begin_update(&mut self, id: ScopeId) -> (r: Option<Element>)
        requires
            old(self).wf(),
        ensures
            r is Some <==> old(self)@.active is None && old(self)@.scopes.contains_key(id),
            r is Some ==> r->0@ == old(self)@.scopes[id].element && final(self)@ == old(
                self,
            )@.begun(id) && final(self)@.is_rendering(),
            r is None ==> final(self)@ == old(self)@,
            final(self).wf(),
    {
        if self.scope.is_some() {
            return None;
        }
        match self.take_scope(id) {
            Some(mut scope) => {
                let element = scope.element.clone();
                scope.value_cursor = 0;
                self.put_scope(id, scope);
                self.scope = Some(id);
                assert(self@.scopes =~= old(self)@.begun(id).scopes);
                proof {
                    lemma_scope_replaced(
                        old(self)@,
                        id,
                        ScopeView { cursor: 0, ..old(self)@.scopes[id] },
                    );
                }
                Some(element)
            },
            None => {
                assert(self@.scopes =~= old(self)@.scopes);
                None
            },
        }
    }

    /// Closes the render in progress: reconciles the declared children
    /// against the previous children of the scope, gives the scope its new
    /// child list and lets the deferred callbacks fall due. Afterwards no
    /// render is in progress and both buffers are empty.
    pub fn finish_update(&mut self)
        requires
            old(self).wf(),
            old(self)@.is_rendering(),
            old(self)@.next_id + old(self)@.children_buf.len() <= u64::MAX,
        ensures
            final(self)@ == old(self)@.finished(),
            final(self).wf(),
            final(self)@.active is None,
            final(self)@.children_buf.len() == 0,
            final(self)@.post_update.len() == 0,
            final(self)@.scopes.contains_key(old(self)@.active->0),
            old(self)@.root is Some && old(self)@.scopes.contains_key(old(self)@.root->0)
                ==> final(self)@.scopes.contains_key(old(self)@.root->0),
    {
        proof {
            lemma_finished_wf(old(self)@);
        }
        let id = self.scope.unwrap();
        self.scope = None;
        let mut next: Vec<Element> = Vec::new();
        std::mem::swap(&mut self.children_buf, &mut next);
        let mut events: Vec<Callback> = Vec::new();
        std::mem::swap(&mut self.post_update_events, &mut events);
        let ghost cleared = self@;
        assert(cleared.children_buf =~= Seq::empty());
        assert(next@.map_values(|e: Element| e@) =~= old(self)@.children_buf);
        let scope = self.scope_ref(id).unwrap();
        let context_map = scope.context_map.clone();
        let prev = scope.children.clone();
        assert(prev@ =~= scope@.children);
        let children = self.reconcile(&context_map, prev, next);
        let ghost m1 = self@;
        match self.take_scope(id) {
            Some(mut scope) => {
                scope.children = children;
                self.put_scope(id, scope);
                assert(self@.scopes =~= m1.scopes.insert(
                    id,
                    ScopeView { children: children@, ..m1.scopes[id] },
                ));
            },
            None => {
                assert(self@.scopes =~= m1.scopes);
            },
        }
        let ghost m2 = self@;
        let n = events.len();
        let mut i: usize = 0;
        assert(post_update_actions(events@.take(0)) =~= Seq::empty());
        assert(m2.actions + post_update_actions(events@.take(0)) =~= m2.actions);
        while i < n
            invariant
                i <= n,
                n == events.len(),
                self@ == (ModelView {
                    actions: m2.actions + post_update_actions(events@.take(i as int)),
                    ..m2
                }),
            decreases n - i,
        {
            self.actions.push(Action::PostUpdate(events[i]));
            assert(self@.actions =~= m2.actions + post_update_actions(events@.take(i + 1)));
            i += 1;
        }
        assert(events@.take(n as int) =~= events@);
    }

    /// Gives up the render of `scope` without reconciling: no scope is in
    /// progress afterwards, both buffers are empty, and the scope is put on
    /// record as given up.
    fn abandon_update(&mut self, scope: ScopeId)
        requires
            old(self).wf(),
        ensures
            final(self)@ == old(self)@.abandoned(scope),
            final(self).wf(),
    {
        self.scope = None;
        self.children_buf.clear();
        self.post_update_events.clear();
        self.given_up.push(scope);
        assert(self@.children_buf =~= Seq::empty());
    }

    /// Ends the update of `scope` after its render logic has run, and says
    /// whether the render was closed.
    ///
    /// The render is closed, as [`AppModel::finish_update`] does, when
    /// `scope` is still the scope in progress, is still live, and there is a
    /// number for every child it declared. Otherwise the render is given
    /// up: what it declared and deferred is dropped, no render is in
    /// progress, and the scope is put on record; see
    /// [`AppModel::take_given_up`].
    pub fn end_update(&mut self, scope: ScopeId) -> (done: bool)
        requires
            old(self).wf(),
        ensures
            done == old(self)@.closes(scope),
            final(self)@ == old(self)@.ended(scope),
            final(self).wf(),
            final(self)@.active is None,
            final(self)@.children_buf.len() == 0,
            final(self)@.post_update.len() == 0,
    {
        let still = match self.scope {
            Some(id) => id == scope && self.scope_ref(id).is_some(),
            None => false,
        };
        if still && self.children_buf.len() as u64 <= u64::MAX - self.next_id {
            self.finish_update();
            true
        } else {
            self.abandon_update(scope);
            false
        }
    }

    /// Hands over the scopes whose render was given up since the last call,
    /// oldest first, and forgets them.
    pub fn take_given_up(&mut self) -> (r: Vec<ScopeId>)
        ensures
            r@ == old(self)@.given_up,
            final(self)@ == (ModelView { given_up: Seq::empty(), ..old(self)@ }),
    {
        let mut out: Vec<ScopeId> = Vec::new();
        std::mem::swap(&mut self.given_up, &mut out);
        out
    }

    /// Processes scope `scope`: begins its update, runs the render logic of
    /// `components` on its element and ends the update, as
    /// [`AppModel::end_update`] does. Does nothing when the scope is no
    /// longer live or another render is in progress.
    pub fn update_scope<C: Component>(&mut self, components: &C, scope: ScopeId)
        requires
            old(self).wf(),
        ensures
            final(self)@ == updated(components, old(self)@, scope),
            final(self).wf(),
            old(self)@.active is None ==> final(self)@.active is None,
            old(self)@.active is None && old(self)@.scopes.contains_key(scope) ==> {
                &&& final(self)@.children_buf.len() == 0
                &&& final(self)@.post_update.len() == 0
            },
    {
        match self.begin_update(scope) {
            Some(element) => {
                components.render(self, &element);
                let _ = self.end_update(scope);
            },
            None => {},
        }
    }

    /// Takes the oldest entry from the update queue. Returns `None` and
    /// leaves the queue as it is while a render is in progress.
    pub fn pop_update(&mut self) -> (r: Option<ScopeId>)
        ensures
            r == if old(self)@.active is None && old(self)@.queue.len() > 0 {
                Some(old(self)@.queue[0])
            } else {
                None
            },
            final(self)@ == if r is Some {
                ModelView { queue: old(self)@.queue.drop_first(), ..old(self)@ }
            } else {
                old(self)@
            },
    {
        if self.scope.is_some() {
            return None;
        }
        let r = self.update_queue.pop_front();
        if r.is_some() {
            assert(self@.queue =~= old(self)@.queue.drop_first());
        }
        r
    }

    /// Processes the oldest queued scope, if there is one and no render is
    /// in progress, and says whether an entry was taken from the queue.
    pub fn perform_update<C: Component>(&mut self, components: &C) -> (r: bool)
        requires
            old(self).wf(),
        ensures
            r == (old(self)@.active is None && old(self)@.queue.len() > 0),
            final(self)@ == stepped(components, old(self)@),
            final(self).wf(),
            r ==> final(self)@.active is None,
    {
        match self.pop_update() {
            Some(id) => {
                self.update_scope(components, id);
                true
            },
            None => false,
        }
    }

    /// Processes queued scopes, oldest first, until the queue is empty, and
    /// returns how many entries it took. Does nothing while a render is in
    /// progress. Gives up after `u64::MAX` entries.
    pub fn drain<C: Component>(&mut self, components: &C) -> (steps: u64)
        requires
            old(self).wf(),
        ensures
            final(self)@ == drained(components, old(self)@, steps as nat),
            final(self).wf(),
            old(self)@.active is Some ==> steps == 0,
            old(self)@.active is None ==> final(self)@.active is None && (final(self)@.queue.len()
                == 0 || steps == u64::MAX),
    {
        let mut steps: u64 = 0;
        while steps < u64::MAX
            invariant
                self.wf(),
                self@ == drained(components, old(self)@, steps as nat),
                old(self)@.active is Some ==> steps == 0,
                old(self)@.active is None ==> self@.active is None,
            ensures
                old(self)@.active is None ==> self@.queue.len() == 0 || steps == u64::MAX,
            decreases u64::MAX - steps,
        {
            if !self.perform_update(components) {
                break;
            }
            steps = steps + 1;
        }
        steps
    }

    /// Queues `scope` for an update. In `Instant` mode, and unless a render
    /// is in progress, the queue is then drained before the call returns:
    /// steps are taken until the queue is empty.
    pub fn request_update<C: Component>(&mut self, components: &C, scope: ScopeId)
        requires
            old(self).wf(),
        ensures
            requested(components, old(self)@, scope, final(self)@),
            final(self).wf(),
    {
        self.update_queue.push_back(scope);
        if self.mode == UpdateMode::Instant && self.scope.is_none() {
            let steps = self.drain(components);
            assert(drained(components, old(self)@.enqueue(scope), steps as nat) == self@);
        }
    }

    /// Makes `element` the root element without queueing anything: the root
    /// scope takes it, or a new root scope is created when there is no live
    /// one. Returns the number of the root scope.
    pub fn set_root(&mut self, element: Element) -> (id: ScopeId)
        requires
            old(self).wf(),
            old(self)@.has_root() || old(self)@.next_id < u64::MAX,
        ensures
            final(self)@ == old(self)@.with_root(element@),
            final(self)@.root == Some(id),
            final(self)@.scopes.contains_key(id),
            final(self).wf(),
    {
        let live = match self.root {
            Some(id) => self.scope_ref(id).is_some(),
            None => false,
        };
        if live {
            let id = self.root.unwrap();
            let mut scope = self.take_scope(id).unwrap();
            scope.element = element;
            self.put_scope(id, scope);
            assert(self@.scopes =~= old(self)@.with_root(element@).scopes);
            proof {
                lemma_scope_replaced(
                    old(self)@,
                    id,
                    ScopeView { element: element@, ..old(self)@.scopes[id] },
                );
            }
            id
        } else {
            let id = self.next_id;
            self.next_id = self.next_id + 1;
            self.root = Some(id);
            self.put_scope(id, Scope::new(element));
            proof {
                lemma_root_created(old(self)@, element@);
            }
            id
        }
    }

    /// Renders `element` as the root: makes it the root element and
    /// requests an update of the root scope, as
    /// [`AppModel::request_update`] does.
    pub fn render<C: Component>(&mut self, components: &C, element: Element)
        requires
            old(self).wf(),
            old(self)@.has_root() || old(self)@.next_id < u64::MAX,
        ensures
            requested(
                components,
                old(self)@.with_root(element@),
                old(self)@.with_root(element@).root->0,
                final(self)@,
            ),
            final(self).wf(),
    {
        let id = self.set_root(element);
        self.request_update(components, id);
    }

    /// Records `action` as due.
    pub(crate) fn push_action(&mut self, action: Action)
        ensures
            final(self)@ == (ModelView {
                actions: old(self)@.actions.push(action),
                ..old(self)@
            }),
    {
        self.actions.push(action);
    }

    /// Hands `value`, a handle of type `handle_type`, to the receiver of the
    /// element that the scope in progress renders. Does nothing when the
    /// element has no receiver or its receiver takes another handle type.
    pub fn provide_ref(&mut self, handle_type: u64, value: Value)
        requires
            old(self).wf(),
            old(self)@.is_rendering(),
        ensures
            final(self)@ == match old(self)@.current().element.receiver_of(handle_type) {
                Some(receiver) => old(self)@.provided(receiver, value),
                None => old(self)@,
            },
            final(self).wf(),
            final(self)@.is_rendering(),
    {
        let id = self.scope.unwrap();
        let receiver = self.scope_ref(id).unwrap().element.receiver(handle_type);
        match receiver {
            Some(r) => r.provide(self, value),
            None => {},
        }
    }

    /// The update mode.
    pub fn update_mode(&self) -> (r: UpdateMode)
        ensures
            r == self@.mode,
    {
        self.mode
    }

    /// The root scope, once a root element has been rendered.
    pub fn root_scope(&self) -> (r: Option<ScopeId>)
        ensures
            r == self@.root,
    {
        self.root
    }

    /// The number that the next new scope will get.
    pub fn next_scope_id(&self) -> (r: u64)
        ensures
            r == self@.next_id,
    {
        self.next_id
    }

    /// Whether a render is in progress, so that hooks may be called.
    pub fn is_rendering(&self) -> (r: bool)
        ensures
            r == self@.is_rendering(),
    {
        match self.scope {
            Some(id) => self.scope_ref(id).is_some(),
            None => false,
        }
    }

    /// Whether scope `id` is live.
    pub fn contains_scope(&self, id: ScopeId) -> (r: bool)
        ensures
            r == self@.scopes.contains_key(id),
    {
        self.scope_ref(id).is_some()
    }

    /// How many children the render in progress has declared so far.
    pub fn declared_children(&self) -> (r: usize)
        ensures
            r == self@.children_buf.len(),
    {
        self.children_buf.len()
    }

    /// How many entries wait in the update queue.
    pub fn pending_updates(&self) -> (r: usize)
        ensures
            r == self@.queue.len(),
    {
        self.update_queue.len()
    }

    /// The element that scope `id` was last asked to render.
    pub fn element_of(&self, id: ScopeId) -> (r: Option<Element>)
        ensures
            r is Some <==> self@.scopes.contains_key(id),
            r is Some ==> r->0@ == self@.scopes[id].element,
    {
        match self.scope_ref(id) {
            Some(scope) => Some(scope.element.clone()),
            None => None,
        }
    }

    /// The children of scope `id`, in declaration order.
    pub fn children_of(&self, id: ScopeId) -> (r: Option<Vec<ScopeId>>)
        ensures
            r is Some <==> self@.scopes.contains_key(id),
            r is Some ==> r->0@ == self@.scopes[id].children,
    {
        match self.scope_ref(id) {
            Some(scope) => {
                let children = scope.children.clone();
                assert(children@ =~= scope.children@);
                Some(children)
            },
            None => None,
        }
    }

    /// The hook slots of scope `id`, in call order.
    pub fn slots_of(&self, id: ScopeId) -> (r: Option<Vec<Slot>>)
        ensures
            r is Some <==> self@.scopes.contains_key(id),
            r is Some ==> r->0@ == self@.scopes[id].values,
    {
        match self.scope_ref(id) {
            Some(scope) => {
                let values = scope.values.clone();
                assert(values@ =~= scope.values@);
                Some(values)
            },
            None => None,
        }
    }
}

} // verus!

verus! {

/// The positions marked in `used`.
pub open spec fn taken(used: Seq<bool>) -> Set<int> {
    Set::new(|j: int| 0 <= j < used.len() && used[j])
}

} // verus!
