//! Mutable state that survives re-renders.

use vstd::prelude::*;
use crate::app_model::AppModel;
use crate::components::Component;
use crate::hooks::remember::remember;
use crate::model::ModelView;
use crate::schedule::requested;
use crate::scope::{HookCall, ScopeId, ScopeView};
use crate::tree::lemma_scope_replaced;
use crate::value::{Slot, Value};

verus! {

/// A handle on one state slot. It names the owning scope and the slot by
/// number and keeps neither alive: once the scope has been destroyed,
/// reading through the handle gives `None` and writing through it does
/// nothing.
#[derive(Clone, Copy, Debug, PartialEq, Eq, Structural)]
pub struct State {
    pub scope: ScopeId,
    pub slot: usize,
}

/// Allocates the state slot under the cursor on the first render of a
/// scope, with the value that `initializer` gives, and retrieves it on
/// later renders. Returns the handle on the slot.
pub fn state<F: FnOnce() -> Value>(model: &mut AppModel, initializer: F) -> (r: State)
    requires
        old(model).wf(),
        old(model)@.is_rendering(),
        old(model)@.current().accepts(HookCall::Plain { initial: Value::Unit }),
        initializer.requires(()),
    ensures
        r.scope == old(model)@.active->0,
        r.slot == old(model)@.current().cursor,
        final(model)@.state_value(r) is Some,
        match old(model)@.current().read() {
            Some(slot) => slot == Slot::Plain(final(model)@.state_value(r)->0),
            None => initializer.ensures((), final(model)@.state_value(r)->0),
        },
        final(model)@ == old(model)@.after_hook(
            HookCall::Plain { initial: final(model)@.state_value(r)->0 },
        ),
        final(model).wf(),
        final(model)@.is_rendering(),
{
    let scope = model.current_scope().unwrap();
    let slot = model.cursor();
    let _ = remember(model, initializer);
    State { scope, slot }
}

impl ModelView {
    /// The value that the handle `state` stands for: `None` when its scope
    /// is gone or its slot holds no plain value.
    pub open spec fn state_value(self, state: State) -> Option<Value> {
        if self.scopes.contains_key(state.scope) && state.slot < self.scopes[state.scope].values.len() {
            match self.scopes[state.scope].values[state.slot as int] {
                Slot::Plain(v) => Some(v),
                _ => None,
            }
        } else {
            None
        }
    }

    /// The model after `value` has been stored through the handle
    /// `state`. Nothing changes when the handle stands for nothing.
    pub open spec fn stored(self, state: State, value: Value) -> ModelView {
        if self.state_value(state) is Some {
            let scope = self.scopes[state.scope];
            ModelView {
                scopes: self.scopes.insert(
                    state.scope,
                    ScopeView {
                        values: scope.values.update(state.slot as int, Slot::Plain(value)),
                        ..scope
                    },
                ),
                ..self
            }
        } else {
            self
        }
    }
}

impl State {
    /// The current value, or `None` once the owning scope is gone.
    pub fn get(&self, model: &AppModel) -> (r: Option<Value>)
        ensures
            r == model@.state_value(*self),
    {
        match model.scope_ref(self.scope) {
            Some(scope) => {
                if self.slot < scope.values.len() {
                    match scope.values[self.slot] {
                        Slot::Plain(v) => Some(v),
                        _ => None,
                    }
                } else {
                    None
                }
            },
            None => None,
        }
    }

    /// The current value in place, or `None` once the owning scope is
    /// gone.
    pub fn borrow<'a>(&self, model: &'a AppModel) -> (r: Option<&'a Value>)
        ensures
            r is Some <==> model@.state_value(*self) is Some,
            r is Some ==> *r->0 == model@.state_value(*self)->0,
    {
        match model.scope_ref(self.scope) {
            Some(scope) => {
                if self.slot < scope.values.len() {
                    match &scope.values[self.slot] {
                        Slot::Plain(v) => Some(v),
                        _ => None,
                    }
                } else {
                    None
                }
            },
            None => None,
        }
    }

    /// A copy of the current value, or `None` once the owning scope is
    /// gone.
    pub fn get_cloned(&self, model: &AppModel) -> (r: Option<Value>)
        ensures
            r == model@.state_value(*self),
    {
        self.get(model)
    }

    /// Stores `value` without requesting an update, and says whether there
    /// was a slot to store it in.
    pub fn store(&self, model: &mut AppModel, value: Value) -> (r: bool)
        requires
            old(model).wf(),
        ensures
            r == (old(model)@.state_value(*self) is Some),
            final(model)@ == old(model)@.stored(*self, value),
            final(model).wf(),
    {
        if self.get(model).is_none() {
            return false;
        }
        let mut scope = model.take_scope(self.scope).unwrap();
        scope.values.set(self.slot, Slot::Plain(value));
        proof {
            lemma_scope_replaced(old(model)@, self.scope, scope@);
        }
        model.put_scope(self.scope, scope);
        assert(model@.scopes =~= old(model)@.stored(*self, value).scopes);
        true
    }

    /// Replaces the value and requests an update of the owning scope. Does
    /// nothing once the owning scope is gone.
    pub fn set<C: Component>(&self, model: &mut AppModel, components: &C, value: Value)
        requires
            old(model).wf(),
        ensures
            old(model)@.state_value(*self) is None ==> final(model)@ == old(model)@,
            old(model)@.state_value(*self) is Some ==> requested(
                components,
                old(model)@.stored(*self, value),
                self.scope,
                final(model)@,
            ),
            final(model).wf(),
    {
        if self.store(model, value) {
            model.request_update(components, self.scope);
        }
    }

    /// Replaces the value and requests an update of the owning scope,
    /// unless `value` equals the current value: then nothing changes and
    /// nothing is queued. Does nothing once the owning scope is gone.
    pub fn set_eq<C: Component>(&self, model: &mut AppModel, components: &C, value: Value)
        requires
            old(model).wf(),
        ensures
            old(model)@.state_value(*self) is None || old(model)@.state_value(*self) == Some(value)
                ==> final(model)@ == old(model)@,
            old(model)@.state_value(*self) is Some && old(model)@.state_value(*self) != Some(value)
                ==> requested(
                components,
                old(model)@.stored(*self, value),
                self.scope,
                final(model)@,
            ),
            final(model).wf(),
    {
        match self.get(model) {
            Some(current) => {
                if current != value {
                    self.set(model, components, value);
                }
            },
            None => {},
        }
    }

    /// Replaces the value by what `updater` makes of it and requests an
    /// update of the owning scope, whether or not the value changed. Does
    /// nothing once the owning scope is gone.
    pub fn update<C: Component, F: FnOnce(Value) -> Value>(
        &self,
        model: &mut AppModel,
        components: &C,
        updater: F,
    )
        requires
            old(model).wf(),
            old(model)@.state_value(*self) is Some ==> updater.requires(
                (old(model)@.state_value(*self)->0,),
            ),
        ensures
            old(model)@.state_value(*self) is None ==> final(model)@ == old(model)@,
            old(model)@.state_value(*self) is Some ==> exists|value: Value|
                updater.ensures((old(model)@.state_value(*self)->0,), value) && requested(
                    components,
                    #[trigger] old(model)@.stored(*self, value),
                    self.scope,
                    final(model)@,
                ),
            final(model).wf(),
    {
        match self.get(model) {
            Some(current) => {
                let value = updater(current);
                self.set(model, components, value);
                assert(requested(
                    components,
                    old(model)@.stored(*self, value),
                    self.scope,
                    model@,
                ));
            },
            None => {},
        }
    }
}

} // verus!
