//! Receivers: the output channels through which a rendered component hands
//! a produced value back to whoever declared it.

use vstd::prelude::*;
use crate::app_model::AppModel;
use crate::element::{Receiver, ValueReceiver};
use crate::hooks::remember::remember;
use crate::model::{lemma_after_hook, ModelView};
use crate::scope::{HookCall, ScopeView};
use crate::tree::lemma_scope_replaced;
use crate::value::{Action, Callback, Slot, Value};

verus! {

impl ModelView {
    /// Whether `receiver` names a one-shot cell of a live scope.
    pub open spec fn has_cell(self, receiver: ValueReceiver) -> bool {
        &&& self.scopes.contains_key(receiver.scope)
        &&& receiver.slot < self.scopes[receiver.scope].values.len()
        &&& self.scopes[receiver.scope].values[receiver.slot as int] is Cell
    }

    /// What the cell of `receiver` holds: `None` while it is empty, and
    /// also when its scope is gone.
    pub open spec fn cell_value(self, receiver: ValueReceiver) -> Option<Value> {
        if self.has_cell(receiver) {
            self.scopes[receiver.scope].values[receiver.slot as int]->Cell_0
        } else {
            None
        }
    }

    /// The model after `value` has been offered to the cell of `receiver`:
    /// an empty cell takes it, a filled cell keeps what it has.
    pub open spec fn cell_offered(self, receiver: ValueReceiver, value: Value) -> ModelView {
        if self.has_cell(receiver) && self.cell_value(receiver) is None {
            let scope = self.scopes[receiver.scope];
            ModelView {
                scopes: self.scopes.insert(
                    receiver.scope,
                    ScopeView {
                        values: scope.values.update(
                            receiver.slot as int,
                            Slot::Cell(Some(value)),
                        ),
                        ..scope
                    },
                ),
                ..self
            }
        } else {
            self
        }
    }

    /// The model after `value` has been provided to `receiver`: offered to
    /// its cell, or due as a notification of its callback.
    pub open spec fn provided(self, receiver: Receiver, value: Value) -> ModelView {
        match receiver {
            Receiver::Value(r) => self.cell_offered(r, value),
            Receiver::Callback(c) => ModelView {
                actions: self.actions.push(Action::Notify(c, value)),
                ..self
            },
        }
    }
}

impl ValueReceiver {
    /// Offers `value` to the cell. The first value offered stays; later
    /// ones are dropped.
    pub fn set(&self, model: &mut AppModel, value: Value)
        requires
            old(model).wf(),
        ensures
            final(model)@ == old(model)@.cell_offered(*self, value),
            final(model).wf(),
    {
        let empty = match model.scope_ref(self.scope) {
            Some(scope) => {
                if self.slot < scope.values.len() {
                    match scope.values[self.slot] {
                        Slot::Cell(None) => true,
                        _ => false,
                    }
                } else {
                    false
                }
            },
            None => false,
        };
        if empty {
            let mut scope = model.take_scope(self.scope).unwrap();
            scope.values.set(self.slot, Slot::Cell(Some(value)));
            proof {
                lemma_scope_replaced(old(model)@, self.scope, scope@);
            }
            model.put_scope(self.scope, scope);
            assert(model@.scopes =~= old(model)@.cell_offered(*self, value).scopes);
        }
    }

    /// The value the cell holds, or `None` while it is empty.
    pub fn get(&self, model: &AppModel) -> (r: Option<Value>)
        ensures
            r == model@.cell_value(*self),
    {
        match model.scope_ref(self.scope) {
            Some(scope) => {
                if self.slot < scope.values.len() {
                    match scope.values[self.slot] {
                        Slot::Cell(v) => v,
                        _ => None,
                    }
                } else {
                    None
                }
            },
            None => None,
        }
    }
}

impl Receiver {
    /// Hands `value` to the receiver: a cell keeps it if it is the first,
    /// a callback is notified of it every time.
    pub fn provide(&self, model: &mut AppModel, value: Value)
        requires
            old(model).wf(),
        ensures
            final(model)@ == old(model)@.provided(*self, value),
            final(model).wf(),
    {
        match self {
            Receiver::Value(r) => r.set(model, value),
            Receiver::Callback(c) => model.push_action(Action::Notify(*c, value)),
        }
    }
}

/// Hands `value`, a handle of type `handle_type`, to the receiver of the
/// element that the scope in progress renders. Does nothing when the
/// element has no receiver or its receiver takes another handle type.
pub fn provide_ref(model: &mut AppModel, handle_type: u64, value: Value)
    requires
        old(model).wf(),
        old(model)@.is_rendering(),
    ensures
        final(model)@ == match old(model)@.current().element.receiver_of(handle_type) {
            Some(receiver) => old(model)@.provided(receiver, value),
            None => old(model)@,
        },
        final(model).wf(),
        final(model)@.is_rendering(),
{
    model.provide_ref(handle_type, value)
}

/// A one-shot cell kept in the slot under the cursor: created empty on the
/// first render of a scope, found again on later renders.
pub fn value_receiver(model: &mut AppModel) -> (r: ValueReceiver)
    requires
        old(model).wf(),
        old(model)@.is_rendering(),
        old(model)@.current().accepts(HookCall::Cell),
    ensures
        r.scope == old(model)@.active->0,
        r.slot == old(model)@.current().cursor,
        final(model)@ == old(model)@.after_hook(HookCall::Cell),
        final(model)@.has_cell(r),
        final(model).wf(),
        final(model)@.is_rendering(),
{
    let ghost m0 = model@;
    let scope = model.current_scope().unwrap();
    let slot = model.cursor();
    match model.get_value() {
        Some(_) => {},
        None => {
            model.set_value(Slot::Cell(None));
        },
    }
    proof {
        lemma_after_hook(m0, HookCall::Cell);
        assert(m0.current().hook_actions(HookCall::Cell) =~= Seq::empty());
        assert(m0.actions + m0.current().hook_actions(HookCall::Cell) =~= m0.actions);
        assert(model@.scopes =~= m0.with_current(m0.current().after_hook(HookCall::Cell)).scopes);
    }
    ValueReceiver { scope, slot }
}

/// A callback receiver that stays the same across renders: the callback
/// given on the first render of a scope is remembered, and later ones are
/// not looked at.
pub fn callback_receiver(model: &mut AppModel, f: Callback) -> (r: Receiver)
    requires
        old(model).wf(),
        old(model)@.is_rendering(),
        old(model)@.current().accepts(HookCall::Plain { initial: Value::Unit }),
        old(model)@.current().read() matches Some(Slot::Plain(v)) ==> v is Handle,
    ensures
        r is Callback,
        match old(model)@.current().read() {
            Some(slot) => slot == Slot::Plain(Value::Handle(r->Callback_0.id)),
            None => r == Receiver::Callback(f),
        },
        final(model)@ == old(model)@.after_hook(
            HookCall::Plain { initial: Value::Handle(r->Callback_0.id) },
        ),
        final(model).wf(),
        final(model)@.is_rendering(),
{
    let id = f.id;
    let v = remember(model, || -> (v: Value)
        ensures
            v == Value::Handle(id),
        { Value::Handle(id) });
    match v {
        Value::Handle(stored) => Receiver::Callback(Callback { id: stored }),
        _ => Receiver::Callback(f),
    }
}

} // verus!
