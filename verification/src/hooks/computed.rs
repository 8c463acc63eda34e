//! Computed values that are recomputed only when their dependency changes.

use vstd::prelude::*;
use crate::app_model::AppModel;
use crate::model::lemma_after_hook;
use crate::scope::HookCall;
use crate::value::{Slot, Value};

verus! {

/// Returns the value computed from `dependency`. The result is cached in
/// the slot under the cursor together with the dependency; `compute` is
/// asked only on the first render and when `dependency` differs from the
/// cached one, and then the slot is replaced in place. No update is
/// requested either way.
pub fn computed<F: FnOnce(Value) -> Value>(model: &mut AppModel, dependency: Value, compute: F) -> (r:
    Value)
    requires
        old(model).wf(),
        old(model)@.is_rendering(),
        old(model)@.current().accepts(HookCall::Computed { dependency, result: Value::Unit }),
        compute.requires((dependency,)),
    ensures
        match old(model)@.current().read() {
            Some(Slot::Computed { dependency: cached, value }) if cached == dependency => r
                == value,
            _ => compute.ensures((dependency,), r),
        },
        final(model)@ == old(model)@.after_hook(HookCall::Computed { dependency, result: r }),
        final(model).wf(),
        final(model)@.is_rendering(),
{
    let ghost m0 = model@;
    let r = match model.get_value() {
        Some(slot) => {
            match slot {
                Slot::Computed { dependency: cached, value } if cached == dependency => value,
                _ => {
                    let value = compute(dependency);
                    model.backward_value();
                    model.set_value(Slot::Computed { dependency, value });
                    value
                },
            }
        },
        None => {
            let value = compute(dependency);
            model.set_value(Slot::Computed { dependency, value });
            value
        },
    };
    proof {
        let call = HookCall::Computed { dependency, result: r };
        lemma_after_hook(m0, call);
        assert(m0.current().hook_actions(call) =~= Seq::empty());
        assert(m0.actions + m0.current().hook_actions(call) =~= m0.actions);
        assert(model@.scopes =~= m0.with_current(m0.current().after_hook(call)).scopes);
    }
    r
}

/// The same as [`computed`].
pub fn memo<F: FnOnce(Value) -> Value>(model: &mut AppModel, dependency: Value, compute: F) -> (r:
    Value)
    requires
        old(model).wf(),
        old(model)@.is_rendering(),
        old(model)@.current().accepts(HookCall::Computed { dependency, result: Value::Unit }),
        compute.requires((dependency,)),
    ensures
        match old(model)@.current().read() {
            Some(Slot::Computed { dependency: cached, value }) if cached == dependency => r
                == value,
            _ => compute.ensures((dependency,), r),
        },
        final(model)@ == old(model)@.after_hook(HookCall::Computed { dependency, result: r }),
        final(model).wf(),
        final(model)@.is_rendering(),
{
    computed(model, dependency, compute)
}

} // verus!
