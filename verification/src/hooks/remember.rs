//! Values remembered across renders.

use vstd::prelude::*;
use crate::app_model::AppModel;
use crate::model::lemma_after_hook;
use crate::scope::HookCall;
use crate::value::{Slot, Value};

verus! {

/// Returns the value remembered in the slot under the cursor. On the first
/// render of a scope the slot does not exist yet; `initializer` is then
/// asked for the value, which is stored. On later renders `initializer` is
/// not asked.
pub fn remember<F: FnOnce() -> Value>(model: &mut AppModel, initializer: F) -> (r: Value)
    requires
        old(model).wf(),
        old(model)@.is_rendering(),
        old(model)@.current().accepts(HookCall::Plain { initial: Value::Unit }),
        initializer.requires(()),
    ensures
        match old(model)@.current().read() {
            Some(slot) => slot == Slot::Plain(r),
            None => initializer.ensures((), r),
        },
        final(model)@ == old(model)@.after_hook(HookCall::Plain { initial: r }),
        final(model).wf(),
        final(model)@.is_rendering(),
{
    let ghost m0 = model@;
    let r = match model.get_value() {
        Some(slot) => {
            match slot {
                Slot::Plain(v) => v,
                _ => Value::Unit,
            }
        },
        None => {
            let v = initializer();
            model.set_value(Slot::Plain(v));
            v
        },
    };
    proof {
        lemma_after_hook(m0, HookCall::Plain { initial: r });
        let call = HookCall::Plain { initial: r };
        assert(m0.current().hook_actions(call) =~= Seq::empty());
        assert(m0.actions + m0.current().hook_actions(call) =~= m0.actions);
        assert(model@.scopes =~= m0.with_current(m0.current().after_hook(call)).scopes);
    }
    r
}

} // verus!
