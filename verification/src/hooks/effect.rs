//! Effects: host code that runs when a dependency changes, with optional
//! cleanup.

use vstd::prelude::*;
use crate::app_model::AppModel;
use crate::model::lemma_after_hook;
use crate::scope::{HookCall, ScopeView};
use crate::value::{cleanups_of, Action, Callback, Slot, Value};

verus! {

/// The common body of the two effect hooks.
fn run_effect(model: &mut AppModel, dependency: Value, setup: Callback, cleanup: Option<Callback>)
    requires
        old(model).wf(),
        old(model)@.is_rendering(),
        old(model)@.current().accepts(HookCall::Effect { dependency, setup, cleanup }),
    ensures
        final(model)@ == old(model)@.after_hook(HookCall::Effect { dependency, setup, cleanup }),
        final(model).wf(),
        final(model)@.is_rendering(),
{
    let ghost m0 = model@;
    let ghost call = HookCall::Effect { dependency, setup, cleanup };
    match model.get_value() {
        Some(slot) => {
            match slot {
                Slot::Effect { dependency: stored, cleanup: owed } => {
                    if stored != dependency {
                        match owed {
                            Some(c) => {
                                model.push_action(Action::Cleanup(c));
                            },
                            None => {},
                        }
                        model.push_action(Action::Setup(setup));
                        model.backward_value();
                        model.set_value(Slot::Effect { dependency, cleanup });
                        proof {
                            assert(cleanups_of(seq![slot]) =~= match owed {
                                Some(c) => seq![Action::Cleanup(c)],
                                None => Seq::empty(),
                            }) by {
                                assert(seq![slot].drop_last() =~= Seq::empty());
                                assert(cleanups_of(seq![slot].drop_last()) =~= Seq::empty());
                            }
                        }
                    }
                },
                _ => {},
            }
        },
        None => {
            model.push_action(Action::Setup(setup));
            model.set_value(Slot::Effect { dependency, cleanup });
        },
    }
    proof {
        lemma_after_hook(m0, call);
        assert(model@.actions =~= m0.actions + m0.current().hook_actions(call));
        assert(model@.scopes =~= m0.with_current(m0.current().after_hook(call)).scopes);
    }
}

/// An effect whose setup leaves a cleanup behind.
///
/// On the first render of a scope `setup` falls due and the slot under the
/// cursor stores `dependency` with `cleanup`. On a later render with
/// another dependency the cleanup stored in the slot falls due first, once,
/// then `setup`, and the slot stores the new pair. On a later render with
/// the same dependency nothing falls due and the slot stays as it is.
pub fn effect_cleanup(model: &mut AppModel, dependency: Value, setup: Callback, cleanup: Callback)
    requires
        old(model).wf(),
        old(model)@.is_rendering(),
        old(model)@.current().accepts(
            HookCall::Effect { dependency, setup, cleanup: Some(cleanup) },
        ),
    ensures
        final(model)@ == old(model)@.after_hook(
            HookCall::Effect { dependency, setup, cleanup: Some(cleanup) },
        ),
        final(model).wf(),
        final(model)@.is_rendering(),
{
    run_effect(model, dependency, setup, Some(cleanup))
}

/// An effect without cleanup: `setup` falls due on the first render of a
/// scope and whenever `dependency` differs from the stored one. A cleanup
/// that an earlier effect left in the slot falls due before it.
pub fn effect(model: &mut AppModel, dependency: Value, setup: Callback)
    requires
        old(model).wf(),
        old(model)@.is_rendering(),
        old(model)@.current().accepts(HookCall::Effect { dependency, setup, cleanup: None }),
    ensures
        final(model)@ == old(model)@.after_hook(
            HookCall::Effect { dependency, setup, cleanup: None },
        ),
        final(model).wf(),
        final(model)@.is_rendering(),
{
    run_effect(model, dependency, setup, None)
}

/// Effect dependency change. Let the slot under the cursor hold an effect
/// with dependency `d1` that owes the cleanup `c1`. An effect call with
/// another dependency makes `c1` fall due exactly once, and before the new
/// setup, and stores the new dependency with the new cleanup. An effect
/// call with the same dependency makes nothing fall due and leaves the slot
/// as it is. In both cases the cursor moves on by one and no other slot
/// changes.
pub proof fn lemma_effect_dependency_change(
    scope: ScopeView,
    d1: Value,
    c1: Callback,
    d2: Value,
    setup: Callback,
    c2: Option<Callback>,
)
    requires
        scope.read() == Some(Slot::Effect { dependency: d1, cleanup: Some(c1) }),
    ensures
        ({
            let call = HookCall::Effect { dependency: d2, setup, cleanup: c2 };
            let after = scope.after_hook(call);
            &&& d2 != d1 ==> scope.hook_actions(call) == seq![
                Action::Cleanup(c1),
                Action::Setup(setup),
            ] && after.values == scope.values.update(
                scope.cursor as int,
                Slot::Effect { dependency: d2, cleanup: c2 },
            )
            &&& d2 == d1 ==> scope.hook_actions(call) == Seq::<Action>::empty() && after.values
                == scope.values
            &&& after.cursor == scope.cursor + 1
        }),
{
    let call = HookCall::Effect { dependency: d2, setup, cleanup: c2 };
    let slot = Slot::Effect { dependency: d1, cleanup: Some(c1) };
    assert(seq![slot].drop_last() =~= Seq::empty());
    assert(cleanups_of(seq![slot].drop_last()) =~= Seq::empty());
    assert(cleanups_of(seq![slot]) =~= seq![Action::Cleanup(c1)]);
    if d2 != d1 {
        assert(scope.hook_actions(call) =~= seq![Action::Cleanup(c1), Action::Setup(setup)]);
    }
}

} // verus!
