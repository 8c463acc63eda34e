//! Context: values handed down from ancestors, keyed by type.

use vstd::prelude::*;
use crate::app_model::AppModel;
use crate::scope::ScopeView;
use crate::value::Value;

verus! {

/// Provides `context` under the type number `key` to the scopes that the
/// render in progress creates from now on, and to their descendants.
pub fn provide_context(model: &mut AppModel, key: u64, context: Value)
    requires
        old(model)@.is_rendering(),
    ensures
        final(model)@ == old(model)@.with_current(
            ScopeView {
                context: old(model)@.current().context.insert(key, context),
                ..old(model)@.current()
            },
        ),
        final(model)@.is_rendering(),
        old(model).wf() ==> final(model).wf(),
{
    model.provide_context(key, context)
}

/// The context value of type number `key` that the scope in progress
/// sees, or `None` when none was provided.
pub fn use_context(model: &AppModel, key: u64) -> (r: Option<Value>)
    requires
        model@.is_rendering(),
    ensures
        r == if model@.current().context.contains_key(key) {
            Some(model@.current().context[key])
        } else {
            None
        },
{
    model.use_context(key)
}

} // verus!
