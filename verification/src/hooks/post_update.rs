//! Callbacks deferred to the end of the update in progress.

use vstd::prelude::*;
use crate::app_model::AppModel;
use crate::model::ModelView;
use crate::value::Callback;

verus! {

/// Defers `f` until the render in progress has been closed and its
/// children have been reconciled. It then falls due exactly once.
pub fn post_update(model: &mut AppModel, f: Callback)
    ensures
        final(model)@ == (ModelView {
            post_update: old(model)@.post_update.push(f),
            ..old(model)@
        }),
{
    model.add_post_update_event(f)
}

} // verus!
