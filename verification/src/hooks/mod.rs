//! The hook primitives that render logic calls on the model.
//!
//! Every hook uses exactly one slot of the scope in progress: the one under
//! the cursor. A hook may only be called while a render is in progress, and
//! the slot it finds must be of its own kind.

pub mod computed;
pub mod context;
pub mod effect;
pub mod post_update;
pub mod receiver;
pub mod remember;
pub mod state;

pub use computed::{computed, memo};
pub use context::{provide_context, use_context};
pub use effect::{effect, effect_cleanup};
pub use post_update::post_update;
pub use receiver::{callback_receiver, provide_ref, value_receiver};
pub use remember::remember;
pub use state::{state, State};
