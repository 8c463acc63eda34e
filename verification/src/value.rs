//! Plain data that the engine stores and hands around: dynamically typed
//! values, callback tokens, hook slots and the actions left for the host.

use vstd::prelude::*;

verus! {

/// A dynamically typed datum. Parameters, hook state, dependencies and
/// context entries are all values; two values are equal when they have the
/// same variant and the same content.
#[derive(Clone, Copy, Debug, PartialEq, Eq, Structural)]
pub enum Value {
    Unit,
    Bool(bool),
    Int(i64),
    /// A reference to something the host owns, such as a widget.
    Handle(u64),
}

/// A token for a piece of host code. The engine never runs host code
/// itself; it records which callbacks are due, in order.
#[derive(Clone, Copy, Debug, PartialEq, Eq, Structural)]
pub struct Callback {
    pub id: u64,
}

/// One positional storage cell of a scope.
#[derive(Clone, Copy, Debug, PartialEq, Eq, Structural)]
pub enum Slot {
    /// A plain stored value, as kept by state and remembered values.
    Plain(Value),
    /// A cached result together with the dependency it was computed from.
    Computed { dependency: Value, value: Value },
    /// The dependency of an effect and the cleanup owed for its last setup.
    Effect { dependency: Value, cleanup: Option<Callback> },
    /// A cell that can be filled once.
    Cell(Option<Value>),
}

/// Something the host has to do. Actions are recorded in the order in which
/// they fall due.
#[derive(Clone, Copy, Debug, PartialEq, Eq, Structural)]
pub enum Action {
    /// Run the setup of an effect.
    Setup(Callback),
    /// Run the cleanup that an earlier setup left behind.
    Cleanup(Callback),
    /// Run a callback that was deferred until the end of an update.
    PostUpdate(Callback),
    /// Hand a produced value to a callback receiver.
    Notify(Callback, Value),
}

impl Slot {
    /// The cleanup that is owed when this slot is discarded, if any.
    pub open spec fn pending_cleanup(self) -> Option<Callback> {
        match self {
            Slot::Effect { dependency, cleanup } => cleanup,
            _ => None,
        }
    }
}

/// The cleanup actions owed by a sequence of slots, in slot order.
pub open spec fn cleanups_of(slots: Seq<Slot>) -> Seq<Action>
    decreases slots.len(),
{
    if slots.len() == 0 {
        Seq::empty()
    } else {
        let rest = cleanups_of(slots.drop_last());
        match slots.last().pending_cleanup() {
            Some(c) => rest.push(Action::Cleanup(c)),
            None => rest,
        }
    }
}

} // verus!
