//! Scopes: the persistent nodes of the shadow tree.

use vstd::prelude::*;
use std::collections::HashMap;
use crate::element::{Element, ElementView};
use crate::value::{cleanups_of, Action, Callback, Slot, Value};

verus! {

/// The number by which a scope is known to the model, to its parent and to
/// the handles that point back at it. Numbers are never reused.
pub type ScopeId = u64;

/// The mathematical content of a scope.
pub ghost struct ScopeView {
    /// The element this scope was last asked to render.
    pub element: ElementView,
    /// The child scopes, in declaration order.
    pub children: Seq<ScopeId>,
    /// The hook slots, in call order.
    pub values: Seq<Slot>,
    /// The slot the next hook call will use.
    pub cursor: nat,
    /// The context values visible to this scope, by type number.
    pub context: Map<u64, Value>,
}

impl ScopeView {
    /// A scope that has not rendered yet: no children, no slots, and the
    /// given inherited context.
    pub open spec fn fresh(element: ElementView, context: Map<u64, Value>) -> ScopeView {
        ScopeView { element, children: Seq::empty(), values: Seq::empty(), cursor: 0, context }
    }

    /// The cursor lies within the slots or just behind them.
    pub open spec fn wf(self) -> bool {
        self.cursor <= self.values.len()
    }

    /// What reading the slot under the cursor returns.
    pub open spec fn read(self) -> Option<Slot> {
        if self.cursor < self.values.len() {
            Some(self.values[self.cursor as int])
        } else {
            None
        }
    }

    /// The scope after a read: the cursor moves on by one if there was a
    /// slot to read, and nothing else changes.
    pub open spec fn after_read(self) -> ScopeView {
        if self.cursor < self.values.len() {
            ScopeView { cursor: self.cursor + 1, ..self }
        } else {
            self
        }
    }

    /// The scope after writing `slot` under the cursor: the slot is appended
    /// when the cursor is behind the last slot and replaced otherwise, and
    /// the cursor moves on by one.
    pub open spec fn after_write(self, slot: Slot) -> ScopeView {
        ScopeView {
            values: if self.cursor >= self.values.len() {
                self.values.push(slot)
            } else {
                self.values.update(self.cursor as int, slot)
            },
            cursor: self.cursor + 1,
            ..self
        }
    }

    /// The scope after backing up by one slot.
    pub open spec fn after_backward(self) -> ScopeView {
        ScopeView { cursor: (self.cursor - 1) as nat, ..self }
    }
}

/// One hook call, as far as it bears on the slots: what kind of hook it is
/// and the values it brings along.
pub ghost enum HookCall {
    /// State or a remembered value; `initial` is what the initializer
    /// gives if it is asked.
    Plain { initial: Value },
    /// A computed value; `result` is what the compute function gives for
    /// `dependency` if it is asked.
    Computed { dependency: Value, result: Value },
    /// An effect with its setup and the cleanup that the setup leaves
    /// behind.
    Effect { dependency: Value, setup: Callback, cleanup: Option<Callback> },
    /// A one-shot cell.
    Cell,
}

impl HookCall {
    /// Whether `slot` is of the kind that this hook stores.
    pub open spec fn fits(self, slot: Slot) -> bool {
        match self {
            HookCall::Plain { .. } => slot is Plain,
            HookCall::Computed { .. } => slot is Computed,
            HookCall::Effect { .. } => slot is Effect,
            HookCall::Cell => slot is Cell,
        }
    }

    /// Whether the hook leaves `slot` as it is: always for state,
    /// remembered values and cells, and for computed values and effects
    /// when the dependency is the stored one.
    pub open spec fn keeps(self, slot: Slot) -> bool {
        match self {
            HookCall::Plain { .. } => true,
            HookCall::Computed { dependency, .. } => slot matches Slot::Computed {
                dependency: d,
                ..
            } && d == dependency,
            HookCall::Effect { dependency, .. } => slot matches Slot::Effect { dependency: d, .. }
                && d == dependency,
            HookCall::Cell => true,
        }
    }

    /// The slot that the hook stores when it does not keep what is there.
    pub open spec fn new_slot(self) -> Slot {
        match self {
            HookCall::Plain { initial } => Slot::Plain(initial),
            HookCall::Computed { dependency, result } => Slot::Computed {
                dependency,
                value: result,
            },
            HookCall::Effect { dependency, cleanup, .. } => Slot::Effect { dependency, cleanup },
            HookCall::Cell => Slot::Cell(None),
        }
    }

    /// What the slot `slot` holds after this hook has used it.
    pub open spec fn slot_after(self, slot: Slot) -> Slot {
        if self.keeps(slot) {
            slot
        } else {
            self.new_slot()
        }
    }

    /// What falls due when this hook stores a slot in place of `previous`:
    /// for an effect the cleanup owed by the slot it replaces, then its
    /// setup; nothing for the other hooks.
    pub open spec fn actions_on_store(self, previous: Option<Slot>) -> Seq<Action> {
        match self {
            HookCall::Effect { setup, .. } => {
                let owed = match previous {
                    Some(slot) => cleanups_of(seq![slot]),
                    None => Seq::empty(),
                };
                owed.push(Action::Setup(setup))
            },
            _ => Seq::empty(),
        }
    }
}

impl ScopeView {
    /// Whether the slot under the cursor, if there is one, is of the kind
    /// that `call` stores.
    pub open spec fn accepts(self, call: HookCall) -> bool {
        match self.read() {
            Some(slot) => call.fits(slot),
            None => true,
        }
    }

    /// The scope after `call`: the slot under the cursor is created if it
    /// is missing, kept or replaced in place if it is there, and the cursor
    /// moves on by exactly one. No other slot changes.
    pub open spec fn after_hook(self, call: HookCall) -> ScopeView {
        match self.read() {
            Some(slot) => if call.keeps(slot) {
                self.after_read()
            } else {
                self.after_read().after_backward().after_write(call.new_slot())
            },
            None => self.after_write(call.new_slot()),
        }
    }

    /// What falls due through `call`, in order.
    pub open spec fn hook_actions(self, call: HookCall) -> Seq<Action> {
        match self.read() {
            Some(slot) => if call.keeps(slot) {
                Seq::empty()
            } else {
                call.actions_on_store(Some(slot))
            },
            None => call.actions_on_store(None),
        }
    }
}

/// The scope after the hook calls `calls` have been made in order.
pub open spec fn run_hooks(scope: ScopeView, calls: Seq<HookCall>) -> ScopeView
    decreases calls.len(),
{
    if calls.len() == 0 {
        scope
    } else {
        run_hooks(scope, calls.drop_last()).after_hook(calls.last())
    }
}

/// Slot stability. A render that starts at the first slot and makes one
/// hook call per existing slot, each of the kind of its slot, leaves the
/// number of slots as it is and the cursor behind the last slot, and every
/// slot holds what its own hook makes of it: state, remembered values and
/// cells are untouched, and a computed value or an effect is replaced only
/// when its dependency differs from the stored one. Element, children and
/// context are untouched.
pub proof fn lemma_slot_stability(scope: ScopeView, calls: Seq<HookCall>)
    requires
        scope.cursor == 0,
        calls.len() == scope.values.len(),
        forall|i: int| 0 <= i < calls.len() ==> calls[i].fits(scope.values[i]),
    ensures
        run_hooks(scope, calls).values.len() == scope.values.len(),
        run_hooks(scope, calls).cursor == scope.values.len(),
        forall|i: int|
            0 <= i < calls.len() ==> run_hooks(scope, calls).values[i] == calls[i].slot_after(
                scope.values[i],
            ),
        forall|i: int|
            0 <= i < calls.len() && calls[i].keeps(scope.values[i]) ==> run_hooks(
                scope,
                calls,
            ).values[i] == scope.values[i],
        run_hooks(scope, calls).element == scope.element,
        run_hooks(scope, calls).children == scope.children,
        run_hooks(scope, calls).context == scope.context,
{
    lemma_run_hooks_prefix(scope, calls, calls.len());
    assert(calls.take(calls.len() as int) =~= calls);
}

/// What the first `n` of the calls of a stable render have done.
proof fn lemma_run_hooks_prefix(scope: ScopeView, calls: Seq<HookCall>, n: nat)
    requires
        scope.cursor == 0,
        n <= calls.len(),
        calls.len() == scope.values.len(),
        forall|i: int| 0 <= i < calls.len() ==> calls[i].fits(scope.values[i]),
    ensures
        run_hooks(scope, calls.take(n as int)).values.len() == scope.values.len(),
        run_hooks(scope, calls.take(n as int)).cursor == n,
        forall|i: int|
            0 <= i < n ==> run_hooks(scope, calls.take(n as int)).values[i] == calls[i].slot_after(
                scope.values[i],
            ),
        forall|i: int|
            n <= i < calls.len() ==> run_hooks(scope, calls.take(n as int)).values[i]
                == scope.values[i],
        run_hooks(scope, calls.take(n as int)).element == scope.element,
        run_hooks(scope, calls.take(n as int)).children == scope.children,
        run_hooks(scope, calls.take(n as int)).context == scope.context,
    decreases n,
{
    if n > 0 {
        lemma_run_hooks_prefix(scope, calls, (n - 1) as nat);
        assert(calls.take(n as int).drop_last() =~= calls.take(n - 1));
        assert(calls.take(n as int).last() == calls[n - 1]);
    }
}

/// The first render. On a scope without slots every hook call appends the
/// slot it stores, in call order.
pub proof fn lemma_first_render(scope: ScopeView, calls: Seq<HookCall>)
    requires
        scope.cursor == 0,
        scope.values.len() == 0,
    ensures
        run_hooks(scope, calls).values == calls.map_values(|c: HookCall| c.new_slot()),
        run_hooks(scope, calls).cursor == calls.len(),
    decreases calls.len(),
{
    if calls.len() > 0 {
        lemma_first_render(scope, calls.drop_last());
        assert(run_hooks(scope, calls).values =~= calls.map_values(|c: HookCall| c.new_slot()));
    } else {
        assert(run_hooks(scope, calls).values =~= calls.map_values(|c: HookCall| c.new_slot()));
    }
}

/// One component instance: its element, children, hook slots and context.
#[derive(Debug)]
pub struct Scope {
    pub element: Element,
    pub children: Vec<ScopeId>,
    pub values: Vec<Slot>,
    pub value_cursor: usize,
    pub context_map: HashMap<u64, Value>,
}

impl View for Scope {
    type V = ScopeView;

    open spec fn view(&self) -> ScopeView {
        ScopeView {
            element: self.element@,
            children: self.children@,
            values: self.values@,
            cursor: self.value_cursor as nat,
            context: self.context_map@,
        }
    }
}

impl Scope {
    /// A scope for `element` that has not rendered yet and inherits
    /// nothing.
    pub fn new(element: Element) -> (r: Scope)
        ensures
            r@ == ScopeView::fresh(element@, Map::empty()),
    {
        Scope {
            element,
            children: Vec::new(),
            values: Vec::new(),
            value_cursor: 0,
            context_map: HashMap::new(),
        }
    }

    /// Reads the slot under the cursor and moves on, or returns `None` and
    /// stays where it is when the cursor is behind the last slot.
    pub fn get_value(&mut self) -> (r: Option<Slot>)
        requires
            old(self)@.wf(),
        ensures
            r == old(self)@.read(),
            final(self)@ == old(self)@.after_read(),
            final(self)@.wf(),
    {
        if self.value_cursor < self.values.len() {
            let slot = self.values[self.value_cursor];
            self.value_cursor = self.value_cursor + 1;
            Some(slot)
        } else {
            None
        }
    }

    /// Writes `slot` under the cursor and moves on.
    pub fn set_value(&mut self, slot: Slot)
        requires
            old(self)@.wf(),
        ensures
            final(self)@ == old(self)@.after_write(slot),
            final(self)@.wf(),
    {
        if self.value_cursor >= self.values.len() {
            self.values.push(slot);
        } else {
            self.values.set(self.value_cursor, slot);
        }
        let len = self.values.len();
        assert(self.value_cursor < len);
        self.value_cursor = self.value_cursor + 1;
    }

    /// Moves the cursor back by one slot, so that the slot just read can be
    /// overwritten.
    pub fn backward_value(&mut self)
        requires
            old(self)@.cursor > 0,
        ensures
            final(self)@ == old(self)@.after_backward(),
    {
        self.value_cursor = self.value_cursor - 1;
    }
}

} // verus!
