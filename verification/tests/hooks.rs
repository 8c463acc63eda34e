use std::cell::Cell;
use std::rc::Rc;

use nestix::app_model::{create_app_model, AppModel};
use nestix::components::{component_id, Component};
use nestix::element::{create_element, Element, ElementView, Receiver, ValueReceiver};
use nestix::hooks::{
    callback_receiver, computed, effect, effect_cleanup, memo, post_update, provide_ref, remember,
    state, value_receiver, State,
};
use nestix::model::{ModelView, UpdateMode};
use nestix::props::Props;
use nestix::value::{Action, Callback, Slot, Value};

struct Idle;

impl Component for Idle {
    fn rendered(&self, _before: ModelView, _element: ElementView) -> ModelView {
        unreachable!("a specification is never run")
    }

    fn render(&self, _model: &mut AppModel, _element: &Element) {}
}

fn plain_element(n: u64) -> Element {
    create_element(component_id(n), Props::new(n, vec![]))
}

/// A model in poll mode whose root scope is in progress.
fn rendering() -> (AppModel, u64) {
    let mut model = create_app_model();
    model.set_update_mode(UpdateMode::Poll);
    let root = model.set_root(plain_element(1));
    assert!(model.begin_update(root).is_some());
    (model, root)
}

/// Closes the render in progress and begins the next one of the same scope.
fn rerender(model: &mut AppModel, root: u64) {
    model.finish_update();
    assert!(model.begin_update(root).is_some());
}

fn cb(id: u64) -> Callback {
    Callback { id }
}

#[test]
fn hooks_need_a_render_in_progress() {
    let mut model = create_app_model();
    assert!(!model.is_rendering());
    model.set_update_mode(UpdateMode::Poll);
    let root = model.set_root(plain_element(1));
    assert!(!model.is_rendering());
    assert_eq!(model.current_scope(), None);
    model.begin_update(root);
    assert!(model.is_rendering());
    assert_eq!(model.current_scope(), Some(root));
    model.finish_update();
    assert!(!model.is_rendering());
}

#[test]
fn remember_keeps_the_first_value() {
    let (mut model, root) = rendering();
    assert_eq!(remember(&mut model, || Value::Int(1)), Value::Int(1));
    rerender(&mut model, root);
    assert_eq!(remember(&mut model, || Value::Int(2)), Value::Int(1));
    assert_eq!(model.slots_of(root).unwrap(), vec![Slot::Plain(Value::Int(1))]);
}

#[test]
fn remember_does_not_ask_the_initializer_again() {
    let (mut model, root) = rendering();
    let asked = Rc::new(Cell::new(0));
    for _ in 0..3 {
        let asked_here = asked.clone();
        remember(&mut model, move || {
            asked_here.set(asked_here.get() + 1);
            Value::Unit
        });
        rerender(&mut model, root);
    }
    assert_eq!(asked.get(), 1);
}

#[test]
fn slots_are_stable_across_renders() {
    let (mut model, root) = rendering();
    let mut handles = Vec::new();
    for round in 0..4 {
        let a = state(&mut model, || Value::Int(10));
        let b = computed(&mut model, Value::Int(7), |d| match d {
            Value::Int(n) => Value::Int(n * 2),
            other => other,
        });
        effect_cleanup(&mut model, Value::Bool(true), cb(1), cb(2));
        let c = state(&mut model, || Value::Int(30));
        assert_eq!(model.cursor(), 4);
        assert_eq!(b, Value::Int(14));
        handles.push((a, c));
        rerender(&mut model, root);
        assert_eq!(model.cursor(), 0);
        assert_eq!(
            model.slots_of(root).unwrap(),
            vec![
                Slot::Plain(Value::Int(10)),
                Slot::Computed { dependency: Value::Int(7), value: Value::Int(14) },
                Slot::Effect { dependency: Value::Bool(true), cleanup: Some(cb(2)) },
                Slot::Plain(Value::Int(30)),
            ],
            "after render {}",
            round
        );
    }
    assert!(handles.iter().all(|h| *h == handles[0]));
    assert_eq!(handles[0].0, State { scope: root, slot: 0 });
    assert_eq!(handles[0].1, State { scope: root, slot: 3 });
    // The setup ran once, on the first render.
    assert_eq!(model.take_actions(), vec![Action::Setup(cb(1))]);
}

#[test]
fn computed_recomputes_only_when_the_dependency_changes() {
    let (mut model, root) = rendering();
    let calls = Rc::new(Cell::new(0));
    let mut results = Vec::new();
    for dependency in [1, 1, 2, 2, 1] {
        let calls_here = calls.clone();
        let r = computed(&mut model, Value::Int(dependency), move |d| {
            calls_here.set(calls_here.get() + 1);
            match d {
                Value::Int(n) => Value::Int(n + 100),
                other => other,
            }
        });
        results.push(r);
        assert_eq!(model.cursor(), 1);
        rerender(&mut model, root);
    }
    assert_eq!(
        results,
        vec![Value::Int(101), Value::Int(101), Value::Int(102), Value::Int(102), Value::Int(101)]
    );
    assert_eq!(calls.get(), 3);
    assert_eq!(model.pending_updates(), 0);
    assert_eq!(
        model.slots_of(root).unwrap(),
        vec![Slot::Computed { dependency: Value::Int(1), value: Value::Int(101) }]
    );
}

#[test]
fn memo_is_computed() {
    let (mut model, root) = rendering();
    assert_eq!(memo(&mut model, Value::Int(1), |_| Value::Int(5)), Value::Int(5));
    rerender(&mut model, root);
    assert_eq!(memo(&mut model, Value::Int(1), |_| Value::Int(6)), Value::Int(5));
    rerender(&mut model, root);
    assert_eq!(memo(&mut model, Value::Int(2), |_| Value::Int(6)), Value::Int(6));
}

#[test]
fn effect_cleanup_runs_once_before_the_new_setup() {
    let (mut model, root) = rendering();
    effect_cleanup(&mut model, Value::Int(1), cb(10), cb(11));
    assert_eq!(model.take_actions(), vec![Action::Setup(cb(10))]);
    rerender(&mut model, root);
    effect_cleanup(&mut model, Value::Int(2), cb(20), cb(21));
    assert_eq!(model.take_actions(), vec![Action::Cleanup(cb(11)), Action::Setup(cb(20))]);
    rerender(&mut model, root);
    effect_cleanup(&mut model, Value::Int(2), cb(30), cb(31));
    assert_eq!(model.take_actions(), vec![]);
    assert_eq!(
        model.slots_of(root).unwrap(),
        vec![Slot::Effect { dependency: Value::Int(2), cleanup: Some(cb(21)) }]
    );
}

#[test]
fn effect_without_cleanup_stores_none() {
    let (mut model, root) = rendering();
    effect(&mut model, Value::Int(1), cb(10));
    rerender(&mut model, root);
    effect(&mut model, Value::Int(1), cb(11));
    rerender(&mut model, root);
    effect(&mut model, Value::Int(2), cb(12));
    assert_eq!(model.take_actions(), vec![Action::Setup(cb(10)), Action::Setup(cb(12))]);
    assert_eq!(
        model.slots_of(root).unwrap(),
        vec![Slot::Effect { dependency: Value::Int(2), cleanup: None }]
    );
}

#[test]
fn effect_after_effect_cleanup_runs_the_owed_cleanup() {
    let (mut model, root) = rendering();
    effect_cleanup(&mut model, Value::Int(1), cb(10), cb(11));
    rerender(&mut model, root);
    effect(&mut model, Value::Int(2), cb(20));
    assert_eq!(
        model.take_actions(),
        vec![Action::Setup(cb(10)), Action::Cleanup(cb(11)), Action::Setup(cb(20))]
    );
}

#[test]
fn set_eq_queues_only_when_the_value_differs() {
    let (mut model, _root) = rendering();
    let s = state(&mut model, || Value::Int(5));
    model.finish_update();
    assert_eq!(model.pending_updates(), 0);
    s.set_eq(&mut model, &Idle, Value::Int(5));
    assert_eq!(model.pending_updates(), 0);
    s.set_eq(&mut model, &Idle, Value::Int(6));
    assert_eq!(model.pending_updates(), 1);
    assert_eq!(s.get(&model), Some(Value::Int(6)));
}

#[test]
fn set_queues_even_when_the_value_is_the_same() {
    let (mut model, _root) = rendering();
    let s = state(&mut model, || Value::Int(5));
    model.finish_update();
    s.set(&mut model, &Idle, Value::Int(5));
    s.set(&mut model, &Idle, Value::Int(5));
    // One entry per request: nothing is collapsed.
    assert_eq!(model.pending_updates(), 2);
    assert!(model.perform_update(&Idle));
    assert!(model.perform_update(&Idle));
    assert!(!model.perform_update(&Idle));
}

#[test]
fn update_applies_the_updater_and_queues() {
    let (mut model, _root) = rendering();
    let s = state(&mut model, || Value::Int(5));
    model.finish_update();
    s.update(&mut model, &Idle, |v| match v {
        Value::Int(n) => Value::Int(n * 3),
        other => other,
    });
    assert_eq!(s.get(&model), Some(Value::Int(15)));
    assert_eq!(s.get_cloned(&model), Some(Value::Int(15)));
    assert_eq!(s.borrow(&model), Some(&Value::Int(15)));
    assert_eq!(model.pending_updates(), 1);
    // An updater that changes nothing still queues.
    s.update(&mut model, &Idle, |v| v);
    assert_eq!(model.pending_updates(), 2);
}

#[test]
fn store_writes_without_queueing() {
    let (mut model, _root) = rendering();
    let s = state(&mut model, || Value::Int(5));
    model.finish_update();
    assert!(s.store(&mut model, Value::Bool(true)));
    assert_eq!(s.get(&model), Some(Value::Bool(true)));
    assert_eq!(model.pending_updates(), 0);
}

#[test]
fn handle_on_a_missing_slot_reads_none_and_writes_nothing() {
    let (mut model, root) = rendering();
    effect(&mut model, Value::Unit, cb(1));
    model.finish_update();
    // Slot 0 holds an effect, slot 1 does not exist, scope 99 does not
    // exist.
    for handle in [
        State { scope: root, slot: 0 },
        State { scope: root, slot: 1 },
        State { scope: 99, slot: 0 },
    ] {
        assert_eq!(handle.get(&model), None);
        assert_eq!(handle.borrow(&model), None);
        assert!(!handle.store(&mut model, Value::Int(1)));
        handle.set(&mut model, &Idle, Value::Int(1));
        handle.set_eq(&mut model, &Idle, Value::Int(1));
        handle.update(&mut model, &Idle, |v| v);
    }
    assert_eq!(model.pending_updates(), 0);
    assert_eq!(
        model.slots_of(root).unwrap(),
        vec![Slot::Effect { dependency: Value::Unit, cleanup: None }]
    );
}

#[test]
fn peek_shows_what_the_next_hook_will_find() {
    let (mut model, root) = rendering();
    assert_eq!(model.peek_value(), None);
    let _ = state(&mut model, || Value::Int(4));
    assert_eq!(model.peek_value(), None);
    rerender(&mut model, root);
    assert_eq!(model.peek_value(), Some(Slot::Plain(Value::Int(4))));
    assert_eq!(model.cursor(), 0);
    assert_eq!(model.declared_children(), 0);
    model.push_child(plain_element(2));
    assert_eq!(model.declared_children(), 1);
}

#[test]
fn slot_operations_move_the_cursor_by_one() {
    let (mut model, root) = rendering();
    assert_eq!(model.get_value(), None);
    assert_eq!(model.cursor(), 0);
    model.set_value(Slot::Plain(Value::Int(1)));
    model.set_value(Slot::Plain(Value::Int(2)));
    assert_eq!(model.cursor(), 2);
    model.backward_value();
    assert_eq!(model.cursor(), 1);
    // Overwrites the second slot in place.
    model.set_value(Slot::Plain(Value::Int(3)));
    assert_eq!(model.cursor(), 2);
    assert_eq!(
        model.slots_of(root).unwrap(),
        vec![Slot::Plain(Value::Int(1)), Slot::Plain(Value::Int(3))]
    );
    rerender(&mut model, root);
    assert_eq!(model.get_value(), Some(Slot::Plain(Value::Int(1))));
    assert_eq!(model.get_value(), Some(Slot::Plain(Value::Int(3))));
    assert_eq!(model.get_value(), None);
    assert_eq!(model.cursor(), 2);
}

#[test]
fn value_receiver_keeps_the_first_value() {
    let (mut model, root) = rendering();
    let r = value_receiver(&mut model);
    assert_eq!(r, ValueReceiver { scope: root, slot: 0 });
    assert_eq!(r.get(&model), None);
    r.set(&mut model, Value::Int(1));
    r.set(&mut model, Value::Int(2));
    assert_eq!(r.get(&model), Some(Value::Int(1)));
    rerender(&mut model, root);
    let again = value_receiver(&mut model);
    assert_eq!(again, r);
    assert_eq!(again.get(&model), Some(Value::Int(1)));
}

#[test]
fn value_receiver_of_a_missing_cell_does_nothing() {
    let (mut model, root) = rendering();
    let _ = state(&mut model, || Value::Int(0));
    model.finish_update();
    for r in [
        ValueReceiver { scope: root, slot: 0 },
        ValueReceiver { scope: root, slot: 5 },
        ValueReceiver { scope: 42, slot: 0 },
    ] {
        r.set(&mut model, Value::Int(1));
        assert_eq!(r.get(&model), None);
    }
    assert_eq!(model.slots_of(root).unwrap(), vec![Slot::Plain(Value::Int(0))]);
}

#[test]
fn callback_receiver_is_notified_every_time() {
    let (mut model, _root) = rendering();
    let r = Receiver::Callback(cb(4));
    r.provide(&mut model, Value::Int(1));
    r.provide(&mut model, Value::Int(2));
    assert_eq!(
        model.take_actions(),
        vec![Action::Notify(cb(4), Value::Int(1)), Action::Notify(cb(4), Value::Int(2))]
    );
}

#[test]
fn callback_receiver_remembers_the_first_callback() {
    let (mut model, root) = rendering();
    assert_eq!(callback_receiver(&mut model, cb(4)), Receiver::Callback(cb(4)));
    rerender(&mut model, root);
    assert_eq!(callback_receiver(&mut model, cb(5)), Receiver::Callback(cb(4)));
}

#[test]
fn provide_ref_reaches_the_receiver_of_the_element() {
    const WIDGET: u64 = 5;
    let mut model = create_app_model();
    model.set_update_mode(UpdateMode::Poll);
    let parent = model.set_root(plain_element(1));
    model.begin_update(parent);
    let cell = value_receiver(&mut model);
    model.push_child(plain_element(2).with_receiver(WIDGET, Receiver::Value(cell)));
    model.push_child(plain_element(3).with_receiver(WIDGET, Receiver::Callback(cb(8))));
    model.push_child(plain_element(4));
    model.finish_update();
    let children = model.children_of(parent).unwrap();

    model.begin_update(children[0]);
    provide_ref(&mut model, WIDGET, Value::Handle(70));
    provide_ref(&mut model, WIDGET, Value::Handle(71));
    model.finish_update();
    assert_eq!(cell.get(&model), Some(Value::Handle(70)));

    model.begin_update(children[1]);
    provide_ref(&mut model, WIDGET, Value::Handle(80));
    model.finish_update();
    assert_eq!(model.take_actions(), vec![Action::Notify(cb(8), Value::Handle(80))]);

    model.begin_update(children[2]);
    model.provide_ref(WIDGET, Value::Handle(90));
    model.finish_update();
    assert_eq!(model.take_actions(), vec![]);
}

#[test]
fn provide_ref_of_another_handle_type_reaches_nothing() {
    const WIDGET: u64 = 5;
    const OTHER: u64 = 6;
    let mut model = create_app_model();
    model.set_update_mode(UpdateMode::Poll);
    let parent = model.set_root(plain_element(1));
    model.begin_update(parent);
    let cell = value_receiver(&mut model);
    model.push_child(plain_element(2).with_receiver(WIDGET, Receiver::Value(cell)));
    model.push_child(plain_element(3).with_receiver(WIDGET, Receiver::Callback(cb(8))));
    model.finish_update();
    let children = model.children_of(parent).unwrap();

    model.begin_update(children[0]);
    provide_ref(&mut model, OTHER, Value::Handle(70));
    model.finish_update();
    assert_eq!(cell.get(&model), None);

    model.begin_update(children[1]);
    provide_ref(&mut model, OTHER, Value::Handle(80));
    model.finish_update();
    assert_eq!(model.take_actions(), vec![]);
}

#[test]
fn deferred_callbacks_fall_due_after_reconciliation_in_order() {
    let (mut model, root) = rendering();
    model.add_child(plain_element(2));
    model.finish_update();
    let child = model.children_of(root).unwrap()[0];
    model.begin_update(child);
    effect_cleanup(&mut model, Value::Unit, cb(1), cb(2));
    model.finish_update();
    let _ = model.take_actions();

    // The next render of the root declares no child and defers two
    // callbacks: the cleanup of the dropped child comes first.
    model.begin_update(root);
    post_update(&mut model, cb(100));
    model.add_post_update_event(cb(101));
    assert_eq!(model.take_actions(), vec![]);
    model.finish_update();
    assert_eq!(
        model.take_actions(),
        vec![Action::Cleanup(cb(2)), Action::PostUpdate(cb(100)), Action::PostUpdate(cb(101))]
    );
    // They fall due once.
    model.begin_update(root);
    model.finish_update();
    assert_eq!(model.take_actions(), vec![]);
}

struct Bumper {
    renders: Cell<u32>,
    reentered: Cell<bool>,
}

impl Component for Bumper {
    fn rendered(&self, _before: ModelView, _element: ElementView) -> ModelView {
        unreachable!("a specification is never run")
    }

    fn render(&self, model: &mut AppModel, _element: &Element) {
        self.renders.set(self.renders.get() + 1);
        let s = state(model, || Value::Int(0));
        if s.get(model) == Some(Value::Int(0)) {
            // A mutation during a render only queues.
            s.set(model, self, Value::Int(1));
            assert_eq!(model.pending_updates(), 1);
            assert_eq!(self.renders.get(), 1);
        }
        // Nothing is processed while a render is in progress.
        if model.perform_update(self) || model.drain(self) != 0 {
            self.reentered.set(true);
        }
    }
}

#[test]
fn mutation_during_render_is_processed_later_in_the_same_drain() {
    let bumper = Bumper { renders: Cell::new(0), reentered: Cell::new(false) };
    let mut model = create_app_model();
    model.render(&bumper, plain_element(1));
    assert_eq!(bumper.renders.get(), 2);
    assert!(!bumper.reentered.get());
    assert_eq!(model.pending_updates(), 0);
    let root = model.root_scope().unwrap();
    assert_eq!(model.slots_of(root).unwrap(), vec![Slot::Plain(Value::Int(1))]);
}

#[test]
fn drain_counts_the_entries_it_took() {
    let mut model = create_app_model();
    model.set_update_mode(UpdateMode::Poll);
    let root = model.set_root(plain_element(1));
    model.request_update(&Idle, root);
    model.request_update(&Idle, root);
    model.request_update(&Idle, 1234);
    assert_eq!(model.pending_updates(), 3);
    assert_eq!(model.drain(&Idle), 3);
    assert_eq!(model.drain(&Idle), 0);
}

#[test]
fn updates_can_be_stepped_by_hand() {
    let mut model = create_app_model();
    model.set_update_mode(UpdateMode::Poll);
    let root = model.set_root(plain_element(1));
    assert_eq!(model.pop_update(), None);
    model.request_update(&Idle, root);
    model.request_update(&Idle, 77);
    assert_eq!(model.pop_update(), Some(root));
    assert!(model.begin_update(root).is_some());
    // Nothing is handed out, and nothing begins, while a render is in
    // progress.
    assert_eq!(model.pop_update(), None);
    assert!(model.begin_update(root).is_none());
    assert_eq!(model.pending_updates(), 1);
    model.finish_update();
    assert_eq!(model.pop_update(), Some(77));
    assert!(model.begin_update(77).is_none());
    assert_eq!(model.pop_update(), None);
}

#[test]
fn request_update_in_instant_mode_drains() {
    let mut model = create_app_model();
    let root = model.set_root(plain_element(1));
    model.request_update(&Idle, root);
    assert_eq!(model.pending_updates(), 0);
    model.update_scope(&Idle, root);
    assert_eq!(model.current_scope(), None);
}

struct Quitter;

impl Component for Quitter {
    fn rendered(&self, _before: ModelView, _element: ElementView) -> ModelView {
        unreachable!("a specification is never run")
    }

    fn render(&self, model: &mut AppModel, _element: &Element) {
        model.push_child(plain_element(2));
        post_update(model, cb(1));
        // Ends the render by itself.
        model.finish_update();
        model.push_child(plain_element(3));
        post_update(model, cb(2));
    }
}

#[test]
fn a_render_that_was_ended_early_is_given_up() {
    let mut model = create_app_model();
    model.set_update_mode(UpdateMode::Poll);
    model.render(&Quitter, plain_element(1));
    assert!(model.perform_update(&Quitter));
    let root = model.root_scope().unwrap();
    // The first child was reconciled by the render itself; what came after
    // it was dropped, and the scope is on record as given up.
    assert_eq!(model.children_of(root).unwrap().len(), 1);
    assert_eq!(model.current_scope(), None);
    assert_eq!(model.declared_children(), 0);
    assert_eq!(model.take_actions(), vec![Action::PostUpdate(cb(1))]);
    assert_eq!(model.take_given_up(), vec![root]);
    assert_eq!(model.take_given_up(), vec![]);
    model.begin_update(root);
    model.finish_update();
    assert_eq!(model.children_of(root).unwrap().len(), 0);
    assert_eq!(model.take_actions(), vec![]);
}

#[test]
fn end_update_closes_the_render_of_the_scope_in_progress_only() {
    let (mut model, root) = rendering();
    model.push_child(plain_element(2));
    post_update(&mut model, cb(3));
    // Another scope than the one in progress: the render is given up.
    assert!(!model.end_update(root + 40));
    assert_eq!(model.current_scope(), None);
    assert_eq!(model.declared_children(), 0);
    assert_eq!(model.children_of(root).unwrap(), vec![]);
    assert_eq!(model.take_actions(), vec![]);
    assert_eq!(model.take_given_up(), vec![root + 40]);
    // No render in progress at all.
    assert!(!model.end_update(root));
    assert_eq!(model.take_given_up(), vec![root]);
    // The scope in progress: the render is closed.
    model.begin_update(root);
    model.push_child(plain_element(2));
    post_update(&mut model, cb(3));
    assert!(model.end_update(root));
    assert_eq!(model.children_of(root).unwrap().len(), 1);
    assert_eq!(model.take_actions(), vec![Action::PostUpdate(cb(3))]);
    assert_eq!(model.take_given_up(), vec![]);
}

#[test]
fn a_completed_update_is_not_on_record_as_given_up() {
    let mut model = create_app_model();
    model.render(&Idle, plain_element(1));
    let root = model.root_scope().unwrap();
    model.update_scope(&Idle, root);
    model.update_scope(&Idle, root + 1);
    assert_eq!(model.take_given_up(), vec![]);
}
