use nestix::app_model::{create_app_model, AppModel};
use nestix::components::{component_id, Component, ComponentID};
use nestix::element::{create_element, Element, ElementView};
use nestix::hooks::{effect_cleanup, post_update, provide_context, state, use_context, State};
use nestix::model::{ModelView, UpdateMode};
use nestix::props::Props;
use nestix::value::{Action, Callback, Slot, Value};

const LIST: u64 = 1;
const ITEM: u64 = 2;
const COUNTER: u64 = 3;
const BUTTON: u64 = 4;
const TEXT: u64 = 5;
const PROVIDER: u64 = 6;
const READER: u64 = 7;
const GROUP: u64 = 8;

fn id_of(n: u64) -> ComponentID {
    component_id(n)
}

fn item(data: i64, key: Option<&str>) -> Element {
    create_element(id_of(ITEM), Props::new(ITEM, vec![Value::Int(data)])).with_maybe_key(key)
}

/// A list element whose parameters are pairs of key and data; a negative
/// key stands for "no key".
fn list(pairs: &[(i64, i64)]) -> Element {
    let mut values = Vec::new();
    for (k, d) in pairs {
        values.push(Value::Int(*k));
        values.push(Value::Int(*d));
    }
    create_element(id_of(LIST), Props::new(LIST, values))
}

fn as_int(v: &Value) -> i64 {
    match v {
        Value::Int(n) => *n,
        _ => panic!("not an integer"),
    }
}

struct App;

impl Component for App {
    fn rendered(&self, _before: ModelView, _element: ElementView) -> ModelView {
        unreachable!("a specification is never run")
    }

    fn render(&self, model: &mut AppModel, element: &Element) {
        let values = element.props().values.clone();
        match element.component_id().id {
            LIST => {
                let mut i = 0;
                while i + 1 < values.len() {
                    let key = as_int(&values[i]);
                    let data = as_int(&values[i + 1]);
                    let text = format!("{}", key);
                    let key = if key < 0 { None } else { Some(text.as_str()) };
                    model.push_child(item(data, key));
                    i += 2;
                }
            }
            ITEM => {
                // The state keeps the data the item was created with.
                let data = values[0];
                let _ = state(model, move || data);
                // One effect per item, with a cleanup numbered after it.
                let n = as_int(&data) as u64;
                effect_cleanup(model, Value::Unit, Callback { id: 1000 + n }, Callback { id: 2000 + n });
            }
            COUNTER => {
                let count = state(model, || Value::Int(0));
                let now = count.get(model).unwrap();
                model.push_child(create_element(
                    id_of(BUTTON),
                    Props::new(BUTTON, vec![Value::Handle(count.scope), Value::Int(count.slot as i64)]),
                ));
                model.push_child(create_element(id_of(TEXT), Props::new(TEXT, vec![now])));
                post_update(model, Callback { id: 77 });
            }
            PROVIDER => {
                provide_context(model, 9, values[0]);
                model.push_child(create_element(id_of(READER), Props::new(READER, vec![])));
            }
            GROUP => {
                // Two effects of its own, and two items below it.
                effect_cleanup(model, Value::Unit, Callback { id: 1 }, Callback { id: 3001 });
                effect_cleanup(model, Value::Unit, Callback { id: 2 }, Callback { id: 3002 });
                model.push_child(item(1, None));
                model.push_child(item(2, None));
            }
            READER => {
                let seen = use_context(model, 9);
                let missing = use_context(model, 10);
                assert!(missing.is_none());
                let seen = seen.unwrap_or(Value::Unit);
                let _ = state(model, move || seen);
            }
            _ => {}
        }
    }
}

fn first_slot(model: &AppModel, id: u64) -> Slot {
    model.slots_of(id).unwrap()[0]
}

#[test]
fn poll_mode_queues_the_root_until_polled() {
    let mut model = create_app_model();
    model.set_update_mode(UpdateMode::Poll);
    model.render(&App, list(&[]));
    assert_eq!(model.pending_updates(), 1);
    assert!(model.perform_update(&App));
    assert_eq!(model.pending_updates(), 0);
    assert!(!model.perform_update(&App));
}

#[test]
fn instant_mode_drains_before_render_returns() {
    let mut model = create_app_model();
    assert_eq!(model.update_mode(), UpdateMode::Instant);
    model.render(&App, list(&[(1, 10), (2, 20)]));
    assert_eq!(model.pending_updates(), 0);
    let root = model.root_scope().unwrap();
    let children = model.children_of(root).unwrap();
    assert_eq!(children.len(), 2);
    assert_eq!(first_slot(&model, children[0]), Slot::Plain(Value::Int(10)));
    assert_eq!(first_slot(&model, children[1]), Slot::Plain(Value::Int(20)));
}

#[test]
fn keyed_reorder_keeps_the_scopes() {
    let mut model = create_app_model();
    model.render(&App, list(&[(1, 10), (2, 20)]));
    let root = model.root_scope().unwrap();
    let before = model.children_of(root).unwrap();
    model.render(&App, list(&[(2, 20), (1, 10)]));
    let after = model.children_of(root).unwrap();
    assert_eq!(after, vec![before[1], before[0]]);
    // The state travelled with the scopes.
    assert_eq!(first_slot(&model, after[0]), Slot::Plain(Value::Int(20)));
    assert_eq!(first_slot(&model, after[1]), Slot::Plain(Value::Int(10)));
    // Nothing was destroyed, so no cleanup fell due.
    let actions = model.take_actions();
    assert!(actions.iter().all(|a| !matches!(a, Action::Cleanup(_))));
}

#[test]
fn unkeyed_reorder_keeps_state_by_position() {
    let mut model = create_app_model();
    model.render(&App, list(&[(-1, 10), (-1, 20)]));
    let root = model.root_scope().unwrap();
    let before = model.children_of(root).unwrap();
    model.render(&App, list(&[(-1, 20), (-1, 10)]));
    let after = model.children_of(root).unwrap();
    // Same scopes at the same positions ...
    assert_eq!(after, before);
    // ... so the state of position 0 now appears to belong to the item
    // that carries the data 20.
    assert_eq!(first_slot(&model, after[0]), Slot::Plain(Value::Int(10)));
    assert_eq!(model.element_of(after[0]).unwrap().props().values, vec![Value::Int(20)]);
    assert_eq!(first_slot(&model, after[1]), Slot::Plain(Value::Int(20)));
    assert_eq!(model.element_of(after[1]).unwrap().props().values, vec![Value::Int(10)]);
}

#[test]
fn unmatched_child_is_destroyed_and_cleaned_up_once() {
    let mut model = create_app_model();
    model.render(&App, list(&[(1, 10), (2, 20)]));
    let root = model.root_scope().unwrap();
    let before = model.children_of(root).unwrap();
    let _ = model.take_actions();
    model.render(&App, list(&[(2, 20)]));
    let after = model.children_of(root).unwrap();
    assert_eq!(after, vec![before[1]]);
    assert!(!model.contains_scope(before[0]));
    assert_eq!(model.take_actions(), vec![Action::Cleanup(Callback { id: 2010 })]);
    // A further render owes nothing more for the destroyed scope.
    model.render(&App, list(&[(2, 20)]));
    assert_eq!(model.take_actions(), vec![]);
}

#[test]
fn new_child_gets_a_fresh_scope_and_renders_once() {
    let mut model = create_app_model();
    model.render(&App, list(&[(1, 10)]));
    let root = model.root_scope().unwrap();
    let before = model.children_of(root).unwrap();
    let _ = model.take_actions();
    model.render(&App, list(&[(1, 10), (3, 30)]));
    let after = model.children_of(root).unwrap();
    assert_eq!(after.len(), 2);
    assert_eq!(after[0], before[0]);
    assert!(after[1] > before[0]);
    // Only the new item ran its setup; the unchanged one was not rendered
    // again.
    assert_eq!(model.take_actions(), vec![Action::Setup(Callback { id: 1030 })]);
}

#[test]
fn duplicate_keys_match_in_order_of_appearance() {
    let mut model = create_app_model();
    model.render(&App, list(&[(1, 10), (1, 11), (1, 12)]));
    let root = model.root_scope().unwrap();
    let before = model.children_of(root).unwrap();
    model.render(&App, list(&[(1, 12), (1, 11)]));
    let after = model.children_of(root).unwrap();
    assert_eq!(after, vec![before[0], before[1]]);
    assert!(!model.contains_scope(before[2]));
}

#[test]
fn same_key_under_another_component_does_not_match() {
    let mut model = create_app_model();
    model.set_update_mode(UpdateMode::Poll);
    let root = model.set_root(list(&[]));
    let a = create_element(id_of(ITEM), Props::new(ITEM, vec![Value::Int(1)])).with_key("k");
    let b = create_element(id_of(TEXT), Props::new(TEXT, vec![Value::Int(1)])).with_key("k");
    let context = std::collections::HashMap::new();
    let first = model.reconcile(&context, vec![], vec![a]);
    let second = model.reconcile(&context, first.clone(), vec![b]);
    assert_ne!(first[0], second[0]);
    assert!(!model.contains_scope(first[0]));
    assert!(model.contains_scope(second[0]));
    assert!(model.contains_scope(root));
}

#[test]
fn counter_end_to_end() {
    let mut model = create_app_model();
    model.render(&App, create_element(id_of(COUNTER), Props::new(COUNTER, vec![])));
    let root = model.root_scope().unwrap();
    let children = model.children_of(root).unwrap();
    assert_eq!(children.len(), 2);
    let button = children[0];
    let text = children[1];
    assert_eq!(model.element_of(text).unwrap().props().values, vec![Value::Int(0)]);

    // The click handler of the button finds the counter state in the
    // button's parameters.
    let params = model.element_of(button).unwrap().props().values.clone();
    let handle = match (params[0], params[1]) {
        (Value::Handle(scope), Value::Int(slot)) => State { scope, slot: slot as usize },
        _ => panic!("unexpected button parameters"),
    };
    handle.update(&mut model, &App, |v| match v {
        Value::Int(n) => Value::Int(n + 1),
        other => other,
    });

    let children = model.children_of(root).unwrap();
    assert_eq!(children, vec![button, text]);
    assert_eq!(model.element_of(text).unwrap().props().values, vec![Value::Int(1)]);
    assert_eq!(handle.get(&model), Some(Value::Int(1)));
    // One deferred callback per render of the counter.
    assert_eq!(
        model.take_actions(),
        vec![Action::PostUpdate(Callback { id: 77 }), Action::PostUpdate(Callback { id: 77 })]
    );
}

#[test]
fn context_reaches_children_created_after_it_was_provided() {
    let mut model = create_app_model();
    model.render(
        &App,
        create_element(id_of(PROVIDER), Props::new(PROVIDER, vec![Value::Int(5)])),
    );
    let root = model.root_scope().unwrap();
    let reader = model.children_of(root).unwrap()[0];
    assert_eq!(first_slot(&model, reader), Slot::Plain(Value::Int(5)));
}

#[test]
fn context_is_a_snapshot_taken_at_creation() {
    let mut model = create_app_model();
    model.render(
        &App,
        create_element(id_of(PROVIDER), Props::new(PROVIDER, vec![Value::Int(5)])),
    );
    let root = model.root_scope().unwrap();
    let reader = model.children_of(root).unwrap()[0];
    // The provider now provides 6, but the reader exists already and its
    // element did not change: it is neither re-created nor re-rendered.
    model.render(
        &App,
        create_element(id_of(PROVIDER), Props::new(PROVIDER, vec![Value::Int(6)])),
    );
    assert_eq!(model.children_of(root).unwrap(), vec![reader]);
    assert_eq!(first_slot(&model, reader), Slot::Plain(Value::Int(5)));
}

#[test]
fn stale_queue_entry_is_skipped() {
    let mut model = create_app_model();
    model.set_update_mode(UpdateMode::Poll);
    model.render(&App, list(&[(1, 10)]));
    while model.perform_update(&App) {}
    let root = model.root_scope().unwrap();
    let child = model.children_of(root).unwrap()[0];
    let handle = State { scope: child, slot: 0 };
    handle.set(&mut model, &App, Value::Int(99));
    assert_eq!(model.pending_updates(), 1);
    // The parent drops the child before the child's update is processed.
    model.render(&App, list(&[]));
    assert_eq!(model.pending_updates(), 2);
    let _ = model.take_actions();
    assert!(model.perform_update(&App)); // the stale child entry
    assert!(model.take_actions().is_empty());
    assert!(model.perform_update(&App)); // the root
    assert!(!model.contains_scope(child));
    assert!(!model.perform_update(&App));
    // Writing through the handle of a destroyed scope does nothing.
    handle.set(&mut model, &App, Value::Int(100));
    assert_eq!(model.pending_updates(), 0);
    assert_eq!(handle.get(&model), None);
}

#[test]
fn destroying_a_subtree_cleans_up_children_in_order_then_the_parent() {
    let mut model = create_app_model();
    model.set_update_mode(UpdateMode::Poll);
    let context = std::collections::HashMap::new();
    let group = create_element(id_of(GROUP), Props::new(GROUP, vec![]));
    let groups = model.reconcile(&context, vec![], vec![group]);
    while model.perform_update(&App) {}
    let items = model.children_of(groups[0]).unwrap();
    assert_eq!(items.len(), 2);
    let _ = model.take_actions();
    model.destroy(&groups);
    assert_eq!(
        model.take_actions(),
        vec![
            Action::Cleanup(Callback { id: 2001 }),
            Action::Cleanup(Callback { id: 2002 }),
            Action::Cleanup(Callback { id: 3001 }),
            Action::Cleanup(Callback { id: 3002 }),
        ]
    );
    assert!(!model.contains_scope(groups[0]));
    assert!(!model.contains_scope(items[0]));
    assert!(!model.contains_scope(items[1]));
    // Nothing is owed twice.
    model.destroy(&groups);
    model.destroy(&items);
    assert_eq!(model.take_actions(), vec![]);
}

#[test]
fn a_scope_with_two_effects_runs_both_cleanups_once_when_unmatched() {
    let mut model = create_app_model();
    let group = create_element(id_of(GROUP), Props::new(GROUP, vec![])).with_key("g");
    let context = std::collections::HashMap::new();
    model.set_update_mode(UpdateMode::Poll);
    let first = model.reconcile(&context, vec![], vec![group]);
    while model.perform_update(&App) {}
    let _ = model.take_actions();
    // The next reconciliation declares nothing that continues the group.
    let second = model.reconcile(&context, first.clone(), vec![item(9, Some("g"))]);
    assert_eq!(second.len(), 1);
    assert!(!model.contains_scope(first[0]));
    let actions = model.take_actions();
    assert_eq!(
        actions.iter().filter(|a| **a == Action::Cleanup(Callback { id: 3001 })).count(),
        1
    );
    assert_eq!(
        actions.iter().filter(|a| **a == Action::Cleanup(Callback { id: 3002 })).count(),
        1
    );
    let third = model.reconcile(&context, second, vec![]);
    assert!(third.is_empty());
    assert!(model.take_actions().iter().all(|a| {
        *a != Action::Cleanup(Callback { id: 3001 }) && *a != Action::Cleanup(Callback { id: 3002 })
    }));
}
