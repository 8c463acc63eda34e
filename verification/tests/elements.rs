use nestix::app_model::create_app_model;
use nestix::components::{component_id, component_named, ComponentID};
use nestix::element::{create_element, Receiver, ValueReceiver};
use nestix::output::ComponentOutput;
use nestix::props::Props;
use nestix::scope::Scope;
use nestix::value::{Callback, Slot, Value};

fn props(type_id: u64, values: &[i64]) -> Props {
    Props::new(type_id, values.iter().map(|v| Value::Int(*v)).collect())
}

#[test]
fn component_ids_compare_by_number() {
    assert_eq!(component_id(3), ComponentID { id: 3, name: "" });
    assert_eq!(component_id(3), component_id(3));
    assert_ne!(component_id(3), component_id(4));
    assert_eq!(component_id(3).name, "");
}

#[test]
fn component_names_do_not_take_part_in_identity() {
    let button = component_named(4, "Button");
    assert_eq!(button.id, 4);
    assert_eq!(button.name, "Button");
    assert_eq!(button, component_id(4));
    assert_eq!(button, component_named(4, "PushButton"));
    assert_ne!(button, component_named(5, "Button"));
    let a = create_element(button, props(1, &[]));
    let b = create_element(component_named(4, "PushButton"), props(1, &[]));
    assert!(a == b);
    assert!(a.same_child_key(&b));
    assert_eq!(a.component_id().name, "Button");
}

#[test]
fn props_change_with_type_length_or_value() {
    let a = props(1, &[1, 2]);
    assert!(!a.has_changed(&props(1, &[1, 2])));
    assert!(a.has_changed(&props(2, &[1, 2])));
    assert!(a.has_changed(&props(1, &[1])));
    assert!(a.has_changed(&props(1, &[1, 2, 3])));
    assert!(a.has_changed(&props(1, &[1, 3])));
    assert!(a.has_changed(&Props::new(1, vec![Value::Int(1), Value::Handle(2)])));
    assert!(!props(1, &[]).has_changed(&props(1, &[])));
    assert!(!a.has_changed(&a.clone()));
}

#[test]
fn props_downcast_checks_the_type() {
    let mut a = props(7, &[1, 2]);
    assert_eq!(a.downcast_ref(7), Some(&vec![Value::Int(1), Value::Int(2)]));
    assert_eq!(a.downcast_ref(8), None);
    assert!(a.downcast_mut(8).is_none());
    a.downcast_mut(7).unwrap().push(Value::Bool(true));
    assert_eq!(a.values, vec![Value::Int(1), Value::Int(2), Value::Bool(true)]);
    assert_eq!(a.type_id, 7);
}

#[test]
fn created_element_has_no_key_and_no_receiver() {
    let e = create_element(component_id(1), props(1, &[5]));
    assert_eq!(e.component_id(), component_id(1));
    assert_eq!(e.props().values, vec![Value::Int(5)]);
    assert_eq!(e.key(), None);
    assert_eq!(e.receiver(0), None);
    assert_eq!(e.receiver(7), None);
}

#[test]
fn key_and_receiver_are_attached_by_builders() {
    let r = Receiver::Value(ValueReceiver { scope: 1, slot: 2 });
    let e = create_element(component_id(1), props(1, &[5])).with_key("a").with_receiver(7, r);
    assert_eq!(e.key(), Some("a"));
    assert_eq!(e.receiver(7), Some(r));
    let e = e.with_maybe_key(None).with_maybe_receiver(8, None);
    assert_eq!(e.key(), Some("a"));
    assert_eq!(e.receiver(7), Some(r));
    let c = Receiver::Callback(Callback { id: 9 });
    let e = e.with_maybe_key(Some("b")).with_maybe_receiver(8, Some(c));
    assert_eq!(e.key(), Some("b"));
    assert_eq!(e.receiver(8), Some(c));
    let copy = e.clone();
    assert_eq!(copy.key(), Some("b"));
    assert_eq!(copy.receiver(8), Some(c));
    assert_eq!(copy.props().values, vec![Value::Int(5)]);
}

#[test]
fn receiver_is_checked_against_the_handle_type() {
    let r = Receiver::Value(ValueReceiver { scope: 1, slot: 2 });
    let e = create_element(component_id(1), props(1, &[])).with_receiver(7, r);
    assert_eq!(e.receiver(7), Some(r));
    assert_eq!(e.receiver(8), None);
    assert_eq!(e.receiver(0), None);
    let bare = create_element(component_id(1), props(1, &[]));
    assert_eq!(bare.receiver(7), None);
    // A later receiver replaces the earlier one, type and all.
    let c = Receiver::Callback(Callback { id: 3 });
    let e = e.with_receiver(8, c);
    assert_eq!(e.receiver(7), None);
    assert_eq!(e.receiver(8), Some(c));
}

#[test]
fn element_equality_is_component_and_parameters() {
    let e = create_element(component_id(1), props(1, &[5]));
    let keyed = create_element(component_id(1), props(1, &[5]))
        .with_key("k")
        .with_receiver(1, Receiver::Callback(Callback { id: 1 }));
    assert!(e == keyed);
    assert!(e.same_as(&keyed));
    assert!(!e.same_child_key(&keyed));
    let other_props = create_element(component_id(1), props(1, &[6]));
    assert!(e != other_props);
    assert!(e.same_child_key(&other_props));
    let other_component = create_element(component_id(2), props(1, &[5]));
    assert!(e != other_component);
    assert!(!e.same_child_key(&other_component));
}

#[test]
fn child_keys_compare_by_text() {
    let a = create_element(component_id(1), props(1, &[])).with_key("x");
    let b = create_element(component_id(1), props(1, &[1])).with_key("x");
    let c = create_element(component_id(1), props(1, &[])).with_key("y");
    let d = create_element(component_id(1), props(1, &[])).with_key("");
    let e = create_element(component_id(1), props(1, &[]));
    assert!(a.same_child_key(&b));
    assert!(!a.same_child_key(&c));
    assert!(!d.same_child_key(&e));
    assert!(!e.same_child_key(&d));
    assert!(e.same_child_key(&e.clone()));
}

#[test]
fn component_output_declares_what_it_holds() {
    let mut model = create_app_model();
    let root = model.set_root(create_element(component_id(1), props(1, &[])));
    model.set_update_mode(nestix::model::UpdateMode::Poll);
    model.begin_update(root);
    ().push_child(&mut model);
    None::<nestix::element::Element>.push_child(&mut model);
    Some(create_element(component_id(2), props(2, &[1]))).push_child(&mut model);
    create_element(component_id(3), props(3, &[2])).push_child(&mut model);
    model.finish_update();
    let children = model.children_of(root).unwrap();
    assert_eq!(children.len(), 2);
    assert_eq!(model.element_of(children[0]).unwrap().component_id(), component_id(2));
    assert_eq!(model.element_of(children[1]).unwrap().component_id(), component_id(3));
    assert_eq!(model.next_scope_id(), 3);
}

#[test]
fn scope_slots_are_read_and_written_under_the_cursor() {
    let mut scope = Scope::new(create_element(component_id(1), props(1, &[])));
    assert_eq!(scope.value_cursor, 0);
    assert!(scope.children.is_empty());
    assert!(scope.values.is_empty());
    assert!(scope.context_map.is_empty());
    assert_eq!(scope.get_value(), None);
    assert_eq!(scope.value_cursor, 0);
    scope.set_value(Slot::Plain(Value::Int(1)));
    scope.set_value(Slot::Cell(None));
    assert_eq!(scope.value_cursor, 2);
    scope.backward_value();
    scope.backward_value();
    assert_eq!(scope.get_value(), Some(Slot::Plain(Value::Int(1))));
    scope.set_value(Slot::Cell(Some(Value::Unit)));
    assert_eq!(scope.values, vec![Slot::Plain(Value::Int(1)), Slot::Cell(Some(Value::Unit))]);
    assert_eq!(scope.value_cursor, 2);
}
