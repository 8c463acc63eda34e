//! Component identities.

use vstd::prelude::*;
use vstd::std_specs::cmp::PartialEqSpecImpl;
use crate::app_model::AppModel;
use crate::element::{Element, ElementView};
use crate::model::ModelView;

verus! {

/// The render logic of an application: given an element, read and write
/// hook slots and declare children through `model`.
///
/// An implementation tells the components apart by
/// `element.component_id()`. For a given scope it has to make the same hook
/// calls in the same order on every render.
///
/// What a render does is a function of the model it finds and the element
/// it is given: `rendered` names it, and the contracts of the functions
/// that run a render say what they make of that state. `rendered` is
/// specification only. An implementation written outside Verus still has
/// to give it a body, which nothing ever runs.
pub trait Component {
    /// The model that `render` leaves when it finds `before` and is given
    /// `element`.
    spec fn rendered(&self, before: ModelView, element: ElementView) -> ModelView;

    /// Renders `element` into the scope in progress of `model`.
    fn render(&self, model: &mut AppModel, element: &Element)
        requires
            old(model).wf(),
            old(model)@.is_rendering(),
        ensures
            final(model).wf(),
            final(model)@ == self.rendered(old(model)@, element@),
    ;
}

/// The identity of a component type: its number, and a name for people to
/// read. Two identities are the same component exactly when their numbers
/// agree; the name does not take part.
#[derive(Clone, Copy, Debug, Hash)]
pub struct ComponentID {
    pub id: u64,
    pub name: &'static str,
}

impl PartialEq for ComponentID {
    fn eq(&self, other: &Self) -> (r: bool) {
        self.id == other.id
    }
}

impl PartialEqSpecImpl for ComponentID {
    open spec fn obeys_eq_spec() -> bool {
        true
    }

    open spec fn eq_spec(&self, other: &Self) -> bool {
        self.id == other.id
    }
}

impl Eq for ComponentID {

}

/// The identity of the component numbered `id`, without a name.
pub fn component_id(id: u64) -> (r: ComponentID)
    ensures
        r.id == id,
        r.name@ == Seq::<char>::empty(),
{
    proof {
        reveal_strlit("");
    }
    ComponentID { id, name: "" }
}

/// The identity of the component numbered `id`, called `name`.
pub fn component_named(id: u64, name: &'static str) -> (r: ComponentID)
    ensures
        r.id == id,
        r.name == name,
{
    ComponentID { id, name }
}

} // verus!
