//! What a component body may hand back as its declared child.

use vstd::prelude::*;
use crate::app_model::AppModel;
use crate::element::{Element, ElementView};
use crate::model::ModelView;

verus! {

/// The result of a component body: nothing, perhaps an element, or an
/// element. Whatever element there is gets declared as a child.
pub trait ComponentOutput: Sized {
    /// The elements that this output declares.
    spec fn declared(self) -> Seq<ElementView>;

    /// Declares the output as children of the render in progress.
    fn push_child(self, app_model: &mut AppModel)
        ensures
            final(app_model)@ == (ModelView {
                children_buf: old(app_model)@.children_buf + self.declared(),
                ..old(app_model)@
            }),
    ;
}

impl ComponentOutput for () {
    open spec fn declared(self) -> Seq<ElementView> {
        Seq::empty()
    }

    #[inline]
    fn push_child(self, app_model: &mut AppModel) {
        assert(app_model@.children_buf + Seq::<ElementView>::empty() =~= app_model@.children_buf);
    }
}

impl ComponentOutput for Option<Element> {
    open spec fn declared(self) -> Seq<ElementView> {
        match self {
            Some(element) => seq![element@],
            None => Seq::empty(),
        }
    }

    #[inline]
    fn push_child(self, app_model: &mut AppModel) {
        match self {
            Some(element) => {
                assert(app_model@.children_buf + seq![element@] =~= app_model@.children_buf.push(
                    element@,
                ));
                app_model.push_child(element);
            },
            None => {
                assert(app_model@.children_buf + Seq::<ElementView>::empty()
                    =~= app_model@.children_buf);
            },
        }
    }
}

impl ComponentOutput for Element {
    open spec fn declared(self) -> Seq<ElementView> {
        seq![self@]
    }

    #[inline]
    fn push_child(self, app_model: &mut AppModel) {
        assert(app_model@.children_buf + seq![self@] =~= app_model@.children_buf.push(self@));
        app_model.push_child(self);
    }
}

} // verus!
