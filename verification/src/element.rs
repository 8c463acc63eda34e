//! Elements: immutable descriptions of one component invocation.

use vstd::prelude::*;
use vstd::std_specs::cmp::PartialEqSpecImpl;
use crate::components::ComponentID;
use crate::props::{Props, PropsView};
use crate::value::Callback;

verus! {

/// A one-shot cell that a produced value can be written to and later read
/// from. The cell lives in a hook slot of the scope that created it.
#[derive(Clone, Copy, Debug, PartialEq, Eq, Structural)]
pub struct ValueReceiver {
    pub scope: u64,
    pub slot: usize,
}

/// Where an element's produced value goes.
#[derive(Clone, Copy, Debug, PartialEq, Eq, Structural)]
pub enum Receiver {
    /// Into a cell, which keeps the first value it is given.
    Value(ValueReceiver),
    /// To a host callback, which is notified of every value.
    Callback(Callback),
}

/// The mathematical content of an element.
pub ghost struct ElementView {
    pub component_id: ComponentID,
    pub props: PropsView,
    pub key: Option<Seq<char>>,
    /// The output channel, if there is one.
    pub receiver: Option<Receiver>,
    /// The number of the handle type that the output channel takes. It
    /// means nothing where there is no output channel.
    pub handle_type: u64,
}

impl ElementView {
    /// The output channel for handles of type `handle_type`: the one the
    /// element has, if it has one and it takes that type.
    pub open spec fn receiver_of(self, handle_type: u64) -> Option<Receiver> {
        if self.receiver is Some && self.handle_type == handle_type {
            self.receiver
        } else {
            None
        }
    }

    /// The pair by which siblings are matched across renders.
    pub open spec fn child_key(self) -> ChildKey {
        ChildKey { component: self.component_id.id, key: self.key }
    }

    /// The element equality rule: the same component and parameters that
    /// report no change. Key and receiver do not take part.
    pub open spec fn same_as(self, other: ElementView) -> bool {
        self.component_id.id == other.component_id.id && self.props == other.props
    }
}

/// Component identity and optional key: what decides whether a declared
/// element continues a previous child.
pub ghost struct ChildKey {
    /// The number of the component.
    pub component: u64,
    pub key: Option<Seq<char>>,
}

/// "Render this component with these parameters."
#[derive(Debug)]
pub struct Element {
    pub component_id: ComponentID,
    pub props: Props,
    pub key: Option<String>,
    pub receiver: Option<Receiver>,
    pub handle_type: u64,
}

impl View for Element {
    type V = ElementView;

    open spec fn view(&self) -> ElementView {
        ElementView {
            component_id: self.component_id,
            props: self.props@,
            key: match self.key {
                Some(k) => Some(k@),
                None => None,
            },
            receiver: self.receiver,
            handle_type: self.handle_type,
        }
    }
}

impl Clone for Element {
    fn clone(&self) -> (r: Self)
        ensures
            r@ == self@,
    {
        let key = match &self.key {
            Some(k) => Some(k.clone()),
            None => None,
        };
        Element {
            component_id: self.component_id,
            props: self.props.clone(),
            key,
            receiver: self.receiver,
            handle_type: self.handle_type,
        }
    }
}

impl PartialEq for Element {
    fn eq(&self, other: &Self) -> (r: bool) {
        self.component_id.id == other.component_id.id && !self.props.has_changed(&other.props)
    }
}

impl PartialEqSpecImpl for Element {
    open spec fn obeys_eq_spec() -> bool {
        true
    }

    open spec fn eq_spec(&self, other: &Self) -> bool {
        self@.same_as(other@)
    }
}

impl Element {
    /// The identity of the component to render.
    #[inline]
    pub fn component_id(&self) -> (r: ComponentID)
        ensures
            r == self@.component_id,
    {
        self.component_id
    }

    /// The parameters to render it with.
    #[inline]
    pub fn props(&self) -> (r: &Props)
        ensures
            r@ == self@.props,
    {
        &self.props
    }

    /// The key that tells this element from its siblings of the same
    /// component, if it has one.
    #[inline]
    pub fn key(&self) -> (r: Option<&str>)
        ensures
            r is Some <==> self@.key is Some,
            r is Some ==> r->0@ == self@.key->0,
    {
        match &self.key {
            Some(k) => Some(k.as_str()),
            None => None,
        }
    }

    /// The same element with `key` attached.
    #[inline]
    pub fn with_key(self, key: &str) -> (r: Element)
        ensures
            r@ == (ElementView { key: Some(key@), ..self@ }),
    {
        Element {
            component_id: self.component_id,
            props: self.props,
            key: Some(key.to_owned()),
            receiver: self.receiver,
            handle_type: self.handle_type,
        }
    }

    /// The same element with `key` attached if there is one, unchanged
    /// otherwise.
    #[inline]
    pub fn with_maybe_key(self, key: Option<&str>) -> (r: Element)
        ensures
            r@ == match key {
                Some(k) => ElementView { key: Some(k@), ..self@ },
                None => self@,
            },
    {
        match key {
            Some(k) => self.with_key(k),
            None => self,
        }
    }

    /// The output channel of this element for handles of type
    /// `handle_type`. Returns `None` when the element has no output channel
    /// and when the one it has takes another handle type.
    #[inline]
    pub fn receiver(&self, handle_type: u64) -> (r: Option<Receiver>)
        ensures
            r == self@.receiver_of(handle_type),
    {
        if self.handle_type == handle_type {
            self.receiver
        } else {
            None
        }
    }

    /// The same element with `receiver` as its output channel for handles
    /// of type `handle_type`.
    #[inline]
    pub fn with_receiver(self, handle_type: u64, receiver: Receiver) -> (r: Element)
        ensures
            r@ == (ElementView { receiver: Some(receiver), handle_type, ..self@ }),
    {
        Element {
            component_id: self.component_id,
            props: self.props,
            key: self.key,
            receiver: Some(receiver),
            handle_type,
        }
    }

    /// The same element with `receiver` as its output channel for handles
    /// of type `handle_type` if there is one, unchanged otherwise.
    #[inline]
    pub fn with_maybe_receiver(self, handle_type: u64, receiver: Option<Receiver>) -> (r: Element)
        ensures
            r@ == match receiver {
                Some(rc) => ElementView { receiver: Some(rc), handle_type, ..self@ },
                None => self@,
            },
    {
        match receiver {
            Some(rc) => self.with_receiver(handle_type, rc),
            None => self,
        }
    }

    /// Whether this element equals `other` by the element equality rule:
    /// the same component, and parameters that report no change.
    pub fn same_as(&self, other: &Element) -> (r: bool)
        ensures
            r == self@.same_as(other@),
    {
        self.component_id.id == other.component_id.id && !self.props.has_changed(&other.props)
    }

    /// Whether this element and `other` name the same component under the
    /// same key.
    pub fn same_child_key(&self, other: &Element) -> (r: bool)
        ensures
            r == (self@.child_key() == other@.child_key()),
    {
        if self.component_id.id != other.component_id.id {
            return false;
        }
        match &self.key {
            Some(a) => match &other.key {
                Some(b) => {
                    let same = a.eq(b);
                    same
                },
                None => false,
            },
            None => other.key.is_none(),
        }
    }
}

/// An element for `component_id` with `props`, without key or receiver.
pub fn create_element(component_id: ComponentID, props: Props) -> (r: Element)
    ensures
        r@ == (ElementView {
            component_id,
            props: props@,
            key: None,
            receiver: None,
            handle_type: 0,
        }),
{
    Element { component_id, props, key: None, receiver: None, handle_type: 0 }
}

} // verus!
