//! Type-erased component parameters.

use vstd::prelude::*;
use crate::value::Value;

verus! {

/// The mathematical content of a parameter payload.
pub ghost struct PropsView {
    pub type_id: u64,
    pub values: Seq<Value>,
}

/// The parameters of one component invocation: the number of the parameter
/// type and the field values in declaration order. The engine never looks
/// inside; it only asks whether two payloads differ.
#[derive(Debug)]
pub struct Props {
    pub type_id: u64,
    pub values: Vec<Value>,
}

impl View for Props {
    type V = PropsView;

    open spec fn view(&self) -> PropsView {
        PropsView { type_id: self.type_id, values: self.values@ }
    }
}

impl Clone for Props {
    fn clone(&self) -> (r: Self)
        ensures
            r@ == self@,
    {
        let values = self.values.clone();
        assert(values@ =~= self.values@);
        Props { type_id: self.type_id, values }
    }
}

impl Props {
    /// A payload of parameter type `type_id` holding `values`.
    pub fn new(type_id: u64, values: Vec<Value>) -> (r: Props)
        ensures
            r@ == (PropsView { type_id, values: values@ }),
    {
        Props { type_id, values }
    }

    /// Whether this payload differs from `prev`: another parameter type,
    /// another number of fields, or a field with another value.
    pub fn has_changed(&self, prev: &Props) -> (r: bool)
        ensures
            r == (self@ != prev@),
    {
        if self.type_id != prev.type_id || self.values.len() != prev.values.len() {
            return true;
        }
        let n = self.values.len();
        let mut i: usize = 0;
        while i < n
            invariant
                i <= n,
                n == self.values.len(),
                n == prev.values.len(),
                forall|j: int| 0 <= j < i ==> self.values@[j] == prev.values@[j],
            decreases n - i,
        {
            if self.values[i] != prev.values[i] {
                return true;
            }
            i += 1;
        }
        assert(self.values@ =~= prev.values@);
        false
    }

    /// The field values, provided the payload is of parameter type
    /// `type_id`.
    pub fn downcast_ref(&self, type_id: u64) -> (r: Option<&Vec<Value>>)
        ensures
            r is Some <==> self.type_id == type_id,
            r is Some ==> r->0@ == self@.values,
    {
        if self.type_id == type_id {
            Some(&self.values)
        } else {
            None
        }
    }

    /// The field values for writing, provided the payload is of parameter
    /// type `type_id`.
    pub fn downcast_mut(&mut self, type_id: u64) -> (r: Option<&mut Vec<Value>>)
        ensures
            r is Some <==> old(self).type_id == type_id,
            final(self).type_id == old(self).type_id,
            match r {
                Some(v) => *v == old(self).values && final(self).values == *final(v),
                None => final(self).values == old(self).values,
            },
    {
        if self.type_id == type_id {
            Some(&mut self.values)
        } else {
            None
        }
    }
}

} // verus!
