use vstd::prelude::*;

use crate::macros::XmlObj;

verus! {

/// A list of handles that the library hands out, such as the namespaces in
/// scope on a node.
pub struct XmlList<T: XmlObj> {
    items: Vec<T>,
}

impl<T: XmlObj> View for XmlList<T> {
    type V = Seq<T>;

    closed spec fn view(&self) -> Seq<T> {
        self.items@
    }
}

impl<T: XmlObj> XmlList<T> {
    pub(crate) fn from_vec(items: Vec<T>) -> (r: XmlList<T>)
        ensures
            r@ == items@,
    {
        XmlList { items }
    }

    /// The items of the list, in order.
    pub fn as_slice(&self) -> (r: &[T])
        ensures
            r@ == self@,
    {
        self.items.as_slice()
    }

    /// The number of items.
    pub fn len(&self) -> (r: usize)
        ensures
            r == self@.len(),
    {
        self.items.len()
    }

    /// The item at place `i`.
    pub fn get(&self, i: usize) -> (r: &T)
        requires
            i < self@.len(),
        ensures
            *r == self@[i as int],
    {
        &self.items[i]
    }
}

} // verus!
