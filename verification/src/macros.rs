use vstd::prelude::*;

use crate::tree::attr::AttrRef;
use crate::tree::namespace::NamespaceRef;
use crate::tree::node::NodeRef;

verus! {

/// Kept for the types of this crate only.
pub trait Sealed {

}

/// A handle on an object of a document tree; `Inner` is what names the
/// object in its document.
pub trait XmlObj: Sealed {
    type Inner;
}

impl<'a> Sealed for NodeRef<'a> {

}

impl<'a> XmlObj for NodeRef<'a> {
    type Inner = usize;
}

impl<'a> Sealed for AttrRef<'a> {

}

impl<'a> XmlObj for AttrRef<'a> {
    type Inner = usize;
}

impl<'a> Sealed for NamespaceRef<'a> {

}

impl<'a> XmlObj for NamespaceRef<'a> {
    type Inner = usize;
}

} // verus!
