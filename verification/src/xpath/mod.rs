pub mod node_set;
pub mod object;

pub use node_set::NodeSetRef;
pub use object::XPathObjectRef;
