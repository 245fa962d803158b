pub mod attr;
pub mod document;
pub mod laws;
pub mod lookup_laws;
pub mod model;
mod model_lemmas;
pub mod namespace;
pub mod node;
pub mod node_type;

pub use document::{Document, DocumentRef};
pub use model::{AttrModel, DocModel, NodeModel, NsModel};
pub use node_type::NodeType;
pub use attr::{Attr, AttrRef};
pub use namespace::NamespaceRef;
pub use node::{Node, NodeRef};
