//! A document-tree library modelled on libxml2's tree: documents, element and
//! text nodes, attributes and namespace declarations, with navigation and
//! lookup functions whose results are specified over a mathematical model of
//! the tree.
pub mod error;
pub mod list;
pub mod macros;
pub mod parser;
pub mod string;
pub mod tree;
pub mod xpath;
