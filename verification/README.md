# libxml_core

A document-tree library in the style of libxml2's tree API: documents made
of element, text and other nodes, attributes and namespace declarations,
with navigation, attribute and namespace lookup, text content, and node-set
results. Every function of `src/` is verified with Verus against a
mathematical model of the tree (`tree::model::DocModel`).

- `src/tree/model.rs`: the model of a document and the specification
  functions that the contracts speak of.
- `src/tree/document.rs`: documents, building and changing the tree.
- `src/tree/node.rs`, `attr.rs`, `namespace.rs`: borrowed handles on
  nodes, attributes and namespace declarations, and their lookups.
- `src/tree/laws.rs`: properties of the library as a whole, proved.
- `src/xpath/`: node sets and the results that hold them.
- `app/lib.rs`: the error type with `std::error::Error` and `Display`.
