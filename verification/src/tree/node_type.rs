use vstd::prelude::*;

verus! {

/// The kinds of node in a libxml2 tree, numbered as libxml2's `xmlElementType`.
#[derive(Clone, Copy, Debug, PartialEq, Eq, Structural)]
pub enum NodeType {
    ElementNode,
    AttributeNode,
    TextNode,
    CDataSectionNode,
    EntityRefNode,
    EntityNode,
    PiNode,
    CommentNode,
    DocumentNode,
    DocumentTypeNode,
    DocumentFragNode,
    NotationNode,
    HtmlDocumentNode,
    DTDNode,
    ElementDecl,
    AttributeDecl,
    EntityDecl,
    NamespaceDecl,
    XIncludeStart,
    XIncludeEnd,
    DOCBDocumentNode,
}

/// The number libxml2 gives to each node type.
pub open spec fn spec_node_type_code(t: NodeType) -> u32 {
    match t {
        NodeType::ElementNode => 1,
        NodeType::AttributeNode => 2,
        NodeType::TextNode => 3,
        NodeType::CDataSectionNode => 4,
        NodeType::EntityRefNode => 5,
        NodeType::EntityNode => 6,
        NodeType::PiNode => 7,
        NodeType::CommentNode => 8,
        NodeType::DocumentNode => 9,
        NodeType::DocumentTypeNode => 10,
        NodeType::DocumentFragNode => 11,
        NodeType::NotationNode => 12,
        NodeType::HtmlDocumentNode => 13,
        NodeType::DTDNode => 14,
        NodeType::ElementDecl => 15,
        NodeType::AttributeDecl => 16,
        NodeType::EntityDecl => 17,
        NodeType::NamespaceDecl => 18,
        NodeType::XIncludeStart => 19,
        NodeType::XIncludeEnd => 20,
        NodeType::DOCBDocumentNode => 21,
    }
}

/// The node type with number `i`, if there is one.
pub open spec fn spec_node_type_from_code(i: u32) -> Option<NodeType> {
    match i {
        1 => Some(NodeType::ElementNode),
        2 => Some(NodeType::AttributeNode),
        3 => Some(NodeType::TextNode),
        4 => Some(NodeType::CDataSectionNode),
        5 => Some(NodeType::EntityRefNode),
        6 => Some(NodeType::EntityNode),
        7 => Some(NodeType::PiNode),
        8 => Some(NodeType::CommentNode),
        9 => Some(NodeType::DocumentNode),
        10 => Some(NodeType::DocumentTypeNode),
        11 => Some(NodeType::DocumentFragNode),
        12 => Some(NodeType::NotationNode),
        13 => Some(NodeType::HtmlDocumentNode),
        14 => Some(NodeType::DTDNode),
        15 => Some(NodeType::ElementDecl),
        16 => Some(NodeType::AttributeDecl),
        17 => Some(NodeType::EntityDecl),
        18 => Some(NodeType::NamespaceDecl),
        19 => Some(NodeType::XIncludeStart),
        20 => Some(NodeType::XIncludeEnd),
        21 => Some(NodeType::DOCBDocumentNode),
        _ => None,
    }
}

impl NodeType {
    /// Returns the node type with the given libxml2 number, or `None` when
    /// the number names no node type.
    pub fn from_int(i: u32) -> (r: Option<NodeType>)
        ensures
            r == spec_node_type_from_code(i),
            r matches Some(t) ==> spec_node_type_code(t) == i,
            r is None <==> !(1 <= i <= 21),
    {
        let r = match i {
            1 => Some(NodeType::ElementNode),
            2 => Some(NodeType::AttributeNode),
            3 => Some(NodeType::TextNode),
            4 => Some(NodeType::CDataSectionNode),
            5 => Some(NodeType::EntityRefNode),
            6 => Some(NodeType::EntityNode),
            7 => Some(NodeType::PiNode),
            8 => Some(NodeType::CommentNode),
            9 => Some(NodeType::DocumentNode),
            10 => Some(NodeType::DocumentTypeNode),
            11 => Some(NodeType::DocumentFragNode),
            12 => Some(NodeType::NotationNode),
            13 => Some(NodeType::HtmlDocumentNode),
            14 => Some(NodeType::DTDNode),
            15 => Some(NodeType::ElementDecl),
            16 => Some(NodeType::AttributeDecl),
            17 => Some(NodeType::EntityDecl),
            18 => Some(NodeType::NamespaceDecl),
            19 => Some(NodeType::XIncludeStart),
            20 => Some(NodeType::XIncludeEnd),
            21 => Some(NodeType::DOCBDocumentNode),
            _ => None,
        };
        r
    }

    /// Returns the libxml2 number of this node type.
    pub fn to_int(self) -> (r: u32)
        ensures
            r == spec_node_type_code(self),
    {
        match self {
            NodeType::ElementNode => 1,
            NodeType::AttributeNode => 2,
            NodeType::TextNode => 3,
            NodeType::CDataSectionNode => 4,
            NodeType::EntityRefNode => 5,
            NodeType::EntityNode => 6,
            NodeType::PiNode => 7,
            NodeType::CommentNode => 8,
            NodeType::DocumentNode => 9,
            NodeType::DocumentTypeNode => 10,
            NodeType::DocumentFragNode => 11,
            NodeType::NotationNode => 12,
            NodeType::HtmlDocumentNode => 13,
            NodeType::DTDNode => 14,
            NodeType::ElementDecl => 15,
            NodeType::AttributeDecl => 16,
            NodeType::EntityDecl => 17,
            NodeType::NamespaceDecl => 18,
            NodeType::XIncludeStart => 19,
            NodeType::XIncludeEnd => 20,
            NodeType::DOCBDocumentNode => 21,
        }
    }
}

/// Distinct node types have distinct numbers, all between 1 and 21.
pub proof fn lemma_node_type_code_injective(t: NodeType)
    ensures
        1 <= spec_node_type_code(t) <= 21,
        forall|u: NodeType| spec_node_type_code(u) == spec_node_type_code(t) ==> u == t,
        spec_node_type_from_code(spec_node_type_code(t)) == Some(t),
{
}

} // verus!
