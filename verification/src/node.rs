//! Node records of the arena: the node kinds, string references and the
//! fixed-size node record.
use vstd::prelude::*;

verus! {

/// All MDAST node kinds. Each kind has a one-byte code (`code`), which is
/// what the arena stores; the MDX kinds use the codes from 100 on.
#[derive(Debug, Clone, Copy, PartialEq, Eq, Structural)]
pub enum NodeType {
    Root,
    Paragraph,
    Heading,
    ThematicBreak,
    Blockquote,
    List,
    ListItem,
    Html,
    Code,
    Definition,
    Text,
    Emphasis,
    Strong,
    InlineCode,
    Break,
    Link,
    Image,
    LinkReference,
    ImageReference,
    FootnoteDefinition,
    FootnoteReference,
    Table,
    TableRow,
    TableCell,
    Delete,
    Yaml,
    Toml,
    Math,
    InlineMath,
    MdxJsxFlowElement,
    MdxJsxTextElement,
    MdxFlowExpression,
    MdxTextExpression,
    MdxjsEsm,
}

impl NodeType {
    /// The byte code of a node kind.
    pub open spec fn code(self) -> u8 {
        match self {
            NodeType::Root => 0,
            NodeType::Paragraph => 1,
            NodeType::Heading => 2,
            NodeType::ThematicBreak => 3,
            NodeType::Blockquote => 4,
            NodeType::List => 5,
            NodeType::ListItem => 6,
            NodeType::Html => 7,
            NodeType::Code => 8,
            NodeType::Definition => 9,
            NodeType::Text => 10,
            NodeType::Emphasis => 11,
            NodeType::Strong => 12,
            NodeType::InlineCode => 13,
            NodeType::Break => 14,
            NodeType::Link => 15,
            NodeType::Image => 16,
            NodeType::LinkReference => 17,
            NodeType::ImageReference => 18,
            NodeType::FootnoteDefinition => 19,
            NodeType::FootnoteReference => 20,
            NodeType::Table => 21,
            NodeType::TableRow => 22,
            NodeType::TableCell => 23,
            NodeType::Delete => 24,
            NodeType::Yaml => 25,
            NodeType::Toml => 26,
            NodeType::Math => 27,
            NodeType::InlineMath => 28,
            NodeType::MdxJsxFlowElement => 100,
            NodeType::MdxJsxTextElement => 101,
            NodeType::MdxFlowExpression => 102,
            NodeType::MdxTextExpression => 103,
            NodeType::MdxjsEsm => 104,
        }
    }

    /// A byte is a known code when it is 0..=28 or 100..=104.
    pub open spec fn is_known_code(v: u8) -> bool {
        v <= 28 || (100 <= v && v <= 104)
    }

    /// The node kind whose code is `v`, if any.
    pub open spec fn spec_from_u8(v: u8) -> Option<NodeType> {
        if exists|t: NodeType| #[trigger] t.code() == v {
            Some(choose|t: NodeType| #[trigger] t.code() == v)
        } else {
            None
        }
    }

    /// The byte code of this node kind.
    pub fn as_u8(self) -> (r: u8)
        ensures
            r == self.code(),
    {
        match self {
            NodeType::Root => 0,
            NodeType::Paragraph => 1,
            NodeType::Heading => 2,
            NodeType::ThematicBreak => 3,
            NodeType::Blockquote => 4,
            NodeType::List => 5,
            NodeType::ListItem => 6,
            NodeType::Html => 7,
            NodeType::Code => 8,
            NodeType::Definition => 9,
            NodeType::Text => 10,
            NodeType::Emphasis => 11,
            NodeType::Strong => 12,
            NodeType::InlineCode => 13,
            NodeType::Break => 14,
            NodeType::Link => 15,
            NodeType::Image => 16,
            NodeType::LinkReference => 17,
            NodeType::ImageReference => 18,
            NodeType::FootnoteDefinition => 19,
            NodeType::FootnoteReference => 20,
            NodeType::Table => 21,
            NodeType::TableRow => 22,
            NodeType::TableCell => 23,
            NodeType::Delete => 24,
            NodeType::Yaml => 25,
            NodeType::Toml => 26,
            NodeType::Math => 27,
            NodeType::InlineMath => 28,
            NodeType::MdxJsxFlowElement => 100,
            NodeType::MdxJsxTextElement => 101,
            NodeType::MdxFlowExpression => 102,
            NodeType::MdxTextExpression => 103,
            NodeType::MdxjsEsm => 104,
        }
    }

    /// Convert a byte to a node kind, returning `None` for unknown values.
    pub fn from_u8(v: u8) -> (r: Option<Self>)
        ensures
            r is Some <==> NodeType::is_known_code(v),
            r matches Some(t) ==> t.code() == v,
            r == NodeType::spec_from_u8(v),
    {
        let r = match v {
            0 => Some(NodeType::Root),
            1 => Some(NodeType::Paragraph),
            2 => Some(NodeType::Heading),
            3 => Some(NodeType::ThematicBreak),
            4 => Some(NodeType::Blockquote),
            5 => Some(NodeType::List),
            6 => Some(NodeType::ListItem),
            7 => Some(NodeType::Html),
            8 => Some(NodeType::Code),
            9 => Some(NodeType::Definition),
            10 => Some(NodeType::Text),
            11 => Some(NodeType::Emphasis),
            12 => Some(NodeType::Strong),
            13 => Some(NodeType::InlineCode),
            14 => Some(NodeType::Break),
            15 => Some(NodeType::Link),
            16 => Some(NodeType::Image),
            17 => Some(NodeType::LinkReference),
            18 => Some(NodeType::ImageReference),
            19 => Some(NodeType::FootnoteDefinition),
            20 => Some(NodeType::FootnoteReference),
            21 => Some(NodeType::Table),
            22 => Some(NodeType::TableRow),
            23 => Some(NodeType::TableCell),
            24 => Some(NodeType::Delete),
            25 => Some(NodeType::Yaml),
            26 => Some(NodeType::Toml),
            27 => Some(NodeType::Math),
            28 => Some(NodeType::InlineMath),
            100 => Some(NodeType::MdxJsxFlowElement),
            101 => Some(NodeType::MdxJsxTextElement),
            102 => Some(NodeType::MdxFlowExpression),
            103 => Some(NodeType::MdxTextExpression),
            104 => Some(NodeType::MdxjsEsm),
            _ => None,
        };
        proof {
            NodeType::lemma_code_injective();
            match r {
                Some(t) => {
                    assert(t.code() == v);
                }
                None => {
                    assert forall|t: NodeType| #[trigger] t.code() != v by {}
                }
            }
        }
        r
    }

    /// Distinct node kinds have distinct codes, and every code is known.
    pub proof fn lemma_code_injective()
        ensures
            forall|a: NodeType, b: NodeType| a.code() == b.code() ==> a == b,
            forall|a: NodeType| NodeType::is_known_code(#[trigger] a.code()),
    {
    }

    /// Reading back the code of a node kind gives that node kind.
    pub proof fn lemma_from_code(t: NodeType)
        ensures
            NodeType::spec_from_u8(t.code()) == Some(t),
    {
        NodeType::lemma_code_injective();
    }
}

/// A reference into the source string: a byte offset and a byte length.
#[derive(Debug, Clone, Copy, PartialEq, Eq, Structural, Default)]
pub struct StringRef {
    pub offset: u32,
    pub len: u32,
}

impl StringRef {
    pub fn new(offset: u32, len: u32) -> (r: Self)
        ensures
            r.offset == offset,
            r.len == len,
    {
        StringRef { offset, len }
    }

    /// A StringRef representing an absent/empty string (len == 0).
    pub fn empty() -> (r: Self)
        ensures
            r.offset == 0,
            r.len == 0,
    {
        StringRef { offset: 0, len: 0 }
    }

    pub fn is_empty(self) -> (r: bool)
        ensures
            r == (self.len == 0),
    {
        self.len == 0
    }
}

/// The node that the parent field holds when a node has no parent.
pub const NO_PARENT: u32 = 0xffff_ffffu32;

/// A node in the arena.
///
/// All positions use byte offsets and 1-based line/column numbers from the
/// source text.
#[derive(Debug, Clone, Copy)]
pub struct ArenaNode {
    pub id: u32,
    pub node_type: u8,
    pub _pad: [u8; 3],
    pub parent: u32,
    pub start_offset: u32,
    pub end_offset: u32,
    pub start_line: u32,
    pub start_column: u32,
    pub end_line: u32,
    pub end_column: u32,
    /// Index into the arena's flat children array where this node's children start.
    pub children_start: u32,
    pub children_count: u32,
    /// Byte offset into the arena's type data for this node's extra data.
    pub data_offset: u32,
    pub data_len: u32,
}

/// Byte size of the wire form of one `ArenaNode`.
pub const NODE_STRUCT_SIZE: usize = 52;

impl ArenaNode {
    /// The record a freshly allocated node has: the given id and code, no
    /// parent, and every other field zero.
    pub open spec fn fresh(id: u32, code: u8) -> ArenaNode {
        ArenaNode {
            id,
            node_type: code,
            _pad: [0u8, 0u8, 0u8],
            parent: NO_PARENT,
            start_offset: 0,
            end_offset: 0,
            start_line: 0,
            start_column: 0,
            end_line: 0,
            end_column: 0,
            children_start: 0,
            children_count: 0,
            data_offset: 0,
            data_len: 0,
        }
    }

    pub fn new(id: u32, node_type: NodeType) -> (r: Self)
        ensures
            r == ArenaNode::fresh(id, node_type.code()),
    {
        ArenaNode {
            id,
            node_type: node_type.as_u8(),
            _pad: [0u8, 0u8, 0u8],
            parent: NO_PARENT,
            start_offset: 0,
            end_offset: 0,
            start_line: 0,
            start_column: 0,
            end_line: 0,
            end_column: 0,
            children_start: 0,
            children_count: 0,
            data_offset: 0,
            data_len: 0,
        }
    }

    pub fn node_type(&self) -> (r: Option<NodeType>)
        ensures
            r == NodeType::spec_from_u8(self.node_type),
    {
        NodeType::from_u8(self.node_type)
    }
}

} // verus!
