//! Blocks of a SystemVerilog module: module ports, `always` constructs and
//! continuous assignments, with the signals they read and drive.
use vstd::prelude::*;

use crate::text::{spec_trim, str_eq, string_of, trim_str};

verus! {

/// Time of a signal in the waveform (a clock-cycle count).
pub type TimeAnnotation = i64;

/// Whether an `always` construct is clocked (`SEQ`) or combinational (`COMB`).
#[derive(Clone, Copy, Debug, PartialEq, Eq, Structural)]
pub enum CircuitType {
    SEQ,
    COMB,
}

/// The kind of a block.
#[derive(Clone, Copy, Debug, PartialEq, Eq, Structural)]
pub enum BlockType {
    ModuleInput,
    ModuleOutput,
    Always(CircuitType),
    Assign,
}

/// Whether a block was reached in simulation.
#[derive(Clone, Copy, Debug, PartialEq, Eq, Structural)]
pub enum CoverState {
    Covered,
    Uncovered,
}

/// The keyword that opens an `always` construct.
#[derive(Clone, Copy, Debug, PartialEq, Eq, Structural)]
pub enum AlwaysKeyword {
    Always,
    AlwaysComb,
    AlwaysFf,
    AlwaysLatch,
}

impl CircuitType {
    /// The circuit kind of an `always` construct: `always_comb` is combinational,
    /// every other form (`always_ff`, `always_latch`, plain `always`) is clocked.
    pub fn from_keyword(k: AlwaysKeyword) -> (r: CircuitType)
        ensures
            r == (if k == AlwaysKeyword::AlwaysComb {
                CircuitType::COMB
            } else {
                CircuitType::SEQ
            }),
    {
        match k {
            AlwaysKeyword::AlwaysComb => CircuitType::COMB,
            _ => CircuitType::SEQ,
        }
    }
}

/// The name a block type is displayed with.
pub open spec fn block_type_name(t: BlockType) -> Seq<char> {
    match t {
        BlockType::ModuleInput => "ModuleInput"@,
        BlockType::ModuleOutput => "ModuleOutput"@,
        BlockType::Always(CircuitType::COMB) => "AlwaysComb"@,
        BlockType::Always(CircuitType::SEQ) => "AlwaysSeq"@,
        BlockType::Assign => "Assign"@,
    }
}

impl BlockType {
    /// Whether this is a clocked `always` block.
    pub fn is_seq(&self) -> (r: bool)
        ensures
            r == (*self == BlockType::Always(CircuitType::SEQ)),
    {
        match self {
            BlockType::Always(ctype) => matches!(ctype, CircuitType::SEQ),
            _ => false,
        }
    }

    /// The display name of the block type.
    pub fn to_string(&self) -> (r: String)
        ensures
            r@ == block_type_name(*self),
    {
        match self {
            BlockType::ModuleInput => string_of("ModuleInput"),
            BlockType::ModuleOutput => string_of("ModuleOutput"),
            BlockType::Always(CircuitType::COMB) => string_of("AlwaysComb"),
            BlockType::Always(CircuitType::SEQ) => string_of("AlwaysSeq"),
            BlockType::Assign => string_of("Assign"),
        }
    }
}

/// A byte range of the preprocessed source.
#[derive(Clone, Copy, Debug, PartialEq, Eq, Structural)]
pub struct AstRange {
    pub offset: usize,
    pub len: usize,
}

impl AstRange {
    pub fn new(offset: usize, len: usize) -> (r: AstRange)
        ensures
            r == (AstRange { offset, len }),
    {
        AstRange { offset, len }
    }

    /// Whether `other` lies inside this range.
    pub fn check_cover(&self, other: &AstRange) -> (r: bool)
        ensures
            r == (other.offset >= self.offset && other.offset + other.len <= self.offset
                + self.len),
    {
        let a: u128 = other.offset as u128 + other.len as u128;
        let b: u128 = self.offset as u128 + self.len as u128;
        other.offset >= self.offset && a <= b
    }
}

/// Where a signal occurrence stands: its position in the preprocessed source
/// (`offset`, `line`, `len`) and its line in the original file.
#[derive(Clone, Copy, Debug, Default, PartialEq, Eq, Hash, PartialOrd, Ord, Structural)]
pub struct NodeLocate {
    pub offset: usize,
    pub line: u32,
    pub original_line: u32,
    pub len: usize,
}

impl NodeLocate {
    pub fn new(offset: usize, line: u32, original_line: u32, len: usize) -> (r: NodeLocate)
        ensures
            r == (NodeLocate { offset, line, original_line, len }),
    {
        NodeLocate { offset, line, original_line, len }
    }
}

/// An occurrence of an identifier or of a literal in the source.
#[derive(Clone, Debug, PartialEq, Eq, Hash, PartialOrd, Ord)]
pub enum NodeID {
    Identifier(NodeLocate, String),
    Literal(NodeLocate, String),
}

/// The mathematical value of a node: its kind, its location and its text.
pub ghost struct NodeKey {
    pub ident: bool,
    pub locate: NodeLocate,
    pub text: Seq<char>,
}

impl View for NodeID {
    type V = NodeKey;

    open spec fn view(&self) -> NodeKey {
        match self {
            NodeID::Identifier(l, t) => NodeKey { ident: true, locate: *l, text: t@ },
            NodeID::Literal(l, t) => NodeKey { ident: false, locate: *l, text: t@ },
        }
    }
}

/// The text a node is compared by: its stored text without surrounding white space.
pub open spec fn node_text(k: NodeKey) -> Seq<char> {
    spec_trim(k.text)
}

/// The views of a sequence of nodes.
pub open spec fn node_keys(s: Seq<NodeID>) -> Seq<NodeKey> {
    s.map_values(|n: NodeID| n@)
}

/// The texts of a sequence of node views.
pub open spec fn key_texts(s: Seq<NodeKey>) -> Seq<Seq<char>> {
    s.map_values(|k: NodeKey| node_text(k))
}

impl NodeID {
    pub fn new_identifier(locate: NodeLocate, text: &str) -> (r: NodeID)
        ensures
            r@ == (NodeKey { ident: true, locate, text: text@ }),
    {
        NodeID::Identifier(locate, string_of(text))
    }

    pub fn new_literal(locate: NodeLocate, text: &str) -> (r: NodeID)
        ensures
            r@ == (NodeKey { ident: false, locate, text: text@ }),
    {
        NodeID::Literal(locate, string_of(text))
    }

    pub fn get_locate(&self) -> (r: &NodeLocate)
        ensures
            *r == self@.locate,
    {
        match self {
            NodeID::Identifier(locate, _) => locate,
            NodeID::Literal(locate, _) => locate,
        }
    }

    /// The node's text without surrounding white space.
    pub fn get_text(&self) -> (r: &str)
        ensures
            r@ == node_text(self@),
    {
        match self {
            NodeID::Identifier(_, text) => trim_str(text.as_str()),
            NodeID::Literal(_, text) => trim_str(text.as_str()),
        }
    }

    pub fn is_identifier(&self) -> (r: bool)
        ensures
            r == self@.ident,
    {
        matches!(self, NodeID::Identifier(_, _))
    }

    /// A copy of the node.
    pub fn duplicate(&self) -> (r: NodeID)
        ensures
            r@ == self@,
    {
        match self {
            NodeID::Identifier(l, t) => NodeID::Identifier(*l, t.clone()),
            NodeID::Literal(l, t) => NodeID::Literal(*l, t.clone()),
        }
    }

    /// Whether two nodes are the same occurrence (kind, location and text).
    pub fn same(&self, other: &NodeID) -> (r: bool)
        ensures
            r == (self@ == other@),
    {
        match (self, other) {
            (NodeID::Identifier(l1, t1), NodeID::Identifier(l2, t2)) => *l1 == *l2 && *t1 == *t2,
            (NodeID::Literal(l1, t1), NodeID::Literal(l2, t2)) => *l1 == *l2 && *t1 == *t2,
            _ => false,
        }
    }

    /// Whether two nodes carry the same text.
    pub fn same_text(&self, other: &NodeID) -> (r: bool)
        ensures
            r == (node_text(self@) == node_text(other@)),
    {
        str_eq(self.get_text(), other.get_text())
    }
}

/// Copies a vector of nodes.
pub fn copy_nodes(v: &Vec<NodeID>) -> (r: Vec<NodeID>)
    ensures
        node_keys(r@) == node_keys(v@),
{
    let mut r: Vec<NodeID> = Vec::new();
    let mut i: usize = 0;
    while i < v.len()
        invariant
            i <= v.len(),
            node_keys(r@) == node_keys(v@.take(i as int)),
        decreases v.len() - i,
    {
        let ghost old_r = r@;
        r.push(v[i].duplicate());
        assert(v@.take(i + 1) == v@.take(i as int).push(v@[i as int]));
        assert(node_keys(r@) =~= node_keys(old_r).push(v@[i as int]@));
        assert(node_keys(v@.take(i + 1)) =~= node_keys(v@.take(i as int)).push(v@[i as int]@));
        i = i + 1;
    }
    assert(v@.take(v.len() as int) == v@);
    r
}

/// Whether a node with the same view is in `v`.
pub fn contains_node(v: &Vec<NodeID>, n: &NodeID) -> (r: bool)
    ensures
        r == node_keys(v@).contains(n@),
{
    let mut i: usize = 0;
    while i < v.len()
        invariant
            i <= v.len(),
            forall|k: int| 0 <= k < i ==> v@[k]@ != n@,
        decreases v.len() - i,
    {
        if v[i].same(n) {
            assert(node_keys(v@)[i as int] == n@);
            return true;
        }
        i = i + 1;
    }
    assert(!node_keys(v@).contains(n@)) by {
        if node_keys(v@).contains(n@) {
            let k = choose|k: int| 0 <= k < node_keys(v@).len() && node_keys(v@)[k] == n@;
            assert(v@[k]@ == n@);
        }
    };
    false
}

/// Whether a node with the text `text` is in `v`.
pub fn contains_text(v: &Vec<NodeID>, text: &str) -> (r: bool)
    ensures
        r == key_texts(node_keys(v@)).contains(text@),
{
    let mut i: usize = 0;
    while i < v.len()
        invariant
            i <= v.len(),
            forall|k: int| 0 <= k < i ==> node_text(v@[k]@) != text@,
        decreases v.len() - i,
    {
        if str_eq(v[i].get_text(), text) {
            assert(key_texts(node_keys(v@))[i as int] == text@);
            return true;
        }
        i = i + 1;
    }
    assert(!key_texts(node_keys(v@)).contains(text@)) by {
        if key_texts(node_keys(v@)).contains(text@) {
            let k = choose|k: int|
                0 <= k < key_texts(node_keys(v@)).len() && key_texts(node_keys(v@))[k] == text@;
            assert(node_text(v@[k]@) == text@);
        }
    };
    false
}

/// Adds `n` to the node set `v` unless a node with the same view is there.
pub fn insert_node(v: &mut Vec<NodeID>, n: NodeID)
    ensures
        node_keys(final(v)@) == (if node_keys(old(v)@).contains(n@) {
            node_keys(old(v)@)
        } else {
            node_keys(old(v)@).push(n@)
        }),
{
    if !contains_node(v, &n) {
        let ghost nv = n@;
        v.push(n);
        assert(node_keys(v@) =~= node_keys(old(v)@).push(nv));
    }
}

} // verus!
