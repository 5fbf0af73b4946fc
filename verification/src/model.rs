use vstd::prelude::*;
use crate::tier::ImportanceTier;

verus! {

/// Identifier of a node in the knowledge graph; 0 is never given to a node.
pub type NodeId = u64;

/// Identifier of an edge in the knowledge graph.
pub type EdgeId = u64;

/// Where a piece of knowledge came from.
#[derive(Debug, Clone)]
pub enum Source {
    /// Told in a conversation.
    Conversation,
    /// Found by analysing the code of `file`.
    CodeAnalysis { file: String },
}

/// A passage that supports a fact.
#[derive(Debug, Clone)]
pub struct Evidence {
    pub document: String,
    pub page: Option<u32>,
    pub text_snippet: String,
    pub offset_start: usize,
    pub offset_end: usize,
}

/// An entity or fact of the knowledge graph.
#[derive(Debug, Clone)]
pub struct Node {
    pub id: NodeId,
    pub name: String,
    pub node_type: String,
    pub definition: String,
    /// Confidence in percent.
    pub confidence: u8,
    pub source: Source,
    pub tier: ImportanceTier,
    /// Unix time in seconds.
    pub created_at: u64,
    /// Unix time in seconds.
    pub last_referenced: u64,
    pub evidence: Vec<Evidence>,
    /// The node that replaced this one; `Some(0)` when that node is not known.
    pub superseded_by: Option<NodeId>,
}

/// A typed relation between two nodes.
#[derive(Debug, Clone)]
pub struct Edge {
    pub id: EdgeId,
    pub from: NodeId,
    pub to: NodeId,
    pub relation_type: String,
    /// Confidence in percent.
    pub confidence: u8,
    pub source: Source,
}

/// The file a piece of knowledge was found in by code analysis, if it was.
pub open spec fn source_file(s: Source) -> Option<Seq<char>> {
    match s {
        Source::CodeAnalysis { file } => Some(file@),
        Source::Conversation => None,
    }
}

/// What a piece of evidence says, as plain values.
pub struct EvidenceView {
    pub document: Seq<char>,
    pub page: Option<u32>,
    pub text_snippet: Seq<char>,
    pub offset_start: usize,
    pub offset_end: usize,
}

/// What a node says, as plain values; `source` is the analysed file, `None` for a conversation.
pub struct NodeView {
    pub id: NodeId,
    pub name: Seq<char>,
    pub node_type: Seq<char>,
    pub definition: Seq<char>,
    pub confidence: u8,
    pub source: Option<Seq<char>>,
    pub tier: ImportanceTier,
    pub created_at: u64,
    pub last_referenced: u64,
    pub evidence: Seq<EvidenceView>,
    pub superseded_by: Option<NodeId>,
}

/// What an edge says, as plain values; `source` is the analysed file, `None` for a conversation.
pub struct EdgeView {
    pub id: EdgeId,
    pub from: NodeId,
    pub to: NodeId,
    pub relation_type: Seq<char>,
    pub confidence: u8,
    pub source: Option<Seq<char>>,
}

impl View for Evidence {
    type V = EvidenceView;

    open spec fn view(&self) -> EvidenceView {
        EvidenceView {
            document: self.document@,
            page: self.page,
            text_snippet: self.text_snippet@,
            offset_start: self.offset_start,
            offset_end: self.offset_end,
        }
    }
}

impl View for Node {
    type V = NodeView;

    open spec fn view(&self) -> NodeView {
        NodeView {
            id: self.id,
            name: self.name@,
            node_type: self.node_type@,
            definition: self.definition@,
            confidence: self.confidence,
            source: source_file(self.source),
            tier: self.tier,
            created_at: self.created_at,
            last_referenced: self.last_referenced,
            evidence: self.evidence@.map_values(|e: Evidence| e@),
            superseded_by: self.superseded_by,
        }
    }
}

impl View for Edge {
    type V = EdgeView;

    open spec fn view(&self) -> EdgeView {
        EdgeView {
            id: self.id,
            from: self.from,
            to: self.to,
            relation_type: self.relation_type@,
            confidence: self.confidence,
            source: source_file(self.source),
        }
    }
}

/// The views of a sequence of nodes.
pub open spec fn view_nodes(ns: Seq<Node>) -> Seq<NodeView> {
    ns.map_values(|n: Node| n@)
}

/// The views of a sequence of edges.
pub open spec fn view_edges(es: Seq<Edge>) -> Seq<EdgeView> {
    es.map_values(|e: Edge| e@)
}

impl Node {
    /// A fresh node of the lowest tier, with no time stamps, evidence or successor.
    pub fn new(
        id: NodeId,
        name: String,
        node_type: String,
        definition: String,
        confidence: u8,
        source: Source,
    ) -> (n: Node)
        ensures
            n.id == id,
            n.name == name,
            n.node_type == node_type,
            n.definition == definition,
            n.confidence == confidence,
            n.source == source,
            n.tier == ImportanceTier::Minor,
            n.created_at == 0,
            n.last_referenced == 0,
            n.evidence@ == Seq::<Evidence>::empty(),
            n.superseded_by == None::<NodeId>,
    {
        Node {
            id,
            name,
            node_type,
            definition,
            confidence,
            source,
            tier: ImportanceTier::Minor,
            created_at: 0,
            last_referenced: 0,
            evidence: Vec::new(),
            superseded_by: None,
        }
    }
}

impl Edge {
    /// An edge between two nodes.
    pub fn new(
        id: EdgeId,
        from: NodeId,
        to: NodeId,
        relation_type: String,
        confidence: u8,
        source: Source,
    ) -> (e: Edge)
        ensures
            e.id == id,
            e.from == from,
            e.to == to,
            e.relation_type == relation_type,
            e.confidence == confidence,
            e.source == source,
    {
        Edge { id, from, to, relation_type, confidence, source }
    }
}

} // verus!
