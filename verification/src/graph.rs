use vstd::prelude::*;
use crate::model::{view_edges, view_nodes, Edge, EdgeId, EdgeView, Node, NodeId, NodeView, Source};
use crate::seqs::lemma_filter_take_step;
use crate::text::{decimal, push_decimal, str_eq};
use vstd::string::StringExecFns;
use crate::tier::ImportanceTier;
use crate::treesitter::{entities_of, entity_views, parse_rust_code, rows_fit, rust_syntax, CodeReference, EntityView};

verus! {

/// Why the graph refused a change.
#[derive(Debug, Clone)]
pub enum GraphError {
    /// A node of this name is already in the graph.
    DuplicateName(String),
    /// No node has this id.
    NodeNotFound(NodeId),
    /// Every identifier has been given out.
    IdsExhausted,
}

/// How an error reads in a report.
pub open spec fn error_text(e: GraphError) -> Seq<char> {
    match e {
        GraphError::DuplicateName(n) => "DuplicateName(\""@ + n@ + "\")"@,
        GraphError::NodeNotFound(id) => "NodeNotFound("@ + decimal(id as nat) + ")"@,
        GraphError::IdsExhausted => "IdsExhausted"@,
    }
}

impl GraphError {
    /// How the error reads in a report.
    pub fn describe(&self) -> (s: String)
        ensures
            s@ == error_text(*self),
    {
        match self {
            GraphError::DuplicateName(n) => {
                let mut s = String::from_str("DuplicateName(\"");
                s.append(n.as_str());
                s.append("\")");
                s
            },
            GraphError::NodeNotFound(id) => {
                let mut s = String::from_str("NodeNotFound(");
                push_decimal(&mut s, *id);
                s.append(")");
                s
            },
            GraphError::IdsExhausted => String::from_str("IdsExhausted"),
        }
    }
}

/// Sizes of the graph.
#[derive(Debug, Clone, Copy, PartialEq, Eq, Structural)]
pub struct GraphStats {
    pub node_count: usize,
    pub edge_count: usize,
}

/// The graph as plain values: its nodes and edges in the order they were added, and the
/// identifiers that the next node and the next edge will get.
pub struct GraphModel {
    pub nodes: Seq<NodeView>,
    pub edges: Seq<EdgeView>,
    pub next_node: u64,
    pub next_edge: u64,
}

/// Some node of `ns` has name `name`.
pub open spec fn has_name(ns: Seq<NodeView>, name: Seq<char>) -> bool {
    exists|i: int| 0 <= i < ns.len() && (#[trigger] ns[i]).name == name
}

/// The position of the node named `name` (meaningful when `has_name`).
pub open spec fn name_index(ns: Seq<NodeView>, name: Seq<char>) -> int {
    choose|i: int| 0 <= i < ns.len() && (#[trigger] ns[i]).name == name
}

/// Some node of `ns` has identifier `id`.
pub open spec fn has_id(ns: Seq<NodeView>, id: NodeId) -> bool {
    exists|i: int| 0 <= i < ns.len() && (#[trigger] ns[i]).id == id
}

/// The position of the node with identifier `id` (meaningful when `has_id`).
pub open spec fn id_index(ns: Seq<NodeView>, id: NodeId) -> int {
    choose|i: int| 0 <= i < ns.len() && (#[trigger] ns[i]).id == id
}

/// Node identifiers are positive and below `next`, and neither identifiers nor names repeat.
pub open spec fn nodes_wf(ns: Seq<NodeView>, next: u64) -> bool {
    &&& 0 < next
    &&& forall|i: int| 0 <= i < ns.len() ==> 0 < (#[trigger] ns[i]).id < next
    &&& forall|i: int, j: int|
        0 <= i < ns.len() && 0 <= j < ns.len() && i != j ==> (#[trigger] ns[i]).id != (#[trigger] ns[j]).id
            && ns[i].name != ns[j].name
}

/// Every edge joins two nodes of the graph.
pub open spec fn edges_wf(es: Seq<EdgeView>, ns: Seq<NodeView>) -> bool {
    forall|k: int| 0 <= k < es.len() ==> has_id(ns, (#[trigger] es[k]).from) && has_id(ns, es[k].to)
}

/// A graph model whose invariant holds.
pub open spec fn model_wf(m: GraphModel) -> bool {
    &&& nodes_wf(m.nodes, m.next_node)
    &&& edges_wf(m.edges, m.nodes)
}

/// The test that an edge does not touch node `id`.
pub open spec fn avoids(id: NodeId) -> spec_fn(EdgeView) -> bool {
    |e: EdgeView| e.from != id && e.to != id
}

/// The test that a reference names `name` as its target.
pub open spec fn targets(name: Seq<char>) -> spec_fn(CodeReference) -> bool {
    |r: CodeReference| r.target_name@ == name
}

/// The references that name `name` as their target.
pub open spec fn references_named(rs: Seq<CodeReference>, name: Seq<char>) -> Seq<CodeReference> {
    rs.filter(targets(name))
}

/// A copy of a reference.
pub fn copy_reference(r: &CodeReference) -> (c: CodeReference)
    ensures
        c == *r,
{
    CodeReference {
        source_file: r.source_file.clone(),
        source_line: r.source_line,
        target_name: r.target_name.clone(),
        ref_type: r.ref_type,
    }
}

/// The test that a node was not found by code analysis of file `path`.
pub open spec fn outside_file(path: Seq<char>) -> spec_fn(NodeView) -> bool {
    |n: NodeView| n.source != Some(path)
}

/// The test that garbage collection keeps a node: code analysis found it, or `stale` does not list it.
pub open spec fn spared(stale: Seq<NodeId>) -> spec_fn(NodeView) -> bool {
    |n: NodeView| n.source is Some || !stale.contains(n.id)
}

/// Whether `ids` lists `id`.
fn listed(ids: &Vec<NodeId>, id: NodeId) -> (r: bool)
    ensures
        r == ids@.contains(id),
{
    let mut i: usize = 0;
    while i < ids.len()
        invariant
            i <= ids@.len(),
            forall|j: int| 0 <= j < i ==> ids@[j] != id,
        decreases ids@.len() - i,
    {
        if ids[i] == id {
            return true;
        }
        i += 1;
    }
    false
}

/// The test that both ends of an edge are among `ns`.
pub open spec fn ends_in(ns: Seq<NodeView>) -> spec_fn(EdgeView) -> bool {
    |e: EdgeView| has_id(ns, e.from) && has_id(ns, e.to)
}

/// Keeping some of the nodes of a well-formed graph keeps identifiers and names apart.
proof fn lemma_filter_keeps_wf(ns: Seq<NodeView>, next: u64, keep: spec_fn(NodeView) -> bool)
    requires
        nodes_wf(ns, next),
    ensures
        nodes_wf(ns.filter(keep), next),
{
    let f = ns.filter(keep);
    assert forall|i: int| 0 <= i < f.len() implies 0 < (#[trigger] f[i]).id < next by {
        assert(f.contains(f[i]));
        ns.lemma_filter_contains_rev(keep, f[i]);
    }
    assert forall|i: int, j: int| 0 <= i < f.len() && 0 <= j < f.len() && i != j implies
        (#[trigger] f[i]).id != (#[trigger] f[j]).id && f[i].name != f[j].name by {
        lemma_filter_positions(ns, keep, i, j);
    }
}

/// Two different positions of a filtered sequence come from two different positions.
proof fn lemma_filter_positions(ns: Seq<NodeView>, keep: spec_fn(NodeView) -> bool, i: int, j: int)
    requires
        0 <= i < ns.filter(keep).len(),
        0 <= j < ns.filter(keep).len(),
        i != j,
    ensures
        exists|a: int, b: int| 0 <= a < ns.len() && 0 <= b < ns.len() && a != b
            && ns[a] == ns.filter(keep)[i] && ns[b] == ns.filter(keep)[j],
    decreases ns.len(),
{
    reveal(Seq::filter);
    let t = ns.drop_last();
    let ft = t.filter(keep);
    let f = ns.filter(keep);
    if keep(ns.last()) {
        assert(f == ft.push(ns.last()));
        if i < ft.len() && j < ft.len() {
            lemma_filter_positions(t, keep, i, j);
            let (a, b) = choose|a: int, b: int| 0 <= a < t.len() && 0 <= b < t.len() && a != b
                && t[a] == ft[i] && t[b] == ft[j];
            assert(ns[a] == t[a] && ns[b] == t[b]);
        } else if i < ft.len() {
            assert(ft.contains(ft[i]));
            t.lemma_filter_contains_rev(keep, ft[i]);
            let a = choose|a: int| 0 <= a < t.len() && t[a] == ft[i];
            assert(ns[a] == t[a]);
            assert(ns[ns.len() - 1] == f[j]);
        } else {
            assert(ft.contains(ft[j]));
            t.lemma_filter_contains_rev(keep, ft[j]);
            let b = choose|b: int| 0 <= b < t.len() && t[b] == ft[j];
            assert(ns[b] == t[b]);
            assert(ns[ns.len() - 1] == f[i]);
        }
    } else {
        assert(f == ft);
        lemma_filter_positions(t, keep, i, j);
        let (a, b) = choose|a: int, b: int| 0 <= a < t.len() && 0 <= b < t.len() && a != b
            && t[a] == ft[i] && t[b] == ft[j];
        assert(ns[a] == t[a] && ns[b] == t[b]);
    }
}

/// Whether some node of `ns` has identifier `id`.
fn position_in(ns: &[Node], id: NodeId, next: u64) -> (r: bool)
    ensures
        r == has_id(view_nodes(ns@), id),
{
    let ghost vs = view_nodes(ns@);
    let mut i: usize = 0;
    while i < ns.len()
        invariant
            i <= ns@.len(),
            vs == view_nodes(ns@),
            forall|j: int| 0 <= j < i ==> (#[trigger] vs[j]).id != id,
        decreases ns@.len() - i,
    {
        if ns[i].id == id {
            assert(vs[i as int].id == id);
            return true;
        }
        assert(vs[i as int].id == ns@[i as int].id);
        i += 1;
    }
    false
}

/// The nodes `vs` added one after the other under fresh identifiers, each skipped when its
/// name is taken or no identifier is left.
pub open spec fn add_named(m: GraphModel, vs: Seq<NodeView>) -> GraphModel
    decreases vs.len(),
{
    if vs.len() == 0 {
        m
    } else {
        let p = add_named(m, vs.drop_last());
        let v = vs.last();
        if has_name(p.nodes, v.name) || p.next_node == u64::MAX {
            p
        } else {
            GraphModel { nodes: p.nodes.push(NodeView { id: p.next_node, ..v }), next_node: (p.next_node + 1) as u64, ..p }
        }
    }
}

/// The graph without what code analysis found in file `path`: its nodes and their edges.
pub open spec fn without_file(m: GraphModel, path: Seq<char>) -> GraphModel {
    GraphModel {
        nodes: m.nodes.filter(outside_file(path)),
        edges: m.edges.filter(ends_in(m.nodes.filter(outside_file(path)))),
        ..m
    }
}

/// A node that code analysis found in file `path`.
pub open spec fn code_node(name: Seq<char>, ty: Seq<char>, def: Seq<char>, path: Seq<char>) -> NodeView {
    NodeView {
        id: 0,
        name,
        node_type: ty,
        definition: def,
        confidence: 100,
        source: Some(path),
        tier: ImportanceTier::Minor,
        created_at: 0,
        last_referenced: 0,
        evidence: Seq::empty(),
        superseded_by: None,
    }
}

/// The nodes for a file: one for the file itself, then one per entity it defines.
pub open spec fn file_nodes(path: Seq<char>, es: Seq<EntityView>) -> Seq<NodeView> {
    seq![code_node(path, "File"@, Seq::empty(), path)]
        + es.map_values(|e: EntityView| code_node(e.name, e.entity_type, e.definition, path))
}

/// The entities found by parsing `source`, as `parse_rust_code` gives them.
pub open spec fn parsed_entities(source: Seq<char>, path: Seq<char>) -> Seq<EntityView> {
    match rust_syntax(source) {
        Some(root) => if rows_fit(root) { entities_of(root, path, None) } else { Seq::empty() },
        None => Seq::empty(),
    }
}

/// A node that code analysis found in file `path`.
fn make_code_node(name: String, ty: String, def: String, path: &str) -> (n: Node)
    ensures
        n@ == code_node(name@, ty@, def@, path@),
{
    let n = Node::new(0, name, ty, def, 100, Source::CodeAnalysis { file: String::from_str(path) });
    assert(n@.evidence =~= Seq::<crate::model::EvidenceView>::empty());
    n
}

/// The knowledge graph: entities and facts as nodes, relations as edges, and the
/// references that code makes to entities.
pub struct KnowledgeGraph {
    nodes: Vec<Node>,
    edges: Vec<Edge>,
    references: Vec<CodeReference>,
    next_node_id: u64,
    next_edge_id: u64,
}

impl KnowledgeGraph {
    /// The nodes and edges as plain values.
    pub closed spec fn model(&self) -> GraphModel {
        GraphModel {
            nodes: view_nodes(self.nodes@),
            edges: view_edges(self.edges@),
            next_node: self.next_node_id,
            next_edge: self.next_edge_id,
        }
    }

    /// The code references, in the order they were added.
    pub closed spec fn spec_references(&self) -> Seq<CodeReference> {
        self.references@
    }

    /// The recorded references fit in memory: there are no more of them than a `usize` counts.
    pub proof fn lemma_reference_count_fits(&self)
        ensures
            self.spec_references().len() <= usize::MAX,
    {
        assert(self.references.len() == self.references@.len());
    }

    /// The graph's invariant.
    pub open spec fn wf(&self) -> bool {
        model_wf(self.model())
    }

    /// An empty graph.
    pub fn new() -> (g: KnowledgeGraph)
        ensures
            g.wf(),
            g.model() == (GraphModel { nodes: Seq::empty(), edges: Seq::empty(), next_node: 1, next_edge: 1 }),
            g.spec_references() == Seq::<CodeReference>::empty(),
    {
        let g = KnowledgeGraph {
            nodes: Vec::new(),
            edges: Vec::new(),
            references: Vec::new(),
            next_node_id: 1,
            next_edge_id: 1,
        };
        assert(g.model().nodes == Seq::<NodeView>::empty());
        assert(g.model().edges == Seq::<EdgeView>::empty());
        g
    }

    /// All nodes, in the order they were added.
    pub fn all_nodes(&self) -> (ns: &[Node])
        ensures
            view_nodes(ns@) == self.model().nodes,
    {
        self.nodes.as_slice()
    }

    /// All edges, in the order they were added.
    pub fn all_edges(&self) -> (es: &[Edge])
        ensures
            view_edges(es@) == self.model().edges,
    {
        self.edges.as_slice()
    }

    /// Node and edge counts.
    pub fn stats(&self) -> (s: GraphStats)
        ensures
            s.node_count == self.model().nodes.len(),
            s.edge_count == self.model().edges.len(),
    {
        GraphStats { node_count: self.nodes.len(), edge_count: self.edges.len() }
    }

    /// The position of the node named `name`.
    pub fn position_of_name(&self, name: &str) -> (r: Option<usize>)
        requires
            self.wf(),
        ensures
            r is Some <==> has_name(self.model().nodes, name@),
            r matches Some(i) ==> i < self.model().nodes.len() && i == name_index(self.model().nodes, name@)
                && self.model().nodes[i as int].name == name@,
    {
        let ghost vs = self.model().nodes;
        let mut i: usize = 0;
        while i < self.nodes.len()
            invariant
                i <= self.nodes@.len(),
                vs == view_nodes(self.nodes@),
                nodes_wf(vs, self.next_node_id),
                forall|j: int| 0 <= j < i ==> (#[trigger] vs[j]).name != name@,
            decreases self.nodes@.len() - i,
        {
            if str_eq(self.nodes[i].name.as_str(), name) {
                proof {
                    assert(vs[i as int].name == name@);
                    assert(has_name(vs, name@));
                    let k = name_index(vs, name@);
                    if k != i as int {
                        assert(vs[k].name != vs[i as int].name);
                    }
                }
                return Some(i);
            }
            assert(vs[i as int].name == self.nodes@[i as int].name@);
            i += 1;
        }
        None
    }

    /// The position of the node with identifier `id`.
    pub fn position_of_id(&self, id: NodeId) -> (r: Option<usize>)
        requires
            self.wf(),
        ensures
            r is Some <==> has_id(self.model().nodes, id),
            r matches Some(i) ==> i < self.model().nodes.len() && i == id_index(self.model().nodes, id)
                && self.model().nodes[i as int].id == id,
    {
        let ghost vs = self.model().nodes;
        let mut i: usize = 0;
        while i < self.nodes.len()
            invariant
                i <= self.nodes@.len(),
                vs == view_nodes(self.nodes@),
                nodes_wf(vs, self.next_node_id),
                forall|j: int| 0 <= j < i ==> (#[trigger] vs[j]).id != id,
            decreases self.nodes@.len() - i,
        {
            if self.nodes[i].id == id {
                proof {
                    assert(vs[i as int].id == id);
                    assert(has_id(vs, id));
                    let k = id_index(vs, id);
                    if k != i as int {
                        assert(vs[k].id != vs[i as int].id);
                    }
                }
                return Some(i);
            }
            assert(vs[i as int].id == self.nodes@[i as int].id);
            i += 1;
        }
        None
    }

    /// The node named `name`, if there is one.
    pub fn lookup(&self, name: &str) -> (r: Option<&Node>)
        requires
            self.wf(),
        ensures
            r is Some <==> has_name(self.model().nodes, name@),
            r matches Some(n) ==> n@ == self.model().nodes[name_index(self.model().nodes, name@)],
    {
        match self.position_of_name(name) {
            Some(i) => Some(&self.nodes[i]),
            None => None,
        }
    }

    /// The node with identifier `id`, if there is one.
    pub fn get_node(&self, id: NodeId) -> (r: Option<&Node>)
        requires
            self.wf(),
        ensures
            r is Some <==> has_id(self.model().nodes, id),
            r matches Some(n) ==> n@ == self.model().nodes[id_index(self.model().nodes, id)],
    {
        match self.position_of_id(id) {
            Some(i) => Some(&self.nodes[i]),
            None => None,
        }
    }

    /// Adds a node under a fresh identifier, which it returns; the node's own `id` is ignored.
    /// A name may occur once in the graph.
    pub fn add_node(&mut self, node: Node) -> (r: Result<NodeId, GraphError>)
        requires
            old(self).wf(),
        ensures
            final(self).wf(),
            final(self).spec_references() == old(self).spec_references(),
            has_name(old(self).model().nodes, node.name@) ==> (r matches Err(GraphError::DuplicateName(n))
                && n@ == node.name@),
            !has_name(old(self).model().nodes, node.name@) && old(self).model().next_node == u64::MAX
                ==> r matches Err(GraphError::IdsExhausted),
            r is Err ==> final(self).model() == old(self).model(),
            !has_name(old(self).model().nodes, node.name@) && old(self).model().next_node < u64::MAX ==> {
                &&& r == Ok::<NodeId, GraphError>(old(self).model().next_node)
                &&& final(self).model() == (GraphModel {
                    nodes: old(self).model().nodes.push(NodeView { id: old(self).model().next_node, ..node@ }),
                    next_node: (old(self).model().next_node + 1) as u64,
                    ..old(self).model()
                })
            },
    {
        if let Some(_) = self.position_of_name(node.name.as_str()) {
            return Err(GraphError::DuplicateName(node.name));
        }
        if self.next_node_id == u64::MAX {
            return Err(GraphError::IdsExhausted);
        }
        let id = self.next_node_id;
        let ghost old_model = self.model();
        let mut node = node;
        node.id = id;
        self.nodes.push(node);
        self.next_node_id = id + 1;
        proof {
            let ns = self.model().nodes;
            let os = old_model.nodes;
            assert(ns == os.push(node@));
            assert forall|i: int, j: int|
                0 <= i < ns.len() && 0 <= j < ns.len() && i != j implies (#[trigger] ns[i]).id != (#[trigger] ns[j]).id
                    && ns[i].name != ns[j].name by {
                if i == ns.len() - 1 {
                    assert(ns[j] == os[j]);
                } else if j == ns.len() - 1 {
                    assert(ns[i] == os[i]);
                }
            }
            assert forall|i: int| 0 <= i < ns.len() implies 0 < (#[trigger] ns[i]).id < self.next_node_id by {
                if i < os.len() { assert(ns[i] == os[i]); }
            }
            let es = self.model().edges;
            assert forall|k: int| 0 <= k < es.len() implies has_id(ns, (#[trigger] es[k]).from) && has_id(ns, es[k].to) by {
                let a = id_index(os, es[k].from);
                let b = id_index(os, es[k].to);
                assert(ns[a] == os[a]);
                assert(ns[b] == os[b]);
            }
        }
        Ok(id)
    }

    /// Sets the tier of the node with identifier `id`; false when there is none.
    pub fn set_tier(&mut self, id: NodeId, tier: ImportanceTier) -> (found: bool)
        requires
            old(self).wf(),
        ensures
            final(self).wf(),
            found == has_id(old(self).model().nodes, id),
            final(self).spec_references() == old(self).spec_references(),
            found ==> final(self).model() == (GraphModel {
                nodes: old(self).model().nodes.update(
                    id_index(old(self).model().nodes, id),
                    NodeView { tier, ..old(self).model().nodes[id_index(old(self).model().nodes, id)] },
                ),
                ..old(self).model()
            }),
            !found ==> final(self).model() == old(self).model(),
    {
        match self.position_of_id(id) {
            Some(i) => {
                let ghost old_model = self.model();
                self.nodes[i].tier = tier;
                proof {
                    assert(self.model().nodes == old_model.nodes.update(i as int,
                        NodeView { tier, ..old_model.nodes[i as int] }));
                    lemma_same_keys(self.model(), old_model);
                }
                true
            },
            None => false,
        }
    }

    /// Records which node replaced the node with identifier `id`; false when there is none.
    pub fn set_superseded_by(&mut self, id: NodeId, by: Option<NodeId>) -> (found: bool)
        requires
            old(self).wf(),
        ensures
            final(self).wf(),
            found == has_id(old(self).model().nodes, id),
            final(self).spec_references() == old(self).spec_references(),
            found ==> final(self).model() == (GraphModel {
                nodes: old(self).model().nodes.update(
                    id_index(old(self).model().nodes, id),
                    NodeView { superseded_by: by, ..old(self).model().nodes[id_index(old(self).model().nodes, id)] },
                ),
                ..old(self).model()
            }),
            !found ==> final(self).model() == old(self).model(),
    {
        match self.position_of_id(id) {
            Some(i) => {
                let ghost old_model = self.model();
                self.nodes[i].superseded_by = by;
                proof {
                    assert(self.model().nodes == old_model.nodes.update(i as int,
                        NodeView { superseded_by: by, ..old_model.nodes[i as int] }));
                    lemma_same_keys(self.model(), old_model);
                }
                true
            },
            None => false,
        }
    }

    /// Adds an edge between two nodes of the graph under a fresh identifier, which it returns;
    /// the edge's own `id` is ignored.
    pub fn add_edge(&mut self, edge: Edge) -> (r: Result<EdgeId, GraphError>)
        requires
            old(self).wf(),
        ensures
            final(self).wf(),
            final(self).spec_references() == old(self).spec_references(),
            !has_id(old(self).model().nodes, edge.from)
                ==> r == Err::<EdgeId, GraphError>(GraphError::NodeNotFound(edge.from)),
            has_id(old(self).model().nodes, edge.from) && !has_id(old(self).model().nodes, edge.to)
                ==> r == Err::<EdgeId, GraphError>(GraphError::NodeNotFound(edge.to)),
            has_id(old(self).model().nodes, edge.from) && has_id(old(self).model().nodes, edge.to)
                && old(self).model().next_edge == u64::MAX ==> r matches Err(GraphError::IdsExhausted),
            r is Err ==> final(self).model() == old(self).model(),
            has_id(old(self).model().nodes, edge.from) && has_id(old(self).model().nodes, edge.to)
                && old(self).model().next_edge < u64::MAX ==> {
                &&& r == Ok::<EdgeId, GraphError>(old(self).model().next_edge)
                &&& final(self).model() == (GraphModel {
                    edges: old(self).model().edges.push(EdgeView { id: old(self).model().next_edge, ..edge@ }),
                    next_edge: (old(self).model().next_edge + 1) as u64,
                    ..old(self).model()
                })
            },
    {
        if self.position_of_id(edge.from).is_none() {
            return Err(GraphError::NodeNotFound(edge.from));
        }
        if self.position_of_id(edge.to).is_none() {
            return Err(GraphError::NodeNotFound(edge.to));
        }
        if self.next_edge_id == u64::MAX {
            return Err(GraphError::IdsExhausted);
        }
        let ghost old_model = self.model();
        let id = self.next_edge_id;
        let mut edge = edge;
        edge.id = id;
        self.edges.push(edge);
        self.next_edge_id = id + 1;
        proof {
            let es = self.model().edges;
            assert(es == old_model.edges.push(edge@));
            assert forall|k: int| 0 <= k < es.len() implies has_id(self.model().nodes, (#[trigger] es[k]).from)
                && has_id(self.model().nodes, es[k].to) by {
                if k < old_model.edges.len() {
                    assert(es[k] == old_model.edges[k]);
                }
            }
        }
        Ok(id)
    }

    /// Removes the node with identifier `id` and every edge that touches it; false when there is none.
    pub fn remove_node(&mut self, id: NodeId) -> (found: bool)
        requires
            old(self).wf(),
        ensures
            final(self).wf(),
            found == has_id(old(self).model().nodes, id),
            final(self).spec_references() == old(self).spec_references(),
            found ==> final(self).model() == (GraphModel {
                nodes: old(self).model().nodes.remove(id_index(old(self).model().nodes, id)),
                edges: old(self).model().edges.filter(avoids(id)),
                ..old(self).model()
            }),
            !found ==> final(self).model() == old(self).model(),
    {
        let i = match self.position_of_id(id) {
            Some(i) => i,
            None => return false,
        };
        let ghost old_model = self.model();
        let ghost old_edges = self.model().edges;
        let ghost keep = avoids(id);
        self.nodes.remove(i);
        let mut kept: Vec<Edge> = Vec::new();
        let mut old_list: Vec<Edge> = Vec::new();
        std::mem::swap(&mut old_list, &mut self.edges);
        assert(view_edges(old_list@) == old_edges);
        for e in it: old_list.into_iter()
            invariant
                keep == avoids(id),
                it.seq().map_values(|e: Edge| e@) == old_edges,
                view_edges(kept@) == old_edges.take(it.index() as int).filter(keep),
        {
            let ghost j = it.index();
            assert(e@ == old_edges[j as int]);
            let ghost before = kept@;
            if e.from != id && e.to != id {
                kept.push(e);
            }
            proof {
                lemma_filter_take_step(old_edges, keep, j as int);
                if keep(old_edges[j as int]) {
                    assert(view_edges(kept@) == view_edges(before).push(e@));
                } else {
                    assert(kept@ == before);
                }
            }
        }
        assert(old_edges.take(old_edges.len() as int) == old_edges);
        self.edges = kept;
        proof {
            let ns = self.model().nodes;
            let os = old_model.nodes;
            assert(ns == os.remove(i as int));
            assert forall|a: int| 0 <= a < ns.len() implies 0 < (#[trigger] ns[a]).id < self.next_node_id by {
                if a < i { assert(ns[a] == os[a]); } else { assert(ns[a] == os[a + 1]); }
            }
            assert forall|a: int, b: int|
                0 <= a < ns.len() && 0 <= b < ns.len() && a != b implies (#[trigger] ns[a]).id != (#[trigger] ns[b]).id
                    && ns[a].name != ns[b].name by {
                let oa = if a < i { a } else { a + 1 };
                let ob = if b < i { b } else { b + 1 };
                assert(ns[a] == os[oa]);
                assert(ns[b] == os[ob]);
            }
            let es = self.model().edges;
            assert forall|q: int| 0 <= q < es.len() implies has_id(ns, (#[trigger] es[q]).from) && has_id(ns, es[q].to) by {
                assert(es[q] == old_edges.filter(keep)[q]);
                assert(old_edges.filter(keep).contains(es[q]));
                old_edges.lemma_filter_contains_rev(keep, es[q]);
                old_edges.lemma_filter_pred(keep, q);
                let p = choose|p: int| 0 <= p < old_edges.len() && old_edges[p] == es[q];
                assert(has_id(os, old_edges[p].from));
                let a = id_index(os, es[q].from);
                let b = id_index(os, es[q].to);
                assert(a != i);
                assert(b != i);
                let na = if a < i { a } else { a - 1 };
                let nb = if b < i { b } else { b - 1 };
                assert(ns[na] == os[a]);
                assert(ns[nb] == os[b]);
            }
        }
        true
    }

    /// Removes every node that code analysis found in file `path`, and every edge that touches one.
    pub fn remove_file_nodes(&mut self, path: &str)
        requires
            old(self).wf(),
        ensures
            final(self).wf(),
            final(self).spec_references() == old(self).spec_references(),
            final(self).model() == (GraphModel {
                nodes: old(self).model().nodes.filter(outside_file(path@)),
                edges: old(self).model().edges.filter(ends_in(old(self).model().nodes.filter(outside_file(path@)))),
                ..old(self).model()
            }),
    {
        let ghost old_model = self.model();
        let ghost keep = outside_file(path@);
        let mut old_nodes: Vec<Node> = Vec::new();
        std::mem::swap(&mut old_nodes, &mut self.nodes);
        let ghost on = view_nodes(old_nodes@);
        assert(on == old_model.nodes);
        let mut kept: Vec<Node> = Vec::new();
        for n in it: old_nodes.into_iter()
            invariant
                keep == outside_file(path@),
                it.seq().map_values(|n: Node| n@) == on,
                view_nodes(kept@) == on.take(it.index() as int).filter(keep),
        {
            let ghost j = it.index();
            assert(n@ == on[j as int]);
            let ghost before = kept@;
            let inside = match &n.source {
                Source::CodeAnalysis { file } => str_eq(file.as_str(), path),
                Source::Conversation => false,
            };
            if !inside {
                kept.push(n);
            }
            proof {
                lemma_filter_take_step(on, keep, j as int);
                if !inside {
                    assert(view_nodes(kept@) == view_nodes(before).push(n@));
                } else {
                    assert(kept@ == before);
                }
            }
        }
        assert(on.take(on.len() as int) == on);
        proof { lemma_filter_keeps_wf(on, self.next_node_id, keep); }
        self.install_nodes(kept);
    }

    /// Removes every node that `stale` lists, unless code analysis found it, and every edge
    /// that touches a removed node; returns how many nodes went.
    pub fn collect_garbage(&mut self, stale: &Vec<NodeId>) -> (removed: usize)
        requires
            old(self).wf(),
        ensures
            final(self).wf(),
            final(self).spec_references() == old(self).spec_references(),
            final(self).model() == (GraphModel {
                nodes: old(self).model().nodes.filter(spared(stale@)),
                edges: old(self).model().edges.filter(ends_in(old(self).model().nodes.filter(spared(stale@)))),
                ..old(self).model()
            }),
            removed == old(self).model().nodes.len() - old(self).model().nodes.filter(spared(stale@)).len(),
    {
        let ghost old_model = self.model();
        let ghost keep = spared(stale@);
        let mut old_nodes: Vec<Node> = Vec::new();
        std::mem::swap(&mut old_nodes, &mut self.nodes);
        let ghost on = view_nodes(old_nodes@);
        assert(on == old_model.nodes);
        let total = old_nodes.len();
        let mut kept: Vec<Node> = Vec::new();
        for n in it: old_nodes.into_iter()
            invariant
                keep == spared(stale@),
                it.seq().map_values(|n: Node| n@) == on,
                view_nodes(kept@) == on.take(it.index() as int).filter(keep),
                kept@.len() <= it.index(),
        {
            let ghost j = it.index();
            assert(n@ == on[j as int]);
            let ghost before = kept@;
            let from_code = match &n.source {
                Source::CodeAnalysis { .. } => true,
                Source::Conversation => false,
            };
            if from_code || !listed(stale, n.id) {
                kept.push(n);
            }
            proof {
                lemma_filter_take_step(on, keep, j as int);
                if keep(on[j as int]) {
                    assert(view_nodes(kept@) == view_nodes(before).push(n@));
                } else {
                    assert(kept@ == before);
                }
            }
        }
        assert(on.take(on.len() as int) == on);
        proof { lemma_filter_keeps_wf(on, self.next_node_id, keep); }
        let removed = total - kept.len();
        self.install_nodes(kept);
        removed
    }

    /// Puts `kept` in place of the nodes, and keeps the edges whose two ends are among them.
    fn install_nodes(&mut self, kept: Vec<Node>)
        requires
            nodes_wf(view_nodes(kept@), old(self).model().next_node),
        ensures
            final(self).wf(),
            final(self).spec_references() == old(self).spec_references(),
            final(self).model() == (GraphModel {
                nodes: view_nodes(kept@),
                edges: old(self).model().edges.filter(ends_in(view_nodes(kept@))),
                ..old(self).model()
            }),
    {
        let ghost nn = view_nodes(kept@);
        let ghost ends = ends_in(nn);
        let mut old_edges: Vec<Edge> = Vec::new();
        std::mem::swap(&mut old_edges, &mut self.edges);
        let ghost oe = view_edges(old_edges@);
        assert(oe == old(self).model().edges);
        let mut kept_edges: Vec<Edge> = Vec::new();
        for e in it: old_edges.into_iter()
            invariant
                ends == ends_in(nn),
                nn == view_nodes(kept@),
                it.seq().map_values(|e: Edge| e@) == oe,
                view_edges(kept_edges@) == oe.take(it.index() as int).filter(ends),
        {
            let ghost j = it.index();
            assert(e@ == oe[j as int]);
            let ghost before = kept_edges@;
            let has_from = position_in(kept.as_slice(), e.from, self.next_node_id);
            let has_to = position_in(kept.as_slice(), e.to, self.next_node_id);
            if has_from && has_to {
                kept_edges.push(e);
            }
            proof {
                lemma_filter_take_step(oe, ends, j as int);
                if has_from && has_to {
                    assert(view_edges(kept_edges@) == view_edges(before).push(e@));
                } else {
                    assert(kept_edges@ == before);
                }
            }
        }
        assert(oe.take(oe.len() as int) == oe);
        self.nodes = kept;
        self.edges = kept_edges;
        proof {
            let es = self.model().edges;
            assert forall|k: int| 0 <= k < es.len() implies has_id(nn, (#[trigger] es[k]).from) && has_id(nn, es[k].to) by {
                oe.lemma_filter_pred(ends, k);
            }
        }
    }

    /// Adds the nodes `vs` one after the other under fresh identifiers, skipping each whose
    /// name is taken.
    fn add_each(&mut self, nodes: Vec<Node>)
        requires
            old(self).wf(),
        ensures
            final(self).wf(),
            final(self).spec_references() == old(self).spec_references(),
            final(self).model() == add_named(old(self).model(), view_nodes(nodes@)),
    {
        let ghost vs = view_nodes(nodes@);
        let ghost m0 = self.model();
        for n in it: nodes.into_iter()
            invariant
                self.wf(),
                self.spec_references() == old(self).spec_references(),
                it.seq().map_values(|n: Node| n@) == vs,
                self.model() == add_named(m0, vs.take(it.index() as int)),
        {
            let ghost j = it.index();
            assert(n@ == vs[j as int]);
            let _ = self.add_node(n);
            proof {
                assert(vs.take(j + 1).drop_last() == vs.take(j as int));
                assert(vs.take(j + 1).last() == vs[j as int]);
            }
        }
        assert(vs.take(vs.len() as int) == vs);
    }

    /// Replaces what the graph knows of file `path` by the entities found in its new source:
    /// the file's old nodes and their edges go; a node for the file and one per entity come in,
    /// each skipped when its name is taken.
    pub fn reindex_file_v2(&mut self, path: &str, source: &str)
        requires
            old(self).wf(),
        ensures
            final(self).wf(),
            final(self).spec_references() == old(self).spec_references(),
            final(self).model() == add_named(without_file(old(self).model(), path@),
                file_nodes(path@, parsed_entities(source@, path@))),
    {
        self.remove_file_nodes(path);
        let entities = parse_rust_code(source, path);
        let ghost es = entity_views(entities@);
        let mut nodes: Vec<Node> = Vec::new();
        nodes.push(make_code_node(String::from_str(path), String::from_str("File"), String::new(), path));
        assert(view_nodes(nodes@) =~= file_nodes(path@, es.take(0)));
        let mut i: usize = 0;
        while i < entities.len()
            invariant
                i <= entities@.len(),
                es == entity_views(entities@),
                view_nodes(nodes@) == file_nodes(path@, es.take(i as int)),
            decreases entities@.len() - i,
        {
            let e = &entities[i];
            let ghost before = nodes@;
            nodes.push(make_code_node(e.name.clone(), e.entity_type.clone(), e.definition.clone(), path));
            proof {
                assert(es[i as int] == e@);
                assert(es.take(i + 1) == es.take(i as int).push(e@));
                assert(view_nodes(nodes@) =~= view_nodes(before).push(nodes@.last()@));
                assert(file_nodes(path@, es.take(i + 1)) =~= file_nodes(path@, es.take(i as int)).push(
                    code_node(e@.name, e@.entity_type, e@.definition, path@)));
            }
            i += 1;
        }
        proof {
            assert(es.take(es.len() as int) == es);
            assert(es == parsed_entities(source@, path@));
        }
        self.add_each(nodes);
    }

    /// Records a reference that code makes to an entity.
    pub fn add_reference(&mut self, reference: CodeReference)
        requires
            old(self).wf(),
        ensures
            final(self).wf(),
            final(self).model() == old(self).model(),
            final(self).spec_references() == old(self).spec_references().push(reference),
    {
        self.references.push(reference);
    }

    /// How many recorded references name `name` as their target.
    pub fn inbound_reference_count(&self, name: &str) -> (c: usize)
        ensures
            c == references_named(self.spec_references(), name@).len(),
    {
        let rs = self.references_to(name);
        rs.len()
    }

    /// The recorded references that name `name` as their target, in the order they were added.
    pub fn references_to(&self, name: &str) -> (rs: Vec<CodeReference>)
        ensures
            rs@ == references_named(self.spec_references(), name@),
    {
        let ghost keep = targets(name@);
        let mut out: Vec<CodeReference> = Vec::new();
        let mut k: usize = 0;
        while k < self.references.len()
            invariant
                k <= self.references@.len(),
                keep == targets(name@),
                out@ == self.references@.take(k as int).filter(keep),
            decreases self.references@.len() - k,
        {
            let r = &self.references[k];
            if str_eq(r.target_name.as_str(), name) {
                out.push(copy_reference(r));
            }
            k += 1;
            proof {
                lemma_filter_take_step(self.references@, keep, k - 1);
            }
        }
        assert(self.references@.take(self.references@.len() as int) == self.references@);
        out
    }
}

/// Changing nodes without touching their identifiers or names keeps the invariant.
proof fn lemma_same_keys(m: GraphModel, o: GraphModel)
    requires
        model_wf(o),
        m.edges == o.edges,
        m.next_node == o.next_node,
        m.nodes.len() == o.nodes.len(),
        forall|i: int| 0 <= i < o.nodes.len() ==> (#[trigger] m.nodes[i]).id == o.nodes[i].id
            && m.nodes[i].name == o.nodes[i].name,
    ensures
        model_wf(m),
{
    let ns = m.nodes;
    let os = o.nodes;
    assert forall|i: int, j: int|
        0 <= i < ns.len() && 0 <= j < ns.len() && i != j implies (#[trigger] ns[i]).id != (#[trigger] ns[j]).id
            && ns[i].name != ns[j].name by {
        assert(ns[i].id == os[i].id);
        assert(ns[j].id == os[j].id);
    }
    assert forall|i: int| 0 <= i < ns.len() implies 0 < (#[trigger] ns[i]).id < m.next_node by {
        assert(ns[i].id == os[i].id);
    }
    assert forall|k: int| 0 <= k < m.edges.len() implies has_id(ns, (#[trigger] m.edges[k]).from)
        && has_id(ns, m.edges[k].to) by {
        let a = id_index(os, m.edges[k].from);
        let b = id_index(os, m.edges[k].to);
        assert(ns[a].id == os[a].id);
        assert(ns[b].id == os[b].id);
    }
}

/// In a well-formed graph the node found by identifier is the node that has that identifier.
pub proof fn lemma_id_index(ns: Seq<NodeView>, next: u64, i: int)
    requires
        nodes_wf(ns, next),
        0 <= i < ns.len(),
    ensures
        has_id(ns, ns[i].id),
        id_index(ns, ns[i].id) == i,
{
    assert(has_id(ns, ns[i].id));
    let k = id_index(ns, ns[i].id);
    if k != i {
        assert(ns[k].id != ns[i].id);
    }
}

/// In a well-formed graph the node found by name is the node that has that name.
pub proof fn lemma_name_index(ns: Seq<NodeView>, next: u64, i: int)
    requires
        nodes_wf(ns, next),
        0 <= i < ns.len(),
    ensures
        has_name(ns, ns[i].name),
        name_index(ns, ns[i].name) == i,
{
    assert(has_name(ns, ns[i].name));
    let k = name_index(ns, ns[i].name);
    if k != i {
        assert(ns[k].name != ns[i].name);
    }
}

/// A node added under a fresh name is then found by that name, as it was given and under the
/// identifier that adding it handed out; the nodes that were there are still found by their
/// names as before.
pub proof fn lemma_added_node_found(m: GraphModel, v: NodeView, name: Seq<char>)
    requires
        model_wf(m),
        !has_name(m.nodes, v.name),
        m.next_node < u64::MAX,
    ensures
        ({
            let ns = m.nodes.push(NodeView { id: m.next_node, ..v });
            &&& has_name(ns, v.name)
            &&& ns[name_index(ns, v.name)] == NodeView { id: m.next_node, ..v }
            &&& has_name(m.nodes, name) ==> has_name(ns, name) && ns[name_index(ns, name)] == m.nodes[name_index(m.nodes, name)]
        }),
{
    let ns = m.nodes.push(NodeView { id: m.next_node, ..v });
    assert(nodes_wf(ns, (m.next_node + 1) as u64)) by {
        assert forall|i: int, j: int| 0 <= i < ns.len() && 0 <= j < ns.len() && i != j implies
            (#[trigger] ns[i]).id != (#[trigger] ns[j]).id && ns[i].name != ns[j].name by {
            if i < m.nodes.len() && j < m.nodes.len() {
                assert(ns[i] == m.nodes[i] && ns[j] == m.nodes[j]);
            } else if i < m.nodes.len() {
                assert(ns[i] == m.nodes[i]);
            } else {
                assert(ns[j] == m.nodes[j]);
            }
        }
    }
    lemma_name_index(ns, (m.next_node + 1) as u64, m.nodes.len() as int);
    if has_name(m.nodes, name) {
        let k = name_index(m.nodes, name);
        assert(ns[k] == m.nodes[k]);
        lemma_name_index(ns, (m.next_node + 1) as u64, k);
    }
}

/// After a node is removed, no node has its identifier and no edge touches it.
pub proof fn lemma_removed_node_gone(m: GraphModel, id: NodeId)
    requires
        model_wf(m),
        has_id(m.nodes, id),
    ensures
        ({
            let ns = m.nodes.remove(id_index(m.nodes, id));
            let es = m.edges.filter(avoids(id));
            &&& !has_id(ns, id)
            &&& forall|k: int| 0 <= k < es.len() ==> (#[trigger] es[k]).from != id && es[k].to != id
        }),
{
    let i = id_index(m.nodes, id);
    let ns = m.nodes.remove(i);
    if has_id(ns, id) {
        let j = choose|j: int| 0 <= j < ns.len() && (#[trigger] ns[j]).id == id;
        let oj = if j < i { j } else { j + 1 };
        assert(ns[j] == m.nodes[oj]);
    }
    let es = m.edges.filter(avoids(id));
    assert forall|k: int| 0 <= k < es.len() implies (#[trigger] es[k]).from != id && es[k].to != id by {
        m.edges.lemma_filter_pred(avoids(id), k);
    }
}

/// Garbage collection keeps every node that code analysis found and every node that is not
/// listed as stale, and removes every other listed node.
pub proof fn lemma_gc_spares_code(ns: Seq<NodeView>, stale: Seq<NodeId>, v: NodeView)
    requires
        ns.contains(v),
    ensures
        v.source is Some ==> ns.filter(spared(stale)).contains(v),
        !stale.contains(v.id) ==> ns.filter(spared(stale)).contains(v),
        v.source is None && stale.contains(v.id) ==> !ns.filter(spared(stale)).contains(v),
{
    let i = choose|i: int| 0 <= i < ns.len() && ns[i] == v;
    if spared(stale)(v) {
        ns.lemma_filter_contains(spared(stale), i);
    } else if ns.filter(spared(stale)).contains(v) {
        let k = choose|k: int| 0 <= k < ns.filter(spared(stale)).len() && ns.filter(spared(stale))[k] == v;
        ns.lemma_filter_pred(spared(stale), k);
    }
}

} // verus!
