use autoclaw::{Edge, KnowledgeGraph, Node, Source};

fn fact(name: &str) -> Node {
    Node::new(0, name.into(), "TechnicalFact".into(), "something".into(), 30, Source::Conversation)
}

fn code(name: &str) -> Node {
    Node::new(0, name.into(), "Function".into(), "fn".into(), 100, Source::CodeAnalysis { file: "src/a.rs".into() })
}

#[test]
fn collect_garbage_removes_listed_facts_and_their_edges() {
    let mut kg = KnowledgeGraph::new();
    let a = kg.add_node(fact("old minor fact")).unwrap();
    let b = kg.add_node(fact("fresh fact")).unwrap();
    kg.add_edge(Edge::new(0, a, b, "relates".into(), 100, Source::Conversation)).unwrap();
    let removed = kg.collect_garbage(&vec![a]);
    assert_eq!(removed, 1);
    assert!(kg.lookup("old minor fact").is_none());
    assert!(kg.lookup("fresh fact").is_some());
    assert_eq!(kg.all_edges().len(), 0);
}

#[test]
fn collect_garbage_spares_code_entities() {
    let mut kg = KnowledgeGraph::new();
    let c = kg.add_node(code("chunk_text")).unwrap();
    let removed = kg.collect_garbage(&vec![c]);
    assert_eq!(removed, 0);
    assert!(kg.lookup("chunk_text").is_some());
}

#[test]
fn collect_garbage_with_nothing_stale_keeps_everything() {
    let mut kg = KnowledgeGraph::new();
    kg.add_node(fact("a")).unwrap();
    kg.add_node(code("b")).unwrap();
    assert_eq!(kg.collect_garbage(&vec![]), 0);
    assert_eq!(kg.all_nodes().len(), 2);
    assert_eq!(kg.collect_garbage(&vec![99]), 0);
}

#[test]
fn added_node_is_found_and_removed_node_is_gone() {
    let mut kg = KnowledgeGraph::new();
    let a = kg.add_node(fact("a")).unwrap();
    let b = kg.add_node(fact("b")).unwrap();
    assert_eq!(kg.lookup("b").unwrap().id, b);
    kg.add_edge(Edge::new(0, a, b, "relates".into(), 100, Source::Conversation)).unwrap();
    assert!(kg.remove_node(a));
    assert!(kg.get_node(a).is_none());
    assert!(kg.lookup("a").is_none());
    assert!(kg.all_edges().iter().all(|e| e.from != a && e.to != a));
    assert!(!kg.remove_node(a));
}

/// A node old enough that its relevance is below 0.05, as relevance decay computes it, is
/// listed as stale.
#[test]
fn test_gc_removes_stale_facts() {
    let mut kg = KnowledgeGraph::new();
    let id = kg.add_node(fact("old minor fact")).unwrap();
    let removed = kg.collect_garbage(&vec![id]);
    assert_eq!(removed, 1);
    assert!(kg.lookup("old minor fact").is_none());
}

/// A critical decision keeps its full relevance, so nothing is listed as stale.
#[test]
fn test_gc_preserves_critical() {
    let mut kg = KnowledgeGraph::new();
    let mut n = Node::new(0, "old critical decision".into(), "Decision".into(), "Architecture choice".into(), 95, Source::Conversation);
    n.tier = autoclaw::ImportanceTier::Critical;
    kg.add_node(n).unwrap();
    let removed = kg.collect_garbage(&vec![]);
    assert_eq!(removed, 0);
    assert!(kg.lookup("old critical decision").is_some());
}

/// A code entity is never removed, even when it is listed.
#[test]
fn test_gc_preserves_code_entities() {
    let mut kg = KnowledgeGraph::new();
    let id = kg.add_node(Node::new(
        0,
        "chunk_text".into(),
        "Function".into(),
        "Main chunking function".into(),
        100,
        Source::CodeAnalysis { file: "src/chunker.rs".into() },
    )).unwrap();
    let removed = kg.collect_garbage(&vec![id]);
    assert_eq!(removed, 0);
}

/// A superseded fact has no relevance left, so it is listed as stale.
#[test]
fn test_gc_removes_superseded() {
    let mut kg = KnowledgeGraph::new();
    let mut n = Node::new(0, "old approach".into(), "Decision".into(), "Use approach A".into(), 90, Source::Conversation);
    n.superseded_by = Some(99);
    let id = kg.add_node(n).unwrap();
    let removed = kg.collect_garbage(&vec![id]);
    assert_eq!(removed, 1);
}
