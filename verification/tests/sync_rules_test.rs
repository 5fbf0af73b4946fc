use autoclaw::sync_rules::{
    collect_source_files, generate_decisions_rule, generate_file_rule, generate_project_map, rule_files,
};
use autoclaw::treesitter::{CodeReference, RefType};
use autoclaw::{ImportanceTier, KnowledgeGraph, Node, Source};

#[test]
fn test_generate_project_map() {
    let mut kg = KnowledgeGraph::new();
    kg.reindex_file_v2("src/model.rs", "pub struct Node { pub id: u64 }");
    kg.reindex_file_v2("src/graph.rs", "fn test(n: Node) { let x = n.id; }");

    let map = generate_project_map(&kg);
    assert!(map.contains("model"), "Should mention model.rs: {}", map);
    assert!(map.contains("graph"), "Should mention graph.rs: {}", map);
    assert!(map.contains("refs IN"), "Should show ref counts: {}", map);
}

#[test]
fn test_generate_decisions_rule() {
    let mut kg = KnowledgeGraph::new();
    let mut node = Node::new(
        1,
        "No decay for Critical".into(),
        "Decision".into(),
        "Critical tier never decays".into(),
        95,
        Source::Conversation,
    );
    node.tier = ImportanceTier::Critical;
    kg.add_node(node).unwrap();

    let rule = generate_decisions_rule(&kg);
    assert!(rule.contains("Critical tier never decays"));
    assert!(rule.contains("NON VIOLARE"));
}

#[test]
fn test_generate_decisions_empty() {
    let kg = KnowledgeGraph::new();
    let rule = generate_decisions_rule(&kg);
    assert!(rule.contains("Nessuna decisione"));
}

#[test]
fn test_generate_file_rule() {
    let mut kg = KnowledgeGraph::new();
    kg.reindex_file_v2(
        "src/model.rs",
        r#"
pub struct Node {
    pub id: u64,
    pub confidence: f32,
    pub name: String,
    pub tier: u8,
}
"#,
    );
    kg.reindex_file_v2("src/graph.rs", "fn r(n: &Node) { let c = n.confidence; }");

    let rule = generate_file_rule(&kg, "src/model.rs");
    assert!(rule.contains("paths:"), "Should have frontmatter: {}", rule);
    assert!(
        rule.contains("src/model.rs"),
        "Should reference file: {}",
        rule
    );
    assert!(rule.contains("Node"), "Should list Node struct: {}", rule);
}

#[test]
fn generated_rules_reference_chartcode() {
    let mut kg = KnowledgeGraph::new();
    kg.reindex_file_v2(
        "src/model.rs",
        "pub struct Node { pub id: u64, pub name: String, pub tier: u8, pub confidence: f32 }",
    );
    kg.reindex_file_v2("src/graph.rs", "fn r(n: &Node) { let _ = n.id; }");

    let files = rule_files(&kg);
    let names: Vec<&str> = files.iter().map(|(n, _)| n.as_str()).collect();
    assert_eq!(names, vec!["project-map.md", "decisions.md", "src-model-rs.md"]);
    for (_, generated) in &files {
        assert!(generated.contains("chartcode"), "missing `chartcode` in:\n{generated}");
        assert!(!generated.contains("autoclaw"), "found legacy `autoclaw` in:\n{generated}");
    }
}

fn code_node(name: &str, ty: &str, file: &str) -> Node {
    Node::new(0, name.into(), ty.into(), String::new(), 100, Source::CodeAnalysis { file: file.into() })
}

fn reference(target: &str, kind: RefType) -> CodeReference {
    CodeReference { source_file: "src/other.rs".into(), source_line: 1, target_name: target.into(), ref_type: kind }
}

#[test]
fn project_map_exact_text_sorted_by_references() {
    let mut kg = KnowledgeGraph::new();
    kg.add_node(code_node("src/a.rs", "File", "src/a.rs")).unwrap();
    kg.add_node(code_node("f", "Function", "src/a.rs")).unwrap();
    kg.add_node(code_node("src/b.rs", "File", "src/b.rs")).unwrap();
    kg.add_node(code_node("S", "Struct", "src/b.rs")).unwrap();
    kg.add_node(code_node("use x;", "Import", "src/b.rs")).unwrap();
    let mut d = Node::new(0, "d".into(), "Decision".into(), "keep it".into(), 90, Source::Conversation);
    d.tier = ImportanceTier::Critical;
    kg.add_node(d).unwrap();
    kg.add_reference(reference("S", RefType::UsesType));
    kg.add_reference(reference("S", RefType::UsesType));
    let map = generate_project_map(&kg);
    assert_eq!(
        map,
        "Progetto: 2 file, 6 entità, 0 riferimenti cross-file\n\
         Decisioni architetturali attive: 1 (chartcode explore <nome>)\n\
         Usa: chartcode impact <entità> prima di rename/refactor\n\n\
         Moduli per connettività:\n  \
         b.rs (1 entità, 2 refs IN)\n  \
         a.rs (1 entità, 0 refs IN) \u{2190} leaf module\n"
    );
}

#[test]
fn file_rule_exact_text_with_fields_and_functions() {
    let mut kg = KnowledgeGraph::new();
    kg.add_node(code_node("src/m.rs", "File", "src/m.rs")).unwrap();
    kg.add_node(code_node("Node", "Struct", "src/m.rs")).unwrap();
    kg.add_node(code_node("Node.id", "Field", "src/m.rs")).unwrap();
    kg.add_node(code_node("Node.tag", "Field", "src/m.rs")).unwrap();
    kg.add_node(code_node("make", "Function", "src/m.rs")).unwrap();
    kg.add_node(code_node("unused", "Function", "src/m.rs")).unwrap();
    kg.add_reference(reference("Node.id", RefType::ReadsField));
    kg.add_reference(reference("Node.id", RefType::ReadsField));
    kg.add_reference(reference("Node.id", RefType::WritesField));
    kg.add_reference(reference("make", RefType::Calls));
    let rule = generate_file_rule(&kg, "src/m.rs");
    assert_eq!(
        rule,
        "---\npaths:\n  - \"src/m.rs\"\n---\n\n\
         Node: 0 refs IN\n  .id: letto in 2 file, scritto in 1\n\
         \nmake (Function): 1 refs IN\n\
         \nSE MODIFICHI STRUCT: chartcode impact <nome> per vedere tutti i riferimenti\n\
         SE RINOMINI FUNZIONE: chartcode impact <nome> prima di procedere\n"
    );
}

#[test]
fn decisions_rule_lists_active_decisions_only() {
    let mut kg = KnowledgeGraph::new();
    let mut a = Node::new(0, "a".into(), "Decision".into(), "A holds".into(), 90, Source::Conversation);
    a.tier = ImportanceTier::Significant;
    kg.add_node(a).unwrap();
    let mut b = Node::new(0, "b".into(), "TechnicalFact".into(), "B replaced".into(), 90, Source::Conversation);
    b.tier = ImportanceTier::Critical;
    b.superseded_by = Some(0);
    kg.add_node(b).unwrap();
    let mut c = Node::new(0, "c".into(), "Module".into(), "C is no decision".into(), 90, Source::Conversation);
    c.tier = ImportanceTier::Critical;
    kg.add_node(c).unwrap();
    let rule = generate_decisions_rule(&kg);
    assert_eq!(rule, "NOTA: A holds\n\nUSARE chartcode impact prima di ogni rename o cambio di signature\n");
}

#[test]
fn source_files_are_sorted_and_distinct() {
    let mut kg = KnowledgeGraph::new();
    kg.add_node(code_node("x", "Function", "src/b.rs")).unwrap();
    kg.add_node(code_node("y", "Function", "src/a.rs")).unwrap();
    kg.add_node(code_node("z", "Function", "src/b.rs")).unwrap();
    assert_eq!(collect_source_files(&kg), vec!["src/a.rs".to_string(), "src/b.rs".to_string()]);
}

#[test]
fn reindex_replaces_the_nodes_of_a_file() {
    let mut kg = KnowledgeGraph::new();
    kg.reindex_file_v2("src/a.rs", "fn one() {}\nfn two() {}");
    assert!(kg.lookup("one").is_some());
    kg.reindex_file_v2("src/a.rs", "fn three() {}");
    assert!(kg.lookup("one").is_none());
    assert!(kg.lookup("two").is_none());
    assert_eq!(kg.lookup("three").unwrap().node_type, "Function");
    assert_eq!(kg.lookup("src/a.rs").unwrap().node_type, "File");
    assert_eq!(kg.stats().node_count, 2);
}

#[test]
fn empty_graph_map_and_file_rule() {
    let kg = KnowledgeGraph::new();
    assert_eq!(
        generate_project_map(&kg),
        "Progetto: 0 file, 0 entità, 0 riferimenti cross-file\nUsa: chartcode impact <entità> prima di rename/refactor\n\nModuli per connettività:\n"
    );
    assert_eq!(generate_file_rule(&kg, "src/x.rs"), "---\npaths:\n  - \"src/x.rs\"\n---\n\n");
}
