use autoclaw::treesitter::parse_rust_code;

    #[test]
    fn test_parse_functions() {
        let code = r#"
pub fn hello(name: &str) -> String {
    format!("Hello, {}", name)
}

fn private_helper() -> bool {
    true
}
"#;
        let entities = parse_rust_code(code, "src/test.rs");
        let fns: Vec<_> = entities
            .iter()
            .filter(|e| e.entity_type == "Function")
            .collect();
        assert_eq!(fns.len(), 2);
        assert!(fns.iter().any(|f| f.name == "hello"));
        assert!(fns.iter().any(|f| f.name == "private_helper"));
    }

    #[test]
    fn test_parse_structs_and_fields() {
        let code = r#"
pub struct Node {
    pub id: u64,
    pub name: String,
    confidence: f32,
}
"#;
        let entities = parse_rust_code(code, "src/model.rs");
        assert!(entities
            .iter()
            .any(|e| e.entity_type == "Struct" && e.name == "Node"));
        let fields: Vec<_> = entities
            .iter()
            .filter(|e| e.entity_type == "Field")
            .collect();
        assert_eq!(fields.len(), 3);
        assert!(fields.iter().any(|f| f.name == "Node.id"));
        assert!(fields.iter().any(|f| f.name == "Node.name"));
        assert!(fields.iter().any(|f| f.name == "Node.confidence"));
    }

    #[test]
    fn test_parse_use_statements() {
        let code = r#"
use crate::model::Node;
use std::collections::HashMap;
"#;
        let entities = parse_rust_code(code, "src/graph.rs");
        let imports: Vec<_> = entities
            .iter()
            .filter(|e| e.entity_type == "Import")
            .collect();
        assert_eq!(imports.len(), 2);
    }

    #[test]
    fn test_parse_impl_methods() {
        let code = r#"
impl Node {
    pub fn new(id: u64) -> Self {
        Node { id }
    }

    fn helper(&self) -> bool {
        true
    }
}
"#;
        let entities = parse_rust_code(code, "src/model.rs");
        let methods: Vec<_> = entities
            .iter()
            .filter(|e| e.entity_type == "Method")
            .collect();
        assert_eq!(methods.len(), 2);
        assert!(methods.iter().any(|m| m.name == "new"));
        assert!(methods.iter().any(|m| m.name == "helper"));
        // Methods should reference the impl type
        assert!(methods[0].definition.contains("Node::"));
    }

    #[test]
    fn test_parse_enum() {
        let code = r#"
pub enum Source {
    Document,
    Memory,
    Inferred,
}
"#;
        let entities = parse_rust_code(code, "src/model.rs");
        assert!(entities
            .iter()
            .any(|e| e.entity_type == "Enum" && e.name == "Source"));
    }

    #[test]
    fn test_parse_trait() {
        let code = r#"
pub trait Serializable {
    fn serialize(&self) -> Vec<u8>;
}
"#;
        let entities = parse_rust_code(code, "src/traits.rs");
        assert!(entities
            .iter()
            .any(|e| e.entity_type == "Trait" && e.name == "Serializable"));
    }

    #[test]
    fn test_parse_const() {
        let code = r#"
pub const MAX_SIZE: usize = 4096;
static COUNTER: AtomicUsize = AtomicUsize::new(0);
"#;
        let entities = parse_rust_code(code, "src/config.rs");
        let consts: Vec<_> = entities
            .iter()
            .filter(|e| e.entity_type == "Const")
            .collect();
        assert_eq!(consts.len(), 2);
    }

    #[test]
    fn test_line_numbers() {
        let code = "fn first() {}\n\nfn second() {}";
        let entities = parse_rust_code(code, "test.rs");
        let first = entities.iter().find(|e| e.name == "first").unwrap();
        let second = entities.iter().find(|e| e.name == "second").unwrap();
        assert_eq!(first.line_start, 1);
        assert_eq!(second.line_start, 3);
    }

    #[test]
    fn test_empty_source() {
        let entities = parse_rust_code("", "empty.rs");
        assert!(entities.is_empty());
    }

    #[test]
    fn test_file_path_preserved() {
        let code = "fn test() {}";
        let entities = parse_rust_code(code, "src/my_module.rs");
        assert_eq!(entities[0].file, "src/my_module.rs");
    }

    #[test]
    fn test_real_world_code() {
        // A more realistic snippet similar to our codebase
        let code = r#"
use serde::{Deserialize, Serialize};
use std::collections::HashMap;

#[derive(Debug, Clone, Serialize, Deserialize)]
pub struct KnowledgeGraph {
    pub nodes: HashMap<u64, Node>,
    pub edges: Vec<Edge>,
}

impl KnowledgeGraph {
    pub fn new() -> Self {
        Self {
            nodes: HashMap::new(),
            edges: Vec::new(),
        }
    }

    pub fn add_node(&mut self, node: Node) -> Result<u64, String> {
        Ok(0)
    }
}

pub enum GraphError {
    NotFound(String),
    Invalid(String),
}
"#;
        let entities = parse_rust_code(code, "src/graph.rs");

        // Should find: 2 imports, 1 struct, 2 fields, 2 methods, 1 enum
        assert!(entities.iter().any(|e| e.entity_type == "Import"));
        assert!(entities
            .iter()
            .any(|e| e.entity_type == "Struct" && e.name == "KnowledgeGraph"));
        assert!(entities
            .iter()
            .any(|e| e.entity_type == "Field" && e.name == "KnowledgeGraph.nodes"));
        assert!(entities
            .iter()
            .any(|e| e.entity_type == "Method" && e.name == "new"));
        assert!(entities
            .iter()
            .any(|e| e.entity_type == "Method" && e.name == "add_node"));
        assert!(entities
            .iter()
            .any(|e| e.entity_type == "Enum" && e.name == "GraphError"));
    }

#[test]
fn parse_records_definitions_and_lines() {
    let code = "pub struct P {\n    pub x: i32,\n}\n\nimpl P {\n    pub fn get(&self) -> i32 {\n        self.x\n    }\n}\n";
    let entities = parse_rust_code(code, "src/p.rs");
    let summary: Vec<(String, String, String, usize, usize)> = entities
        .iter()
        .map(|e| (e.name.clone(), e.entity_type.clone(), e.definition.clone(), e.line_start, e.line_end))
        .collect();
    assert_eq!(
        summary,
        vec![
            ("P".to_string(), "Struct".to_string(), "struct P".to_string(), 1, 3),
            ("P.x".to_string(), "Field".to_string(), "pub x: i32".to_string(), 2, 2),
            ("get".to_string(), "Method".to_string(), "P::get \u{2014} pub fn get(&self) -> i32 {".to_string(), 6, 8),
        ]
    );
}

#[test]
fn parse_finds_nested_functions_and_crlf_signatures() {
    let code = "fn outer() {\r\n    fn inner() {}\r\n}\r\n";
    let entities = parse_rust_code(code, "a.rs");
    let names: Vec<(&str, &str)> = entities.iter().map(|e| (e.name.as_str(), e.definition.as_str())).collect();
    assert_eq!(names, vec![("outer", "fn outer() {"), ("inner", "fn inner() {}")]);
}
