use autoclaw::reconcile::{
    parse_tier, reconcile, reconcile_at, tier_from_lower, NewFact, PromotionEntry, ReconcileInput, RelationEntry, SupersededEntry,
};
use autoclaw::{ImportanceTier, KnowledgeGraph, Node, Source};

fn empty_input() -> ReconcileInput {
    ReconcileInput { new_facts: vec![], superseded: vec![], promotions: vec![], relations: vec![] }
}

#[test]
fn test_reconcile_adds_new_facts() {
    let mut kg = KnowledgeGraph::new();
    let input = ReconcileInput {
        new_facts: vec![NewFact {
            name: "Use LCS matching".into(),
            fact_type: "Decision".into(),
            tier: "critical".into(),
            definition: "Use LCS distance for fuzzy matching".into(),
            reason: "Best balance of precision and recall".into(),
            supersedes: None,
            relations: vec![],
            evidence_text: "we decided to use LCS".into(),
        }],
        superseded: vec![],
        promotions: vec![],
        relations: vec![],
    };

    let report = reconcile(&mut kg, &input);
    assert_eq!(report.added, 1);
    assert!(report.errors.is_empty());
    let node = kg.lookup("Use LCS matching").unwrap();
    assert_eq!(node.tier, ImportanceTier::Critical);
    assert!(node.definition.contains("reason:"));
}

#[test]
fn test_reconcile_skips_duplicates() {
    let mut kg = KnowledgeGraph::new();
    kg.add_node(Node::new(
        1,
        "existing fact".into(),
        "Decision".into(),
        "Already here".into(),
        90,
        Source::Conversation,
    ))
    .unwrap();

    let input = ReconcileInput {
        new_facts: vec![NewFact {
            name: "existing fact".into(),
            fact_type: "Decision".into(),
            tier: "critical".into(),
            definition: "Duplicate".into(),
            reason: String::new(),
            supersedes: None,
            relations: vec![],
            evidence_text: String::new(),
        }],
        superseded: vec![],
        promotions: vec![],
        relations: vec![],
    };

    let report = reconcile(&mut kg, &input);
    assert_eq!(report.added, 0); // skipped
}

#[test]
fn test_reconcile_supersedes_old_fact() {
    let mut kg = KnowledgeGraph::new();
    let mut old = Node::new(
        1,
        "Use exact match".into(),
        "Decision".into(),
        "Use exact matching only".into(),
        90,
        Source::Conversation,
    );
    old.tier = ImportanceTier::Significant;
    kg.add_node(old).unwrap();

    let input = ReconcileInput {
        new_facts: vec![NewFact {
            name: "Use fuzzy match".into(),
            fact_type: "Decision".into(),
            tier: "critical".into(),
            definition: "Use fuzzy matching".into(),
            reason: "Exact match missed too many".into(),
            supersedes: Some("Use exact match".into()),
            relations: vec![],
            evidence_text: String::new(),
        }],
        superseded: vec![SupersededEntry {
            old: "Use exact match".into(),
            reason: "replaced by fuzzy matching".into(),
        }],
        promotions: vec![],
        relations: vec![],
    };

    let report = reconcile(&mut kg, &input);
    assert_eq!(report.added, 1);
    assert_eq!(report.superseded, 1);
    let old_node = kg.lookup("Use exact match").unwrap();
    assert!(old_node.superseded_by.is_some());
}

#[test]
fn test_reconcile_promotes_tier() {
    let mut kg = KnowledgeGraph::new();
    let mut n = Node::new(
        1,
        "overlap config".into(),
        "TechnicalFact".into(),
        "Overlap is 500 chars".into(),
        80,
        Source::Conversation,
    );
    n.tier = ImportanceTier::Minor;
    kg.add_node(n).unwrap();

    let input = ReconcileInput {
        new_facts: vec![],
        superseded: vec![],
        promotions: vec![PromotionEntry {
            name: "overlap config".into(),
            new_tier: "significant".into(),
            reason: "referenced 3 times".into(),
        }],
        relations: vec![],
    };

    let report = reconcile(&mut kg, &input);
    assert_eq!(report.promoted, 1);
    let node = kg.lookup("overlap config").unwrap();
    assert_eq!(node.tier, ImportanceTier::Significant);
}

#[test]
fn test_reconcile_no_demotion() {
    let mut kg = KnowledgeGraph::new();
    let mut n = Node::new(
        1,
        "arch decision".into(),
        "Decision".into(),
        "Important".into(),
        90,
        Source::Conversation,
    );
    n.tier = ImportanceTier::Critical;
    kg.add_node(n).unwrap();

    let input = ReconcileInput {
        new_facts: vec![],
        superseded: vec![],
        promotions: vec![PromotionEntry {
            name: "arch decision".into(),
            new_tier: "minor".into(), // attempt to demote
            reason: String::new(),
        }],
        relations: vec![],
    };

    let report = reconcile(&mut kg, &input);
    assert_eq!(report.promoted, 0); // no demotion
    let node = kg.lookup("arch decision").unwrap();
    assert_eq!(node.tier, ImportanceTier::Critical); // unchanged
}

#[test]
fn test_reconcile_adds_relations() {
    let mut kg = KnowledgeGraph::new();
    kg.add_node(Node::new(
        1,
        "resolver".into(),
        "Module".into(),
        "Entity resolver".into(),
        100,
        Source::Conversation,
    ))
    .unwrap();
    kg.add_node(Node::new(
        2,
        "graph".into(),
        "Module".into(),
        "Knowledge graph".into(),
        100,
        Source::Conversation,
    ))
    .unwrap();

    let input = ReconcileInput {
        new_facts: vec![],
        superseded: vec![],
        promotions: vec![],
        relations: vec![RelationEntry {
            from: "resolver".into(),
            to: "graph".into(),
            relation_type: "calls".into(),
            evidence: "merge operation".into(),
        }],
    };

    let report = reconcile(&mut kg, &input);
    assert_eq!(report.edges_added, 1);
}

fn fact(name: &str, tier: &str, def: &str, reason: &str, supersedes: Option<&str>, evidence: &str) -> NewFact {
    NewFact {
        name: name.into(),
        fact_type: "Decision".into(),
        tier: tier.into(),
        definition: def.into(),
        reason: reason.into(),
        supersedes: supersedes.map(|s| s.to_string()),
        relations: vec![],
        evidence_text: evidence.into(),
    }
}

#[test]
fn reconcile_at_stamps_time_and_records_fact_fields() {
    let mut kg = KnowledgeGraph::new();
    let mut input = empty_input();
    input.new_facts.push(fact("a", "SIGNIFICANT", "Use A", "it is fast", None, "we use A"));
    let report = reconcile_at(&mut kg, &input, 1234);
    assert_eq!(report.added, 1);
    assert_eq!(report.gc_removed, 0);
    let n = kg.lookup("a").unwrap();
    assert_eq!(n.id, 1);
    assert_eq!(n.tier, ImportanceTier::Significant);
    assert_eq!(n.created_at, 1234);
    assert_eq!(n.last_referenced, 1234);
    assert_eq!(n.confidence, 90);
    assert_eq!(n.definition, "Use A (reason: it is fast)");
    assert_eq!(n.evidence.len(), 1);
    assert_eq!(n.evidence[0].document, "conversation");
    assert_eq!(n.evidence[0].text_snippet, "we use A");
    assert!(matches!(n.source, Source::Conversation));
}

#[test]
fn reconcile_does_not_repeat_a_reason_already_in_the_definition() {
    let mut kg = KnowledgeGraph::new();
    let mut input = empty_input();
    input.new_facts.push(fact("a", "minor", "Use A because it is fast", "it is fast", None, ""));
    reconcile_at(&mut kg, &input, 5);
    let n = kg.lookup("a").unwrap();
    assert_eq!(n.definition, "Use A because it is fast");
    assert!(n.evidence.is_empty());
    assert_eq!(n.tier, ImportanceTier::Minor);
}

#[test]
fn reconcile_links_superseded_fact_to_its_successor() {
    let mut kg = KnowledgeGraph::new();
    kg.add_node(Node::new(0, "old".into(), "Decision".into(), "x".into(), 90, Source::Conversation)).unwrap();
    let mut input = empty_input();
    input.new_facts.push(fact("new", "critical", "y", "", Some("old"), ""));
    input.superseded.push(SupersededEntry { old: "old".into(), reason: String::new() });
    input.superseded.push(SupersededEntry { old: "missing".into(), reason: String::new() });
    let report = reconcile_at(&mut kg, &input, 0);
    assert_eq!(report.superseded, 1);
    let new_id = kg.lookup("new").unwrap().id;
    assert_eq!(kg.lookup("old").unwrap().superseded_by, Some(new_id));
}

#[test]
fn reconcile_marks_superseded_without_successor_with_zero() {
    let mut kg = KnowledgeGraph::new();
    kg.add_node(Node::new(0, "old".into(), "Decision".into(), "x".into(), 90, Source::Conversation)).unwrap();
    let mut input = empty_input();
    input.superseded.push(SupersededEntry { old: "old".into(), reason: String::new() });
    reconcile_at(&mut kg, &input, 0);
    assert_eq!(kg.lookup("old").unwrap().superseded_by, Some(0));
}

#[test]
fn reconcile_skips_relations_to_unknown_nodes() {
    let mut kg = KnowledgeGraph::new();
    kg.add_node(Node::new(0, "a".into(), "Module".into(), "x".into(), 90, Source::Conversation)).unwrap();
    let mut input = empty_input();
    input.relations.push(RelationEntry {
        from: "a".into(),
        to: "b".into(),
        relation_type: "calls".into(),
        evidence: String::new(),
    });
    let report = reconcile_at(&mut kg, &input, 0);
    assert_eq!(report.edges_added, 0);
    assert_eq!(kg.stats().edge_count, 0);
    assert!(report.errors.is_empty());
}

#[test]
fn reconcile_adds_a_repeated_fact_once() {
    let mut kg = KnowledgeGraph::new();
    let mut input = empty_input();
    input.new_facts.push(fact("a", "minor", "first", "", None, ""));
    input.new_facts.push(fact("a", "critical", "second", "", None, ""));
    let report = reconcile_at(&mut kg, &input, 0);
    assert_eq!(report.added, 1);
    assert_eq!(kg.stats().node_count, 1);
    assert_eq!(kg.lookup("a").unwrap().definition, "first");
}

#[test]
fn parse_tier_ignores_case_and_defaults_to_minor() {
    assert_eq!(parse_tier("Critical"), ImportanceTier::Critical);
    assert_eq!(parse_tier("SIGNIFICANT"), ImportanceTier::Significant);
    assert_eq!(parse_tier("minor"), ImportanceTier::Minor);
    assert_eq!(parse_tier("whatever"), ImportanceTier::Minor);
}

#[test]
fn reconcile_same_input_twice_adds_nothing_the_second_time() {
    let mut kg = KnowledgeGraph::new();
    let mut input = empty_input();
    input.new_facts.push(fact("a", "minor", "first", "", None, ""));
    input.new_facts.push(fact("b", "critical", "second", "", None, ""));
    let first = reconcile_at(&mut kg, &input, 10);
    assert_eq!(first.added, 2);
    let second = reconcile_at(&mut kg, &input, 20);
    assert_eq!(second.added, 0);
    assert_eq!(kg.stats().node_count, 2);
}

#[test]
fn tier_from_lower_case_names() {
    assert_eq!(tier_from_lower("critical"), ImportanceTier::Critical);
    assert_eq!(tier_from_lower("significant"), ImportanceTier::Significant);
    assert_eq!(tier_from_lower("Critical"), ImportanceTier::Minor);
    assert_eq!(tier_from_lower(""), ImportanceTier::Minor);
}
