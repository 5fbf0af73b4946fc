use autoclaw::snapshot::{extract_heuristic, facts_from_matches, FactType};

    #[test]
    fn test_extract_decision() {
        let text = "[User] let's use Levenshtein instead of LCS\n[Assistant] Good choice, switching to Levenshtein for better results.";
        let facts = extract_heuristic(text);
        assert!(!facts.is_empty());
        assert!(facts.iter().any(|f| f.fact_type == FactType::Decision));
    }

    #[test]
    fn test_extract_error() {
        let text = "[Assistant] The bug was caused by threshold being too low, generating false positives.";
        let facts = extract_heuristic(text);
        assert!(facts.iter().any(|f| f.fact_type == FactType::Error));
    }

    #[test]
    fn test_extract_supersession() {
        let text = "[User] instead of LCS we'll use Levenshtein distance";
        let facts = extract_heuristic(text);
        assert!(facts.iter().any(|f| f.fact_type == FactType::Supersession));
    }

    #[test]
    fn test_extract_relation() {
        let text = "[Assistant] resolver.rs depends on graph.rs for the merge operation";
        let facts = extract_heuristic(text);
        assert!(facts.iter().any(|f| f.fact_type == FactType::Relation));
    }

    #[test]
    fn test_no_extraction_from_noise() {
        let text = "[Assistant] Done. Let me know if you need anything else.";
        let facts = extract_heuristic(text);
        assert!(facts.is_empty());
    }

    #[test]
    fn test_extract_fix() {
        let text = "[Assistant] The fix was to increase the threshold to 0.85 for better precision.";
        let facts = extract_heuristic(text);
        assert!(facts.iter().any(|f| f.fact_type == FactType::Error)); // fix pattern is under error
    }

    #[test]
    fn test_multiple_facts_from_same_text() {
        let text = "[User] let's use Levenshtein. The bug was caused by LCS failing on short names. instead of LCS let's use Levenshtein distance";
        let facts = extract_heuristic(text);
        assert!(facts.len() >= 2);
    }

#[test]
fn extract_trims_matches_and_keeps_pattern_order() {
    let text = "[Assistant] utils.rs requires   config.rs  ";
    let facts = extract_heuristic(text);
    let views: Vec<(FactType, &str)> = facts.iter().map(|f| (f.fact_type, f.text.as_str())).collect();
    assert_eq!(views, vec![(FactType::Relation, "utils.rs requires   config.rs")]);
}

#[test]
fn extract_reports_decisions_before_errors() {
    let text = "The fix was to raise the limit. We decided to keep the cache.";
    let facts = extract_heuristic(text);
    let kinds: Vec<FactType> = facts.iter().map(|f| f.fact_type).collect();
    assert_eq!(kinds.first(), Some(&FactType::Decision));
    assert_eq!(kinds.last(), Some(&FactType::Error));
}

#[test]
fn facts_from_matches_trims_and_tags_in_order() {
    let found = vec![
        (Some(vec![" use Rust ".to_string(), "go with LCS\n".to_string()]), FactType::Decision),
        (None, FactType::Error),
        (Some(vec![]), FactType::Supersession),
        (Some(vec!["a calls b".to_string()]), FactType::Relation),
    ];
    let facts = facts_from_matches(&found);
    let got: Vec<(FactType, &str)> = facts.iter().map(|f| (f.fact_type, f.text.as_str())).collect();
    assert_eq!(
        got,
        vec![(FactType::Decision, "use Rust"), (FactType::Decision, "go with LCS"), (FactType::Relation, "a calls b")]
    );
}

#[test]
fn extracted_facts_are_trimmed_pieces_of_the_text() {
    let text = "We decided to use SQLite for storage.\nThe bug was caused by a race in the cache. parser depends on lexer";
    let facts = extract_heuristic(text);
    assert!(!facts.is_empty());
    for f in &facts {
        assert!(text.contains(f.text.as_str()));
        assert_eq!(f.text.trim(), f.text);
    }
}
