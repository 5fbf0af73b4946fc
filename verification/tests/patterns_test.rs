use autoclaw::patterns::{format_impact_report, group_by_pattern, ReferencePattern};
use autoclaw::treesitter::{CodeReference, RefType};

fn make_ref(file: &str, target: &str, rt: RefType) -> CodeReference {
    CodeReference {
        source_file: file.into(),
        source_line: 1,
        target_name: target.into(),
        ref_type: rt,
    }
}

#[test]
fn test_group_same_type() {
    let refs = vec![
        make_ref("a.rs", "chunk_text", RefType::Calls),
        make_ref("b.rs", "chunk_text", RefType::Calls),
        make_ref("c.rs", "chunk_text", RefType::Calls),
    ];
    let patterns = group_by_pattern(&refs);
    assert_eq!(patterns.len(), 1);
    assert_eq!(patterns[0].count, 3);
    assert!(patterns[0].pattern.contains("calls chunk_text"));
}

#[test]
fn test_group_read_write_separately() {
    let refs = vec![
        make_ref("a.rs", "confidence", RefType::ReadsField),
        make_ref("b.rs", "confidence", RefType::ReadsField),
        make_ref("c.rs", "confidence", RefType::WritesField),
    ];
    let patterns = group_by_pattern(&refs);
    assert_eq!(patterns.len(), 2);
    assert!(patterns.iter().any(|p| p.pattern.contains("reads") && p.count == 2));
    assert!(patterns.iter().any(|p| p.pattern.contains("writes") && p.count == 1));
}

#[test]
fn test_group_empty() {
    let patterns = group_by_pattern(&[]);
    assert!(patterns.is_empty());
}

#[test]
fn test_format_report() {
    let patterns = vec![ReferencePattern {
        pattern: "calls chunk_text".into(),
        count: 47,
        example_files: vec!["a.rs".into(), "b.rs".into(), "c.rs".into()],
        total_files: 12,
    }];
    let report = format_impact_report("chunk_text", &patterns);
    assert!(report.contains("IMPACT: chunk_text"));
    assert!(report.contains("47"));
    assert!(report.contains("12 files"));
    assert!(report.contains("+9")); // 12 - 3 example files
}

#[test]
fn test_sorted_by_count() {
    let refs = vec![
        make_ref("a.rs", "func", RefType::Calls),
        make_ref("b.rs", "field", RefType::ReadsField),
        make_ref("c.rs", "field", RefType::ReadsField),
        make_ref("d.rs", "field", RefType::ReadsField),
    ];
    let patterns = group_by_pattern(&refs);
    assert!(patterns[0].count >= patterns[1].count, "Should be sorted by count desc");
}

#[test]
fn test_deduplicates_files() {
    let refs = vec![
        make_ref("a.rs", "func", RefType::Calls),
        make_ref("a.rs", "func", RefType::Calls), // same file, 2 calls
    ];
    let patterns = group_by_pattern(&refs);
    assert_eq!(patterns[0].count, 2);
    assert_eq!(patterns[0].total_files, 1); // deduplicated
}

#[test]
fn group_keys_all_reference_kinds() {
    let refs = vec![
        make_ref("src/a.rs", "f", RefType::MethodCall),
        make_ref("src/b.rs", "T", RefType::UsesType),
        make_ref("src/c.rs", "x", RefType::WritesField),
        make_ref("src/d.rs", "x", RefType::ReadsField),
        make_ref("src/e.rs", "g", RefType::Calls),
    ];
    let patterns = group_by_pattern(&refs);
    let keys: Vec<&str> = patterns.iter().map(|p| p.pattern.as_str()).collect();
    assert_eq!(keys, vec!["calls .f()", "uses type T", "writes .x", "reads .x", "calls g"]);
}

#[test]
fn group_uses_short_sorted_file_names_and_five_examples() {
    let refs: Vec<CodeReference> = ["g", "b", "f", "a", "e", "c", "d", "b"]
        .iter()
        .map(|n| make_ref(&format!("src/dir/{}.rs", n), "t", RefType::Calls))
        .collect();
    let patterns = group_by_pattern(&refs);
    assert_eq!(patterns.len(), 1);
    assert_eq!(patterns[0].count, 8);
    assert_eq!(patterns[0].total_files, 7);
    assert_eq!(patterns[0].example_files, vec!["a.rs", "b.rs", "c.rs", "d.rs", "e.rs"]);
}

#[test]
fn group_ties_keep_first_appearance_order() {
    let refs = vec![
        make_ref("a.rs", "x", RefType::ReadsField),
        make_ref("b.rs", "y", RefType::Calls),
        make_ref("c.rs", "y", RefType::Calls),
        make_ref("d.rs", "x", RefType::ReadsField),
        make_ref("e.rs", "z", RefType::UsesType),
    ];
    let patterns = group_by_pattern(&refs);
    let keys: Vec<(&str, usize)> = patterns.iter().map(|p| (p.pattern.as_str(), p.count)).collect();
    assert_eq!(keys, vec![("reads .x", 2), ("calls y", 2), ("uses type z", 1)]);
}

#[test]
fn format_report_exact_text() {
    let patterns = vec![
        ReferencePattern {
            pattern: "calls f".into(),
            count: 3,
            example_files: vec!["a.rs".into(), "b.rs".into()],
            total_files: 2,
        },
        ReferencePattern {
            pattern: "reads .x".into(),
            count: 9,
            example_files: vec!["a.rs".into(), "b.rs".into(), "c.rs".into(), "d.rs".into(), "e.rs".into()],
            total_files: 8,
        },
    ];
    let report = format_impact_report("f", &patterns);
    assert_eq!(
        report,
        "\u{26a0}\u{fe0f} IMPACT: f\nREFERENCES: 12 in 10 files\nPATTERNS:\n  3x calls f \u{2014} a.rs, b.rs\n  9x reads .x \u{2014} a.rs, b.rs, c.rs +5\n"
    );
}

#[test]
fn format_report_empty_is_empty() {
    assert_eq!(format_impact_report("f", &[]), "");
}

#[test]
fn pattern_counts_add_up_to_references() {
    let refs = vec![
        make_ref("a.rs", "x", RefType::Calls),
        make_ref("b.rs", "x", RefType::ReadsField),
        make_ref("c.rs", "x", RefType::Calls),
        make_ref("d.rs", "y", RefType::UsesType),
        make_ref("a.rs", "x", RefType::Calls),
    ];
    let patterns = group_by_pattern(&refs);
    assert_eq!(patterns.iter().map(|p| p.count).sum::<usize>(), refs.len());
    assert_eq!(patterns[0].count, 3);
    assert_eq!(patterns[0].total_files, 2);
    for w in patterns.windows(2) {
        assert!(w[0].count >= w[1].count);
    }
}

#[test]
fn pattern_files_are_shown_by_final_component() {
    let refs = vec![
        make_ref("src/a.rs", "x", RefType::Calls),
        make_ref("lib/a.rs", "x", RefType::Calls),
        make_ref("pkg/sub/./", "x", RefType::Calls),
        make_ref("src/a.rs", "x", RefType::Calls),
    ];
    let patterns = group_by_pattern(&refs);
    assert_eq!(patterns.len(), 1);
    assert_eq!(patterns[0].count, 4);
    assert_eq!(patterns[0].example_files, vec!["a.rs".to_string(), "sub".to_string()]);
    assert_eq!(patterns[0].total_files, 2);
}
