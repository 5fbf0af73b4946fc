use autoclaw::accuracy::{
    arrange_suite, compare_file_sets, mismatch_lines, normalize_file_path, normalized_file_set, repository_for,
    select_cases, total_counts, BenchmarkCase, BenchmarkRepository,
};

fn strings(v: &[&str]) -> Vec<String> {
    v.iter().map(|s| s.to_string()).collect()
}

fn case(name: &str, repo: &str, files: &[&str]) -> BenchmarkCase {
    BenchmarkCase { name: name.into(), repo: repo.into(), entity: "Entity".into(), expected_files: strings(files) }
}

fn repo(name: &str, url: &str) -> BenchmarkRepository {
    BenchmarkRepository { name: name.into(), url: url.into(), commit: "abc123".into() }
}

#[test]
fn compare_counts_true_false_positives_and_negatives() {
    let predicted = strings(&["a.py", "b.py", "c.py"]);
    let expected = strings(&["b.py", "c.py", "d.py"]);
    let m = compare_file_sets(&predicted, &expected);
    assert_eq!(m.true_positives, 2);
    assert_eq!(m.false_positives, 1);
    assert_eq!(m.false_negatives, 1);
    assert_eq!(m.true_positive_files, strings(&["b.py", "c.py"]));
    assert_eq!(m.false_positive_files, strings(&["a.py"]));
    assert_eq!(m.false_negative_files, strings(&["d.py"]));
}

#[test]
fn compare_identical_sets_has_no_misses() {
    let files = strings(&["x.rs", "y.rs"]);
    let m = compare_file_sets(&files, &files);
    assert_eq!(m.true_positives, 2);
    assert_eq!(m.false_positives, 0);
    assert_eq!(m.false_negatives, 0);
    assert!(mismatch_lines(&m).is_empty());
}

#[test]
fn mismatch_lines_list_wrong_files() {
    let m = compare_file_sets(&strings(&["a.py", "e.py", "b.py"]), &strings(&["b.py", "d.py"]));
    assert_eq!(mismatch_lines(&m), strings(&["  fp_files=a.py,e.py", "  fn_files=d.py"]));
}

#[test]
fn normalize_strips_dot_slash_and_backslashes() {
    assert_eq!(normalize_file_path("  ././src\\lib.rs "), "src/lib.rs");
    assert_eq!(normalize_file_path("src/./a.rs"), "src/./a.rs");
    assert_eq!(normalize_file_path("./"), "");
}

#[test]
fn normalized_file_set_sorts_and_deduplicates() {
    let set = normalized_file_set(&strings(&["./b.py", "a.py", "b.py", ".\\a.py"]));
    assert_eq!(set, strings(&["a.py", "b.py"]));
}

#[test]
fn select_cases_by_name() {
    let cases = vec![case("one", "r", &[]), case("two", "r", &[]), case("one", "s", &[])];
    let chosen = select_cases(cases.clone(), Some("one")).unwrap();
    assert_eq!(chosen.len(), 2);
    assert_eq!(chosen[1].repo, "s");
    assert_eq!(select_cases(cases, None).unwrap().len(), 3);
}

#[test]
fn select_cases_reports_missing_case() {
    let cases = vec![case("one", "r", &[])];
    assert_eq!(select_cases(cases, Some("three")).unwrap_err(), "no benchmark case found: three");
    assert_eq!(select_cases(vec![], None).unwrap_err(), "no benchmark cases found");
}

#[test]
fn repository_lookup_takes_last_of_a_name() {
    let repos = vec![repo("httpx", "u1"), repo("fastapi", "u2"), repo("httpx", "u3")];
    assert_eq!(repository_for(&repos, &case("c", "httpx", &[])), Ok(2));
    assert_eq!(repository_for(&repos, &case("c", "fastapi", &[])), Ok(1));
    assert_eq!(
        repository_for(&repos, &case("c1", "flask", &[])).unwrap_err(),
        "benchmark repo 'flask' not found for case 'c1'"
    );
}

#[test]
fn arrange_suite_sorts_by_name_and_normalizes() {
    let repos = vec![repo("zeta", "z"), repo("alpha", "a1"), repo("alpha", "a2")];
    let cases = vec![case("b-case", "zeta", &["./x.py", "y\\z.py"]), case("a-case", "alpha", &[])];
    let suite = arrange_suite(repos, cases);
    let urls: Vec<&str> = suite.repositories.iter().map(|r| r.url.as_str()).collect();
    assert_eq!(urls, vec!["a1", "a2", "z"]);
    assert_eq!(suite.cases[0].name, "a-case");
    assert_eq!(suite.cases[1].name, "b-case");
    assert_eq!(suite.cases[1].expected_files, strings(&["x.py", "y/z.py"]));
}

#[test]
fn totals_add_up_cases() {
    let a = compare_file_sets(&strings(&["a", "b"]), &strings(&["b", "c"]));
    let b = compare_file_sets(&strings(&["x"]), &strings(&["x"]));
    let t = total_counts(&vec![a, b]);
    assert_eq!(t.case_count, 2);
    assert_eq!(t.true_positives, 2);
    assert_eq!(t.false_positives, 1);
    assert_eq!(t.false_negatives, 1);
}

#[test]
fn match_counts_partition_both_sets() {
    let predicted = strings(&["a", "b", "c", "d"]);
    let expected = strings(&["c", "d", "e"]);
    let m = compare_file_sets(&predicted, &expected);
    assert_eq!(m.true_positives + m.false_positives, predicted.len());
    assert_eq!(m.true_positives + m.false_negatives, expected.len());
}
