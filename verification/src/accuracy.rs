use vstd::prelude::*;
use crate::sorting::{
    insert_sorted_unique, lemma_is_sorted_list, lemma_push_to_set, lemma_order_by_name_bounds, lemma_order_by_name_permutes,
    lemma_order_by_name_sorted, order_by_name, sorted_list,
    stable_order_by_name, strictly_sorted, views,
};
use crate::seqs::lemma_filter_take_step;
use crate::text::{chars_of, is_space, join, push_joined, seq_lt, str_eq, trim, trim_end, trim_start, trim_str};
use vstd::string::StringExecFns;

verus! {

/// A repository that benchmark cases run against, pinned at a commit.
#[derive(Debug, Clone, PartialEq, Eq)]
pub struct BenchmarkRepository {
    pub name: String,
    pub url: String,
    pub commit: String,
}

/// One benchmark case: the files that refer to `entity` in repository `repo`.
#[derive(Debug, Clone, PartialEq, Eq)]
pub struct BenchmarkCase {
    pub name: String,
    pub repo: String,
    pub entity: String,
    pub expected_files: Vec<String>,
}

/// The repositories and cases of a benchmark directory.
#[derive(Debug, Clone, PartialEq, Eq)]
pub struct BenchmarkSuite {
    pub repositories: Vec<BenchmarkRepository>,
    pub cases: Vec<BenchmarkCase>,
}

/// A repository as plain values.
pub struct RepositoryView {
    pub name: Seq<char>,
    pub url: Seq<char>,
    pub commit: Seq<char>,
}

impl View for BenchmarkRepository {
    type V = RepositoryView;

    open spec fn view(&self) -> RepositoryView {
        RepositoryView { name: self.name@, url: self.url@, commit: self.commit@ }
    }
}

/// A benchmark case as plain values.
pub struct CaseView {
    pub name: Seq<char>,
    pub repo: Seq<char>,
    pub entity: Seq<char>,
    pub expected_files: Seq<Seq<char>>,
}

impl View for BenchmarkCase {
    type V = CaseView;

    open spec fn view(&self) -> CaseView {
        CaseView { name: self.name@, repo: self.repo@, entity: self.entity@, expected_files: views(self.expected_files@) }
    }
}

/// The repositories as plain values.
pub open spec fn repository_views(rs: Seq<BenchmarkRepository>) -> Seq<RepositoryView> {
    rs.map_values(|r: BenchmarkRepository| r@)
}

/// The cases as plain values.
pub open spec fn case_views(cs: Seq<BenchmarkCase>) -> Seq<CaseView> {
    cs.map_values(|c: BenchmarkCase| c@)
}

/// Every backslash turned into a forward slash.
pub open spec fn forward_slashes(s: Seq<char>) -> Seq<char> {
    s.map_values(|c: char| if c == '\\' { '/' } else { c })
}

/// `s` without any run of leading `./`.
pub open spec fn strip_dot_slash(s: Seq<char>) -> Seq<char>
    decreases s.len(),
{
    if s.len() >= 2 && s[0] == '.' && s[1] == '/' {
        strip_dot_slash(s.subrange(2, s.len() as int))
    } else {
        s
    }
}

/// The normal form of a file path: trimmed, with forward slashes and no leading `./`.
pub open spec fn normalized_path(s: Seq<char>) -> Seq<char> {
    strip_dot_slash(forward_slashes(trim(s)))
}

proof fn lemma_strip_from(s: Seq<char>, k: int)
    requires
        0 <= k <= s.len(),
        k % 2 == 0,
        forall|j: int| 0 <= j < k ==> #[trigger] s[j] == (if j % 2 == 0 { '.' } else { '/' }),
    ensures
        strip_dot_slash(s) == strip_dot_slash(s.subrange(k, s.len() as int)),
    decreases k,
{
    if k == 0 {
        assert(s.subrange(0, s.len() as int) == s);
    } else {
        assert(s[0] == '.' && s[1] == '/');
        let t = s.subrange(2, s.len() as int);
        assert forall|j: int| 0 <= j < k - 2 implies #[trigger] t[j] == (if j % 2 == 0 { '.' } else { '/' }) by {
            assert(t[j] == s[j + 2]);
        }
        lemma_strip_from(t, k - 2);
        assert(t.subrange(k - 2, t.len() as int) == s.subrange(k, s.len() as int));
    }
}

/// The normal form of a file path, so that paths written differently compare equal.
pub fn normalize_file_path(path: &str) -> (r: String)
    ensures
        r@ == normalized_path(path@),
{
    let trimmed = trim_str(path);
    let v = chars_of(trimmed.as_str());
    let n = v.len();
    let mut w: Vec<char> = Vec::new();
    let mut i: usize = 0;
    while i < n
        invariant
            i <= n,
            n == v@.len(),
            w@ == forward_slashes(v@).take(i as int),
        decreases n - i,
    {
        let c = v[i];
        if c == '\\' {
            w.push('/');
        } else {
            w.push(c);
        }
        i += 1;
        assert(forward_slashes(v@).take(i as int) == forward_slashes(v@).take(i - 1).push(forward_slashes(v@)[i - 1]));
    }
    assert(w@ == forward_slashes(v@));
    let mut k: usize = 0;
    while k + 1 < n && w[k] == '.' && w[k + 1] == '/'
        invariant
            k <= n,
            n == w@.len(),
            k % 2 == 0,
            forall|j: int| 0 <= j < k ==> #[trigger] w@[j] == (if j % 2 == 0 { '.' } else { '/' }),
        decreases n - k,
    {
        k += 2;
    }
    let mut out = String::new();
    let mut j: usize = k;
    while j < n
        invariant
            k <= j <= n,
            n == w@.len(),
            out@ == w@.subrange(k as int, j as int),
        decreases n - j,
    {
        out.push(w[j]);
        j += 1;
        assert(w@.subrange(k as int, j as int) == w@.subrange(k as int, j - 1).push(w@[j - 1]));
    }
    proof {
        lemma_strip_from(w@, k as int);
        let rest = w@.subrange(k as int, n as int);
        assert(!(rest.len() >= 2 && rest[0] == '.' && rest[1] == '/'));
        assert(out@ == rest);
    }
    out
}

/// The normal forms of `files`, as a set.
pub open spec fn normalized_set(files: Seq<Seq<char>>) -> Set<Seq<char>> {
    files.map_values(|f: Seq<char>| normalized_path(f)).to_set()
}

/// The normal forms of `files`, each once, in increasing order: the set that a case expects.
pub fn normalized_file_set(files: &Vec<String>) -> (r: Vec<String>)
    ensures
        strictly_sorted(views(r@)),
        views(r@).to_set() == normalized_set(views(files@)),
        views(r@) == sorted_list(normalized_set(views(files@))),
{
    let ghost fs = views(files@);
    let mut r: Vec<String> = Vec::new();
    let mut i: usize = 0;
    assert(views(r@).to_set() =~= fs.take(0).map_values(|f: Seq<char>| normalized_path(f)).to_set());
    while i < files.len()
        invariant
            i <= files@.len(),
            fs == views(files@),
            strictly_sorted(views(r@)),
            views(r@).to_set() == fs.take(i as int).map_values(|f: Seq<char>| normalized_path(f)).to_set(),
        decreases files@.len() - i,
    {
        let f = normalize_file_path(files[i].as_str());
        let ghost before = views(r@).to_set();
        insert_sorted_unique(&mut r, f);
        proof {
            let g = |f: Seq<char>| normalized_path(f);
            assert(fs[i as int] == files@[i as int]@);
            assert(fs.take(i + 1).map_values(g) =~= fs.take(i as int).map_values(g).push(normalized_path(fs[i as int])));
            lemma_push_to_set(fs.take(i as int).map_values(g), normalized_path(fs[i as int]));
        }
        i += 1;
    }
    assert(fs.take(files@.len() as int) == fs);
    proof { lemma_is_sorted_list(views(r@)); }
    r
}

/// The test that a file is (or, with `present` false, is not) among `others`.
pub open spec fn among(others: Seq<Seq<char>>, present: bool) -> spec_fn(Seq<char>) -> bool {
    |f: Seq<char>| others.contains(f) == present
}

/// How a predicted set of files compares with the expected set.
#[derive(Debug, Clone, PartialEq, Eq)]
pub struct FileMatch {
    /// Predicted and expected.
    pub true_positive_files: Vec<String>,
    /// Predicted but not expected.
    pub false_positive_files: Vec<String>,
    /// Expected but not predicted.
    pub false_negative_files: Vec<String>,
    pub true_positives: usize,
    pub false_positives: usize,
    pub false_negatives: usize,
}

/// Whether `files` holds `f`.
fn holds(files: &Vec<String>, f: &str) -> (r: bool)
    ensures
        r == views(files@).contains(f@),
{
    let ghost fs = views(files@);
    let mut i: usize = 0;
    while i < files.len()
        invariant
            i <= files@.len(),
            fs == views(files@),
            forall|j: int| 0 <= j < i ==> fs[j] != f@,
        decreases files@.len() - i,
    {
        if str_eq(files[i].as_str(), f) {
            assert(fs[i as int] == f@);
            return true;
        }
        i += 1;
    }
    false
}

/// The files of `files`, in their order, that are (or, with `present` false, are not) among `others`.
fn files_among(files: &Vec<String>, others: &Vec<String>, present: bool) -> (r: Vec<String>)
    ensures
        views(r@) == views(files@).filter(among(views(others@), present)),
{
    let ghost fs = views(files@);
    let ghost keep = among(views(others@), present);
    let mut r: Vec<String> = Vec::new();
    let mut i: usize = 0;
    while i < files.len()
        invariant
            i <= files@.len(),
            fs == views(files@),
            keep == among(views(others@), present),
            views(r@) == fs.take(i as int).filter(keep),
        decreases files@.len() - i,
    {
        let f = &files[i];
        let ghost before = views(r@);
        if holds(others, f.as_str()) == present {
            r.push(f.clone());
            assert(views(r@) =~= before.push(f@));
        }
        proof {
            assert(fs[i as int] == f@);
            lemma_filter_take_step(fs, keep, i as int);
        }
        i += 1;
    }
    assert(fs.take(files@.len() as int) == fs);
    r
}

/// Compares the predicted files with the expected ones: which were rightly predicted, which
/// were predicted and not expected, which were expected and missed, and how many of each.
pub fn compare_file_sets(predicted: &Vec<String>, expected: &Vec<String>) -> (m: FileMatch)
    ensures
        views(m.true_positive_files@) == views(predicted@).filter(among(views(expected@), true)),
        views(m.false_positive_files@) == views(predicted@).filter(among(views(expected@), false)),
        views(m.false_negative_files@) == views(expected@).filter(among(views(predicted@), false)),
        m.true_positives == m.true_positive_files@.len(),
        m.false_positives == m.false_positive_files@.len(),
        m.false_negatives == m.false_negative_files@.len(),
{
    let true_positive_files = files_among(predicted, expected, true);
    let false_positive_files = files_among(predicted, expected, false);
    let false_negative_files = files_among(expected, predicted, false);
    FileMatch {
        true_positives: true_positive_files.len(),
        false_positives: false_positive_files.len(),
        false_negatives: false_negative_files.len(),
        true_positive_files,
        false_positive_files,
        false_negative_files,
    }
}

/// The report lines that list the files a case got wrong: the false positives, then the
/// false negatives, each line only when there is a file to list.
pub open spec fn mismatch_text(fp: Seq<Seq<char>>, fn_files: Seq<Seq<char>>) -> Seq<Seq<char>> {
    (if fp.len() > 0 { seq!["  fp_files="@ + join(fp, ","@)] } else { Seq::empty() })
        + (if fn_files.len() > 0 { seq!["  fn_files="@ + join(fn_files, ","@)] } else { Seq::empty() })
}

/// The report lines that list the files a case got wrong.
pub fn mismatch_lines(m: &FileMatch) -> (lines: Vec<String>)
    ensures
        views(lines@) == mismatch_text(views(m.false_positive_files@), views(m.false_negative_files@)),
{
    let mut lines: Vec<String> = Vec::new();
    if m.false_positive_files.len() > 0 {
        let mut line = String::from_str("  fp_files=");
        push_joined(&mut line, m.false_positive_files.as_slice(), m.false_positive_files.len(), ",");
        lines.push(line);
    }
    let ghost first = views(lines@);
    if m.false_negative_files.len() > 0 {
        let mut line = String::from_str("  fn_files=");
        push_joined(&mut line, m.false_negative_files.as_slice(), m.false_negative_files.len(), ",");
        lines.push(line);
    }
    proof {
        assert(m.false_positive_files@.take(m.false_positive_files@.len() as int) == m.false_positive_files@);
        assert(m.false_negative_files@.take(m.false_negative_files@.len() as int) == m.false_negative_files@);
    }
    assert(views(lines@) =~= mismatch_text(views(m.false_positive_files@), views(m.false_negative_files@)));
    lines
}

/// The sum of the true positives of `ms`.
pub open spec fn sum_true_positives(ms: Seq<FileMatch>) -> nat
    decreases ms.len(),
{
    if ms.len() == 0 { 0 } else { sum_true_positives(ms.drop_last()) + ms.last().true_positives as nat }
}

/// The sum of the false positives of `ms`.
pub open spec fn sum_false_positives(ms: Seq<FileMatch>) -> nat
    decreases ms.len(),
{
    if ms.len() == 0 { 0 } else { sum_false_positives(ms.drop_last()) + ms.last().false_positives as nat }
}

/// The sum of the false negatives of `ms`.
pub open spec fn sum_false_negatives(ms: Seq<FileMatch>) -> nat
    decreases ms.len(),
{
    if ms.len() == 0 { 0 } else { sum_false_negatives(ms.drop_last()) + ms.last().false_negatives as nat }
}

/// Totals over several cases.
#[derive(Debug, Clone, Copy, PartialEq, Eq, Structural)]
pub struct MatchTotals {
    pub case_count: usize,
    pub true_positives: usize,
    pub false_positives: usize,
    pub false_negatives: usize,
}

/// Adds up the counts of every case.
pub fn total_counts(ms: &Vec<FileMatch>) -> (t: MatchTotals)
    requires
        sum_true_positives(ms@) <= usize::MAX,
        sum_false_positives(ms@) <= usize::MAX,
        sum_false_negatives(ms@) <= usize::MAX,
    ensures
        t.case_count == ms@.len(),
        t.true_positives == sum_true_positives(ms@),
        t.false_positives == sum_false_positives(ms@),
        t.false_negatives == sum_false_negatives(ms@),
{
    let mut tp: usize = 0;
    let mut fp: usize = 0;
    let mut fneg: usize = 0;
    let mut i: usize = 0;
    while i < ms.len()
        invariant
            i <= ms@.len(),
            sum_true_positives(ms@) <= usize::MAX,
            sum_false_positives(ms@) <= usize::MAX,
            sum_false_negatives(ms@) <= usize::MAX,
            tp == sum_true_positives(ms@.take(i as int)),
            fp == sum_false_positives(ms@.take(i as int)),
            fneg == sum_false_negatives(ms@.take(i as int)),
        decreases ms@.len() - i,
    {
        proof {
            assert(ms@.take(i + 1).drop_last() == ms@.take(i as int));
            lemma_sums_grow(ms@, i + 1);
        }
        tp = tp + ms[i].true_positives;
        fp = fp + ms[i].false_positives;
        fneg = fneg + ms[i].false_negatives;
        i += 1;
    }
    assert(ms@.take(ms@.len() as int) == ms@);
    MatchTotals { case_count: ms.len(), true_positives: tp, false_positives: fp, false_negatives: fneg }
}

/// The sums over a prefix are no more than the sums over the whole.
proof fn lemma_sums_grow(ms: Seq<FileMatch>, k: int)
    requires
        0 <= k <= ms.len(),
    ensures
        sum_true_positives(ms.take(k)) <= sum_true_positives(ms),
        sum_false_positives(ms.take(k)) <= sum_false_positives(ms),
        sum_false_negatives(ms.take(k)) <= sum_false_negatives(ms),
    decreases ms.len(),
{
    if k == ms.len() {
        assert(ms.take(k) == ms);
    } else {
        let t = ms.drop_last();
        assert(t.take(k) == ms.take(k));
        lemma_sums_grow(t, k);
    }
}

/// The test that a case is selected: it has the filter's name, or there is no filter.
pub open spec fn selected(filter: Option<Seq<char>>) -> spec_fn(CaseView) -> bool {
    |c: CaseView| match filter {
        Some(f) => c.name == f,
        None => true,
    }
}

/// A filter as plain values.
pub open spec fn filter_view(filter: Option<&str>) -> Option<Seq<char>> {
    match filter {
        Some(f) => Some(f@),
        None => None,
    }
}

/// What selecting cases answers when none is selected.
pub open spec fn no_case_text(filter: Option<Seq<char>>) -> Seq<char> {
    match filter {
        Some(f) => "no benchmark case found: "@ + f,
        None => "no benchmark cases found"@,
    }
}

/// The cases that the filter selects, in their order; an error when there is none.
pub fn select_cases(cases: Vec<BenchmarkCase>, filter: Option<&str>) -> (r: Result<Vec<BenchmarkCase>, String>)
    ensures
        r is Ok <==> case_views(cases@).filter(selected(filter_view(filter))).len() > 0,
        r matches Ok(v) ==> case_views(v@) == case_views(cases@).filter(selected(filter_view(filter))),
        r matches Err(e) ==> e@ == no_case_text(filter_view(filter)),
{
    let ghost cs = case_views(cases@);
    let ghost keep = selected(filter_view(filter));
    let mut chosen: Vec<BenchmarkCase> = Vec::new();
    for c in it: cases.into_iter()
        invariant
            keep == selected(filter_view(filter)),
            it.seq().map_values(|c: BenchmarkCase| c@) == cs,
            case_views(chosen@) == cs.take(it.index() as int).filter(keep),
    {
        let ghost j = it.index();
        assert(c@ == cs[j as int]);
        let ghost before = chosen@;
        let wanted = match filter {
            Some(f) => str_eq(c.name.as_str(), f),
            None => true,
        };
        if wanted {
            chosen.push(c);
            assert(case_views(chosen@) =~= case_views(before).push(cs[j as int]));
        }
        proof {
            lemma_filter_take_step(cs, keep, j as int);
        }
    }
    assert(cs.take(cs.len() as int) == cs);
    if chosen.len() == 0 {
        let e = match filter {
            Some(f) => {
                let mut e = String::from_str("no benchmark case found: ");
                e.append(f);
                e
            },
            None => String::from_str("no benchmark cases found"),
        };
        return Err(e);
    }
    Ok(chosen)
}

/// What looking up a case's repository answers when no repository has its name.
pub open spec fn missing_repository_text(case: CaseView) -> Seq<char> {
    "benchmark repo '"@ + case.repo + "' not found for case '"@ + case.name + "'"@
}

/// The position of the repository that `case` runs against: the last one of its name, the
/// one that a map from names keeps; an error when no repository has that name.
pub fn repository_for(repos: &Vec<BenchmarkRepository>, case: &BenchmarkCase) -> (r: Result<usize, String>)
    ensures
        r is Err <==> forall|j: int| 0 <= j < repos@.len() ==> (#[trigger] repos@[j])@.name != case@.repo,
        r matches Ok(i) ==> i < repos@.len() && repos@[i as int]@.name == case@.repo
            && forall|j: int| i < j < repos@.len() ==> (#[trigger] repos@[j])@.name != case@.repo,
        r matches Err(e) ==> e@ == missing_repository_text(case@),
{
    let mut k: usize = repos.len();
    while k > 0
        invariant
            k <= repos@.len(),
            forall|j: int| k <= j < repos@.len() ==> (#[trigger] repos@[j])@.name != case@.repo,
        decreases k,
    {
        if str_eq(repos[k - 1].name.as_str(), case.repo.as_str()) {
            return Ok(k - 1);
        }
        k -= 1;
    }
    let mut e = String::from_str("benchmark repo '");
    e.append(case.repo.as_str());
    e.append("' not found for case '");
    e.append(case.name.as_str());
    e.append("'");
    Err(e)
}

/// The normal forms of `files`, in their order.
pub fn normalize_all(files: &Vec<String>) -> (r: Vec<String>)
    ensures
        views(r@) == views(files@).map_values(|f: Seq<char>| normalized_path(f)),
{
    let mut r: Vec<String> = Vec::new();
    let mut i: usize = 0;
    while i < files.len()
        invariant
            i <= files@.len(),
            views(r@) == views(files@).take(i as int).map_values(|f: Seq<char>| normalized_path(f)),
        decreases files@.len() - i,
    {
        let ghost before = views(r@);
        r.push(normalize_file_path(files[i].as_str()));
        assert(views(r@) =~= before.push(normalized_path(files@[i as int]@)));
        assert(views(files@).take(i + 1).map_values(|f: Seq<char>| normalized_path(f))
            =~= views(files@).take(i as int).map_values(|f: Seq<char>| normalized_path(f)).push(normalized_path(files@[i as int]@)));
        i += 1;
    }
    assert(views(files@).take(files@.len() as int) == views(files@));
    r
}

/// A case with its expected files in normal form.
pub open spec fn normalized_case(c: CaseView) -> CaseView {
    CaseView { expected_files: c.expected_files.map_values(|f: Seq<char>| normalized_path(f)), ..c }
}

/// The names of the repositories.
pub open spec fn repository_names(rs: Seq<RepositoryView>) -> Seq<Seq<char>> {
    rs.map_values(|r: RepositoryView| r.name)
}

/// The names of the cases.
pub open spec fn case_names(cs: Seq<CaseView>) -> Seq<Seq<char>> {
    cs.map_values(|c: CaseView| c.name)
}

/// The suite as the benchmark directory gives it: repositories in order of name, and cases,
/// their expected files in normal form, in order of name; equal names keep their order.
pub fn arrange_suite(repositories: Vec<BenchmarkRepository>, cases: Vec<BenchmarkCase>) -> (s: BenchmarkSuite)
    ensures
        repository_views(s.repositories@) == order_by_name(repository_names(repository_views(repositories@)))
            .map_values(|k: usize| repository_views(repositories@)[k as int]),
        case_views(s.cases@) == order_by_name(case_names(case_views(cases@)))
            .map_values(|k: usize| normalized_case(case_views(cases@)[k as int])),
{
    let ghost rv = repository_views(repositories@);
    let ghost cv = case_views(cases@);
    let mut names: Vec<String> = Vec::new();
    let mut i: usize = 0;
    while i < repositories.len()
        invariant
            i <= repositories@.len(),
            rv == repository_views(repositories@),
            views(names@) == repository_names(rv).take(i as int),
        decreases repositories@.len() - i,
    {
        let ghost before = views(names@);
        names.push(repositories[i].name.clone());
        assert(rv[i as int] == repositories@[i as int]@);
        assert(views(names@) =~= before.push(rv[i as int].name));
        assert(repository_names(rv).take(i + 1) =~= repository_names(rv).take(i as int).push(rv[i as int].name));
        i += 1;
    }
    assert(repository_names(rv).take(repositories@.len() as int) == repository_names(rv));
    let order = stable_order_by_name(&names);
    proof { lemma_order_by_name_bounds(repository_names(rv)); }
    let mut arranged: Vec<BenchmarkRepository> = Vec::new();
    let mut j: usize = 0;
    while j < order.len()
        invariant
            j <= order@.len(),
            rv == repository_views(repositories@),
            order@ == order_by_name(repository_names(rv)),
            order@.len() == rv.len(),
            forall|q: int| 0 <= q < rv.len() ==> #[trigger] order@[q] < rv.len(),
            repository_views(arranged@) == order@.take(j as int).map_values(|k: usize| rv[k as int]),
        decreases order@.len() - j,
    {
        let r = &repositories[order[j]];
        let copy = BenchmarkRepository { name: r.name.clone(), url: r.url.clone(), commit: r.commit.clone() };
        let ghost before = repository_views(arranged@);
        arranged.push(copy);
        assert(rv[order@[j as int] as int] == repositories@[order@[j as int] as int]@);
        assert(repository_views(arranged@) =~= before.push(rv[order@[j as int] as int]));
        assert(order@.take(j + 1).map_values(|k: usize| rv[k as int])
            =~= order@.take(j as int).map_values(|k: usize| rv[k as int]).push(rv[order@[j as int] as int]));
        j += 1;
    }
    assert(order@.take(order@.len() as int) == order@);
    let mut case_name_list: Vec<String> = Vec::new();
    let mut i: usize = 0;
    while i < cases.len()
        invariant
            i <= cases@.len(),
            cv == case_views(cases@),
            views(case_name_list@) == case_names(cv).take(i as int),
        decreases cases@.len() - i,
    {
        let ghost before = views(case_name_list@);
        case_name_list.push(cases[i].name.clone());
        assert(cv[i as int] == cases@[i as int]@);
        assert(views(case_name_list@) =~= before.push(cv[i as int].name));
        assert(case_names(cv).take(i + 1) =~= case_names(cv).take(i as int).push(cv[i as int].name));
        i += 1;
    }
    assert(case_names(cv).take(cases@.len() as int) == case_names(cv));
    let case_order = stable_order_by_name(&case_name_list);
    proof { lemma_order_by_name_bounds(case_names(cv)); }
    let mut arranged_cases: Vec<BenchmarkCase> = Vec::new();
    let mut j: usize = 0;
    while j < case_order.len()
        invariant
            j <= case_order@.len(),
            cv == case_views(cases@),
            case_order@ == order_by_name(case_names(cv)),
            case_order@.len() == cv.len(),
            forall|q: int| 0 <= q < cv.len() ==> #[trigger] case_order@[q] < cv.len(),
            case_views(arranged_cases@) == case_order@.take(j as int).map_values(|k: usize| normalized_case(cv[k as int])),
        decreases case_order@.len() - j,
    {
        let c = &cases[case_order[j]];
        let copy = BenchmarkCase {
            name: c.name.clone(),
            repo: c.repo.clone(),
            entity: c.entity.clone(),
            expected_files: normalize_all(&c.expected_files),
        };
        let ghost before = case_views(arranged_cases@);
        arranged_cases.push(copy);
        let ghost k = case_order@[j as int];
        assert(cv[k as int] == cases@[k as int]@);
        assert(case_views(arranged_cases@) =~= before.push(normalized_case(cv[k as int])));
        assert(case_order@.take(j + 1).map_values(|k: usize| normalized_case(cv[k as int]))
            =~= case_order@.take(j as int).map_values(|k: usize| normalized_case(cv[k as int])).push(normalized_case(cv[k as int])));
        j += 1;
    }
    assert(case_order@.take(case_order@.len() as int) == case_order@);
    BenchmarkSuite { repositories: arranged, cases: arranged_cases }
}

/// Every predicted file is either rightly predicted or a false positive, and every expected
/// file is either rightly predicted or missed: the counts of a comparison add up.
pub proof fn lemma_match_partitions(predicted: Seq<Seq<char>>, expected: Seq<Seq<char>>)
    ensures
        predicted.filter(among(expected, true)).len() + predicted.filter(among(expected, false)).len()
            == predicted.len(),
        expected.filter(among(predicted, true)).len() + expected.filter(among(predicted, false)).len()
            == expected.len(),
{
    lemma_split_count(predicted, expected);
    lemma_split_count(expected, predicted);
}

proof fn lemma_split_count(files: Seq<Seq<char>>, others: Seq<Seq<char>>)
    ensures
        files.filter(among(others, true)).len() + files.filter(among(others, false)).len() == files.len(),
    decreases files.len(),
{
    reveal(Seq::filter);
    if files.len() > 0 {
        lemma_split_count(files.drop_last(), others);
    }
}

/// An arranged suite takes each given repository once, in order of name (equal names in the
/// order given); the same holds of its cases.
pub proof fn lemma_suite_in_name_order(rs: Seq<RepositoryView>, cs: Seq<CaseView>)
    requires
        rs.len() <= usize::MAX,
        cs.len() <= usize::MAX,
    ensures
        ({
            let o = order_by_name(repository_names(rs));
            &&& o.len() == rs.len()
            &&& forall|i: int| 0 <= i < o.len() ==> #[trigger] o[i] < rs.len()
            &&& forall|i: int, j: int| 0 <= i < o.len() && 0 <= j < o.len() && i != j ==> #[trigger] o[i] != #[trigger] o[j]
            &&& forall|i: int, j: int| 0 <= i < j < o.len() ==>
                !seq_lt(rs[#[trigger] o[j] as int].name, rs[#[trigger] o[i] as int].name)
        }),
        ({
            let o = order_by_name(case_names(cs));
            &&& o.len() == cs.len()
            &&& forall|i: int| 0 <= i < o.len() ==> #[trigger] o[i] < cs.len()
            &&& forall|i: int, j: int| 0 <= i < o.len() && 0 <= j < o.len() && i != j ==> #[trigger] o[i] != #[trigger] o[j]
            &&& forall|i: int, j: int| 0 <= i < j < o.len() ==>
                !seq_lt(cs[#[trigger] o[j] as int].name, cs[#[trigger] o[i] as int].name)
        }),
{
    let rn = repository_names(rs);
    let cn = case_names(cs);
    lemma_order_by_name_bounds(rn);
    lemma_order_by_name_permutes(rn);
    lemma_order_by_name_sorted(rn);
    lemma_order_by_name_bounds(cn);
    lemma_order_by_name_permutes(cn);
    lemma_order_by_name_sorted(cn);
    let o = order_by_name(rn);
    assert forall|i: int, j: int| 0 <= i < j < o.len() implies
        !seq_lt(rs[#[trigger] o[j] as int].name, rs[#[trigger] o[i] as int].name) by {
        assert(rn[o[j] as int] == rs[o[j] as int].name);
        assert(rn[o[i] as int] == rs[o[i] as int].name);
    }
    let q = order_by_name(cn);
    assert forall|i: int, j: int| 0 <= i < j < q.len() implies
        !seq_lt(cs[#[trigger] q[j] as int].name, cs[#[trigger] q[i] as int].name) by {
        assert(cn[q[j] as int] == cs[q[j] as int].name);
        assert(cn[q[i] as int] == cs[q[i] as int].name);
    }
}

proof fn lemma_trim_end_last(s: Seq<char>)
    ensures
        trim_end(s).len() > 0 ==> !is_space(trim_end(s).last()),
    decreases s.len(),
{
    if s.len() > 0 && is_space(s.last()) {
        lemma_trim_end_last(s.drop_last());
    }
}

proof fn lemma_strip_suffix(s: Seq<char>)
    ensures
        strip_dot_slash(s).len() <= s.len(),
        (s.len() - strip_dot_slash(s).len()) % 2 == 0,
        strip_dot_slash(s) == s.subrange(s.len() - strip_dot_slash(s).len(), s.len() as int),
        forall|j: int| 0 <= j < s.len() - strip_dot_slash(s).len() ==> #[trigger] s[j] == (if j % 2 == 0 { '.' } else { '/' }),
        !(strip_dot_slash(s).len() >= 2 && strip_dot_slash(s)[0] == '.' && strip_dot_slash(s)[1] == '/'),
    decreases s.len(),
{
    if s.len() >= 2 && s[0] == '.' && s[1] == '/' {
        let t = s.subrange(2, s.len() as int);
        lemma_strip_suffix(t);
        let r = strip_dot_slash(t);
        assert(t.subrange(t.len() - r.len(), t.len() as int) == s.subrange(s.len() - r.len(), s.len() as int));
        assert forall|j: int| 0 <= j < s.len() - r.len() implies #[trigger] s[j] == (if j % 2 == 0 { '.' } else { '/' }) by {
            if j >= 2 {
                assert(s[j] == t[j - 2]);
            }
        }
    } else {
        assert(s.subrange(0, s.len() as int) == s);
    }
}

/// A normalized path has no backslash and does not start with `./`; it is what is left of the
/// trimmed path, with forward slashes, once a run of leading `./` is taken off; and
/// normalizing it again changes nothing, unless it starts with white space that a leading
/// `./` hid.
pub proof fn lemma_normalized_path_laws(s: Seq<char>)
    ensures
        forall|i: int| 0 <= i < normalized_path(s).len() ==> #[trigger] normalized_path(s)[i] != '\\',
        !(normalized_path(s).len() >= 2 && normalized_path(s)[0] == '.' && normalized_path(s)[1] == '/'),
        ({
            let f = forward_slashes(trim(s));
            let r = normalized_path(s);
            &&& (f.len() - r.len()) % 2 == 0
            &&& r == f.subrange(f.len() - r.len(), f.len() as int)
            &&& forall|j: int| 0 <= j < f.len() - r.len() ==> #[trigger] f[j] == (if j % 2 == 0 { '.' } else { '/' })
        }),
        trim_start(normalized_path(s)) == normalized_path(s) ==> normalized_path(normalized_path(s)) == normalized_path(s),
{
    let t = trim(s);
    let f = forward_slashes(t);
    let r = normalized_path(s);
    lemma_strip_suffix(f);
    let d = f.len() - r.len();
    assert forall|i: int| 0 <= i < r.len() implies #[trigger] r[i] != '\\' by {
        assert(r[i] == f[d + i]);
    }
    if trim_start(r) == r {
        if r.len() > 0 {
            lemma_trim_end_last(trim_start(s));
            assert(r.last() == f[f.len() - 1]);
            assert(!is_space(t.last()));
            assert(trim_end(r) == r);
        }
        assert(trim(r) == r);
        assert(forward_slashes(r) =~= r);
    }
}

} // verus!
