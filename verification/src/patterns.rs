use vstd::prelude::*;
use crate::seqs::lemma_filter_take_step;
use crate::sorting::{
    insert_desc, insert_sorted_unique, keyed, lemma_is_sorted_list, lemma_order_desc_bounds,
    lemma_order_desc_permutes, lemma_order_desc_sorted, lemma_sort_desc_elems, lemma_sorted_list_exists, order_desc,
    sort_desc, sorted_list, stable_order_desc, strictly_sorted, views,
};
use crate::text::{decimal, join, push_decimal, push_joined, str_eq};
use crate::treesitter::{CodeReference, RefType};
use vstd::string::StringExecFns;

verus! {

/// Many references to one entity, folded into one line of an impact report.
#[derive(Debug, Clone)]
pub struct ReferencePattern {
    pub pattern: String,
    pub count: usize,
    pub example_files: Vec<String>,
    pub total_files: usize,
}

/// A pattern as plain values.
pub struct PatternView {
    pub pattern: Seq<char>,
    pub count: nat,
    pub example_files: Seq<Seq<char>>,
    pub total_files: nat,
}

impl View for ReferencePattern {
    type V = PatternView;

    open spec fn view(&self) -> PatternView {
        PatternView {
            pattern: self.pattern@,
            count: self.count as nat,
            example_files: views(self.example_files@),
            total_files: self.total_files as nat,
        }
    }
}

/// The pattern line a reference belongs to: how it refers, and to what.
pub open spec fn pattern_key(r: CodeReference) -> Seq<char> {
    match r.ref_type {
        RefType::Calls => "calls "@ + r.target_name@,
        RefType::MethodCall => "calls ."@ + r.target_name@ + "()"@,
        RefType::ReadsField => "reads ."@ + r.target_name@,
        RefType::WritesField => "writes ."@ + r.target_name@,
        RefType::UsesType => "uses type "@ + r.target_name@,
    }
}

/// The keys of `ks` in the order they first occur, each once.
pub open spec fn distinct_keys(ks: Seq<Seq<char>>) -> Seq<Seq<char>>
    decreases ks.len(),
{
    if ks.len() == 0 {
        Seq::empty()
    } else if distinct_keys(ks.drop_last()).contains(ks.last()) {
        distinct_keys(ks.drop_last())
    } else {
        distinct_keys(ks.drop_last()).push(ks.last())
    }
}

/// The pattern keys of the references, in order.
pub open spec fn keys_of(refs: Seq<CodeReference>) -> Seq<Seq<char>> {
    refs.map_values(|r: CodeReference| pattern_key(r))
}

/// The test that a reference belongs to pattern `k`.
pub open spec fn has_key(k: Seq<char>) -> spec_fn(CodeReference) -> bool {
    |r: CodeReference| pattern_key(r) == k
}

/// The short file names of the references that belong to pattern `k`.
pub open spec fn key_files(refs: Seq<CodeReference>, names: Seq<Seq<char>>, k: Seq<char>) -> Set<Seq<char>> {
    Set::new(|f: Seq<char>| exists|i: int| 0 <= i < refs.len() && pattern_key(#[trigger] refs[i]) == k && names[i] == f)
}

/// The pattern line for key `k`: how many references it folds, in how many files, and the
/// first five of those files in order.
pub open spec fn pattern_for(refs: Seq<CodeReference>, names: Seq<Seq<char>>, k: Seq<char>) -> PatternView {
    let files = sorted_list(key_files(refs, names, k));
    PatternView {
        pattern: k,
        count: refs.filter(has_key(k)).len(),
        example_files: if files.len() <= 5 { files } else { files.take(5) },
        total_files: files.len(),
    }
}

/// The pattern lines, in the order their keys first occur.
pub open spec fn patterns_unsorted(refs: Seq<CodeReference>, names: Seq<Seq<char>>) -> Seq<PatternView> {
    distinct_keys(keys_of(refs)).map_values(|k: Seq<char>| pattern_for(refs, names, k))
}

/// The pattern lines of the references, the most frequent first; lines of equal count keep
/// the order in which their keys first occur. `names[i]` is the short file name of `refs[i]`.
pub open spec fn grouped(refs: Seq<CodeReference>, names: Seq<Seq<char>>) -> Seq<PatternView> {
    let ps = patterns_unsorted(refs, names);
    order_desc(ps.map_values(|p: PatternView| p.count as usize)).map_values(|i: usize| ps[i as int])
}

/// The pattern key of a reference.
fn make_key(r: &CodeReference) -> (k: String)
    ensures
        k@ == pattern_key(*r),
{
    match r.ref_type {
        RefType::Calls => {
            let mut k = String::from_str("calls ");
            k.append(r.target_name.as_str());
            k
        },
        RefType::MethodCall => {
            let mut k = String::from_str("calls .");
            k.append(r.target_name.as_str());
            k.append("()");
            k
        },
        RefType::ReadsField => {
            let mut k = String::from_str("reads .");
            k.append(r.target_name.as_str());
            k
        },
        RefType::WritesField => {
            let mut k = String::from_str("writes .");
            k.append(r.target_name.as_str());
            k
        },
        RefType::UsesType => {
            let mut k = String::from_str("uses type ");
            k.append(r.target_name.as_str());
            k
        },
    }
}

/// References gathered under one pattern key so far.
struct Group {
    key: String,
    count: usize,
    files: Vec<String>,
}

/// The groups describe the references `refs` with short names `names`.
spec fn groups_describe(gs: Seq<Group>, refs: Seq<CodeReference>, names: Seq<Seq<char>>) -> bool {
    let ks = distinct_keys(keys_of(refs));
    &&& gs.len() == ks.len()
    &&& forall|g: int| 0 <= g < gs.len() ==> {
        let grp = #[trigger] gs[g];
        &&& grp.key@ == ks[g]
        &&& grp.count == refs.filter(has_key(ks[g])).len()
        &&& strictly_sorted(views(grp.files@))
        &&& views(grp.files@).to_set() == key_files(refs, names, ks[g])
    }
}

proof fn lemma_distinct_keys_contains(ks: Seq<Seq<char>>, k: Seq<char>)
    ensures
        distinct_keys(ks).contains(k) <==> ks.contains(k),
    decreases ks.len(),
{
    if ks.len() > 0 {
        let t = ks.drop_last();
        let d = distinct_keys(t);
        lemma_distinct_keys_contains(t, k);
        assert(ks.contains(k) <==> t.contains(k) || ks.last() == k) by {
            if ks.contains(k) {
                let j = choose|j: int| 0 <= j < ks.len() && ks[j] == k;
                if j < t.len() { assert(t[j] == k); }
            }
            if t.contains(k) {
                let j = choose|j: int| 0 <= j < t.len() && t[j] == k;
                assert(ks[j] == k);
            }
            if ks.last() == k {
                assert(ks[ks.len() - 1] == k);
            }
        }
        if !d.contains(ks.last()) {
            let e = d.push(ks.last());
            assert(e.contains(k) <==> d.contains(k) || ks.last() == k) by {
                if e.contains(k) {
                    let j = choose|j: int| 0 <= j < e.len() && e[j] == k;
                    if j < d.len() { assert(d[j] == k); }
                }
                if d.contains(k) {
                    let j = choose|j: int| 0 <= j < d.len() && d[j] == k;
                    assert(e[j] == k);
                }
                if ks.last() == k {
                    assert(e[d.len() as int] == k);
                }
            }
        }
    }
}

proof fn lemma_distinct_keys_unique(ks: Seq<Seq<char>>)
    ensures
        forall|a: int, b: int| 0 <= a < b < distinct_keys(ks).len() ==> distinct_keys(ks)[a] != distinct_keys(ks)[b],
    decreases ks.len(),
{
    if ks.len() > 0 {
        let t = ks.drop_last();
        let d = distinct_keys(t);
        lemma_distinct_keys_unique(t);
        if !d.contains(ks.last()) {
            let e = d.push(ks.last());
            assert forall|a: int, b: int| 0 <= a < b < e.len() implies e[a] != e[b] by {
                if b == d.len() {
                    assert(e[a] == d[a]);
                    if d[a] == ks.last() {
                        assert(d.contains(ks.last()));
                    }
                }
            }
        }
    }
}

/// A copy of a list of strings.
fn copy_strings(v: &[String], n: usize) -> (c: Vec<String>)
    requires
        n <= v@.len(),
    ensures
        c@ == v@.take(n as int),
{
    let mut c: Vec<String> = Vec::new();
    let mut i: usize = 0;
    while i < n
        invariant
            i <= n,
            n <= v@.len(),
            c@ == v@.take(i as int),
        decreases n - i,
    {
        c.push(v[i].clone());
        i += 1;
        assert(v@.take(i as int) == v@.take(i - 1).push(v@[i - 1]));
    }
    c
}

/// The pattern lines of the references, the most frequent first; `names[i]` is the short
/// file name that `refs[i]` counts under.
#[verifier::spinoff_prover]
#[verifier::rlimit(40)]
pub fn group_by_pattern_named(refs: &[CodeReference], names: &Vec<String>) -> (ps: Vec<ReferencePattern>)
    requires
        names@.len() == refs@.len(),
    ensures
        ps@.map_values(|p: ReferencePattern| p@) == grouped(refs@, views(names@)),
{
    let ghost nv = views(names@);
    let mut groups: Vec<Group> = Vec::new();
    let mut i: usize = 0;
    while i < refs.len()
        invariant
            i <= refs@.len(),
            names@.len() == refs@.len(),
            nv == views(names@),
            groups_describe(groups@, refs@.take(i as int), nv.take(i as int)),
        decreases refs@.len() - i,
    {
        let r = &refs[i];
        let k = make_key(r);
        let ghost p = refs@.take(i as int);
        let ghost q = refs@.take(i + 1);
        let ghost np = nv.take(i as int);
        let ghost nq = nv.take(i + 1);
        let ghost old_groups = groups@;
        let ghost ks = distinct_keys(keys_of(p));
        proof {
            assert(keys_of(q).drop_last() == keys_of(p));
            assert(keys_of(q).last() == k@);
            assert(q.drop_last() == p);
            lemma_distinct_keys_unique(keys_of(p));
        }
        let mut g: usize = 0;
        while g < groups.len() && !str_eq(groups[g].key.as_str(), k.as_str())
            invariant
                g <= groups@.len(),
                groups@ == old_groups,
                groups_describe(groups@, p, np),
                ks == distinct_keys(keys_of(p)),
                forall|j: int| 0 <= j < g ==> ks[j] != k@,
            decreases groups@.len() - g,
        {
            g += 1;
        }
        let name = names[i].clone();
        if g < groups.len() {
            groups[g].count = groups[g].count + 1;
            insert_sorted_unique(&mut groups[g].files, name);
        } else {
            let mut files: Vec<String> = Vec::new();
            insert_sorted_unique(&mut files, name);
            groups.push(Group { key: k, count: 1, files });
        }
        proof {
            let nks = distinct_keys(keys_of(q));
            if g < old_groups.len() {
                assert(ks.contains(k@));
                assert(nks == ks);
            } else {
                assert(!ks.contains(k@));
                assert(nks == ks.push(k@));
            }
            assert forall|j: int| 0 <= j < groups@.len() implies {
                let grp = #[trigger] groups@[j];
                &&& grp.key@ == nks[j]
                &&& grp.count == q.filter(has_key(nks[j])).len()
                &&& strictly_sorted(views(grp.files@))
                &&& views(grp.files@).to_set() == key_files(q, nq, nks[j])
            } by {
                lemma_filter_take_step(refs@, has_key(nks[j]), i as int);
                assert(refs@[i as int] == r);
                assert(nv[i as int] == names@[i as int]@);
                assert forall|f: Seq<char>| key_files(q, nq, nks[j]).contains(f) <==>
                    (key_files(p, np, nks[j]).contains(f) || (pattern_key(*r) == nks[j] && f == nv[i as int])) by {
                    if key_files(q, nq, nks[j]).contains(f) {
                        let t = choose|t: int| 0 <= t < q.len() && pattern_key(#[trigger] q[t]) == nks[j] && nq[t] == f;
                        if t < i {
                            assert(p[t] == q[t] && np[t] == nq[t]);
                        }
                    }
                    if key_files(p, np, nks[j]).contains(f) {
                        let t = choose|t: int| 0 <= t < p.len() && pattern_key(#[trigger] p[t]) == nks[j] && np[t] == f;
                        assert(q[t] == p[t] && nq[t] == np[t]);
                    }
                    if pattern_key(*r) == nks[j] && f == nv[i as int] {
                        assert(q[i as int] == *r && nq[i as int] == f);
                    }
                }
                if j < old_groups.len() {
                    assert(nks[j] == ks[j]);
                    if j != g {
                        assert(groups@[j] == old_groups[j]);
                        assert(ks[j] != k@);
                        assert(key_files(q, nq, nks[j]) =~= key_files(p, np, nks[j]));
                    } else {
                        assert(key_files(q, nq, nks[j]) =~= key_files(p, np, nks[j]).insert(nv[i as int]));
                    }
                } else {
                    assert(j == g);
                    assert(nks[j] == k@);
                    assert(p.filter(has_key(k@)).len() == 0) by {
                        if p.filter(has_key(k@)).len() > 0 {
                            p.lemma_filter_pred(has_key(k@), 0);
                            assert(p.filter(has_key(k@)).contains(p.filter(has_key(k@))[0]));
                            p.lemma_filter_contains_rev(has_key(k@), p.filter(has_key(k@))[0]);
                            let t = choose|t: int| 0 <= t < p.len() && p[t] == p.filter(has_key(k@))[0];
                            assert(keys_of(p)[t] == k@);
                            lemma_distinct_keys_contains(keys_of(p), k@);
                        }
                    }
                    assert(key_files(p, np, k@) =~= Set::empty()) by {
                        assert forall|f: Seq<char>| !key_files(p, np, k@).contains(f) by {
                            if key_files(p, np, k@).contains(f) {
                                let t = choose|t: int| 0 <= t < p.len() && pattern_key(#[trigger] p[t]) == k@ && np[t] == f;
                                assert(keys_of(p)[t] == k@);
                                lemma_distinct_keys_contains(keys_of(p), k@);
                            }
                        }
                    }
                    assert(views(Seq::<String>::empty()).to_set() =~= Set::<Seq<char>>::empty());
                    assert(key_files(q, nq, nks[j]) =~= Set::empty().insert(nv[i as int]));
                }
            }
        }
        i += 1;
    }
    proof {
        assert(refs@.take(refs@.len() as int) == refs@);
        assert(nv.take(nv.len() as int) == nv);
    }
    let ghost ps_spec = patterns_unsorted(refs@, nv);
    let mut unsorted: Vec<ReferencePattern> = Vec::new();
    let mut counts: Vec<usize> = Vec::new();
    let mut g: usize = 0;
    while g < groups.len()
        invariant
            g <= groups@.len(),
            groups_describe(groups@, refs@, nv),
            ps_spec == patterns_unsorted(refs@, nv),
            unsorted@.len() == g,
            counts@.len() == g,
            forall|j: int| 0 <= j < g ==> (#[trigger] unsorted@[j])@ == ps_spec[j] && counts@[j] == ps_spec[j].count,
        decreases groups@.len() - g,
    {
        let grp = &groups[g];
        let total = grp.files.len();
        let shown = if total <= 5 { total } else { 5 };
        let example_files = copy_strings(grp.files.as_slice(), shown);
        let pat = ReferencePattern {
            pattern: grp.key.clone(),
            count: grp.count,
            example_files,
            total_files: total,
        };
        proof {
            let ks = distinct_keys(keys_of(refs@));
            lemma_is_sorted_list(views(grp.files@));
            assert(views(grp.files@.take(shown as int)) == views(grp.files@).take(shown as int));
            if total <= 5 {
                assert(views(grp.files@).take(shown as int) == views(grp.files@));
            }
            assert(ps_spec[g as int] == pattern_for(refs@, nv, ks[g as int]));
            assert(pat@.example_files == ps_spec[g as int].example_files);
            assert(pat@.total_files == ps_spec[g as int].total_files);
            assert(pat@.count == ps_spec[g as int].count);
            assert(pat@ == ps_spec[g as int]);
        }
        let ghost old_unsorted = unsorted@;
        let ghost old_counts = counts@;
        unsorted.push(pat);
        counts.push(grp.count);
        proof {
            assert forall|j: int| 0 <= j < g + 1 implies (#[trigger] unsorted@[j])@ == ps_spec[j] && counts@[j] == ps_spec[j].count by {
                if j < g {
                    assert(unsorted@[j] == old_unsorted[j]);
                    assert(counts@[j] == old_counts[j]);
                }
            }
        }
        g += 1;
    }
    let order = stable_order_desc(&counts);
    proof {
        assert(ps_spec.len() == groups@.len());
        assert forall|j: int| 0 <= j < counts@.len() implies counts@[j] == (ps_spec[j].count as usize) by {
            assert(unsorted@[j]@ == ps_spec[j]);
            assert(counts@[j] == ps_spec[j].count);
        }
        assert(counts@ =~= ps_spec.map_values(|p: PatternView| p.count as usize));
    }
    let ghost target = grouped(refs@, nv);
    let mut out: Vec<ReferencePattern> = Vec::new();
    let mut j: usize = 0;
    while j < order.len()
        invariant
            j <= order@.len(),
            order@ == order_desc(counts@),
            counts@ == ps_spec.map_values(|p: PatternView| p.count as usize),
            target == order@.map_values(|i: usize| ps_spec[i as int]),
            unsorted@.len() == ps_spec.len(),
            forall|t: int| 0 <= t < unsorted@.len() ==> (#[trigger] unsorted@[t])@ == ps_spec[t],
            out@.map_values(|p: ReferencePattern| p@) == target.take(j as int),
        decreases order@.len() - j,
    {
        let idx = order[j];
        proof {
            lemma_order_desc_bounds(counts@);
            assert(idx == order@[j as int]);
        }
        let src = &unsorted[idx];
        let n = src.example_files.len();
        let copy = ReferencePattern {
            pattern: src.pattern.clone(),
            count: src.count,
            example_files: copy_strings(src.example_files.as_slice(), n),
            total_files: src.total_files,
        };
        proof {
            assert(src.example_files@.take(n as int) == src.example_files@);
            assert(copy@ == src@);
        }
        let ghost old_out = out@;
        out.push(copy);
        j += 1;
        proof {
            assert(out@ == old_out.push(copy));
            assert(target[j - 1] == ps_spec[idx as int]);
            assert(out@.map_values(|p: ReferencePattern| p@) =~= old_out.map_values(|p: ReferencePattern| p@).push(copy@));
            assert(target.take(j as int) =~= target.take(j - 1).push(target[j - 1]));
        }
    }
    assert(target.take(target.len() as int) == target);
    out
}

/// A path that every platform splits alike: `/` is its only separator and it has no prefix
/// (no backslash, no `:`, and it does not start with `//`).
pub open spec fn portable(path: Seq<char>) -> bool {
    &&& forall|i: int| 0 <= i < path.len() ==> path[i] != '\\' && path[i] != ':'
    &&& !(path.len() >= 2 && path[0] == '/' && path[1] == '/')
}

/// The text after the last `/` of `s`, or all of `s` when it has none.
pub open spec fn after_last_slash(s: Seq<char>) -> Seq<char>
    decreases s.len(),
{
    if s.len() == 0 {
        s
    } else if s.last() == '/' {
        Seq::empty()
    } else {
        after_last_slash(s.drop_last()).push(s.last())
    }
}

/// The final component of a portable path, as `Path::file_name` finds it: the last piece
/// between slashes once empty and `.` pieces are passed over; none when that piece is `..`
/// or there is no piece at all.
pub open spec fn last_component(s: Seq<char>) -> Option<Seq<char>>
    decreases s.len(),
{
    let t = after_last_slash(s);
    if t.len() < s.len() {
        if t.len() == 0 || t == "."@ {
            last_component(s.take(s.len() - t.len() - 1))
        } else if t == ".."@ {
            None
        } else {
            Some(t)
        }
    } else if t.len() == 0 || t == "."@ || t == ".."@ {
        None
    } else {
        Some(t)
    }
}

/// The name a file is shown under: the final component of the path, or the whole path when
/// it has none.
pub open spec fn shown_name(path: Seq<char>) -> Seq<char> {
    match last_component(path) {
        Some(n) => n,
        None => path,
    }
}

/// A path component as `Path::components` yields it: never empty, and never holding `/`,
/// which separates components on every platform.
pub open spec fn is_component(n: Seq<char>) -> bool {
    n.len() > 0 && forall|i: int| 0 <= i < n.len() ==> n[i] != '/'
}

/// `Path::file_name` of `path`, as a string: the final component of the path, `None` when
/// there is none (the path ends in `..`, or is empty, a root or a prefix). Claimed: what it
/// returns is a component, non-empty and free of `/`; for a portable path, which splits at
/// `/` alone on every platform, it is `last_component` of the path. What other paths give
/// depends on the platform's separators and prefixes, and is not claimed.
#[verifier::external_body]
fn path_file_name(path: &str) -> (r: Option<String>)
    ensures
        r matches Some(n) ==> is_component(n@),
        portable(path@) ==> match r {
            Some(n) => last_component(path@) == Some(n@),
            None => last_component(path@) is None,
        },
{
    std::path::Path::new(path).file_name().and_then(|f| f.to_str()).map(|f| f.to_string())
}

/// The name that a file is shown under: its last path component, or the whole path when it has none.
pub(crate) fn short_file_name(path: &str) -> (r: String)
    ensures
        r@ == path@ || is_component(r@),
        portable(path@) ==> r@ == shown_name(path@),
{
    match path_file_name(path) {
        Some(n) => n,
        None => path.to_string(),
    }
}

/// The names `names` show the paths `paths`: each the whole path or a component of it, the
/// final component for a portable path, and equal paths shown alike.
pub open spec fn names_show(names: Seq<Seq<char>>, paths: Seq<Seq<char>>) -> bool {
    &&& names.len() == paths.len()
    &&& forall|i: int| 0 <= i < names.len() ==> #[trigger] names[i] == paths[i] || is_component(names[i])
    &&& forall|i: int| 0 <= i < names.len() && portable(#[trigger] paths[i]) ==> names[i] == shown_name(paths[i])
    &&& forall|i: int, j: int| 0 <= i < names.len() && 0 <= j < names.len() && #[trigger] paths[i] == #[trigger] paths[j]
        ==> names[i] == names[j]
}

/// The files the references come from.
pub open spec fn source_paths(refs: Seq<CodeReference>) -> Seq<Seq<char>> {
    refs.map_values(|r: CodeReference| r.source_file@)
}

/// Group references by how they refer to what, and fold each group into one pattern line:
/// the count, the files (by short name, each once, in order, the first five as examples),
/// the most frequent pattern first. Ten thousand references become a handful of lines.
pub fn group_by_pattern(refs: &[CodeReference]) -> (ps: Vec<ReferencePattern>)
    ensures
        exists|names: Seq<Seq<char>>| names_show(names, source_paths(refs@))
            && #[trigger] grouped(refs@, names) == ps@.map_values(|p: ReferencePattern| p@),
{
    let ghost paths = source_paths(refs@);
    let mut names: Vec<String> = Vec::new();
    let mut i: usize = 0;
    while i < refs.len()
        invariant
            i <= refs@.len(),
            paths == source_paths(refs@),
            names_show(views(names@), paths.take(i as int)),
        decreases refs@.len() - i,
    {
        let path = refs[i].source_file.as_str();
        let mut j: usize = 0;
        while j < i && !str_eq(refs[j].source_file.as_str(), path)
            invariant
                j <= i,
                i < refs@.len(),
                paths == source_paths(refs@),
                path@ == paths[i as int],
                forall|k: int| 0 <= k < j ==> paths[k] != path@,
            decreases i - j,
        {
            assert(paths[j as int] == refs@[j as int].source_file@);
            j += 1;
        }
        let ghost before = views(names@);
        let name = if j < i { names[j].clone() } else { short_file_name(path) };
        names.push(name);
        proof {
            let nv = views(names@);
            let pt = paths.take(i + 1);
            assert(nv =~= before.push(name@));
            assert(pt =~= paths.take(i as int).push(path@));
            if j < i {
                assert(paths[j as int] == refs@[j as int].source_file@);
                assert(nv[j as int] == before[j as int]);
            }
            assert forall|a: int| 0 <= a < nv.len() implies #[trigger] nv[a] == pt[a] || is_component(nv[a]) by {
                if a < i { assert(nv[a] == before[a] && pt[a] == paths.take(i as int)[a]); }
                else if j < i { assert(pt[j as int] == paths.take(i as int)[j as int]); }
            }
            assert forall|a: int| 0 <= a < nv.len() && portable(#[trigger] pt[a]) implies nv[a] == shown_name(pt[a]) by {
                if a < i { assert(nv[a] == before[a] && pt[a] == paths.take(i as int)[a]); }
                else if j < i { assert(pt[j as int] == paths.take(i as int)[j as int]); }
            }
            assert forall|a: int, b: int| 0 <= a < nv.len() && 0 <= b < nv.len() && #[trigger] pt[a] == #[trigger] pt[b]
                implies nv[a] == nv[b] by {
                if a < i && b < i {
                    assert(nv[a] == before[a] && pt[a] == paths.take(i as int)[a]);
                    assert(nv[b] == before[b] && pt[b] == paths.take(i as int)[b]);
                } else if a < i {
                    assert(pt[a] == paths[a]);
                    assert(nv[a] == before[a]);
                    if j < i { assert(paths.take(i as int)[j as int] == paths[j as int]); }
                } else if b < i {
                    assert(pt[b] == paths[b]);
                    assert(nv[b] == before[b]);
                    if j < i { assert(paths.take(i as int)[j as int] == paths[j as int]); }
                }
            }
        }
        i += 1;
    }
    assert(paths.take(refs@.len() as int) == paths);
    let ps = group_by_pattern_named(refs, &names);
    ps
}

/// The references that the pattern lines fold together.
pub open spec fn sum_counts(ps: Seq<PatternView>) -> nat
    decreases ps.len(),
{
    if ps.len() == 0 { 0 } else { sum_counts(ps.drop_last()) + ps.last().count }
}

/// The files that the pattern lines count, added up line by line.
pub open spec fn sum_files(ps: Seq<PatternView>) -> nat
    decreases ps.len(),
{
    if ps.len() == 0 { 0 } else { sum_files(ps.drop_last()) + ps.last().total_files }
}

/// The files of a pattern line: all of them when five or fewer, else the first three and how
/// many more there are.
pub open spec fn files_text(p: PatternView) -> Seq<char> {
    if p.total_files <= 5 {
        join(p.example_files, ", "@)
    } else {
        join(p.example_files.take(3), ", "@) + " +"@ + decimal((p.total_files - 3) as nat)
    }
}

/// One line of an impact report.
pub open spec fn pattern_line(p: PatternView) -> Seq<char> {
    "  "@ + decimal(p.count) + "x "@ + p.pattern + " \u{2014} "@ + files_text(p) + "\n"@
}

/// The lines of an impact report, one per pattern, in order.
pub open spec fn pattern_lines(ps: Seq<PatternView>) -> Seq<char>
    decreases ps.len(),
{
    if ps.len() == 0 { Seq::empty() } else { pattern_lines(ps.drop_last()) + pattern_line(ps.last()) }
}

/// The impact report for `entity`: nothing when there are no patterns, else the totals and
/// then one line per pattern.
pub open spec fn impact_report(entity: Seq<char>, ps: Seq<PatternView>) -> Seq<char> {
    if ps.len() == 0 {
        Seq::empty()
    } else {
        "\u{26a0}\u{fe0f} IMPACT: "@ + entity + "\nREFERENCES: "@ + decimal(sum_counts(ps)) + " in "@
            + decimal(sum_files(ps)) + " files\n"@ + "PATTERNS:\n"@ + pattern_lines(ps)
    }
}

/// The views of the pattern lines.
pub open spec fn pattern_views(ps: Seq<ReferencePattern>) -> Seq<PatternView> {
    ps.map_values(|p: ReferencePattern| p@)
}

/// A compact impact report for `entity` from its pattern lines.
pub fn format_impact_report(entity: &str, patterns: &[ReferencePattern]) -> (report: String)
    requires
        sum_counts(pattern_views(patterns@)) <= usize::MAX,
        sum_files(pattern_views(patterns@)) <= usize::MAX,
        forall|i: int| 0 <= i < patterns@.len() && (#[trigger] patterns@[i]).total_files > 5
            ==> patterns@[i].example_files@.len() >= 3,
    ensures
        report@ == impact_report(entity@, pattern_views(patterns@)),
{
    let ghost pv = pattern_views(patterns@);
    if patterns.len() == 0 {
        return String::new();
    }
    let mut total_refs: usize = 0;
    let mut total_files: usize = 0;
    let mut i: usize = 0;
    while i < patterns.len()
        invariant
            i <= patterns@.len(),
            pv == pattern_views(patterns@),
            sum_counts(pv) <= usize::MAX,
            sum_files(pv) <= usize::MAX,
            total_refs == sum_counts(pv.take(i as int)),
            total_files == sum_files(pv.take(i as int)),
        decreases patterns@.len() - i,
    {
        proof {
            let t = pv.take(i + 1);
            assert(t.drop_last() == pv.take(i as int));
            lemma_sums_prefix(pv, i + 1);
        }
        total_refs = total_refs + patterns[i].count;
        total_files = total_files + patterns[i].total_files;
        i += 1;
    }
    assert(pv.take(pv.len() as int) == pv);
    let mut out = String::from_str("\u{26a0}\u{fe0f} IMPACT: ");
    out.append(entity);
    out.append("\nREFERENCES: ");
    push_decimal(&mut out, total_refs as u64);
    out.append(" in ");
    push_decimal(&mut out, total_files as u64);
    out.append(" files\n");
    out.append("PATTERNS:\n");
    let ghost head = out@;
    let mut j: usize = 0;
    while j < patterns.len()
        invariant
            j <= patterns@.len(),
            pv == pattern_views(patterns@),
            forall|k: int| 0 <= k < patterns@.len() && (#[trigger] patterns@[k]).total_files > 5
                ==> patterns@[k].example_files@.len() >= 3,
            out@ == head + pattern_lines(pv.take(j as int)),
        decreases patterns@.len() - j,
    {
        let p = &patterns[j];
        let ghost before = out@;
        out.append("  ");
        push_decimal(&mut out, p.count as u64);
        out.append("x ");
        out.append(p.pattern.as_str());
        out.append(" \u{2014} ");
        if p.total_files <= 5 {
            let n = p.example_files.len();
            push_joined(&mut out, p.example_files.as_slice(), n, ", ");
            assert(p.example_files@.take(n as int) == p.example_files@);
        } else {
            push_joined(&mut out, p.example_files.as_slice(), 3, ", ");
            out.append(" +");
            push_decimal(&mut out, (p.total_files - 3) as u64);
            assert(views(p.example_files@.take(3)) == views(p.example_files@).take(3));
        }
        out.append("\n");
        proof {
            assert(pv[j as int] == p@);
            assert(out@ == before + pattern_line(p@));
            let t = pv.take(j + 1);
            assert(t.drop_last() == pv.take(j as int));
        }
        j += 1;
    }
    assert(pv.take(pv.len() as int) == pv);
    out
}

proof fn lemma_sums_prefix(pv: Seq<PatternView>, k: int)
    requires
        0 <= k <= pv.len(),
    ensures
        sum_counts(pv.take(k)) <= sum_counts(pv),
        sum_files(pv.take(k)) <= sum_files(pv),
    decreases pv.len() - k,
{
    if k < pv.len() {
        lemma_sums_prefix(pv, k + 1);
        assert(pv.take(k + 1).drop_last() == pv.take(k));
    } else {
        assert(pv.take(k) == pv);
    }
}

proof fn lemma_distinct_keys_len(ks: Seq<Seq<char>>)
    ensures
        distinct_keys(ks).len() <= ks.len(),
    decreases ks.len(),
{
    if ks.len() > 0 {
        lemma_distinct_keys_len(ks.drop_last());
    }
}

/// The pattern lines come most frequent first.
pub proof fn lemma_grouped_most_frequent_first(refs: Seq<CodeReference>, names: Seq<Seq<char>>)
    requires
        refs.len() <= usize::MAX,
    ensures
        forall|i: int, j: int| 0 <= i < j < grouped(refs, names).len() ==>
            (#[trigger] grouped(refs, names)[i]).count >= (#[trigger] grouped(refs, names)[j]).count,
{
    let ps = patterns_unsorted(refs, names);
    let cs = ps.map_values(|p: PatternView| p.count as usize);
    lemma_distinct_keys_len(keys_of(refs));
    lemma_order_desc_bounds(cs);
    lemma_order_desc_sorted(cs);
    let o = order_desc(cs);
    let g = grouped(refs, names);
    assert forall|i: int, j: int| 0 <= i < j < g.len() implies (#[trigger] g[i]).count >= (#[trigger] g[j]).count by {
        let a = o[i] as int;
        let b = o[j] as int;
        let k = distinct_keys(keys_of(refs));
        refs.lemma_filter_len(has_key(k[a]));
        refs.lemma_filter_len(has_key(k[b]));
        assert(g[i] == ps[a] && g[j] == ps[b]);
        assert(cs[a] == ps[a].count as usize && cs[b] == ps[b].count as usize);
    }
}

/// The references of `refs` that the keys `ks` fold, key by key.
spec fn key_total(ks: Seq<Seq<char>>, refs: Seq<CodeReference>) -> nat
    decreases ks.len(),
{
    if ks.len() == 0 { 0 } else { key_total(ks.drop_last(), refs) + refs.filter(has_key(ks.last())).len() }
}

/// The test that a key is `k`.
spec fn is_key(k: Seq<char>) -> spec_fn(Seq<char>) -> bool {
    |x: Seq<char>| x == k
}

proof fn lemma_key_total_push(ks: Seq<Seq<char>>, t: Seq<CodeReference>, r: CodeReference)
    ensures
        key_total(ks, t.push(r)) == key_total(ks, t) + ks.filter(is_key(pattern_key(r))).len(),
    decreases ks.len(),
{
    reveal(Seq::filter);
    if ks.len() > 0 {
        lemma_key_total_push(ks.drop_last(), t, r);
        assert(t.push(r).drop_last() == t);
    }
}

proof fn lemma_unique_count(ks: Seq<Seq<char>>, k: Seq<char>)
    requires
        forall|a: int, b: int| 0 <= a < b < ks.len() ==> ks[a] != ks[b],
    ensures
        ks.filter(is_key(k)).len() == (if ks.contains(k) { 1nat } else { 0nat }),
    decreases ks.len(),
{
    reveal(Seq::filter);
    if ks.len() > 0 {
        let t = ks.drop_last();
        lemma_unique_count(t, k);
        if ks.last() == k {
            if t.contains(k) {
                let a = choose|a: int| 0 <= a < t.len() && t[a] == k;
                assert(ks[a] == ks[ks.len() - 1]);
            }
            assert(ks[ks.len() - 1] == k);
        } else {
            if ks.contains(k) {
                let a = choose|a: int| 0 <= a < ks.len() && ks[a] == k;
                assert(t[a] == k);
            }
            if t.contains(k) {
                let a = choose|a: int| 0 <= a < t.len() && t[a] == k;
                assert(ks[a] == k);
            }
        }
    }
}

proof fn lemma_key_total_all(refs: Seq<CodeReference>)
    ensures
        key_total(distinct_keys(keys_of(refs)), refs) == refs.len(),
    decreases refs.len(),
{
    reveal(Seq::filter);
    if refs.len() > 0 {
        let t = refs.drop_last();
        let r = refs.last();
        let kr = pattern_key(r);
        assert(refs == t.push(r));
        assert(keys_of(refs).drop_last() == keys_of(t));
        assert(keys_of(refs).last() == kr);
        let d = distinct_keys(keys_of(t));
        lemma_key_total_all(t);
        lemma_key_total_push(d, t, r);
        lemma_distinct_keys_unique(keys_of(t));
        lemma_unique_count(d, kr);
        if !d.contains(kr) {
            assert(t.filter(has_key(kr)).len() == 0) by {
                if t.filter(has_key(kr)).len() > 0 {
                    let e = t.filter(has_key(kr))[0];
                    t.lemma_filter_pred(has_key(kr), 0);
                    assert(t.filter(has_key(kr)).contains(e));
                    t.lemma_filter_contains_rev(has_key(kr), e);
                    let a = choose|a: int| 0 <= a < t.len() && t[a] == e;
                    assert(keys_of(t)[a] == kr);
                    lemma_distinct_keys_contains(keys_of(t), kr);
                }
            }
            let dd = d.push(kr);
            assert(dd.drop_last() == d);
        }
    }
}

proof fn lemma_sum_counts_of_keys(refs: Seq<CodeReference>, names: Seq<Seq<char>>, ks: Seq<Seq<char>>)
    ensures
        sum_counts(ks.map_values(|k: Seq<char>| pattern_for(refs, names, k))) == key_total(ks, refs),
    decreases ks.len(),
{
    if ks.len() > 0 {
        lemma_sum_counts_of_keys(refs, names, ks.drop_last());
        assert(ks.map_values(|k: Seq<char>| pattern_for(refs, names, k)).drop_last()
            == ks.drop_last().map_values(|k: Seq<char>| pattern_for(refs, names, k)));
    }
}

/// The keys of the entries, added up.
spec fn key_sum(s: Seq<(usize, usize)>) -> nat
    decreases s.len(),
{
    if s.len() == 0 { 0 } else { key_sum(s.drop_last()) + s.last().0 as nat }
}

proof fn lemma_key_sum_insert(s: Seq<(usize, usize)>, x: (usize, usize))
    ensures
        key_sum(insert_desc(s, x)) == key_sum(s) + x.0,
    decreases s.len(),
{
    if s.len() == 0 {
        assert(seq![x].drop_last() == s);
    } else if s.last().0 < x.0 {
        let inner = insert_desc(s.drop_last(), x);
        lemma_key_sum_insert(s.drop_last(), x);
        assert(inner.push(s.last()).drop_last() == inner);
    } else {
        assert(s.push(x).drop_last() == s);
    }
}

proof fn lemma_key_sum_sort(s: Seq<(usize, usize)>)
    ensures
        key_sum(sort_desc(s)) == key_sum(s),
    decreases s.len(),
{
    if s.len() > 0 {
        lemma_key_sum_sort(s.drop_last());
        lemma_key_sum_insert(sort_desc(s.drop_last()), s.last());
    }
}

proof fn lemma_sums_agree(ps: Seq<PatternView>, s: Seq<(usize, usize)>)
    requires
        ps.len() == s.len(),
        forall|i: int| 0 <= i < ps.len() ==> (#[trigger] ps[i]).count == s[i].0,
    ensures
        sum_counts(ps) == key_sum(s),
    decreases ps.len(),
{
    if ps.len() > 0 {
        lemma_sums_agree(ps.drop_last(), s.drop_last());
        assert(ps[ps.len() - 1].count == s[s.len() - 1].0);
    }
}

/// Every reference is counted in exactly one pattern line: the counts of the lines add up to
/// the number of references.
pub proof fn lemma_grouped_counts_every_reference(refs: Seq<CodeReference>, names: Seq<Seq<char>>)
    requires
        refs.len() <= usize::MAX,
    ensures
        sum_counts(grouped(refs, names)) == refs.len(),
{
    let d = distinct_keys(keys_of(refs));
    let ps = patterns_unsorted(refs, names);
    let cs = ps.map_values(|p: PatternView| p.count as usize);
    lemma_distinct_keys_len(keys_of(refs));
    lemma_key_total_all(refs);
    lemma_sum_counts_of_keys(refs, names, d);
    assert forall|i: int| 0 <= i < ps.len() implies (#[trigger] ps[i]).count <= usize::MAX by {
        refs.lemma_filter_len(has_key(d[i]));
    }
    let k = keyed(cs);
    lemma_sums_agree(ps, k);
    lemma_key_sum_sort(k);
    lemma_sort_desc_elems(k);
    let r = sort_desc(k);
    let g = grouped(refs, names);
    assert forall|i: int| 0 <= i < g.len() implies (#[trigger] g[i]).count == r[i].0 by {
        assert(k.contains(r[i]));
        let a = choose|a: int| 0 <= a < k.len() && k[a] == r[i];
        assert(g[i] == ps[r[i].1 as int]);
    }
    lemma_sums_agree(g, r);
}

/// The pattern lines are one per pattern key that the references have, each key once: each
/// line counts the references of its key (at least one), is made as `pattern_for` makes it,
/// and, when it has more than five files, shows five of them, enough for the report.
pub proof fn lemma_grouped_lines_by_key(refs: Seq<CodeReference>, names: Seq<Seq<char>>)
    requires
        refs.len() <= usize::MAX,
    ensures
        forall|i: int, j: int| 0 <= i < grouped(refs, names).len() && 0 <= j < grouped(refs, names).len() && i != j
            ==> (#[trigger] grouped(refs, names)[i]).pattern != (#[trigger] grouped(refs, names)[j]).pattern,
        forall|k: Seq<char>| keys_of(refs).contains(k) <==>
            exists|i: int| 0 <= i < grouped(refs, names).len() && (#[trigger] grouped(refs, names)[i]).pattern == k,
        forall|i: int| 0 <= i < grouped(refs, names).len() ==> {
            let p = #[trigger] grouped(refs, names)[i];
            &&& p == pattern_for(refs, names, p.pattern)
            &&& p.count == refs.filter(has_key(p.pattern)).len()
            &&& p.count >= 1
            &&& p.total_files > 5 ==> p.example_files.len() == 5
        },
{
    let ks = keys_of(refs);
    let d = distinct_keys(ks);
    let ps = patterns_unsorted(refs, names);
    let cs = ps.map_values(|p: PatternView| p.count as usize);
    lemma_distinct_keys_len(ks);
    lemma_distinct_keys_unique(ks);
    lemma_order_desc_bounds(cs);
    lemma_order_desc_permutes(cs);
    let o = order_desc(cs);
    let g = grouped(refs, names);
    assert forall|i: int, j: int| 0 <= i < g.len() && 0 <= j < g.len() && i != j
        implies (#[trigger] g[i]).pattern != (#[trigger] g[j]).pattern by {
        assert(g[i] == ps[o[i] as int] && g[j] == ps[o[j] as int]);
        let a = o[i] as int;
        let b = o[j] as int;
        if a < b { assert(d[a] != d[b]); } else { assert(d[b] != d[a]); }
    }
    assert forall|k: Seq<char>| ks.contains(k) <==>
        exists|i: int| 0 <= i < g.len() && (#[trigger] g[i]).pattern == k by {
        lemma_distinct_keys_contains(ks, k);
        if ks.contains(k) {
            let a = choose|a: int| 0 <= a < d.len() && d[a] == k;
            assert(o.contains(a as usize));
            let i = choose|i: int| 0 <= i < o.len() && o[i] == a as usize;
            assert(g[i] == ps[a]);
        }
        if exists|i: int| 0 <= i < g.len() && (#[trigger] g[i]).pattern == k {
            let i = choose|i: int| 0 <= i < g.len() && (#[trigger] g[i]).pattern == k;
            assert(g[i] == ps[o[i] as int]);
            assert(d.contains(k));
        }
    }
    assert forall|i: int| 0 <= i < g.len() implies {
        let p = #[trigger] g[i];
        &&& p == pattern_for(refs, names, p.pattern)
        &&& p.count == refs.filter(has_key(p.pattern)).len()
        &&& p.count >= 1
        &&& p.total_files > 5 ==> p.example_files.len() == 5
    } by {
        let a = o[i] as int;
        assert(g[i] == ps[a]);
        let k = d[a];
        assert(d.contains(k));
        lemma_distinct_keys_contains(ks, k);
        let r = choose|r: int| 0 <= r < ks.len() && ks[r] == k;
        assert(has_key(k)(refs[r]));
        refs.lemma_filter_contains(has_key(k), r);
    }
}

/// The short names of the references with pattern key `k`, in order, one per reference.
spec fn key_names(refs: Seq<CodeReference>, names: Seq<Seq<char>>, k: Seq<char>) -> Seq<Seq<char>>
    decreases refs.len(),
{
    if refs.len() == 0 {
        Seq::empty()
    } else if pattern_key(refs.last()) == k {
        key_names(refs.drop_last(), names, k).push(names[refs.len() - 1])
    } else {
        key_names(refs.drop_last(), names, k)
    }
}

proof fn lemma_key_names(refs: Seq<CodeReference>, names: Seq<Seq<char>>, k: Seq<char>)
    ensures
        key_names(refs, names, k).len() == refs.filter(has_key(k)).len(),
        forall|f: Seq<char>| key_names(refs, names, k).contains(f) <==>
            exists|i: int| 0 <= i < refs.len() && pattern_key(#[trigger] refs[i]) == k && names[i] == f,
    decreases refs.len(),
{
    reveal(Seq::filter);
    if refs.len() > 0 {
        let t = refs.drop_last();
        let n = refs.len() - 1;
        lemma_key_names(t, names, k);
        let prev = key_names(t, names, k);
        let cur = key_names(refs, names, k);
        assert forall|f: Seq<char>| cur.contains(f) <==>
            exists|i: int| 0 <= i < refs.len() && pattern_key(#[trigger] refs[i]) == k && names[i] == f by {
            if cur.contains(f) {
                let a = choose|a: int| 0 <= a < cur.len() && cur[a] == f;
                if a < prev.len() {
                    assert(prev[a] == cur[a]);
                    assert(prev.contains(f));
                    let i = choose|i: int| 0 <= i < t.len() && pattern_key(#[trigger] t[i]) == k && names[i] == f;
                    assert(refs[i] == t[i]);
                } else {
                    assert(pattern_key(refs[n]) == k && names[n] == f);
                }
            }
            if exists|i: int| 0 <= i < refs.len() && pattern_key(#[trigger] refs[i]) == k && names[i] == f {
                let i = choose|i: int| 0 <= i < refs.len() && pattern_key(#[trigger] refs[i]) == k && names[i] == f;
                if i < n {
                    assert(t[i] == refs[i]);
                    assert(prev.contains(f));
                    let a = choose|a: int| 0 <= a < prev.len() && prev[a] == f;
                    assert(cur[a] == f);
                } else {
                    assert(cur[cur.len() - 1] == f);
                }
            }
        }
    }
}

/// Each pattern line names at least one file and no more files than references it counts;
/// its files are the short names of its references, in increasing order, each once, and its
/// examples are the first five of them (all of them when there are five or fewer).
pub proof fn lemma_grouped_file_counts(refs: Seq<CodeReference>, names: Seq<Seq<char>>)
    requires
        refs.len() <= usize::MAX,
    ensures
        forall|i: int| 0 <= i < grouped(refs, names).len() ==> {
            let p = #[trigger] grouped(refs, names)[i];
            let files = sorted_list(key_files(refs, names, p.pattern));
            &&& 1 <= p.total_files <= p.count
            &&& p.total_files == key_files(refs, names, p.pattern).len()
            &&& strictly_sorted(files)
            &&& files.to_set() == key_files(refs, names, p.pattern)
            &&& p.example_files == (if files.len() <= 5 { files } else { files.take(5) })
        },
{
    lemma_grouped_lines_by_key(refs, names);
    let g = grouped(refs, names);
    assert forall|i: int| 0 <= i < g.len() implies {
        let p = #[trigger] g[i];
        let files = sorted_list(key_files(refs, names, p.pattern));
        &&& 1 <= p.total_files <= p.count
        &&& p.total_files == key_files(refs, names, p.pattern).len()
        &&& strictly_sorted(files)
        &&& files.to_set() == key_files(refs, names, p.pattern)
        &&& p.example_files == (if files.len() <= 5 { files } else { files.take(5) })
    } by {
        let p = g[i];
        let k = p.pattern;
        assert(p == pattern_for(refs, names, k));
        lemma_key_names(refs, names, k);
        let kn = key_names(refs, names, k);
        assert(kn.to_set() =~= key_files(refs, names, k));
        lemma_sorted_list_exists(kn);
        kn.lemma_cardinality_of_set();
        kn.lemma_cardinality_of_empty_set_is_0();
    }
}

} // verus!
