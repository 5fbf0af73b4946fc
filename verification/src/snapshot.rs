use vstd::prelude::*;
use crate::sorting::views;
use crate::text::{contains, lemma_contains_transitive, lemma_trim_idempotent, lemma_trim_within, trim, trim_str};

verus! {

/// What kind of fact a passage of conversation states.
#[derive(Debug, Clone, Copy, PartialEq, Eq, Structural)]
pub enum FactType {
    Decision,
    Error,
    Relation,
    Supersession,
}

/// A passage of conversation that states a fact, and of what kind.
#[derive(Debug)]
pub struct ExtractedFact {
    pub fact_type: FactType,
    pub text: String,
}

/// What the matches of `pattern` in `text` are, in order, as the `regex` crate finds them with
/// `Regex::captures_iter` (the whole match of each); `None` when the pattern does not compile.
pub uninterp spec fn regex_matches(pattern: Seq<char>, text: Seq<char>) -> Option<Seq<Seq<char>>>;

/// `regex::Regex::new` and `Regex::captures_iter`: the whole matches of `pattern` in `text`,
/// left to right. Claimed: the result is `regex_matches` of the pattern and the text, and each
/// match is a piece of the text.
#[verifier::external_body]
fn find_matches(pattern: &str, text: &str) -> (r: Option<Vec<String>>)
    ensures
        r matches Some(v) ==> forall|i: int| 0 <= i < v@.len() ==> contains(text@, (#[trigger] v@[i])@),
        match r {
            Some(v) => regex_matches(pattern@, text@) == Some(v@.map_values(|s: String| s@)),
            None => regex_matches(pattern@, text@) is None,
        },
{
    regex::Regex::new(pattern).ok().map(|re| re.captures_iter(text).map(|c| c[0].to_string()).collect())
}

/// The patterns the heuristic looks for, each with the kind of fact it finds, in the order
/// they are tried: decisions, errors and fixes, replacements, relations.
pub open spec fn heuristic_patterns() -> Seq<(Seq<char>, FactType)> {
    seq![
        (r"(?i)(?:we |let's |I'll |I )?(?:decided?|chose?|use|switch(?:ed|ing)? to|go(?:ing)? with)\s+(.{5,80})"@, FactType::Decision),
        (r"(?i)the approach is\s+(.{5,80})"@, FactType::Decision),
        (r"(?i)(?:the )?bug (?:is|was) (?:caused by|in|due to)\s+(.{5,80})"@, FactType::Error),
        (r"(?i)doesn't work because\s+(.{5,80})"@, FactType::Error),
        (r"(?i)(?:the )?(?:fix|solution) (?:is|was)\s+(.{5,80})"@, FactType::Error),
        (r"(?i)instead of\s+(\S+(?:\s+\S+){0,3})\s+(?:we'll |let's )?use\s+(.{3,40})"@, FactType::Supersession),
        (r"(?i)replac(?:e|ing)\s+(\S+(?:\s+\S+){0,3})\s+with\s+(.{3,40})"@, FactType::Supersession),
        (r"(?i)(\S+(?:\.\S+)?)\s+(?:depends on|calls|imports|requires)\s+(\S+(?:\.\S+)?)"@, FactType::Relation),
        (r"(?i)after changing\s+(\S+(?:\.\S+)?),?\s+(\S+(?:\.\S+)?)\s+broke"@, FactType::Relation),
    ]
}

/// The patterns the heuristic looks for, in order.
fn patterns() -> (ps: Vec<(&'static str, FactType)>)
    ensures
        ps@.map_values(|p: (&'static str, FactType)| (p.0@, p.1)) == heuristic_patterns(),
{
    let ps = vec![
        (r"(?i)(?:we |let's |I'll |I )?(?:decided?|chose?|use|switch(?:ed|ing)? to|go(?:ing)? with)\s+(.{5,80})", FactType::Decision),
        (r"(?i)the approach is\s+(.{5,80})", FactType::Decision),
        (r"(?i)(?:the )?bug (?:is|was) (?:caused by|in|due to)\s+(.{5,80})", FactType::Error),
        (r"(?i)doesn't work because\s+(.{5,80})", FactType::Error),
        (r"(?i)(?:the )?(?:fix|solution) (?:is|was)\s+(.{5,80})", FactType::Error),
        (r"(?i)instead of\s+(\S+(?:\s+\S+){0,3})\s+(?:we'll |let's )?use\s+(.{3,40})", FactType::Supersession),
        (r"(?i)replac(?:e|ing)\s+(\S+(?:\s+\S+){0,3})\s+with\s+(.{3,40})", FactType::Supersession),
        (r"(?i)(\S+(?:\.\S+)?)\s+(?:depends on|calls|imports|requires)\s+(\S+(?:\.\S+)?)", FactType::Relation),
        (r"(?i)after changing\s+(\S+(?:\.\S+)?),?\s+(\S+(?:\.\S+)?)\s+broke", FactType::Relation),
    ];
    assert(ps@.map_values(|p: (&'static str, FactType)| (p.0@, p.1)) =~= heuristic_patterns());
    ps
}

/// The facts that the matches of one pattern state: each match, trimmed.
pub open spec fn facts_of(ms: Option<Seq<Seq<char>>>, t: FactType) -> Seq<(FactType, Seq<char>)> {
    match ms {
        Some(v) => v.map_values(|m: Seq<char>| (t, trim(m))),
        None => Seq::empty(),
    }
}

/// The matches found for each pattern, with the pattern's kind, as plain values.
pub open spec fn found_view(found: Seq<(Option<Vec<String>>, FactType)>) -> Seq<(Option<Seq<Seq<char>>>, FactType)> {
    found.map_values(|p: (Option<Vec<String>>, FactType)| (
        match p.0 {
            Some(v) => Some(views(v@)),
            None => None,
        },
        p.1,
    ))
}

/// The facts that the matches state, pattern after pattern: each match trimmed and tagged
/// with its pattern's kind.
pub open spec fn facts_in(found: Seq<(Option<Seq<Seq<char>>>, FactType)>) -> Seq<(FactType, Seq<char>)>
    decreases found.len(),
{
    if found.len() == 0 {
        Seq::empty()
    } else {
        facts_in(found.drop_last()) + facts_of(found.last().0, found.last().1)
    }
}

/// What each of the patterns `ps` matches in `text`, with the pattern's kind.
pub open spec fn matches_in(ps: Seq<(Seq<char>, FactType)>, text: Seq<char>) -> Seq<(Option<Seq<Seq<char>>>, FactType)> {
    ps.map_values(|p: (Seq<char>, FactType)| (regex_matches(p.0, text), p.1))
}

/// The facts that the patterns `ps` find in `text`, pattern after pattern.
pub open spec fn facts_upto(ps: Seq<(Seq<char>, FactType)>, text: Seq<char>) -> Seq<(FactType, Seq<char>)> {
    facts_in(matches_in(ps, text))
}

/// The views of extracted facts.
pub open spec fn fact_views(fs: Seq<ExtractedFact>) -> Seq<(FactType, Seq<char>)> {
    fs.map_values(|f: ExtractedFact| (f.fact_type, f.text@))
}

/// The facts that the matches found for each pattern state, pattern after pattern: each
/// match trimmed and tagged with its pattern's kind; a pattern with no matches (`None`)
/// states nothing.
pub fn facts_from_matches(found: &Vec<(Option<Vec<String>>, FactType)>) -> (facts: Vec<ExtractedFact>)
    ensures
        fact_views(facts@) == facts_in(found_view(found@)),
{
    let ghost fv = found_view(found@);
    let mut facts: Vec<ExtractedFact> = Vec::new();
    let mut i: usize = 0;
    while i < found.len()
        invariant
            i <= found@.len(),
            fv == found_view(found@),
            fact_views(facts@) == facts_in(fv.take(i as int)),
        decreases found@.len() - i,
    {
        let kind = found[i].1;
        let ghost before = fact_views(facts@);
        match &found[i].0 {
            Some(ms) => {
                let mut j: usize = 0;
                while j < ms.len()
                    invariant
                        j <= ms@.len(),
                        fact_views(facts@) == before + ms@.take(j as int).map_values(|m: String| (kind, trim(m@))),
                    decreases ms@.len() - j,
                {
                    let t = trim_str(ms[j].as_str());
                    let ghost mid = facts@;
                    facts.push(ExtractedFact { fact_type: kind, text: t });
                    proof {
                        assert(fact_views(facts@) =~= fact_views(mid).push((kind, t@)));
                        assert(ms@.take(j + 1).map_values(|m: String| (kind, trim(m@)))
                            =~= ms@.take(j as int).map_values(|m: String| (kind, trim(m@))).push((kind, trim(ms@[j as int]@))));
                    }
                    j += 1;
                }
                proof {
                    assert(ms@.take(ms@.len() as int) == ms@);
                    assert(ms@.map_values(|m: String| (kind, trim(m@)))
                        =~= views(ms@).map_values(|m: Seq<char>| (kind, trim(m))));
                }
            },
            None => {},
        }
        proof {
            assert(fv.take(i + 1).drop_last() == fv.take(i as int));
            assert(fv.take(i + 1).last() == fv[i as int]);
        }
        i += 1;
    }
    assert(fv.take(fv.len() as int) == fv);
    facts
}

/// Facts stated by matches that all occur in `text` occur in `text` themselves, trimmed.
proof fn lemma_facts_within(fv: Seq<(Option<Seq<Seq<char>>>, FactType)>, text: Seq<char>)
    requires
        forall|k: int, j: int| 0 <= k < fv.len() && (#[trigger] fv[k]).0 is Some && 0 <= j < fv[k].0->0.len()
            ==> contains(text, #[trigger] fv[k].0->0[j]),
    ensures
        forall|i: int| 0 <= i < facts_in(fv).len() ==> contains(text, (#[trigger] facts_in(fv)[i]).1)
            && facts_in(fv)[i].1 == trim(facts_in(fv)[i].1),
    decreases fv.len(),
{
    if fv.len() > 0 {
        let t = fv.drop_last();
        assert forall|k: int, j: int| 0 <= k < t.len() && (#[trigger] t[k]).0 is Some && 0 <= j < t[k].0->0.len()
            implies contains(text, #[trigger] t[k].0->0[j]) by {
            assert(t[k] == fv[k]);
        }
        lemma_facts_within(t, text);
        let prev = facts_in(t);
        let last = facts_of(fv.last().0, fv.last().1);
        let all = facts_in(fv);
        assert forall|i: int| 0 <= i < all.len() implies contains(text, (#[trigger] all[i]).1)
            && all[i].1 == trim(all[i].1) by {
            if i < prev.len() {
                assert(all[i] == prev[i]);
            } else {
                let j = i - prev.len();
                assert(all[i] == last[j]);
                let k = fv.len() - 1;
                assert(fv[k] == fv.last());
                let m = fv[k].0->0[j];
                assert(contains(text, m));
                assert(last[j].1 == trim(m));
                lemma_trim_within(m);
                lemma_contains_transitive(text, m, trim(m));
                lemma_trim_idempotent(m);
            }
        }
    }
}

/// Facts that a conversation states, found by regular expressions alone: decisions, errors
/// and fixes, replacements and relations, in that order, each match trimmed. Every fact's
/// text occurs in the conversation and is trimmed.
pub fn extract_heuristic(text: &str) -> (facts: Vec<ExtractedFact>)
    ensures
        fact_views(facts@) == facts_upto(heuristic_patterns(), text@),
        forall|i: int| 0 <= i < facts@.len() ==> contains(text@, (#[trigger] facts@[i]).text@)
            && facts@[i].text@ == trim(facts@[i].text@),
{
    let ps = patterns();
    let ghost hp = heuristic_patterns();
    let mut found: Vec<(Option<Vec<String>>, FactType)> = Vec::new();
    let mut i: usize = 0;
    while i < ps.len()
        invariant
            i <= ps@.len(),
            ps@.map_values(|p: (&'static str, FactType)| (p.0@, p.1)) == hp,
            found_view(found@) == matches_in(hp.take(i as int), text@),
            forall|k: int, j: int| 0 <= k < found_view(found@).len() && (#[trigger] found_view(found@)[k]).0 is Some
                && 0 <= j < found_view(found@)[k].0->0.len() ==> contains(text@, #[trigger] found_view(found@)[k].0->0[j]),
        decreases ps@.len() - i,
    {
        let (pattern, kind) = ps[i];
        let ghost before = found@;
        let ms = find_matches(pattern, text);
        found.push((ms, kind));
        proof {
            assert(hp[i as int] == (pattern@, kind));
            let fv = found_view(found@);
            assert(fv =~= found_view(before).push(fv[i as int]));
            assert(matches_in(hp.take(i + 1), text@) =~= matches_in(hp.take(i as int), text@).push((regex_matches(pattern@, text@), kind)));
            assert forall|k: int, j: int| 0 <= k < fv.len() && (#[trigger] fv[k]).0 is Some && 0 <= j < fv[k].0->0.len()
                implies contains(text@, #[trigger] fv[k].0->0[j]) by {
                if k < i {
                    assert(fv[k] == found_view(before)[k]);
                } else {
                    assert(found@[k] == (ms, kind));
                    let v = ms->0;
                    assert(fv[k].0->0[j] == v@[j]@);
                }
            }
        }
        i += 1;
    }
    assert(hp.take(hp.len() as int) == hp);
    let facts = facts_from_matches(&found);
    proof {
        lemma_facts_within(found_view(found@), text@);
        assert forall|i: int| 0 <= i < facts@.len() implies contains(text@, (#[trigger] facts@[i]).text@)
            && facts@[i].text@ == trim(facts@[i].text@) by {
            assert(fact_views(facts@)[i] == (facts@[i].fact_type, facts@[i].text@));
        }
    }
    facts
}

/// Every match found for a pattern is among the facts, trimmed and tagged with the pattern's kind.
proof fn lemma_facts_in_has(fv: Seq<(Option<Seq<Seq<char>>>, FactType)>, k: int, j: int)
    requires
        0 <= k < fv.len(),
        fv[k].0 is Some,
        0 <= j < fv[k].0->0.len(),
    ensures
        facts_in(fv).contains((fv[k].1, trim(fv[k].0->0[j]))),
    decreases fv.len(),
{
    let t = fv.drop_last();
    let prev = facts_in(t);
    let all = facts_in(fv);
    if k == fv.len() - 1 {
        let last = facts_of(fv.last().0, fv.last().1);
        assert(fv.last() == fv[k]);
        assert(all[prev.len() + j] == last[j]);
    } else {
        assert(t[k] == fv[k]);
        lemma_facts_in_has(t, k, j);
        let a = choose|a: int| 0 <= a < prev.len() && prev[a] == (fv[k].1, trim(fv[k].0->0[j]));
        assert(all[a] == prev[a]);
    }
}

/// The facts that `extract_heuristic` reports for `text` include, for each match of
/// `pattern`, that match trimmed with kind `kind`.
pub open spec fn reports(text: Seq<char>, pattern: Seq<char>, kind: FactType) -> bool {
    regex_matches(pattern, text) matches Some(ms) ==> forall|j: int| 0 <= j < ms.len()
        ==> facts_upto(heuristic_patterns(), text).contains((kind, trim(#[trigger] ms[j])))
}

/// What each kind of passage is reported as: choices and approaches as decisions; bugs,
/// things that do not work and fixes as errors; "instead of" and replacements as
/// supersessions; dependencies and breakages as relations.
pub proof fn lemma_pattern_kinds(text: Seq<char>)
    ensures
        reports(text, r"(?i)(?:we |let's |I'll |I )?(?:decided?|chose?|use|switch(?:ed|ing)? to|go(?:ing)? with)\s+(.{5,80})"@, FactType::Decision),
        reports(text, r"(?i)the approach is\s+(.{5,80})"@, FactType::Decision),
        reports(text, r"(?i)(?:the )?bug (?:is|was) (?:caused by|in|due to)\s+(.{5,80})"@, FactType::Error),
        reports(text, r"(?i)doesn't work because\s+(.{5,80})"@, FactType::Error),
        reports(text, r"(?i)(?:the )?(?:fix|solution) (?:is|was)\s+(.{5,80})"@, FactType::Error),
        reports(text, r"(?i)instead of\s+(\S+(?:\s+\S+){0,3})\s+(?:we'll |let's )?use\s+(.{3,40})"@, FactType::Supersession),
        reports(text, r"(?i)replac(?:e|ing)\s+(\S+(?:\s+\S+){0,3})\s+with\s+(.{3,40})"@, FactType::Supersession),
        reports(text, r"(?i)(\S+(?:\.\S+)?)\s+(?:depends on|calls|imports|requires)\s+(\S+(?:\.\S+)?)"@, FactType::Relation),
        reports(text, r"(?i)after changing\s+(\S+(?:\.\S+)?),?\s+(\S+(?:\.\S+)?)\s+broke"@, FactType::Relation),
{
    let hp = heuristic_patterns();
    let fv = matches_in(hp, text);
    assert forall|k: int| 0 <= k < hp.len() implies reports(text, (#[trigger] hp[k]).0, hp[k].1) by {
        if regex_matches(hp[k].0, text) is Some {
            let ms = regex_matches(hp[k].0, text)->0;
            assert forall|j: int| 0 <= j < ms.len() implies
                facts_upto(hp, text).contains((hp[k].1, trim(#[trigger] ms[j]))) by {
                assert(fv[k] == (regex_matches(hp[k].0, text), hp[k].1));
                lemma_facts_in_has(fv, k, j);
            }
        }
    }
    assert(reports(text, hp[0].0, hp[0].1));
    assert(reports(text, hp[1].0, hp[1].1));
    assert(reports(text, hp[2].0, hp[2].1));
    assert(reports(text, hp[3].0, hp[3].1));
    assert(reports(text, hp[4].0, hp[4].1));
    assert(reports(text, hp[5].0, hp[5].1));
    assert(reports(text, hp[6].0, hp[6].1));
    assert(reports(text, hp[7].0, hp[7].1));
    assert(reports(text, hp[8].0, hp[8].1));
}

} // verus!
