use vstd::prelude::*;
use crate::graph::{
    error_text, has_name, lemma_id_index, lemma_name_index, model_wf, name_index, GraphError, GraphModel,
    KnowledgeGraph,
};
use crate::model::{EdgeView, Evidence, EvidenceView, Node, NodeId, NodeView, Source};
use vstd::string::StringExecFns;
use crate::text::{contains, contains_str, str_eq};
use crate::tier::ImportanceTier;

verus! {

/// A fact that an extraction found.
#[derive(Debug)]
pub struct NewFact {
    pub name: String,
    pub fact_type: String,
    pub tier: String,
    pub definition: String,
    pub reason: String,
    /// The name of the fact that this one replaces.
    pub supersedes: Option<String>,
    pub relations: Vec<FactRelation>,
    pub evidence_text: String,
}

/// A relation that a new fact names.
#[derive(Debug)]
pub struct FactRelation {
    pub target: String,
    pub relation_type: String,
}

/// A fact that no longer holds.
#[derive(Debug)]
pub struct SupersededEntry {
    pub old: String,
    pub reason: String,
}

/// A fact that matters more than was thought.
#[derive(Debug)]
pub struct PromotionEntry {
    pub name: String,
    pub new_tier: String,
    pub reason: String,
}

/// A relation between two known facts or entities.
#[derive(Debug)]
pub struct RelationEntry {
    pub from: String,
    pub to: String,
    pub relation_type: String,
    pub evidence: String,
}

/// What an extraction found, to be merged into the knowledge graph.
#[derive(Debug)]
pub struct ReconcileInput {
    pub new_facts: Vec<NewFact>,
    pub superseded: Vec<SupersededEntry>,
    pub promotions: Vec<PromotionEntry>,
    pub relations: Vec<RelationEntry>,
}

/// What a reconciliation did.
#[derive(Debug)]
pub struct ReconcileReport {
    pub added: usize,
    pub superseded: usize,
    pub promoted: usize,
    pub gc_removed: usize,
    pub edges_added: usize,
    pub errors: Vec<String>,
}

/// What `str::to_lowercase` gives for `s`.
pub uninterp spec fn lowercase(s: Seq<char>) -> Seq<char>;

/// Every character is ASCII.
pub open spec fn all_ascii(s: Seq<char>) -> bool {
    forall|i: int| 0 <= i < s.len() ==> (#[trigger] s[i]) as u32 <= 0x7f
}

/// `s` with the ASCII capitals `A` to `Z` turned into `a` to `z`.
pub open spec fn ascii_lowercase(s: Seq<char>) -> Seq<char> {
    s.map_values(|c: char| if 'A' <= c && c <= 'Z' { ((c as u32) + 32) as char } else { c })
}

/// `str::to_lowercase`: the Unicode lower-case form of a string. Claimed: the result is
/// `lowercase` of the argument, a function of the argument alone; for ASCII text, whose
/// Unicode lower-case mapping is the ASCII one, it is that.
#[verifier::external_body]
fn to_lowercase(s: &str) -> (r: String)
    ensures
        r@ == lowercase(s@),
        all_ascii(s@) ==> r@ == ascii_lowercase(s@),
{
    s.to_lowercase()
}

/// `SystemTime::now` as seconds since the Unix epoch; `None` for a clock set before it.
/// Nothing is claimed of the value.
#[verifier::external_body]
fn unix_now() -> (r: Option<u64>) {
    std::time::SystemTime::now().duration_since(std::time::UNIX_EPOCH).ok().map(|d| d.as_secs())
}

/// The tier that a lower-case tier name stands for; anything unknown is Minor.
pub open spec fn tier_named(lower: Seq<char>) -> ImportanceTier {
    if lower == "critical"@ {
        ImportanceTier::Critical
    } else if lower == "significant"@ {
        ImportanceTier::Significant
    } else {
        ImportanceTier::Minor
    }
}

/// The tier that a tier name stands for, in any case.
pub open spec fn parsed_tier(s: Seq<char>) -> ImportanceTier {
    tier_named(lowercase(s))
}

/// Reads a tier name, ignoring case; anything unknown is Minor.
pub fn parse_tier(s: &str) -> (t: ImportanceTier)
    ensures
        t == parsed_tier(s@),
        all_ascii(s@) ==> t == tier_named(ascii_lowercase(s@)),
{
    let lower = to_lowercase(s);
    tier_from_lower(lower.as_str())
}

/// The tier that a lower-case tier name stands for: `critical`, `significant`, and Minor for
/// anything else.
pub fn tier_from_lower(lower: &str) -> (t: ImportanceTier)
    ensures
        t == tier_named(lower@),
{
    if str_eq(lower, "critical") {
        ImportanceTier::Critical
    } else if str_eq(lower, "significant") {
        ImportanceTier::Significant
    } else {
        ImportanceTier::Minor
    }
}

/// The definition a new fact is stored with: its reason is added unless empty or already said.
pub open spec fn fact_definition(f: NewFact) -> Seq<char> {
    if f.reason@.len() > 0 && !contains(f.definition@, f.reason@) {
        f.definition@ + " (reason: "@ + f.reason@ + ")"@
    } else {
        f.definition@
    }
}

/// The evidence a new fact is stored with: its quoted text, if any.
pub open spec fn fact_evidence(f: NewFact) -> Seq<EvidenceView> {
    if f.evidence_text@.len() == 0 {
        Seq::empty()
    } else {
        seq![EvidenceView {
            document: "conversation"@,
            page: None,
            text_snippet: f.evidence_text@,
            offset_start: 0,
            offset_end: 0,
        }]
    }
}

/// The node a new fact becomes, under identifier `id`, learnt at time `now`.
pub open spec fn fact_node(f: NewFact, now: u64, id: NodeId) -> NodeView {
    NodeView {
        id,
        name: f.name@,
        node_type: f.fact_type@,
        definition: fact_definition(f),
        confidence: 90,
        source: None,
        tier: parsed_tier(f.tier@),
        created_at: now,
        last_referenced: now,
        evidence: fact_evidence(f),
        superseded_by: None,
    }
}

/// The graph and the tallies of a reconciliation, as plain values.
pub struct Outcome {
    pub model: GraphModel,
    pub added: nat,
    pub superseded: nat,
    pub promoted: nat,
    pub edges_added: nat,
    pub errors: Seq<Seq<char>>,
}

/// Nothing done yet to graph `m`.
pub open spec fn start(m: GraphModel) -> Outcome {
    Outcome { model: m, added: 0, superseded: 0, promoted: 0, edges_added: 0, errors: Seq::empty() }
}

/// One new fact: added under the next identifier unless its name is taken.
pub open spec fn add_fact(o: Outcome, f: NewFact, now: u64) -> Outcome {
    if has_name(o.model.nodes, f.name@) {
        o
    } else if o.model.next_node == u64::MAX {
        Outcome { errors: o.errors.push("Add '"@ + f.name@ + "': "@ + error_text(GraphError::IdsExhausted)), ..o }
    } else {
        Outcome {
            model: GraphModel {
                nodes: o.model.nodes.push(fact_node(f, now, o.model.next_node)),
                next_node: (o.model.next_node + 1) as u64,
                ..o.model
            },
            added: o.added + 1,
            ..o
        }
    }
}

/// The new facts, one after the other.
pub open spec fn add_facts(o: Outcome, fs: Seq<NewFact>, now: u64) -> Outcome
    decreases fs.len(),
{
    if fs.len() == 0 {
        o
    } else {
        add_fact(add_facts(o, fs.drop_last(), now), fs.last(), now)
    }
}

/// The first new fact that says it replaces the fact named `old`.
pub open spec fn first_superseder(fs: Seq<NewFact>, old: Seq<char>) -> Option<NewFact>
    decreases fs.len(),
{
    if fs.len() == 0 {
        None
    } else if fs[0].supersedes matches Some(s) && s@ == old {
        Some(fs[0])
    } else {
        first_superseder(fs.drop_first(), old)
    }
}

/// What a replaced fact records as its successor: the node of the first fact that says it
/// replaces it, or 0 when there is none in the graph.
pub open spec fn successor(ns: Seq<NodeView>, fs: Seq<NewFact>, old: Seq<char>) -> NodeId {
    match first_superseder(fs, old) {
        Some(f) => if has_name(ns, f.name@) { ns[name_index(ns, f.name@)].id } else { 0 },
        None => 0,
    }
}

/// One replaced fact: marked with its successor when it is in the graph.
pub open spec fn supersede(o: Outcome, fs: Seq<NewFact>, s: SupersededEntry) -> Outcome {
    let ns = o.model.nodes;
    if has_name(ns, s.old@) {
        let i = name_index(ns, s.old@);
        Outcome {
            model: GraphModel {
                nodes: ns.update(i, NodeView { superseded_by: Some(successor(ns, fs, s.old@)), ..ns[i] }),
                ..o.model
            },
            superseded: o.superseded + 1,
            ..o
        }
    } else {
        o
    }
}

/// The replaced facts, one after the other.
pub open spec fn supersede_all(o: Outcome, fs: Seq<NewFact>, ss: Seq<SupersededEntry>) -> Outcome
    decreases ss.len(),
{
    if ss.len() == 0 {
        o
    } else {
        supersede(supersede_all(o, fs, ss.drop_last()), fs, ss.last())
    }
}

/// One promotion: the tier is raised when the new one is higher; never lowered.
pub open spec fn promote(o: Outcome, p: PromotionEntry) -> Outcome {
    let ns = o.model.nodes;
    if has_name(ns, p.name@) {
        let i = name_index(ns, p.name@);
        let t = parsed_tier(p.new_tier@);
        if t.spec_rank() > ns[i].tier.spec_rank() {
            Outcome {
                model: GraphModel { nodes: ns.update(i, NodeView { tier: t, ..ns[i] }), ..o.model },
                promoted: o.promoted + 1,
                ..o
            }
        } else {
            o
        }
    } else {
        o
    }
}

/// The promotions, one after the other.
pub open spec fn promote_all(o: Outcome, ps: Seq<PromotionEntry>) -> Outcome
    decreases ps.len(),
{
    if ps.len() == 0 {
        o
    } else {
        promote(promote_all(o, ps.drop_last()), ps.last())
    }
}

/// One relation: an edge between the two named nodes when both are in the graph.
pub open spec fn relate(o: Outcome, r: RelationEntry) -> Outcome {
    let ns = o.model.nodes;
    if has_name(ns, r.from@) && has_name(ns, r.to@) {
        let from = ns[name_index(ns, r.from@)].id;
        let to = ns[name_index(ns, r.to@)].id;
        if o.model.next_edge == u64::MAX {
            Outcome {
                errors: o.errors.push(
                    "Edge '"@ + r.from@ + "'->'"@ + r.to@ + "': "@ + error_text(GraphError::IdsExhausted),
                ),
                ..o
            }
        } else {
            Outcome {
                model: GraphModel {
                    edges: o.model.edges.push(EdgeView {
                        id: o.model.next_edge,
                        from,
                        to,
                        relation_type: r.relation_type@,
                        confidence: 80,
                        source: None,
                    }),
                    next_edge: (o.model.next_edge + 1) as u64,
                    ..o.model
                },
                edges_added: o.edges_added + 1,
                ..o
            }
        }
    } else {
        o
    }
}

/// The relations, one after the other.
pub open spec fn relate_all(o: Outcome, rs: Seq<RelationEntry>) -> Outcome
    decreases rs.len(),
{
    if rs.len() == 0 {
        o
    } else {
        relate(relate_all(o, rs.drop_last()), rs.last())
    }
}

/// A reconciliation of graph `m` with `input` at time `now`: new facts first, then
/// replacements, promotions and relations.
pub open spec fn reconciled(m: GraphModel, input: ReconcileInput, now: u64) -> Outcome {
    let facts = input.new_facts@;
    relate_all(
        promote_all(supersede_all(add_facts(start(m), facts, now), facts, input.superseded@), input.promotions@),
        input.relations@,
    )
}

/// The report says what the outcome tallies.
pub open spec fn report_of(r: ReconcileReport, o: Outcome) -> bool {
    &&& r.added == o.added
    &&& r.superseded == o.superseded
    &&& r.promoted == o.promoted
    &&& r.gc_removed == 0
    &&& r.edges_added == o.edges_added
    &&& r.errors@.map_values(|e: String| e@) == o.errors
}

/// The outcome that a graph and a report (as it stands) describe together.
pub open spec fn outcome_of(m: GraphModel, r: ReconcileReport) -> Outcome {
    Outcome {
        model: m,
        added: r.added as nat,
        superseded: r.superseded as nat,
        promoted: r.promoted as nat,
        edges_added: r.edges_added as nat,
        errors: r.errors@.map_values(|e: String| e@),
    }
}

/// The node a new fact becomes, before the graph gives it an identifier.
fn fact_to_node(f: &NewFact, now: u64) -> (n: Node)
    ensures
        n@ == fact_node(*f, now, 0),
{
    let mut node = Node::new(0, f.name.clone(), f.fact_type.clone(), f.definition.clone(), 90, Source::Conversation);
    node.tier = parse_tier(f.tier.as_str());
    node.created_at = now;
    node.last_referenced = now;
    if !f.reason.as_str().is_empty() && !contains_str(f.definition.as_str(), f.reason.as_str()) {
        let mut d = f.definition.clone();
        d.append(" (reason: ");
        d.append(f.reason.as_str());
        d.append(")");
        node.definition = d;
    }
    if !f.evidence_text.as_str().is_empty() {
        node.evidence.push(Evidence {
            document: String::from_str("conversation"),
            page: None,
            text_snippet: f.evidence_text.clone(),
            offset_start: 0,
            offset_end: 0,
        });
    }
    assert(node@.evidence == fact_evidence(*f));
    node
}

/// Appends the views of strings: one more string adds its view.
proof fn lemma_push_view(v: Seq<String>, s: String)
    ensures
        v.push(s).map_values(|e: String| e@) == v.map_values(|e: String| e@).push(s@),
{
    assert(v.push(s).map_values(|e: String| e@) =~= v.map_values(|e: String| e@).push(s@));
}

/// Adds the new facts whose names the graph does not know yet.
fn add_new_facts(kg: &mut KnowledgeGraph, facts: &Vec<NewFact>, now: u64, report: &mut ReconcileReport)
    requires
        old(kg).wf(),
        old(report).added + facts@.len() <= usize::MAX,
    ensures
        final(kg).wf(),
        final(kg).spec_references() == old(kg).spec_references(),
        outcome_of(final(kg).model(), *final(report)) == add_facts(outcome_of(old(kg).model(), *old(report)), facts@, now),
        final(report).superseded == old(report).superseded,
        final(report).promoted == old(report).promoted,
        final(report).gc_removed == old(report).gc_removed,
        final(report).edges_added == old(report).edges_added,
        final(report).added <= old(report).added + facts@.len(),
{
    let ghost o0 = outcome_of(kg.model(), *report);
    let ghost r0 = *report;
    let mut i: usize = 0;
    while i < facts.len()
        invariant
            i <= facts@.len(),
            kg.wf(),
            kg.spec_references() == old(kg).spec_references(),
            outcome_of(kg.model(), *report) == add_facts(o0, facts@.take(i as int), now),
            report.superseded == r0.superseded,
            report.promoted == r0.promoted,
            report.gc_removed == r0.gc_removed,
            report.edges_added == r0.edges_added,
            report.added <= r0.added + i,
            r0.added + facts@.len() <= usize::MAX,
        decreases facts@.len() - i,
    {
        let f = &facts[i];
        let ghost before = outcome_of(kg.model(), *report);
        if kg.position_of_name(f.name.as_str()).is_none() {
            let node = fact_to_node(f, now);
            match kg.add_node(node) {
                Ok(_) => {
                    report.added += 1;
                },
                Err(e) => {
                    let mut msg = String::from_str("Add '");
                    msg.append(f.name.as_str());
                    msg.append("': ");
                    let d = e.describe();
                    msg.append(d.as_str());
                    proof { lemma_push_view(report.errors@, msg); }
                    report.errors.push(msg);
                },
            }
        }
        proof {
            assert(facts@.take(i + 1).drop_last() == facts@.take(i as int));
            assert(facts@.take(i + 1).last() == facts@[i as int]);
            assert(outcome_of(kg.model(), *report) == add_fact(before, facts@[i as int], now));
        }
        i += 1;
    }
    assert(facts@.take(facts@.len() as int) == facts@);
}

/// The position of the first new fact that says it replaces the fact named `old`.
fn first_superseder_index(facts: &Vec<NewFact>, old: &str) -> (r: Option<usize>)
    ensures
        r matches Some(j) ==> j < facts@.len() && first_superseder(facts@, old@) == Some(facts@[j as int]),
        r is None ==> first_superseder(facts@, old@) is None,
{
    let mut j: usize = 0;
    assert(facts@.subrange(0, facts@.len() as int) == facts@);
    while j < facts.len()
        invariant
            j <= facts@.len(),
            first_superseder(facts@, old@) == first_superseder(facts@.subrange(j as int, facts@.len() as int), old@),
        decreases facts@.len() - j,
    {
        let ghost rest = facts@.subrange(j as int, facts@.len() as int);
        assert(rest[0] == facts@[j as int]);
        match &facts[j].supersedes {
            Some(s) => {
                if str_eq(s.as_str(), old) {
                    return Some(j);
                }
            },
            None => {},
        }
        assert(rest.drop_first() == facts@.subrange(j + 1, facts@.len() as int));
        j += 1;
    }
    None
}

/// Marks each replaced fact that the graph knows with its successor.
fn supersede_facts(kg: &mut KnowledgeGraph, facts: &Vec<NewFact>, sups: &Vec<SupersededEntry>, report: &mut ReconcileReport)
    requires
        old(kg).wf(),
        old(report).superseded + sups@.len() <= usize::MAX,
    ensures
        final(kg).wf(),
        final(kg).spec_references() == old(kg).spec_references(),
        outcome_of(final(kg).model(), *final(report)) == supersede_all(outcome_of(old(kg).model(), *old(report)), facts@, sups@),
        final(report).added == old(report).added,
        final(report).promoted == old(report).promoted,
        final(report).gc_removed == old(report).gc_removed,
        final(report).edges_added == old(report).edges_added,
{
    let ghost o0 = outcome_of(kg.model(), *report);
    let ghost r0 = *report;
    let mut i: usize = 0;
    while i < sups.len()
        invariant
            i <= sups@.len(),
            kg.wf(),
            kg.spec_references() == old(kg).spec_references(),
            outcome_of(kg.model(), *report) == supersede_all(o0, facts@, sups@.take(i as int)),
            report.added == r0.added,
            report.promoted == r0.promoted,
            report.gc_removed == r0.gc_removed,
            report.edges_added == r0.edges_added,
            report.superseded <= r0.superseded + i,
            r0.superseded + sups@.len() <= usize::MAX,
        decreases sups@.len() - i,
    {
        let sup = &sups[i];
        let ghost before = outcome_of(kg.model(), *report);
        let ghost ns = kg.model().nodes;
        match kg.position_of_name(sup.old.as_str()) {
            Some(p) => {
                let old_id = kg.all_nodes()[p].id;
                let succ: NodeId = match first_superseder_index(facts, sup.old.as_str()) {
                    Some(j) => match kg.position_of_name(facts[j].name.as_str()) {
                        Some(q) => kg.all_nodes()[q].id,
                        None => 0,
                    },
                    None => 0,
                };
                proof {
                    assert(ns[p as int].id == old_id);
                    lemma_id_index(ns, kg.model().next_node, p as int);
                }
                kg.set_superseded_by(old_id, Some(succ));
                report.superseded += 1;
            },
            None => {},
        }
        proof {
            assert(sups@.take(i + 1).drop_last() == sups@.take(i as int));
            assert(sups@.take(i + 1).last() == sups@[i as int]);
            assert(outcome_of(kg.model(), *report) == supersede(before, facts@, sups@[i as int]));
        }
        i += 1;
    }
    assert(sups@.take(sups@.len() as int) == sups@);
}

/// Raises the tier of each promoted fact that the graph knows, when the new tier is higher.
fn promote_facts(kg: &mut KnowledgeGraph, proms: &Vec<PromotionEntry>, report: &mut ReconcileReport)
    requires
        old(kg).wf(),
        old(report).promoted + proms@.len() <= usize::MAX,
    ensures
        final(kg).wf(),
        final(kg).spec_references() == old(kg).spec_references(),
        outcome_of(final(kg).model(), *final(report)) == promote_all(outcome_of(old(kg).model(), *old(report)), proms@),
        final(report).added == old(report).added,
        final(report).superseded == old(report).superseded,
        final(report).gc_removed == old(report).gc_removed,
        final(report).edges_added == old(report).edges_added,
{
    let ghost o0 = outcome_of(kg.model(), *report);
    let ghost r0 = *report;
    let mut i: usize = 0;
    while i < proms.len()
        invariant
            i <= proms@.len(),
            kg.wf(),
            kg.spec_references() == old(kg).spec_references(),
            outcome_of(kg.model(), *report) == promote_all(o0, proms@.take(i as int)),
            report.added == r0.added,
            report.superseded == r0.superseded,
            report.gc_removed == r0.gc_removed,
            report.edges_added == r0.edges_added,
            report.promoted <= r0.promoted + i,
            r0.promoted + proms@.len() <= usize::MAX,
        decreases proms@.len() - i,
    {
        let prom = &proms[i];
        let ghost before = outcome_of(kg.model(), *report);
        let ghost ns = kg.model().nodes;
        match kg.position_of_name(prom.name.as_str()) {
            Some(p) => {
                let id = kg.all_nodes()[p].id;
                let current = kg.all_nodes()[p].tier;
                let t = parse_tier(prom.new_tier.as_str());
                if t.rank() > current.rank() {
                    proof { lemma_id_index(ns, kg.model().next_node, p as int); }
                    kg.set_tier(id, t);
                    report.promoted += 1;
                }
            },
            None => {},
        }
        proof {
            assert(proms@.take(i + 1).drop_last() == proms@.take(i as int));
            assert(proms@.take(i + 1).last() == proms@[i as int]);
            assert(outcome_of(kg.model(), *report) == promote(before, proms@[i as int]));
        }
        i += 1;
    }
    assert(proms@.take(proms@.len() as int) == proms@);
}

/// Adds an edge for each relation between two nodes that the graph knows.
fn relate_facts(kg: &mut KnowledgeGraph, rels: &Vec<RelationEntry>, report: &mut ReconcileReport)
    requires
        old(kg).wf(),
        old(report).edges_added + rels@.len() <= usize::MAX,
    ensures
        final(kg).wf(),
        final(kg).spec_references() == old(kg).spec_references(),
        outcome_of(final(kg).model(), *final(report)) == relate_all(outcome_of(old(kg).model(), *old(report)), rels@),
        final(report).added == old(report).added,
        final(report).superseded == old(report).superseded,
        final(report).promoted == old(report).promoted,
        final(report).gc_removed == old(report).gc_removed,
{
    let ghost o0 = outcome_of(kg.model(), *report);
    let ghost r0 = *report;
    let mut i: usize = 0;
    while i < rels.len()
        invariant
            i <= rels@.len(),
            kg.wf(),
            kg.spec_references() == old(kg).spec_references(),
            outcome_of(kg.model(), *report) == relate_all(o0, rels@.take(i as int)),
            report.added == r0.added,
            report.superseded == r0.superseded,
            report.promoted == r0.promoted,
            report.gc_removed == r0.gc_removed,
            report.edges_added <= r0.edges_added + i,
            r0.edges_added + rels@.len() <= usize::MAX,
        decreases rels@.len() - i,
    {
        let rel = &rels[i];
        let ghost before = outcome_of(kg.model(), *report);
        let pf = kg.position_of_name(rel.from.as_str());
        let pt = kg.position_of_name(rel.to.as_str());
        match (pf, pt) {
            (Some(a), Some(b)) => {
                let from = kg.all_nodes()[a].id;
                let to = kg.all_nodes()[b].id;
                proof {
                    lemma_id_index(kg.model().nodes, kg.model().next_node, a as int);
                    lemma_id_index(kg.model().nodes, kg.model().next_node, b as int);
                }
                let edge = crate::model::Edge::new(0, from, to, rel.relation_type.clone(), 80, Source::Conversation);
                match kg.add_edge(edge) {
                    Ok(_) => {
                        report.edges_added += 1;
                    },
                    Err(e) => {
                        let mut msg = String::from_str("Edge '");
                        msg.append(rel.from.as_str());
                        msg.append("'->'");
                        msg.append(rel.to.as_str());
                        msg.append("': ");
                        let d = e.describe();
                        msg.append(d.as_str());
                        proof { lemma_push_view(report.errors@, msg); }
                        report.errors.push(msg);
                    },
                }
            },
            _ => {},
        }
        proof {
            assert(rels@.take(i + 1).drop_last() == rels@.take(i as int));
            assert(rels@.take(i + 1).last() == rels@[i as int]);
            assert(outcome_of(kg.model(), *report) == relate(before, rels@[i as int]));
        }
        i += 1;
    }
    assert(rels@.take(rels@.len() as int) == rels@);
}

/// Merges an extraction into the graph at time `now`: adds the new facts whose names are not
/// taken, marks replaced facts with their successors, raises (never lowers) promoted tiers,
/// and adds edges for relations between known nodes; reports what it did.
pub fn reconcile_at(kg: &mut KnowledgeGraph, input: &ReconcileInput, now: u64) -> (report: ReconcileReport)
    requires
        old(kg).wf(),
    ensures
        final(kg).wf(),
        final(kg).spec_references() == old(kg).spec_references(),
        final(kg).model() == reconciled(old(kg).model(), *input, now).model,
        report_of(report, reconciled(old(kg).model(), *input, now)),
{
    let mut report = ReconcileReport {
        added: 0,
        superseded: 0,
        promoted: 0,
        gc_removed: 0,
        edges_added: 0,
        errors: Vec::new(),
    };
    assert(report.errors@.map_values(|e: String| e@) =~= Seq::<Seq<char>>::empty());
    assert(outcome_of(kg.model(), report) == start(kg.model()));
    proof {
        // The tallies count at most one per entry, and each list of entries, being a `Vec`,
        // has a length that fits in a `usize`.
        assert(input.new_facts.len() == input.new_facts@.len());
        assert(input.superseded.len() == input.superseded@.len());
        assert(input.promotions.len() == input.promotions@.len());
        assert(input.relations.len() == input.relations@.len());
    }
    add_new_facts(kg, &input.new_facts, now, &mut report);
    supersede_facts(kg, &input.new_facts, &input.superseded, &mut report);
    promote_facts(kg, &input.promotions, &mut report);
    relate_facts(kg, &input.relations, &mut report);
    report
}

/// Merges an extraction into the graph, stamping new facts with the current time (0 when the
/// clock reads before the Unix epoch).
pub fn reconcile(kg: &mut KnowledgeGraph, input: &ReconcileInput) -> (report: ReconcileReport)
    requires
        old(kg).wf(),
    ensures
        final(kg).wf(),
        final(kg).spec_references() == old(kg).spec_references(),
        exists|now: u64| {
            &&& final(kg).model() == #[trigger] reconciled(old(kg).model(), *input, now).model
            &&& report_of(report, reconciled(old(kg).model(), *input, now))
        },
{
    let now = match unix_now() {
        Some(t) => t,
        None => 0,
    };
    reconcile_at(kg, input, now)
}

/// `after` keeps every node of `before` in place, with all it says except its successor
/// unchanged, its tier no lower and a successor it had still set, and may have more nodes
/// after them.
pub open spec fn keeps_nodes(before: Seq<NodeView>, after: Seq<NodeView>) -> bool {
    &&& before.len() <= after.len()
    &&& forall|i: int| 0 <= i < before.len() ==> {
        let a = #[trigger] after[i];
        let b = before[i];
        &&& a.id == b.id
        &&& a.name == b.name
        &&& a.node_type == b.node_type
        &&& a.definition == b.definition
        &&& a.confidence == b.confidence
        &&& a.source == b.source
        &&& a.created_at == b.created_at
        &&& a.last_referenced == b.last_referenced
        &&& a.evidence == b.evidence
        &&& a.tier.spec_rank() >= b.tier.spec_rank()
        &&& b.superseded_by is Some ==> a.superseded_by is Some
    }
}

proof fn lemma_keeps_trans(a: Seq<NodeView>, b: Seq<NodeView>, c: Seq<NodeView>)
    requires
        keeps_nodes(a, b),
        keeps_nodes(b, c),
    ensures
        keeps_nodes(a, c),
{
    assert forall|i: int| 0 <= i < a.len() implies {
        let x = #[trigger] c[i];
        let y = a[i];
        &&& x.id == y.id
        &&& x.name == y.name
        &&& x.node_type == y.node_type
        &&& x.definition == y.definition
        &&& x.confidence == y.confidence
        &&& x.source == y.source
        &&& x.created_at == y.created_at
        &&& x.last_referenced == y.last_referenced
        &&& x.evidence == y.evidence
        &&& x.tier.spec_rank() >= y.tier.spec_rank()
        &&& y.superseded_by is Some ==> x.superseded_by is Some
    } by {
        assert(b[i] == b[i]);
    }
}

proof fn lemma_keeps_refl(a: Seq<NodeView>)
    ensures
        keeps_nodes(a, a),
{
}

proof fn lemma_add_facts(o: Outcome, fs: Seq<NewFact>, now: u64)
    ensures
        keeps_nodes(o.model.nodes, add_facts(o, fs, now).model.nodes),
        add_facts(o, fs, now).model.nodes.len() == o.model.nodes.len() + add_facts(o, fs, now).added - o.added,
        add_facts(o, fs, now).model.edges == o.model.edges,
        add_facts(o, fs, now).edges_added == o.edges_added,
    decreases fs.len(),
{
    if fs.len() > 0 {
        let p = add_facts(o, fs.drop_last(), now);
        lemma_add_facts(o, fs.drop_last(), now);
        let q = add_fact(p, fs.last(), now);
        assert(keeps_nodes(p.model.nodes, q.model.nodes)) by {
            assert forall|i: int| 0 <= i < p.model.nodes.len() implies #[trigger] q.model.nodes[i] == p.model.nodes[i] by {}
        }
        lemma_keeps_trans(o.model.nodes, p.model.nodes, q.model.nodes);
    } else {
        lemma_keeps_refl(o.model.nodes);
    }
}

proof fn lemma_supersede_all(o: Outcome, fs: Seq<NewFact>, ss: Seq<SupersededEntry>)
    ensures
        keeps_nodes(o.model.nodes, supersede_all(o, fs, ss).model.nodes),
        supersede_all(o, fs, ss).model.nodes.len() == o.model.nodes.len(),
        supersede_all(o, fs, ss).model.edges == o.model.edges,
        supersede_all(o, fs, ss).added == o.added,
        supersede_all(o, fs, ss).edges_added == o.edges_added,
    decreases ss.len(),
{
    if ss.len() > 0 {
        let p = supersede_all(o, fs, ss.drop_last());
        lemma_supersede_all(o, fs, ss.drop_last());
        let q = supersede(p, fs, ss.last());
        lemma_keeps_trans(o.model.nodes, p.model.nodes, q.model.nodes);
    } else {
        lemma_keeps_refl(o.model.nodes);
    }
}

proof fn lemma_promote_all(o: Outcome, ps: Seq<PromotionEntry>)
    ensures
        keeps_nodes(o.model.nodes, promote_all(o, ps).model.nodes),
        promote_all(o, ps).model.nodes.len() == o.model.nodes.len(),
        promote_all(o, ps).model.edges == o.model.edges,
        promote_all(o, ps).added == o.added,
        promote_all(o, ps).edges_added == o.edges_added,
    decreases ps.len(),
{
    if ps.len() > 0 {
        let p = promote_all(o, ps.drop_last());
        lemma_promote_all(o, ps.drop_last());
        let q = promote(p, ps.last());
        lemma_keeps_trans(o.model.nodes, p.model.nodes, q.model.nodes);
    } else {
        lemma_keeps_refl(o.model.nodes);
    }
}

proof fn lemma_relate_all(o: Outcome, rs: Seq<RelationEntry>)
    ensures
        relate_all(o, rs).model.nodes == o.model.nodes,
        relate_all(o, rs).added == o.added,
        relate_all(o, rs).model.edges.len() == o.model.edges.len() + relate_all(o, rs).edges_added - o.edges_added,
        o.model.edges.is_prefix_of(relate_all(o, rs).model.edges),
    decreases rs.len(),
{
    if rs.len() > 0 {
        lemma_relate_all(o, rs.drop_last());
    }
}

/// Reconciling keeps every node that was in the graph, in place and unchanged but for its
/// successor, which once set stays set, and its tier, which is never lowered; new nodes come
/// after them, one per fact reported added; existing edges stay and new ones come after them,
/// one per edge reported added.
pub proof fn lemma_reconcile_keeps_and_never_demotes(m: GraphModel, input: ReconcileInput, now: u64)
    ensures
        keeps_nodes(m.nodes, reconciled(m, input, now).model.nodes),
        reconciled(m, input, now).model.nodes.len() == m.nodes.len() + reconciled(m, input, now).added,
        m.edges.is_prefix_of(reconciled(m, input, now).model.edges),
        reconciled(m, input, now).model.edges.len() == m.edges.len() + reconciled(m, input, now).edges_added,
{
    let facts = input.new_facts@;
    let o0 = start(m);
    let o1 = add_facts(o0, facts, now);
    let o2 = supersede_all(o1, facts, input.superseded@);
    let o3 = promote_all(o2, input.promotions@);
    lemma_add_facts(o0, facts, now);
    lemma_supersede_all(o1, facts, input.superseded@);
    lemma_promote_all(o2, input.promotions@);
    lemma_relate_all(o3, input.relations@);
    lemma_keeps_trans(m.nodes, o1.model.nodes, o2.model.nodes);
    lemma_keeps_trans(m.nodes, o2.model.nodes, o3.model.nodes);
}

/// A name that a list of nodes has stays with every list that keeps it.
proof fn lemma_keeps_names(a: Seq<NodeView>, b: Seq<NodeView>, name: Seq<char>)
    requires
        keeps_nodes(a, b),
        has_name(a, name),
    ensures
        has_name(b, name),
{
    let i = choose|i: int| 0 <= i < a.len() && (#[trigger] a[i]).name == name;
    assert(b[i].name == name);
}

/// After the new facts are added, each of them is in the graph by name, unless identifiers
/// ran out; identifiers handed out never come back.
proof fn lemma_add_facts_settle(o: Outcome, fs: Seq<NewFact>, now: u64)
    ensures
        add_facts(o, fs, now).model.next_node >= o.model.next_node,
        forall|k: int| 0 <= k < fs.len() ==> has_name(add_facts(o, fs, now).model.nodes, (#[trigger] fs[k]).name@)
            || add_facts(o, fs, now).model.next_node == u64::MAX,
    decreases fs.len(),
{
    if fs.len() > 0 {
        let p = add_facts(o, fs.drop_last(), now);
        let q = add_fact(p, fs.last(), now);
        lemma_add_facts_settle(o, fs.drop_last(), now);
        assert(keeps_nodes(p.model.nodes, q.model.nodes)) by {
            assert forall|i: int| 0 <= i < p.model.nodes.len() implies #[trigger] q.model.nodes[i] == p.model.nodes[i] by {}
        }
        assert forall|k: int| 0 <= k < fs.len() implies has_name(q.model.nodes, (#[trigger] fs[k]).name@)
            || q.model.next_node == u64::MAX by {
            if k < fs.len() - 1 {
                assert(fs[k] == fs.drop_last()[k]);
                if has_name(p.model.nodes, fs[k].name@) {
                    lemma_keeps_names(p.model.nodes, q.model.nodes, fs[k].name@);
                }
            } else if !has_name(p.model.nodes, fs.last().name@) && p.model.next_node < u64::MAX {
                assert(q.model.nodes[p.model.nodes.len() as int].name == fs.last().name@);
            }
        }
    }
}

/// Facts that are all in the graph by name, or that find no identifier left, add nothing.
proof fn lemma_add_known_facts(o: Outcome, fs: Seq<NewFact>, now: u64)
    requires
        forall|k: int| 0 <= k < fs.len() ==> has_name(o.model.nodes, (#[trigger] fs[k]).name@)
            || o.model.next_node == u64::MAX,
    ensures
        add_facts(o, fs, now).model == o.model,
        add_facts(o, fs, now).added == o.added,
    decreases fs.len(),
{
    if fs.len() > 0 {
        assert forall|k: int| 0 <= k < fs.drop_last().len() implies has_name(o.model.nodes, (#[trigger] fs.drop_last()[k]).name@)
            || o.model.next_node == u64::MAX by {
            assert(fs.drop_last()[k] == fs[k]);
        }
        lemma_add_known_facts(o, fs.drop_last(), now);
        assert(fs.last() == fs[fs.len() - 1]);
    }
}

proof fn lemma_later_stages_keep_next_node(o: Outcome, input: ReconcileInput)
    ensures
        relate_all(promote_all(supersede_all(o, input.new_facts@, input.superseded@), input.promotions@),
            input.relations@).model.next_node == o.model.next_node,
{
    lemma_supersede_next(o, input.new_facts@, input.superseded@);
    let o2 = supersede_all(o, input.new_facts@, input.superseded@);
    lemma_promote_next(o2, input.promotions@);
    lemma_relate_next(promote_all(o2, input.promotions@), input.relations@);
}

proof fn lemma_supersede_next(o: Outcome, fs: Seq<NewFact>, ss: Seq<SupersededEntry>)
    ensures
        supersede_all(o, fs, ss).model.next_node == o.model.next_node,
    decreases ss.len(),
{
    if ss.len() > 0 {
        lemma_supersede_next(o, fs, ss.drop_last());
    }
}

proof fn lemma_promote_next(o: Outcome, ps: Seq<PromotionEntry>)
    ensures
        promote_all(o, ps).model.next_node == o.model.next_node,
    decreases ps.len(),
{
    if ps.len() > 0 {
        lemma_promote_next(o, ps.drop_last());
    }
}

proof fn lemma_relate_next(o: Outcome, rs: Seq<RelationEntry>)
    ensures
        relate_all(o, rs).model.next_node == o.model.next_node,
    decreases rs.len(),
{
    if rs.len() > 0 {
        lemma_relate_next(o, rs.drop_last());
    }
}

/// Reconciling the same input a second time adds no fact: every new fact is then already in
/// the graph by name, or no identifier is left for it.
pub proof fn lemma_reconcile_twice_adds_nothing(m: GraphModel, input: ReconcileInput, first: u64, second: u64)
    ensures
        reconciled(reconciled(m, input, first).model, input, second).added == 0,
{
    let facts = input.new_facts@;
    let o1 = add_facts(start(m), facts, first);
    let r1 = reconciled(m, input, first);
    lemma_add_facts_settle(start(m), facts, first);
    lemma_later_stages_keep_next_node(o1, input);
    lemma_supersede_all(o1, facts, input.superseded@);
    let o2 = supersede_all(o1, facts, input.superseded@);
    lemma_promote_all(o2, input.promotions@);
    let o3 = promote_all(o2, input.promotions@);
    lemma_relate_all(o3, input.relations@);
    lemma_keeps_trans(o1.model.nodes, o2.model.nodes, o3.model.nodes);
    assert forall|k: int| 0 <= k < facts.len() implies has_name(r1.model.nodes, (#[trigger] facts[k]).name@)
        || r1.model.next_node == u64::MAX by {
        if has_name(o1.model.nodes, facts[k].name@) {
            lemma_keeps_names(o1.model.nodes, o3.model.nodes, facts[k].name@);
        }
    }
    lemma_add_known_facts(start(r1.model), facts, second);
    let o1b = add_facts(start(r1.model), facts, second);
    lemma_supersede_all(o1b, facts, input.superseded@);
    let o2b = supersede_all(o1b, facts, input.superseded@);
    lemma_promote_all(o2b, input.promotions@);
    lemma_relate_all(promote_all(o2b, input.promotions@), input.relations@);
}

proof fn lemma_add_facts_tally(o: Outcome, fs: Seq<NewFact>, now: u64)
    ensures
        add_facts(o, fs, now).added + add_facts(o, fs, now).errors.len() <= o.added + o.errors.len() + fs.len(),
        add_facts(o, fs, now).added >= o.added,
        add_facts(o, fs, now).errors.len() >= o.errors.len(),
        add_facts(o, fs, now).superseded == o.superseded,
        add_facts(o, fs, now).promoted == o.promoted,
        add_facts(o, fs, now).edges_added == o.edges_added,
    decreases fs.len(),
{
    if fs.len() > 0 {
        lemma_add_facts_tally(o, fs.drop_last(), now);
    }
}

proof fn lemma_supersede_tally(o: Outcome, fs: Seq<NewFact>, ss: Seq<SupersededEntry>)
    ensures
        supersede_all(o, fs, ss).superseded <= o.superseded + ss.len(),
        supersede_all(o, fs, ss).promoted == o.promoted,
        supersede_all(o, fs, ss).errors == o.errors,
    decreases ss.len(),
{
    if ss.len() > 0 {
        lemma_supersede_tally(o, fs, ss.drop_last());
    }
}

proof fn lemma_promote_tally(o: Outcome, ps: Seq<PromotionEntry>)
    ensures
        promote_all(o, ps).promoted <= o.promoted + ps.len(),
        promote_all(o, ps).superseded == o.superseded,
        promote_all(o, ps).errors == o.errors,
    decreases ps.len(),
{
    if ps.len() > 0 {
        lemma_promote_tally(o, ps.drop_last());
    }
}

proof fn lemma_relate_tally(o: Outcome, rs: Seq<RelationEntry>)
    ensures
        relate_all(o, rs).edges_added + relate_all(o, rs).errors.len() <= o.edges_added + o.errors.len() + rs.len(),
        relate_all(o, rs).edges_added >= o.edges_added,
        relate_all(o, rs).errors.len() >= o.errors.len(),
        relate_all(o, rs).superseded == o.superseded,
        relate_all(o, rs).promoted == o.promoted,
    decreases rs.len(),
{
    if rs.len() > 0 {
        lemma_relate_tally(o, rs.drop_last());
    }
}

/// A reconciliation tallies at most one added fact per new fact, one replacement per
/// replacement entry, one promotion per promotion entry and one edge per relation entry;
/// each new fact is either added or reported as an error (or skipped), and so is each
/// relation, so the added facts, the added edges and the errors together number no more
/// than the new facts and relations.
pub proof fn lemma_reconcile_tallies_bounded(m: GraphModel, input: ReconcileInput, now: u64)
    ensures
        reconciled(m, input, now).added <= input.new_facts@.len(),
        reconciled(m, input, now).superseded <= input.superseded@.len(),
        reconciled(m, input, now).promoted <= input.promotions@.len(),
        reconciled(m, input, now).edges_added <= input.relations@.len(),
        reconciled(m, input, now).added + reconciled(m, input, now).edges_added + reconciled(m, input, now).errors.len()
            <= input.new_facts@.len() + input.relations@.len(),
{
    let facts = input.new_facts@;
    let o0 = start(m);
    let o1 = add_facts(o0, facts, now);
    let o2 = supersede_all(o1, facts, input.superseded@);
    let o3 = promote_all(o2, input.promotions@);
    lemma_add_facts_tally(o0, facts, now);
    lemma_supersede_all(o1, facts, input.superseded@);
    lemma_supersede_tally(o1, facts, input.superseded@);
    lemma_promote_all(o2, input.promotions@);
    lemma_promote_tally(o2, input.promotions@);
    lemma_relate_all(o3, input.relations@);
    lemma_relate_tally(o3, input.relations@);
}

/// Node `id` of `ns` bears the name `name`.
pub open spec fn named(ns: Seq<NodeView>, name: Seq<char>, id: NodeId) -> bool {
    exists|i: int| 0 <= i < ns.len() && (#[trigger] ns[i]).name == name && ns[i].id == id
}

/// Edge `e` runs from the node named by `r.from` to the node named by `r.to`, with `r`'s type.
pub open spec fn edge_follows(ns: Seq<NodeView>, e: EdgeView, r: RelationEntry) -> bool {
    &&& named(ns, r.from@, e.from)
    &&& named(ns, r.to@, e.to)
    &&& e.relation_type == r.relation_type@
}

proof fn lemma_relate_directed(o: Outcome, rs: Seq<RelationEntry>)
    ensures
        relate_all(o, rs).model.nodes == o.model.nodes,
        relate_all(o, rs).model.next_edge >= o.model.next_edge,
        o.model.edges.is_prefix_of(relate_all(o, rs).model.edges),
        forall|k: int| o.model.edges.len() <= k < relate_all(o, rs).model.edges.len() ==>
            exists|j: int| 0 <= j < rs.len()
                && edge_follows(o.model.nodes, #[trigger] relate_all(o, rs).model.edges[k], rs[j]),
        relate_all(o, rs).model.next_edge < u64::MAX ==> forall|j: int| 0 <= j < rs.len()
            && has_name(o.model.nodes, (#[trigger] rs[j]).from@) && has_name(o.model.nodes, rs[j].to@)
            ==> exists|k: int| o.model.edges.len() <= k < relate_all(o, rs).model.edges.len()
                && edge_follows(o.model.nodes, relate_all(o, rs).model.edges[k], rs[j]),
    decreases rs.len(),
{
    if rs.len() > 0 {
        let t = rs.drop_last();
        let p = relate_all(o, t);
        let r = rs.last();
        let q = relate(p, r);
        lemma_relate_directed(o, t);
        lemma_relate_all(o, t);
        let ns = o.model.nodes;
        assert(p.model.nodes == ns);
        if has_name(ns, r.from@) && has_name(ns, r.to@) && p.model.next_edge < u64::MAX {
            let e = q.model.edges.last();
            assert(named(ns, r.from@, e.from)) by {
                let a = name_index(ns, r.from@);
                assert(ns[a].name == r.from@);
            }
            assert(named(ns, r.to@, e.to)) by {
                let b = name_index(ns, r.to@);
                assert(ns[b].name == r.to@);
            }
            assert(edge_follows(ns, e, rs[rs.len() - 1]));
        }
        assert forall|k: int| o.model.edges.len() <= k < q.model.edges.len() implies
            exists|j: int| 0 <= j < rs.len() && edge_follows(ns, #[trigger] q.model.edges[k], rs[j]) by {
            if k < p.model.edges.len() {
                assert(q.model.edges[k] == p.model.edges[k]);
                let j = choose|j: int| 0 <= j < t.len() && edge_follows(ns, #[trigger] p.model.edges[k], t[j]);
                assert(rs[j] == t[j]);
            } else {
                assert(edge_follows(ns, q.model.edges[k], rs[rs.len() - 1]));
            }
        }
        if q.model.next_edge < u64::MAX {
            assert forall|j: int| 0 <= j < rs.len()
                && has_name(ns, (#[trigger] rs[j]).from@) && has_name(ns, rs[j].to@) implies
                exists|k: int| o.model.edges.len() <= k < q.model.edges.len()
                    && edge_follows(ns, q.model.edges[k], rs[j]) by {
                if j < t.len() {
                    assert(rs[j] == t[j]);
                    assert(t[j] == rs[j]);
                    let k = choose|k: int| o.model.edges.len() <= k < p.model.edges.len()
                        && edge_follows(ns, p.model.edges[k], t[j]);
                    assert(q.model.edges[k] == p.model.edges[k]);
                } else {
                    assert(rs[j] == r);
                    assert(edge_follows(ns, q.model.edges[q.model.edges.len() - 1], rs[j]));
                }
            }
        }
    }
}

/// Every edge that reconciling adds runs from the node named by some relation entry's `from`
/// to the node named by its `to`, with the entry's type; and, unless edge identifiers ran
/// out, every relation entry whose two names are in the graph gets such an edge.
pub proof fn lemma_reconcile_relations_directed(m: GraphModel, input: ReconcileInput, now: u64)
    ensures
        ({
            let r = reconciled(m, input, now).model;
            let rs = input.relations@;
            &&& forall|k: int| m.edges.len() <= k < r.edges.len() ==>
                exists|j: int| 0 <= j < rs.len() && edge_follows(r.nodes, #[trigger] r.edges[k], rs[j])
            &&& r.next_edge < u64::MAX ==> forall|j: int| 0 <= j < rs.len()
                && has_name(r.nodes, (#[trigger] rs[j]).from@) && has_name(r.nodes, rs[j].to@)
                ==> exists|k: int| m.edges.len() <= k < r.edges.len() && edge_follows(r.nodes, r.edges[k], rs[j])
        }),
{
    let facts = input.new_facts@;
    let o1 = add_facts(start(m), facts, now);
    let o2 = supersede_all(o1, facts, input.superseded@);
    let o3 = promote_all(o2, input.promotions@);
    lemma_add_facts(start(m), facts, now);
    lemma_supersede_all(o1, facts, input.superseded@);
    lemma_promote_all(o2, input.promotions@);
    lemma_relate_directed(o3, input.relations@);
    assert(o3.model.edges == m.edges);
}

} // verus!
