use vstd::prelude::*;
use crate::graph::{references_named, KnowledgeGraph};
use crate::model::{view_nodes, Node, NodeView};
use crate::patterns::{is_component, names_show, portable, short_file_name, shown_name};
use crate::sorting::{
    insert_sorted_unique, lemma_is_sorted_list, lemma_order_desc_bounds, lemma_order_desc_permutes,
    lemma_order_desc_sorted, order_desc, sorted_list, stable_order_desc, strictly_sorted, views,
};
use crate::treesitter::{CodeReference, RefType};
use crate::text::{
    chars_of, contains, decimal, lemma_contains_transitive, lemma_seq_lt_irreflexive, occurs_at, push_decimal, seq_lt,
    starts_with, starts_with_str, str_eq,
};
use crate::tier::ImportanceTier;
use vstd::string::StringExecFns;

verus! {

/// The files that code analysis found the nodes in.
pub open spec fn source_files(ns: Seq<NodeView>) -> Set<Seq<char>> {
    Set::new(|f: Seq<char>| exists|i: int| 0 <= i < ns.len() && (#[trigger] ns[i]).source == Some(f))
}

/// The analysed files of the graph, each once, in order.
pub open spec fn file_list(ns: Seq<NodeView>) -> Seq<Seq<char>> {
    sorted_list(source_files(ns))
}

/// The analysed files of the graph, each once, in order.
pub fn collect_source_files(kg: &KnowledgeGraph) -> (files: Vec<String>)
    ensures
        views(files@) == file_list(kg.model().nodes),
        strictly_sorted(views(files@)),
{
    let nodes = kg.all_nodes();
    let ghost ns = kg.model().nodes;
    let mut files: Vec<String> = Vec::new();
    let mut i: usize = 0;
    while i < nodes.len()
        invariant
            i <= nodes@.len(),
            view_nodes(nodes@) == ns,
            strictly_sorted(views(files@)),
            views(files@).to_set() == source_files(ns.take(i as int)),
        decreases nodes@.len() - i,
    {
        let ghost before = views(files@).to_set();
        match &nodes[i].source {
            crate::model::Source::CodeAnalysis { file } => {
                insert_sorted_unique(&mut files, file.clone());
            },
            crate::model::Source::Conversation => {},
        }
        proof {
            let p = ns.take(i as int);
            let q = ns.take(i + 1);
            assert(ns[i as int] == nodes@[i as int]@);
            assert forall|f: Seq<char>| source_files(q).contains(f) <==>
                (source_files(p).contains(f) || ns[i as int].source == Some(f)) by {
                if source_files(q).contains(f) {
                    let t = choose|t: int| 0 <= t < q.len() && (#[trigger] q[t]).source == Some(f);
                    if t < i { assert(p[t] == q[t]); }
                }
                if source_files(p).contains(f) {
                    let t = choose|t: int| 0 <= t < p.len() && (#[trigger] p[t]).source == Some(f);
                    assert(q[t] == p[t]);
                }
                if ns[i as int].source == Some(f) {
                    assert(q[i as int] == ns[i as int]);
                }
            }
            match ns[i as int].source {
                Some(f) => assert(views(files@).to_set() =~= source_files(q)),
                None => assert(views(files@).to_set() =~= source_files(q)),
            }
        }
        i += 1;
    }
    proof {
        assert(ns.take(ns.len() as int) == ns);
        lemma_is_sorted_list(views(files@));
    }
    files
}

/// A node that records an architectural decision or a technical fact.
pub open spec fn is_decision_type(n: NodeView) -> bool {
    n.node_type == "Decision"@ || n.node_type == "TechnicalFact"@
}

/// A decision that still holds and matters: of the top two tiers and not replaced.
pub open spec fn is_active_decision(n: NodeView) -> bool {
    &&& is_decision_type(n)
    &&& (n.tier == ImportanceTier::Critical || n.tier == ImportanceTier::Significant)
    &&& n.superseded_by is None
}

/// The test for an active decision.
pub open spec fn active_decision() -> spec_fn(NodeView) -> bool {
    |n: NodeView| is_active_decision(n)
}

/// The line that states one decision: critical ones are not to be broken.
pub open spec fn decision_line(n: NodeView) -> Seq<char> {
    (if n.tier == ImportanceTier::Critical { "NON VIOLARE"@ } else { "NOTA"@ }) + ": "@ + n.definition + "\n"@
}

/// The lines of the decisions, in order.
pub open spec fn decision_lines(ds: Seq<NodeView>) -> Seq<char>
    decreases ds.len(),
{
    if ds.len() == 0 { Seq::empty() } else { decision_lines(ds.drop_last()) + decision_line(ds.last()) }
}

/// The decisions rule: a line per active decision and a reminder, or a note that there are none.
pub open spec fn decisions_rule(ns: Seq<NodeView>) -> Seq<char> {
    let ds = ns.filter(active_decision());
    if ds.len() == 0 {
        "Nessuna decisione architetturale registrata.\n"@ + "Usa /chartcode:decide per registrare decisioni.\n"@
    } else {
        decision_lines(ds) + "\nUSARE chartcode impact prima di ogni rename o cambio di signature\n"@
    }
}

/// Whether a node records an active decision.
fn active_decision_node(n: &Node) -> (r: bool)
    ensures
        r == is_active_decision(n@),
{
    (str_eq(n.node_type.as_str(), "Decision") || str_eq(n.node_type.as_str(), "TechnicalFact"))
        && (n.tier == ImportanceTier::Critical || n.tier == ImportanceTier::Significant)
        && n.superseded_by.is_none()
}

/// The decisions rule: imperative lines for the architectural decisions that hold.
pub fn generate_decisions_rule(kg: &KnowledgeGraph) -> (rule: String)
    ensures
        rule@ == decisions_rule(kg.model().nodes),
{
    let nodes = kg.all_nodes();
    let ghost ns = kg.model().nodes;
    let ghost keep = active_decision();
    let mut body = String::new();
    let mut count: usize = 0;
    let mut i: usize = 0;
    while i < nodes.len()
        invariant
            i <= nodes@.len(),
            view_nodes(nodes@) == ns,
            keep == active_decision(),
            body@ == decision_lines(ns.take(i as int).filter(keep)),
            count == ns.take(i as int).filter(keep).len(),
            count <= i,
        decreases nodes@.len() - i,
    {
        let n = &nodes[i];
        proof {
            assert(ns[i as int] == n@);
            crate::seqs::lemma_filter_take_step(ns, keep, i as int);
        }
        if active_decision_node(n) {
            if n.tier == ImportanceTier::Critical {
                body.append("NON VIOLARE");
            } else {
                body.append("NOTA");
            }
            body.append(": ");
            body.append(n.definition.as_str());
            body.append("\n");
            count += 1;
            proof {
                let f = ns.take(i as int).filter(keep);
                assert(f.push(n@).drop_last() == f);
                assert(decision_line(n@) == (if n@.tier == ImportanceTier::Critical { "NON VIOLARE"@ } else { "NOTA"@ }) + ": "@ + n@.definition + "\n"@);
            }
        }
        i += 1;
    }
    assert(ns.take(ns.len() as int) == ns);
    if count == 0 {
        let mut out = String::from_str("Nessuna decisione architetturale registrata.\n");
        out.append("Usa /chartcode:decide per registrare decisioni.\n");
        out
    } else {
        body.append("\nUSARE chartcode impact prima di ogni rename o cambio di signature\n");
        body
    }
}

/// Node `n` was found in file `f`.
pub open spec fn in_file(n: NodeView, f: Seq<char>) -> bool {
    n.source == Some(f)
}

/// A code entity proper: neither a file nor an import.
pub open spec fn is_entity(n: NodeView) -> bool {
    n.node_type != "File"@ && n.node_type != "Import"@
}

/// The test for an entity of file `f`.
pub open spec fn file_entity(f: Seq<char>) -> spec_fn(NodeView) -> bool {
    |n: NodeView| in_file(n, f) && is_entity(n)
}

/// How many entities file `f` defines.
pub open spec fn entity_count(ns: Seq<NodeView>, f: Seq<char>) -> nat {
    ns.filter(file_entity(f)).len()
}

/// How many recorded references name `name`.
pub open spec fn inbound(refs: Seq<CodeReference>, name: Seq<char>) -> nat {
    references_named(refs, name).len()
}

/// The references into file `f`: those to each of its nodes that is not the file itself.
pub open spec fn file_refs_in(ns: Seq<NodeView>, refs: Seq<CodeReference>, f: Seq<char>) -> nat
    decreases ns.len(),
{
    if ns.len() == 0 {
        0
    } else {
        file_refs_in(ns.drop_last(), refs, f) + (if in_file(ns.last(), f) && ns.last().node_type != "File"@ {
            inbound(refs, ns.last().name)
        } else {
            0
        })
    }
}

/// The test for a critical decision or technical fact.
pub open spec fn critical_decision() -> spec_fn(NodeView) -> bool {
    |n: NodeView| is_decision_type(n) && n.tier == ImportanceTier::Critical
}

/// One line of the project map, as plain values.
pub struct FileStat {
    pub short: Seq<char>,
    pub entities: nat,
    pub refs_in: nat,
}

/// The map lines of the files that define entities, in file order; `shorts[k]` is the name
/// that `files[k]` is shown under.
pub open spec fn file_stats(
    ns: Seq<NodeView>,
    refs: Seq<CodeReference>,
    files: Seq<Seq<char>>,
    shorts: Seq<Seq<char>>,
) -> Seq<FileStat>
    decreases files.len(),
{
    if files.len() == 0 {
        Seq::empty()
    } else {
        let rest = file_stats(ns, refs, files.drop_last(), shorts.drop_last());
        let f = files.last();
        if entity_count(ns, f) > 0 {
            rest.push(FileStat { short: shorts.last(), entities: entity_count(ns, f), refs_in: file_refs_in(ns, refs, f) })
        } else {
            rest
        }
    }
}

/// The map lines, the most referenced file first; files with equal counts keep their order.
pub open spec fn stats_by_refs(st: Seq<FileStat>) -> Seq<FileStat> {
    order_desc(st.map_values(|s: FileStat| s.refs_in as usize)).map_values(|i: usize| st[i as int])
}

/// A warning for files that many places use, and a note for files that none does.
pub open spec fn warning(refs_in: nat) -> Seq<char> {
    if refs_in > 100 {
        " \u{2190} toccare con cautela"@
    } else if refs_in == 0 {
        " \u{2190} leaf module"@
    } else {
        Seq::empty()
    }
}

/// One line of the project map.
pub open spec fn stat_line(s: FileStat) -> Seq<char> {
    "  "@ + s.short + " ("@ + decimal(s.entities) + " entità, "@ + decimal(s.refs_in) + " refs IN)"@
        + warning(s.refs_in) + "\n"@
}

/// The lines of the project map, in order.
pub open spec fn stat_lines(st: Seq<FileStat>) -> Seq<char>
    decreases st.len(),
{
    if st.len() == 0 { Seq::empty() } else { stat_lines(st.drop_last()) + stat_line(st.last()) }
}

/// The head of the project map: totals, the active critical decisions, and how to look further.
pub open spec fn map_head(ns: Seq<NodeView>, edge_count: nat) -> Seq<char> {
    let dc = ns.filter(critical_decision()).len();
    "Progetto: "@ + decimal(file_list(ns).len()) + " file, "@ + decimal(ns.len()) + " entità, "@
        + decimal(edge_count) + " riferimenti cross-file\n"@
        + (if dc > 0 {
            "Decisioni architetturali attive: "@ + decimal(dc) + " (chartcode explore <nome>)\n"@
        } else {
            Seq::empty()
        }) + "Usa: chartcode impact <entità> prima di rename/refactor\n\n"@
}

/// The project map: the head, then one line per file that defines entities, the most
/// referenced first. `shorts[k]` is the name the k-th analysed file is shown under.
pub open spec fn project_map(ns: Seq<NodeView>, edge_count: nat, refs: Seq<CodeReference>, shorts: Seq<Seq<char>>) -> Seq<char> {
    map_head(ns, edge_count) + "Moduli per connettività:\n"@
        + stat_lines(stats_by_refs(file_stats(ns, refs, file_list(ns), shorts)))
}

/// The counts of every analysed file fit in a machine word.
pub open spec fn map_counts_fit(ns: Seq<NodeView>, refs: Seq<CodeReference>) -> bool {
    forall|k: int| 0 <= k < file_list(ns).len() ==> file_refs_in(ns, refs, #[trigger] file_list(ns)[k]) <= usize::MAX
}

proof fn lemma_file_refs_prefix(ns: Seq<NodeView>, refs: Seq<CodeReference>, f: Seq<char>, k: int)
    requires
        0 <= k <= ns.len(),
    ensures
        file_refs_in(ns.take(k), refs, f) <= file_refs_in(ns, refs, f),
    decreases ns.len() - k,
{
    if k < ns.len() {
        lemma_file_refs_prefix(ns, refs, f, k + 1);
        assert(ns.take(k + 1).drop_last() == ns.take(k));
    } else {
        assert(ns.take(k) == ns);
    }
}

/// How many entities file `f` defines, and how many references point into it.
fn file_counts(kg: &KnowledgeGraph, nodes: &[Node], f: &str) -> (r: (usize, usize))
    requires
        view_nodes(nodes@) == kg.model().nodes,
        file_refs_in(kg.model().nodes, kg.spec_references(), f@) <= usize::MAX,
    ensures
        r.0 == entity_count(kg.model().nodes, f@),
        r.1 == file_refs_in(kg.model().nodes, kg.spec_references(), f@),
{
    let ghost ns = kg.model().nodes;
    let ghost refs = kg.spec_references();
    let ghost keep = file_entity(f@);
    let mut entities: usize = 0;
    let mut refs_in: usize = 0;
    let mut i: usize = 0;
    while i < nodes.len()
        invariant
            i <= nodes@.len(),
            view_nodes(nodes@) == ns,
            ns == kg.model().nodes,
            refs == kg.spec_references(),
            keep == file_entity(f@),
            file_refs_in(ns, refs, f@) <= usize::MAX,
            entities == ns.take(i as int).filter(keep).len(),
            entities <= i,
            refs_in == file_refs_in(ns.take(i as int), refs, f@),
        decreases nodes@.len() - i,
    {
        let n = &nodes[i];
        proof {
            assert(ns[i as int] == n@);
            crate::seqs::lemma_filter_take_step(ns, keep, i as int);
            lemma_file_refs_prefix(ns, refs, f@, i + 1);
            assert(ns.take(i + 1).drop_last() == ns.take(i as int));
        }
        let here = match &n.source {
            crate::model::Source::CodeAnalysis { file } => str_eq(file.as_str(), f),
            crate::model::Source::Conversation => false,
        };
        if here && !str_eq(n.node_type.as_str(), "File") {
            refs_in = refs_in + kg.inbound_reference_count(n.name.as_str());
            if !str_eq(n.node_type.as_str(), "Import") {
                entities += 1;
            }
        }
        i += 1;
    }
    assert(ns.take(ns.len() as int) == ns);
    (entities, refs_in)
}

/// How many critical decisions and technical facts the graph holds.
fn count_critical_decisions(nodes: &[Node]) -> (c: usize)
    ensures
        c == view_nodes(nodes@).filter(critical_decision()).len(),
{
    let ghost ns = view_nodes(nodes@);
    let ghost keep = critical_decision();
    let mut c: usize = 0;
    let mut i: usize = 0;
    while i < nodes.len()
        invariant
            i <= nodes@.len(),
            ns == view_nodes(nodes@),
            keep == critical_decision(),
            c == ns.take(i as int).filter(keep).len(),
            c <= i,
        decreases nodes@.len() - i,
    {
        let n = &nodes[i];
        proof {
            assert(ns[i as int] == n@);
            crate::seqs::lemma_filter_take_step(ns, keep, i as int);
        }
        if (str_eq(n.node_type.as_str(), "Decision") || str_eq(n.node_type.as_str(), "TechnicalFact"))
            && n.tier == ImportanceTier::Critical {
            c += 1;
        }
        i += 1;
    }
    assert(ns.take(ns.len() as int) == ns);
    c
}

/// A map line as computed.
struct StatRow {
    short: String,
    entities: usize,
    refs_in: usize,
}

impl View for StatRow {
    type V = FileStat;

    closed spec fn view(&self) -> FileStat {
        FileStat { short: self.short@, entities: self.entities as nat, refs_in: self.refs_in as nat }
    }
}

/// The project map, with `shorts[k]` the name the k-th analysed file is shown under.
pub fn project_map_named(kg: &KnowledgeGraph, files: &Vec<String>, shorts: &Vec<String>) -> (map: String)
    requires
        views(files@) == file_list(kg.model().nodes),
        shorts@.len() == files@.len(),
        kg.wf(),
    ensures
        map@ == project_map(kg.model().nodes, kg.model().edges.len(), kg.spec_references(), views(shorts@)),
{
    proof { lemma_map_counts_fit(kg); }
    let nodes = kg.all_nodes();
    let ghost ns = kg.model().nodes;
    let ghost refs = kg.spec_references();
    let ghost fl = views(files@);
    let ghost sl = views(shorts@);
    let total_nodes = nodes.len();
    let total_edges = kg.stats().edge_count;
    let decision_count = count_critical_decisions(nodes);
    let mut out = String::from_str("Progetto: ");
    push_decimal(&mut out, files.len() as u64);
    out.append(" file, ");
    push_decimal(&mut out, total_nodes as u64);
    out.append(" entità, ");
    push_decimal(&mut out, total_edges as u64);
    out.append(" riferimenti cross-file\n");
    if decision_count > 0 {
        out.append("Decisioni architetturali attive: ");
        push_decimal(&mut out, decision_count as u64);
        out.append(" (chartcode explore <nome>)\n");
    }
    out.append("Usa: chartcode impact <entità> prima di rename/refactor\n\n");
    assert(out@ == map_head(ns, kg.model().edges.len()));
    let mut rows: Vec<StatRow> = Vec::new();
    let mut k: usize = 0;
    while k < files.len()
        invariant
            k <= files@.len(),
            shorts@.len() == files@.len(),
            view_nodes(nodes@) == ns,
            ns == kg.model().nodes,
            refs == kg.spec_references(),
            fl == views(files@),
            sl == views(shorts@),
            fl == file_list(ns),
            map_counts_fit(ns, refs),
            rows@.map_values(|r: StatRow| r@) == file_stats(ns, refs, fl.take(k as int), sl.take(k as int)),
        decreases files@.len() - k,
    {
        proof {
            assert(fl[k as int] == file_list(ns)[k as int]);
        }
        let (entities, refs_in) = file_counts(kg, nodes, files[k].as_str());
        let ghost before = rows@;
        if entities > 0 {
            rows.push(StatRow { short: shorts[k].clone(), entities, refs_in });
        }
        proof {
            assert(fl.take(k + 1).drop_last() == fl.take(k as int));
            assert(sl.take(k + 1).drop_last() == sl.take(k as int));
            assert(fl.take(k + 1).last() == files@[k as int]@);
            assert(sl.take(k + 1).last() == shorts@[k as int]@);
            if entities > 0 {
                assert(rows@.map_values(|r: StatRow| r@) =~= before.map_values(|r: StatRow| r@).push(rows@.last()@));
            }
        }
        k += 1;
    }
    proof {
        assert(fl.take(fl.len() as int) == fl);
        assert(sl.take(sl.len() as int) == sl);
    }
    let ghost st = file_stats(ns, refs, fl, sl);
    let mut keys: Vec<usize> = Vec::new();
    let mut j: usize = 0;
    while j < rows.len()
        invariant
            j <= rows@.len(),
            rows@.map_values(|r: StatRow| r@) == st,
            keys@ == st.take(j as int).map_values(|s: FileStat| s.refs_in as usize),
        decreases rows@.len() - j,
    {
        keys.push(rows[j].refs_in);
        proof {
            assert(st[j as int] == rows@[j as int]@);
        }
        j += 1;
        assert(keys@ =~= st.take(j as int).map_values(|s: FileStat| s.refs_in as usize));
    }
    assert(st.take(st.len() as int) == st);
    let order = stable_order_desc(&keys);
    proof { lemma_order_desc_bounds(keys@); }
    out.append("Moduli per connettività:\n");
    let ghost head = out@;
    let ghost sorted = stats_by_refs(st);
    let mut t: usize = 0;
    while t < order.len()
        invariant
            t <= order@.len(),
            order@ == order_desc(keys@),
            keys@.len() == rows@.len(),
            forall|q: int| 0 <= q < keys@.len() ==> #[trigger] order_desc(keys@)[q] < keys@.len(),
            order_desc(keys@).len() == keys@.len(),
            rows@.map_values(|r: StatRow| r@) == st,
            keys@ == st.map_values(|s: FileStat| s.refs_in as usize),
            sorted == stats_by_refs(st),
            out@ == head + stat_lines(sorted.take(t as int)),
        decreases order@.len() - t,
    {
        let idx = order[t];
        let row = &rows[idx];
        let ghost before = out@;
        out.append("  ");
        out.append(row.short.as_str());
        out.append(" (");
        push_decimal(&mut out, row.entities as u64);
        out.append(" entità, ");
        push_decimal(&mut out, row.refs_in as u64);
        out.append(" refs IN)");
        if row.refs_in > 100 {
            out.append(" \u{2190} toccare con cautela");
        } else if row.refs_in == 0 {
            out.append(" \u{2190} leaf module");
        }
        out.append("\n");
        proof {
            assert(sorted[t as int] == st[idx as int]);
            assert(st[idx as int] == row@);
            assert(out@ == before + stat_line(row@));
            assert(sorted.take(t + 1).drop_last() == sorted.take(t as int));
        }
        t += 1;
    }
    assert(sorted.take(sorted.len() as int) == sorted);
    out
}

/// The project map: an overview of the analysed files, the most referenced first, with
/// warnings for files that much code depends on.
pub fn generate_project_map(kg: &KnowledgeGraph) -> (map: String)
    requires
        kg.wf(),
    ensures
        exists|shorts: Seq<Seq<char>>| names_show(shorts, file_list(kg.model().nodes))
            && map@ == #[trigger] project_map(kg.model().nodes, kg.model().edges.len(), kg.spec_references(), shorts),
{
    proof { lemma_map_counts_fit(kg); }
    let files = collect_source_files(kg);
    let ghost fl = views(files@);
    let mut shorts: Vec<String> = Vec::new();
    let mut k: usize = 0;
    while k < files.len()
        invariant
            k <= files@.len(),
            fl == views(files@),
            strictly_sorted(fl),
            names_show(views(shorts@), fl.take(k as int)),
        decreases files@.len() - k,
    {
        let ghost before = views(shorts@);
        let name = short_file_name(files[k].as_str());
        shorts.push(name);
        proof {
            let nv = views(shorts@);
            let pt = fl.take(k + 1);
            assert(nv =~= before.push(name@));
            assert(pt =~= fl.take(k as int).push(files@[k as int]@));
            assert forall|a: int| 0 <= a < nv.len() implies #[trigger] nv[a] == pt[a] || is_component(nv[a]) by {
                if a < k { assert(nv[a] == before[a] && pt[a] == fl.take(k as int)[a]); }
            }
            assert forall|a: int| 0 <= a < nv.len() && portable(#[trigger] pt[a]) implies nv[a] == shown_name(pt[a]) by {
                if a < k { assert(nv[a] == before[a] && pt[a] == fl.take(k as int)[a]); }
            }
            assert forall|a: int, b: int| 0 <= a < nv.len() && 0 <= b < nv.len() && #[trigger] pt[a] == #[trigger] pt[b]
                implies nv[a] == nv[b] by {
                if a != b {
                    assert(pt[a] == fl[a] && pt[b] == fl[b]);
                    if a < b {
                        lemma_seq_lt_irreflexive(fl[a]);
                        assert(seq_lt(fl[a], fl[b]));
                    } else {
                        lemma_seq_lt_irreflexive(fl[b]);
                        assert(seq_lt(fl[b], fl[a]));
                    }
                }
            }
        }
        k += 1;
    }
    assert(fl.take(files@.len() as int) == fl);
    project_map_named(kg, &files, &shorts)
}

/// A type-like entity: struct, enum or trait.
pub open spec fn is_struct_kind(n: NodeView) -> bool {
    n.node_type == "Struct"@ || n.node_type == "Enum"@ || n.node_type == "Trait"@
}

/// A callable entity: function or method.
pub open spec fn is_fn_kind(n: NodeView) -> bool {
    n.node_type == "Function"@ || n.node_type == "Method"@
}

/// The test for a type-like entity.
pub open spec fn struct_kind() -> spec_fn(NodeView) -> bool {
    |n: NodeView| is_struct_kind(n)
}

/// The test for a callable entity.
pub open spec fn fn_kind() -> spec_fn(NodeView) -> bool {
    |n: NodeView| is_fn_kind(n)
}

/// The entities of a file, the most referenced first; equal counts keep graph order.
pub open spec fn entities_by_refs(es: Seq<NodeView>, refs: Seq<CodeReference>) -> Seq<NodeView> {
    order_desc(es.map_values(|n: NodeView| inbound(refs, n.name) as usize)).map_values(|i: usize| es[i as int])
}

/// The test for a field of the type named `owner`.
pub open spec fn field_of(owner: Seq<char>) -> spec_fn(NodeView) -> bool {
    |e: NodeView| e.node_type == "Field"@ && starts_with(e.name, owner + "."@)
}

/// The test for references of kind `k`.
pub open spec fn of_kind(k: RefType) -> spec_fn(CodeReference) -> bool {
    |r: CodeReference| r.ref_type == k
}

/// How many references to `name` are of kind `k`.
pub open spec fn refs_of_kind(refs: Seq<CodeReference>, name: Seq<char>, k: RefType) -> nat {
    references_named(refs, name).filter(of_kind(k)).len()
}

/// The line for a field of type `owner`, when code reads or writes it.
pub open spec fn field_line(owner: Seq<char>, field: NodeView, refs: Seq<CodeReference>) -> Seq<char> {
    let reads = refs_of_kind(refs, field.name, RefType::ReadsField);
    let writes = refs_of_kind(refs, field.name, RefType::WritesField);
    if reads > 0 || writes > 0 {
        "  ."@ + field.name.skip(owner.len() + 1int) + ": letto in "@ + decimal(reads) + " file, scritto in "@
            + decimal(writes) + "\n"@
    } else {
        Seq::empty()
    }
}

/// The lines for the fields of type `owner`, in order.
pub open spec fn field_lines(owner: Seq<char>, fields: Seq<NodeView>, refs: Seq<CodeReference>) -> Seq<char>
    decreases fields.len(),
{
    if fields.len() == 0 {
        Seq::empty()
    } else {
        field_lines(owner, fields.drop_last(), refs) + field_line(owner, fields.last(), refs)
    }
}

/// The block for a type: how often it is referenced, then how its fields are used.
pub open spec fn struct_block(s: NodeView, sorted: Seq<NodeView>, refs: Seq<CodeReference>) -> Seq<char> {
    s.name + ": "@ + decimal(inbound(refs, s.name)) + " refs IN\n"@
        + field_lines(s.name, sorted.filter(field_of(s.name)), refs)
}

/// The blocks for the types, in order.
pub open spec fn struct_blocks(ss: Seq<NodeView>, sorted: Seq<NodeView>, refs: Seq<CodeReference>) -> Seq<char>
    decreases ss.len(),
{
    if ss.len() == 0 {
        Seq::empty()
    } else {
        struct_blocks(ss.drop_last(), sorted, refs) + struct_block(ss.last(), sorted, refs)
    }
}

/// The line for a callable, when something refers to it.
pub open spec fn fn_line(f: NodeView, refs: Seq<CodeReference>) -> Seq<char> {
    if inbound(refs, f.name) > 0 {
        f.name + " ("@ + f.node_type + "): "@ + decimal(inbound(refs, f.name)) + " refs IN\n"@
    } else {
        Seq::empty()
    }
}

/// The lines for the callables, in order.
pub open spec fn fn_lines(fs: Seq<NodeView>, refs: Seq<CodeReference>) -> Seq<char>
    decreases fs.len(),
{
    if fs.len() == 0 { Seq::empty() } else { fn_lines(fs.drop_last(), refs) + fn_line(fs.last(), refs) }
}

/// The rule for file `f`: a header that scopes it to the file, the file's types with their
/// fields' use, its ten most referenced callables, and what to do before changing them.
pub open spec fn file_rule(ns: Seq<NodeView>, refs: Seq<CodeReference>, f: Seq<char>) -> Seq<char> {
    let sorted = entities_by_refs(ns.filter(file_entity(f)), refs);
    let ss = sorted.filter(struct_kind());
    let fs = sorted.filter(fn_kind());
    "---\npaths:\n"@ + "  - \""@ + f + "\"\n"@ + "---\n\n"@ + struct_blocks(ss, sorted, refs)
        + (if fs.len() > 0 {
            "\n"@ + fn_lines(if fs.len() <= 10 { fs } else { fs.take(10) }, refs)
        } else {
            Seq::empty()
        })
        + (if ss.len() > 0 {
            "\nSE MODIFICHI STRUCT: chartcode impact <nome> per vedere tutti i riferimenti\n"@
        } else {
            Seq::empty()
        })
        + (if fs.len() > 0 { "SE RINOMINI FUNZIONE: chartcode impact <nome> prima di procedere\n"@ } else { Seq::empty() })
}

/// The nodes at the given positions.
pub open spec fn at_positions(ns: Seq<NodeView>, ps: Seq<usize>) -> Seq<NodeView> {
    ps.map_values(|p: usize| ns[p as int])
}

/// The positions of the nodes that pass `keep`, among the given positions, in order.
fn positions_where(nodes: &[Node], ps: &Vec<usize>, want_fns: bool) -> (r: Vec<usize>)
    requires
        forall|k: int| 0 <= k < ps@.len() ==> #[trigger] ps@[k] < nodes@.len(),
    ensures
        forall|k: int| 0 <= k < r@.len() ==> #[trigger] r@[k] < nodes@.len(),
        at_positions(view_nodes(nodes@), r@) == at_positions(view_nodes(nodes@), ps@).filter(
            if want_fns { fn_kind() } else { struct_kind() },
        ),
{
    let ghost ns = view_nodes(nodes@);
    let ghost keep = if want_fns { fn_kind() } else { struct_kind() };
    let ghost all = at_positions(ns, ps@);
    let mut r: Vec<usize> = Vec::new();
    let mut k: usize = 0;
    while k < ps.len()
        invariant
            k <= ps@.len(),
            ns == view_nodes(nodes@),
            all == at_positions(ns, ps@),
            keep == (if want_fns { fn_kind() } else { struct_kind() }),
            forall|q: int| 0 <= q < ps@.len() ==> #[trigger] ps@[q] < nodes@.len(),
            forall|q: int| 0 <= q < r@.len() ==> #[trigger] r@[q] < nodes@.len(),
            at_positions(ns, r@) == all.take(k as int).filter(keep),
        decreases ps@.len() - k,
    {
        let p = ps[k];
        let n = &nodes[p];
        let t = n.node_type.as_str();
        let pass = if want_fns {
            str_eq(t, "Function") || str_eq(t, "Method")
        } else {
            str_eq(t, "Struct") || str_eq(t, "Enum") || str_eq(t, "Trait")
        };
        let ghost before = r@;
        if pass {
            r.push(p);
        }
        proof {
            assert(all[k as int] == n@);
            crate::seqs::lemma_filter_take_step(all, keep, k as int);
            if pass {
                assert(at_positions(ns, r@) =~= at_positions(ns, before).push(ns[p as int]));
            }
        }
        k += 1;
    }
    assert(all.take(all.len() as int) == all);
    r
}

/// How many of the references are of kind `k`.
fn count_kind(rs: &Vec<CodeReference>, k: RefType) -> (c: usize)
    ensures
        c == rs@.filter(of_kind(k)).len(),
{
    let ghost keep = of_kind(k);
    let mut c: usize = 0;
    let mut i: usize = 0;
    while i < rs.len()
        invariant
            i <= rs@.len(),
            keep == of_kind(k),
            c == rs@.take(i as int).filter(keep).len(),
            c <= i,
        decreases rs@.len() - i,
    {
        proof { crate::seqs::lemma_filter_take_step(rs@, keep, i as int); }
        if rs[i].ref_type == k {
            c += 1;
        }
        i += 1;
    }
    assert(rs@.take(rs@.len() as int) == rs@);
    c
}

/// The characters of `v` from position `start` on, as a string.
fn string_from(v: &Vec<char>, start: usize) -> (s: String)
    requires
        start <= v@.len(),
    ensures
        s@ == v@.skip(start as int),
{
    let mut s = String::new();
    let mut i: usize = start;
    while i < v.len()
        invariant
            start <= i <= v@.len(),
            s@ == v@.subrange(start as int, i as int),
        decreases v@.len() - i,
    {
        s.push(v[i]);
        i += 1;
        assert(v@.subrange(start as int, i as int) == v@.subrange(start as int, i - 1).push(v@[i - 1]));
    }
    s
}

/// Appends the line for field `field` of type `owner`, when code reads or writes it.
fn push_field_line(out: &mut String, kg: &KnowledgeGraph, owner: &str, field: &Node)
    requires
        starts_with(field.name@, owner@ + "."@),
    ensures
        final(out)@ == old(out)@ + field_line(owner@, field@, kg.spec_references()),
{
    let rs = kg.references_to(field.name.as_str());
    let reads = count_kind(&rs, RefType::ReadsField);
    let writes = count_kind(&rs, RefType::WritesField);
    if reads > 0 || writes > 0 {
        let chars = chars_of(field.name.as_str());
        let oc = chars_of(owner);
        proof { reveal_strlit("."); }
        assert(oc@.len() + 1 <= chars@.len());
        let _cl = chars.len();
        let skip = oc.len() + 1;
        let short = string_from(&chars, skip);
        out.append("  .");
        out.append(short.as_str());
        out.append(": letto in ");
        push_decimal(out, reads as u64);
        out.append(" file, scritto in ");
        push_decimal(out, writes as u64);
        out.append("\n");
    }
}

/// Whether `n` is a field of the type named `owner`.
fn is_field_of(n: &Node, owner_dot: &str) -> (r: bool)
    ensures
        r == (n@.node_type == "Field"@ && starts_with(n@.name, owner_dot@)),
{
    str_eq(n.node_type.as_str(), "Field") && starts_with_str(n.name.as_str(), owner_dot)
}

/// Appends the block for type `s`: its reference count and how its fields are used.
fn push_struct_block(out: &mut String, kg: &KnowledgeGraph, nodes: &[Node], s: &Node, sorted: &Vec<usize>)
    requires
        forall|k: int| 0 <= k < sorted@.len() ==> #[trigger] sorted@[k] < nodes@.len(),
    ensures
        final(out)@ == old(out)@ + struct_block(s@, at_positions(view_nodes(nodes@), sorted@), kg.spec_references()),
{
    let ghost ns = view_nodes(nodes@);
    let ghost all = at_positions(ns, sorted@);
    let ghost refs = kg.spec_references();
    let ghost keep = field_of(s@.name);
    out.append(s.name.as_str());
    out.append(": ");
    push_decimal(out, kg.inbound_reference_count(s.name.as_str()) as u64);
    out.append(" refs IN\n");
    let mut owner_dot = s.name.clone();
    owner_dot.append(".");
    let ghost head = out@;
    let mut k: usize = 0;
    while k < sorted.len()
        invariant
            k <= sorted@.len(),
            forall|q: int| 0 <= q < sorted@.len() ==> #[trigger] sorted@[q] < nodes@.len(),
            ns == view_nodes(nodes@),
            all == at_positions(ns, sorted@),
            refs == kg.spec_references(),
            keep == field_of(s@.name),
            owner_dot@ == s@.name + "."@,
            out@ == head + field_lines(s@.name, all.take(k as int).filter(keep), refs),
        decreases sorted@.len() - k,
    {
        let n = &nodes[sorted[k]];
        let ghost before = out@;
        proof {
            assert(all[k as int] == n@);
            crate::seqs::lemma_filter_take_step(all, keep, k as int);
        }
        if is_field_of(n, owner_dot.as_str()) {
            push_field_line(out, kg, s.name.as_str(), n);
            proof {
                let fl = all.take(k as int).filter(keep);
                assert(fl.push(n@).drop_last() == fl);
            }
        }
        k += 1;
    }
    assert(all.take(all.len() as int) == all);
}

/// The rule for one source file, scoped to it by its header: the file's types and how their
/// fields are used, its ten most referenced functions, and what to check before changing them.
pub fn generate_file_rule(kg: &KnowledgeGraph, file_path: &str) -> (rule: String)
    ensures
        rule@ == file_rule(kg.model().nodes, kg.spec_references(), file_path@),
{
    let nodes = kg.all_nodes();
    let ghost ns = kg.model().nodes;
    let ghost refs = kg.spec_references();
    let ghost keep = file_entity(file_path@);
    let mut out = String::from_str("---\npaths:\n");
    out.append("  - \"");
    out.append(file_path);
    out.append("\"\n");
    out.append("---\n\n");
    let ghost header = out@;
    // the file's entities, as positions
    let mut ents: Vec<usize> = Vec::new();
    let mut i: usize = 0;
    while i < nodes.len()
        invariant
            i <= nodes@.len(),
            view_nodes(nodes@) == ns,
            keep == file_entity(file_path@),
            forall|q: int| 0 <= q < ents@.len() ==> #[trigger] ents@[q] < nodes@.len(),
            at_positions(ns, ents@) == ns.take(i as int).filter(keep),
        decreases nodes@.len() - i,
    {
        let n = &nodes[i];
        let here = match &n.source {
            crate::model::Source::CodeAnalysis { file } => str_eq(file.as_str(), file_path),
            crate::model::Source::Conversation => false,
        };
        let ghost before = ents@;
        if here && !str_eq(n.node_type.as_str(), "File") && !str_eq(n.node_type.as_str(), "Import") {
            ents.push(i);
        }
        proof {
            assert(ns[i as int] == n@);
            crate::seqs::lemma_filter_take_step(ns, keep, i as int);
            if ents@.len() > before.len() {
                assert(at_positions(ns, ents@) =~= at_positions(ns, before).push(ns[i as int]));
            } else {
                assert(ents@ == before);
            }
        }
        i += 1;
    }
    assert(ns.take(ns.len() as int) == ns);
    let ghost es = ns.filter(keep);
    // their reference counts, and the order by them
    let mut keys: Vec<usize> = Vec::new();
    let mut j: usize = 0;
    while j < ents.len()
        invariant
            j <= ents@.len(),
            forall|q: int| 0 <= q < ents@.len() ==> #[trigger] ents@[q] < nodes@.len(),
            view_nodes(nodes@) == ns,
            refs == kg.spec_references(),
            at_positions(ns, ents@) == es,
            keys@ == es.take(j as int).map_values(|n: NodeView| inbound(refs, n.name) as usize),
        decreases ents@.len() - j,
    {
        let c = kg.inbound_reference_count(nodes[ents[j]].name.as_str());
        keys.push(c);
        proof {
            assert(es[j as int] == ns[ents@[j as int] as int]);
        }
        j += 1;
        assert(keys@ =~= es.take(j as int).map_values(|n: NodeView| inbound(refs, n.name) as usize));
    }
    assert(es.take(es.len() as int) == es);
    let order = stable_order_desc(&keys);
    proof { lemma_order_desc_bounds(keys@); }
    let ghost sorted_v = entities_by_refs(es, refs);
    let mut sorted: Vec<usize> = Vec::new();
    let mut t: usize = 0;
    while t < order.len()
        invariant
            t <= order@.len(),
            order@ == order_desc(keys@),
            order_desc(keys@).len() == keys@.len(),
            keys@.len() == ents@.len(),
            forall|q: int| 0 <= q < keys@.len() ==> #[trigger] order_desc(keys@)[q] < keys@.len(),
            forall|q: int| 0 <= q < ents@.len() ==> #[trigger] ents@[q] < nodes@.len(),
            forall|q: int| 0 <= q < sorted@.len() ==> #[trigger] sorted@[q] < nodes@.len(),
            view_nodes(nodes@) == ns,
            at_positions(ns, ents@) == es,
            keys@ == es.map_values(|n: NodeView| inbound(refs, n.name) as usize),
            sorted_v == entities_by_refs(es, refs),
            at_positions(ns, sorted@) == sorted_v.take(t as int),
        decreases order@.len() - t,
    {
        let p = ents[order[t]];
        let ghost before = sorted@;
        sorted.push(p);
        proof {
            assert(sorted_v[t as int] == es[order@[t as int] as int]);
            assert(es[order@[t as int] as int] == ns[p as int]);
            assert(at_positions(ns, sorted@) =~= at_positions(ns, before).push(ns[p as int]));
            assert(sorted_v.take(t + 1) =~= sorted_v.take(t as int).push(sorted_v[t as int]));
        }
        t += 1;
    }
    assert(sorted_v.take(sorted_v.len() as int) == sorted_v);
    let structs = positions_where(nodes, &sorted, false);
    let funcs = positions_where(nodes, &sorted, true);
    let ghost ss = sorted_v.filter(struct_kind());
    let ghost fs = sorted_v.filter(fn_kind());
    // the types
    let mut k: usize = 0;
    while k < structs.len()
        invariant
            k <= structs@.len(),
            forall|q: int| 0 <= q < structs@.len() ==> #[trigger] structs@[q] < nodes@.len(),
            forall|q: int| 0 <= q < sorted@.len() ==> #[trigger] sorted@[q] < nodes@.len(),
            view_nodes(nodes@) == ns,
            refs == kg.spec_references(),
            at_positions(ns, sorted@) == sorted_v,
            at_positions(ns, structs@) == ss,
            out@ == header + struct_blocks(ss.take(k as int), sorted_v, refs),
        decreases structs@.len() - k,
    {
        let s = &nodes[structs[k]];
        push_struct_block(&mut out, kg, nodes, s, &sorted);
        proof {
            assert(ss[k as int] == s@);
            assert(ss.take(k + 1).drop_last() == ss.take(k as int));
        }
        k += 1;
    }
    assert(ss.take(ss.len() as int) == ss);
    // the callables
    let ghost before_fns = out@;
    if funcs.len() > 0 {
        out.append("\n");
        let limit = if funcs.len() <= 10 { funcs.len() } else { 10 };
        let ghost shown = if fs.len() <= 10 { fs } else { fs.take(10) };
        let ghost mid = out@;
        let mut m: usize = 0;
        while m < limit
            invariant
                m <= limit,
                limit <= funcs@.len(),
                limit == shown.len(),
                shown == (if fs.len() <= 10 { fs } else { fs.take(10) }),
                forall|q: int| 0 <= q < funcs@.len() ==> #[trigger] funcs@[q] < nodes@.len(),
                view_nodes(nodes@) == ns,
                refs == kg.spec_references(),
                at_positions(ns, funcs@) == fs,
                out@ == mid + fn_lines(shown.take(m as int), refs),
            decreases limit - m,
        {
            let f = &nodes[funcs[m]];
            let c = kg.inbound_reference_count(f.name.as_str());
            if c > 0 {
                out.append(f.name.as_str());
                out.append(" (");
                out.append(f.node_type.as_str());
                out.append("): ");
                push_decimal(&mut out, c as u64);
                out.append(" refs IN\n");
            }
            proof {
                assert(shown[m as int] == fs[m as int]);
                assert(fs[m as int] == f@);
                assert(shown.take(m + 1).drop_last() == shown.take(m as int));
            }
            m += 1;
        }
        assert(shown.take(shown.len() as int) == shown);
    }
    if structs.len() > 0 {
        out.append("\nSE MODIFICHI STRUCT: chartcode impact <nome> per vedere tutti i riferimenti\n");
    }
    if funcs.len() > 0 {
        out.append("SE RINOMINI FUNZIONE: chartcode impact <nome> prima di procedere\n");
    }
    out
}

/// A file path made into a file name: separators and dots become dashes.
pub open spec fn safe_name(path: Seq<char>) -> Seq<char> {
    path.map_values(|c: char| if c == '/' || c == '\\' || c == '.' { '-' } else { c })
}

/// The per-file rules: one for each analysed file with more than three entities, in file order,
/// each under the file's safe name.
pub open spec fn file_rules(ns: Seq<NodeView>, refs: Seq<CodeReference>, files: Seq<Seq<char>>) -> Seq<(Seq<char>, Seq<char>)>
    decreases files.len(),
{
    if files.len() == 0 {
        Seq::empty()
    } else {
        let rest = file_rules(ns, refs, files.drop_last());
        let f = files.last();
        if entity_count(ns, f) > 3 {
            rest.push((safe_name(f) + ".md"@, file_rule(ns, refs, f)))
        } else {
            rest
        }
    }
}

/// The views of named texts.
pub open spec fn named_views(v: Seq<(String, String)>) -> Seq<(Seq<char>, Seq<char>)> {
    v.map_values(|p: (String, String)| (p.0@, p.1@))
}

/// A file path made into a file name.
fn make_safe_name(path: &str) -> (r: String)
    ensures
        r@ == safe_name(path@),
{
    let v = chars_of(path);
    let mut out = String::new();
    let mut i: usize = 0;
    while i < v.len()
        invariant
            i <= v@.len(),
            out@ == safe_name(v@).take(i as int),
        decreases v@.len() - i,
    {
        let c = v[i];
        if c == '/' || c == '\\' || c == '.' {
            out.push('-');
        } else {
            out.push(c);
        }
        i += 1;
        assert(safe_name(v@).take(i as int) == safe_name(v@).take(i - 1).push(safe_name(v@)[i - 1]));
    }
    assert(safe_name(v@).take(v@.len() as int) == safe_name(v@));
    out
}

/// The rule files to write for the graph, by file name: the project map, the decisions, and a
/// rule for each analysed file with more than three entities.
pub fn rule_files(kg: &KnowledgeGraph) -> (files: Vec<(String, String)>)
    requires
        kg.wf(),
    ensures
        files@.len() >= 2,
        files@[0].0@ == "project-map.md"@,
        exists|shorts: Seq<Seq<char>>| names_show(shorts, file_list(kg.model().nodes))
            && files@[0].1@ == #[trigger] project_map(kg.model().nodes, kg.model().edges.len(), kg.spec_references(), shorts),
        files@[1].0@ == "decisions.md"@,
        files@[1].1@ == decisions_rule(kg.model().nodes),
        named_views(files@).skip(2) == file_rules(kg.model().nodes, kg.spec_references(), file_list(kg.model().nodes)),
{
    proof { lemma_map_counts_fit(kg); }
    let ghost ns = kg.model().nodes;
    let ghost refs = kg.spec_references();
    let mut out: Vec<(String, String)> = Vec::new();
    out.push((String::from_str("project-map.md"), generate_project_map(kg)));
    out.push((String::from_str("decisions.md"), generate_decisions_rule(kg)));
    let files = collect_source_files(kg);
    let nodes = kg.all_nodes();
    let ghost fl = views(files@);
    let ghost first = out@[0];
    let ghost second = out@[1];
    let mut k: usize = 0;
    while k < files.len()
        invariant
            k <= files@.len(),
            fl == views(files@),
            fl == file_list(ns),
            ns == kg.model().nodes,
            refs == kg.spec_references(),
            view_nodes(nodes@) == ns,
            map_counts_fit(ns, refs),
            out@.len() >= 2,
            out@[0] == first,
            out@[1] == second,
            named_views(out@).skip(2) == file_rules(ns, refs, fl.take(k as int)),
        decreases files@.len() - k,
    {
        let ghost before = out@;
        proof { assert(fl[k as int] == file_list(ns)[k as int]); }
        let (entities, _) = file_counts(kg, nodes, files[k].as_str());
        if entities > 3 {
            let mut name = make_safe_name(files[k].as_str());
            name.append(".md");
            let rule = generate_file_rule(kg, files[k].as_str());
            out.push((name, rule));
            proof {
                assert(named_views(out@).skip(2) =~= named_views(before).skip(2).push((name@, rule@)));
            }
        }
        proof {
            assert(fl.take(k + 1).drop_last() == fl.take(k as int));
            assert(fl.take(k + 1).last() == files@[k as int]@);
        }
        k += 1;
    }
    assert(fl.take(fl.len() as int) == fl);
    out
}

/// How many nodes of file `f`, other than the file itself, have name `name`.
spec fn nodes_named_in(ns: Seq<NodeView>, f: Seq<char>, name: Seq<char>) -> nat
    decreases ns.len(),
{
    if ns.len() == 0 {
        0
    } else {
        nodes_named_in(ns.drop_last(), f, name) + (if in_file(ns.last(), f) && ns.last().node_type != "File"@
            && ns.last().name == name { 1nat } else { 0nat })
    }
}

proof fn lemma_file_refs_push(ns: Seq<NodeView>, refs: Seq<CodeReference>, r: CodeReference, f: Seq<char>)
    ensures
        file_refs_in(ns, refs.push(r), f) == file_refs_in(ns, refs, f) + nodes_named_in(ns, f, r.target_name@),
    decreases ns.len(),
{
    reveal(Seq::filter);
    if ns.len() > 0 {
        lemma_file_refs_push(ns.drop_last(), refs, r, f);
        assert(refs.push(r).drop_last() == refs);
    }
}

proof fn lemma_file_refs_none(ns: Seq<NodeView>, f: Seq<char>)
    ensures
        file_refs_in(ns, Seq::empty(), f) == 0,
    decreases ns.len(),
{
    reveal(Seq::filter);
    if ns.len() > 0 {
        lemma_file_refs_none(ns.drop_last(), f);
    }
}

proof fn lemma_named_at_most_once(ns: Seq<NodeView>, f: Seq<char>, name: Seq<char>)
    requires
        forall|i: int, j: int| 0 <= i < ns.len() && 0 <= j < ns.len() && i != j ==> (#[trigger] ns[i]).name != (#[trigger] ns[j]).name,
    ensures
        nodes_named_in(ns, f, name) <= 1,
        (forall|i: int| 0 <= i < ns.len() ==> (#[trigger] ns[i]).name != name) ==> nodes_named_in(ns, f, name) == 0,
    decreases ns.len(),
{
    if ns.len() > 0 {
        let t = ns.drop_last();
        assert forall|i: int, j: int| 0 <= i < t.len() && 0 <= j < t.len() && i != j implies
            (#[trigger] t[i]).name != (#[trigger] t[j]).name by {
            assert(t[i] == ns[i] && t[j] == ns[j]);
        }
        lemma_named_at_most_once(t, f, name);
        if ns.last().name == name {
            assert forall|i: int| 0 <= i < t.len() implies (#[trigger] t[i]).name != name by {
                assert(t[i] == ns[i]);
                assert(ns[ns.len() - 1] == ns.last());
            }
        } else {
            if forall|i: int| 0 <= i < ns.len() ==> (#[trigger] ns[i]).name != name {
                assert forall|i: int| 0 <= i < t.len() implies (#[trigger] t[i]).name != name by {
                    assert(t[i] == ns[i]);
                }
            }
        }
    }
}

proof fn lemma_file_refs_bounded(ns: Seq<NodeView>, refs: Seq<CodeReference>, f: Seq<char>)
    requires
        forall|i: int, j: int| 0 <= i < ns.len() && 0 <= j < ns.len() && i != j ==> (#[trigger] ns[i]).name != (#[trigger] ns[j]).name,
    ensures
        file_refs_in(ns, refs, f) <= refs.len(),
    decreases refs.len(),
{
    if refs.len() == 0 {
        assert(refs == Seq::<CodeReference>::empty());
        lemma_file_refs_none(ns, f);
    } else {
        let t = refs.drop_last();
        lemma_file_refs_bounded(ns, t, f);
        assert(t.push(refs.last()) == refs);
        lemma_file_refs_push(ns, t, refs.last(), f);
        lemma_named_at_most_once(ns, f, refs.last().target_name@);
    }
}

/// In a well-formed graph the references into any file number no more than the references
/// recorded, so the counts of the project map fit in a machine word.
proof fn lemma_map_counts_fit(kg: &KnowledgeGraph)
    requires
        kg.wf(),
    ensures
        map_counts_fit(kg.model().nodes, kg.spec_references()),
{
    kg.lemma_reference_count_fits();
    let ns = kg.model().nodes;
    assert forall|k: int| 0 <= k < file_list(ns).len() implies
        file_refs_in(ns, kg.spec_references(), #[trigger] file_list(ns)[k]) <= usize::MAX by {
        lemma_file_refs_bounded(ns, kg.spec_references(), file_list(ns)[k]);
    }
}

/// The project map ranks files by connectivity: each line has at least as many references in
/// as every line below it.
pub proof fn lemma_map_most_referenced_first(st: Seq<FileStat>)
    requires
        st.len() <= usize::MAX,
        forall|k: int| 0 <= k < st.len() ==> (#[trigger] st[k]).refs_in <= usize::MAX,
    ensures
        forall|i: int, j: int| 0 <= i < j < stats_by_refs(st).len() ==>
            (#[trigger] stats_by_refs(st)[i]).refs_in >= (#[trigger] stats_by_refs(st)[j]).refs_in,
{
    let cs = st.map_values(|s: FileStat| s.refs_in as usize);
    lemma_order_desc_bounds(cs);
    lemma_order_desc_sorted(cs);
    let o = order_desc(cs);
    let r = stats_by_refs(st);
    assert forall|i: int, j: int| 0 <= i < j < r.len() implies (#[trigger] r[i]).refs_in >= (#[trigger] r[j]).refs_in by {
        let a = o[i] as int;
        let b = o[j] as int;
        assert(r[i] == st[a] && r[j] == st[b]);
        assert(cs[a] == st[a].refs_in as usize && cs[b] == st[b].refs_in as usize);
    }
}

/// The decisions rule lists exactly the active decisions of the graph, in graph order:
/// every listed node is a decision or technical fact of the top two tiers, not replaced, and
/// every such node of the graph is listed; minor, replaced and other nodes never are.
pub proof fn lemma_decisions_listed(ns: Seq<NodeView>)
    ensures
        forall|i: int| 0 <= i < ns.filter(active_decision()).len() ==> {
            let d = #[trigger] ns.filter(active_decision())[i];
            &&& is_active_decision(d)
            &&& ns.contains(d)
        },
        forall|i: int| 0 <= i < ns.len() && is_active_decision(#[trigger] ns[i]) ==> ns.filter(active_decision()).contains(ns[i]),
{
    let f = ns.filter(active_decision());
    assert forall|i: int| 0 <= i < f.len() implies {
        let d = #[trigger] f[i];
        &&& is_active_decision(d)
        &&& ns.contains(d)
    } by {
        ns.lemma_filter_pred(active_decision(), i);
        assert(f.contains(f[i]));
        ns.lemma_filter_contains_rev(active_decision(), f[i]);
    }
    assert forall|i: int| 0 <= i < ns.len() && is_active_decision(#[trigger] ns[i]) implies f.contains(ns[i]) by {
        ns.lemma_filter_contains(active_decision(), i);
    }
}

/// The project map opens with the totals: analysed files, nodes and edges; then, when there
/// are any, the number of critical decisions, counting exactly the nodes of type `Decision`
/// or `TechnicalFact` whose tier is Critical (Significant and Minor ones never count).
pub proof fn lemma_map_header(ns: Seq<NodeView>, edge_count: nat, refs: Seq<CodeReference>, shorts: Seq<Seq<char>>)
    ensures
        ({
            let d = ns.filter(|n: NodeView| (n.node_type == "Decision"@ || n.node_type == "TechnicalFact"@)
                && n.tier == ImportanceTier::Critical).len();
            let head = "Progetto: "@ + decimal(file_list(ns).len()) + " file, "@ + decimal(ns.len()) + " entità, "@
                + decimal(edge_count) + " riferimenti cross-file\n"@
                + (if d > 0 {
                    "Decisioni architetturali attive: "@ + decimal(d) + " (chartcode explore <nome>)\n"@
                } else {
                    Seq::empty()
                });
            starts_with(project_map(ns, edge_count, refs, shorts), head)
        }),
{
    let p = |n: NodeView| (n.node_type == "Decision"@ || n.node_type == "TechnicalFact"@) && n.tier == ImportanceTier::Critical;
    assert(p =~= critical_decision());
    let d = ns.filter(p).len();
    let head = "Progetto: "@ + decimal(file_list(ns).len()) + " file, "@ + decimal(ns.len()) + " entità, "@
        + decimal(edge_count) + " riferimenti cross-file\n"@
        + (if d > 0 {
            "Decisioni architetturali attive: "@ + decimal(d) + " (chartcode explore <nome>)\n"@
        } else {
            Seq::empty()
        });
    let m = project_map(ns, edge_count, refs, shorts);
    let rest = "Usa: chartcode impact <entità> prima di rename/refactor\n\n"@ + "Moduli per connettività:\n"@
        + stat_lines(stats_by_refs(file_stats(ns, refs, file_list(ns), shorts)));
    assert(m =~= head + rest);
    assert(m.subrange(0, head.len() as int) =~= head);
}

/// A node that is not a decision or technical fact of tier Critical or Significant still in
/// force (a Minor one, a replaced one, or one of another type) adds no line to the decisions
/// rule.
pub proof fn lemma_decisions_skip(ns: Seq<NodeView>, n: NodeView)
    requires
        n.tier == ImportanceTier::Minor || n.superseded_by is Some
            || !(n.node_type == "Decision"@ || n.node_type == "TechnicalFact"@),
    ensures
        decisions_rule(ns.push(n)) == decisions_rule(ns),
{
    reveal(Seq::filter);
    assert(ns.push(n).drop_last() == ns);
}

/// A decision or technical fact of tier Critical or Significant that is still in force is
/// listed in the decisions rule with its definition: as "NON VIOLARE" when critical, as
/// "NOTA" when significant.
pub proof fn lemma_decisions_list_active(ns: Seq<NodeView>, n: NodeView)
    requires
        n.node_type == "Decision"@ || n.node_type == "TechnicalFact"@,
        n.tier == ImportanceTier::Critical || n.tier == ImportanceTier::Significant,
        n.superseded_by is None,
    ensures
        contains(decisions_rule(ns.push(n)),
            (if n.tier == ImportanceTier::Critical { "NON VIOLARE"@ } else { "NOTA"@ }) + ": "@ + n.definition + "\n"@),
{
    reveal(Seq::filter);
    let np = ns.push(n);
    assert(np.drop_last() == ns);
    let ds = ns.filter(active_decision());
    assert(np.filter(active_decision()) == ds.push(n));
    assert(ds.push(n).drop_last() == ds);
    let line = (if n.tier == ImportanceTier::Critical { "NON VIOLARE"@ } else { "NOTA"@ }) + ": "@ + n.definition + "\n"@;
    let before = decision_lines(ds);
    let r = decisions_rule(np);
    let tail = "\nUSARE chartcode impact prima di ogni rename o cambio di signature\n"@;
    assert(r =~= before + line + tail);
    assert(r.subrange(before.len() as int, (before.len() + line.len()) as int) =~= line);
    assert(occurs_at(r, line, before.len() as int));
}

/// `mid` stands inside `a + mid + b`.
proof fn lemma_contains_middle(a: Seq<char>, mid: Seq<char>, b: Seq<char>)
    ensures
        contains(a + mid + b, mid),
{
    let s = a + mid + b;
    assert(s.subrange(a.len() as int, (a.len() + mid.len()) as int) =~= mid);
    assert(occurs_at(s, mid, a.len() as int));
}

proof fn lemma_fn_lines_has(fs: Seq<NodeView>, refs: Seq<CodeReference>, k: int)
    requires
        0 <= k < fs.len(),
    ensures
        contains(fn_lines(fs, refs), fn_line(fs[k], refs)),
    decreases fs.len(),
{
    let t = fs.drop_last();
    if k == fs.len() - 1 {
        lemma_contains_middle(fn_lines(t, refs), fn_line(fs[k], refs), Seq::empty());
        assert(fn_lines(t, refs) + fn_line(fs[k], refs) + Seq::<char>::empty() == fn_lines(fs, refs));
    } else {
        assert(t[k] == fs[k]);
        lemma_fn_lines_has(t, refs, k);
        lemma_contains_middle(Seq::empty(), fn_lines(t, refs), fn_line(fs.last(), refs));
        assert(Seq::<char>::empty() + fn_lines(t, refs) + fn_line(fs.last(), refs) == fn_lines(fs, refs));
        lemma_contains_transitive(fn_lines(fs, refs), fn_lines(t, refs), fn_line(fs[k], refs));
    }
}

/// Where `n`, an entity of file `f`, stands among the callables of the file rule.
proof fn lemma_callable_listed(ns: Seq<NodeView>, refs: Seq<CodeReference>, f: Seq<char>, i: int)
    requires
        ns.len() <= usize::MAX,
        0 <= i < ns.len(),
        ns[i].source == Some(f),
        ns[i].node_type == "Function"@ || ns[i].node_type == "Method"@,
    ensures
        entities_by_refs(ns.filter(file_entity(f)), refs).filter(fn_kind()).contains(ns[i]),
{
    let n = ns[i];
    let es = ns.filter(file_entity(f));
    reveal_strlit("Function");
    reveal_strlit("Method");
    reveal_strlit("File");
    reveal_strlit("Import");
    assert(n.node_type != "File"@ && n.node_type != "Import"@) by {
        if n.node_type == "Function"@ {
            assert("Function"@[0] != "File"@[1]);
            assert(n.node_type[1] != "File"@[1]);
            assert(n.node_type[0] != "Import"@[0]);
        } else {
            assert(n.node_type[0] != "File"@[0]);
            assert(n.node_type[0] != "Import"@[0]);
        }
    }
    assert(file_entity(f)(n));
    ns.lemma_filter_contains(file_entity(f), i);
    ns.lemma_filter_len(file_entity(f));
    let a = choose|a: int| 0 <= a < es.len() && es[a] == n;
    let keys = es.map_values(|m: NodeView| inbound(refs, m.name) as usize);
    lemma_order_desc_permutes(keys);
    let o = order_desc(keys);
    assert(o.contains(a as usize));
    let b = choose|b: int| 0 <= b < o.len() && o[b] == a as usize;
    let sorted = entities_by_refs(es, refs);
    assert(sorted[b] == n);
    assert(fn_kind()(n));
    sorted.lemma_filter_contains(fn_kind(), b);
}

/// A file's rule lists each of its functions and methods that code refers to, as
/// `name (Function)` or `name (Method)` with how many references it has, when the file
/// defines at most ten entities.
pub proof fn lemma_file_rule_lists_callables(ns: Seq<NodeView>, refs: Seq<CodeReference>, f: Seq<char>, i: int)
    requires
        ns.len() <= usize::MAX,
        0 <= i < ns.len(),
        ns[i].source == Some(f),
        ns[i].node_type == "Function"@ || ns[i].node_type == "Method"@,
        references_named(refs, ns[i].name).len() > 0,
        ns.filter(|m: NodeView| m.source == Some(f) && m.node_type != "File"@ && m.node_type != "Import"@).len() <= 10,
    ensures
        contains(file_rule(ns, refs, f),
            ns[i].name + " ("@ + ns[i].node_type + "): "@ + decimal(references_named(refs, ns[i].name).len()) + " refs IN\n"@),
{
    let n = ns[i];
    let es = ns.filter(file_entity(f));
    let explicit = |m: NodeView| m.source == Some(f) && m.node_type != "File"@ && m.node_type != "Import"@;
    assert(explicit =~= file_entity(f));
    lemma_callable_listed(ns, refs, f, i);
    let sorted = entities_by_refs(es, refs);
    let ss = sorted.filter(struct_kind());
    let fs = sorted.filter(fn_kind());
    let keys = es.map_values(|m: NodeView| inbound(refs, m.name) as usize);
    lemma_order_desc_bounds(keys);
    sorted.lemma_filter_len(fn_kind());
    assert(fs.len() <= 10);
    let k = choose|k: int| 0 <= k < fs.len() && fs[k] == n;
    lemma_fn_lines_has(fs, refs, k);
    let head = "---\npaths:\n"@ + "  - \""@ + f + "\"\n"@ + "---\n\n"@ + struct_blocks(ss, sorted, refs);
    let tail = (if ss.len() > 0 {
            "\nSE MODIFICHI STRUCT: chartcode impact <nome> per vedere tutti i riferimenti\n"@
        } else {
            Seq::empty()
        })
        + (if fs.len() > 0 { "SE RINOMINI FUNZIONE: chartcode impact <nome> prima di procedere\n"@ } else { Seq::empty() });
    lemma_contains_middle(head + "\n"@, fn_lines(fs, refs), tail);
    assert(head + "\n"@ + fn_lines(fs, refs) + tail =~= file_rule(ns, refs, f));
    lemma_contains_transitive(file_rule(ns, refs, f), fn_lines(fs, refs), fn_line(n, refs));
}

/// A file that defines a function or a method gets the warning to check its uses before
/// renaming it.
pub proof fn lemma_file_rule_rename_warning(ns: Seq<NodeView>, refs: Seq<CodeReference>, f: Seq<char>, i: int)
    requires
        ns.len() <= usize::MAX,
        0 <= i < ns.len(),
        ns[i].source == Some(f),
        ns[i].node_type == "Function"@ || ns[i].node_type == "Method"@,
    ensures
        contains(file_rule(ns, refs, f), "SE RINOMINI FUNZIONE: chartcode impact <nome> prima di procedere\n"@),
{
    lemma_callable_listed(ns, refs, f, i);
    let es = ns.filter(file_entity(f));
    let sorted = entities_by_refs(es, refs);
    let ss = sorted.filter(struct_kind());
    let fs = sorted.filter(fn_kind());
    assert(fs.len() > 0);
    let w = "SE RINOMINI FUNZIONE: chartcode impact <nome> prima di procedere\n"@;
    let head = "---\npaths:\n"@ + "  - \""@ + f + "\"\n"@ + "---\n\n"@ + struct_blocks(ss, sorted, refs)
        + "\n"@ + fn_lines(if fs.len() <= 10 { fs } else { fs.take(10) }, refs)
        + (if ss.len() > 0 {
            "\nSE MODIFICHI STRUCT: chartcode impact <nome> per vedere tutti i riferimenti\n"@
        } else {
            Seq::empty()
        });
    assert(file_rule(ns, refs, f) =~= head + w + Seq::empty());
    lemma_contains_middle(head, w, Seq::empty());
}

} // verus!
