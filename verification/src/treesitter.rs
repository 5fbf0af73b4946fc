use vstd::prelude::*;
use crate::text::{chars_of, str_eq, trim, trim_str};
use vstd::string::StringExecFns;
use tree_sitter::Node as ParsedNode;

verus! {

/// How a piece of code refers to an entity.
#[derive(Debug, Clone, Copy, PartialEq, Eq, Structural)]
pub enum RefType {
    Calls,
    MethodCall,
    ReadsField,
    WritesField,
    UsesType,
}

/// A place in the code that refers to an entity by name.
#[derive(Debug, Clone)]
pub struct CodeReference {
    pub source_file: String,
    pub source_line: usize,
    pub target_name: String,
    pub ref_type: RefType,
}

/// A node of a Rust syntax tree, as plain values.
#[derive(Debug)]
pub struct SyntaxNode {
    pub kind: String,
    pub field: Option<String>,
    pub text: String,
    pub start_row: usize,
    pub end_row: usize,
    pub children: Vec<SyntaxNode>,
}

/// An entity that code analysis found in a source file.
#[derive(Debug, Clone)]
pub struct CodeEntity {
    pub name: String,
    /// Function, Method, Struct, Field, Enum, Trait, Import or Const.
    pub entity_type: String,
    pub definition: String,
    pub file: String,
    pub line_start: usize,
    pub line_end: usize,
}

/// An entity as plain values.
pub struct EntityView {
    pub name: Seq<char>,
    pub entity_type: Seq<char>,
    pub definition: Seq<char>,
    pub file: Seq<char>,
    pub line_start: nat,
    pub line_end: nat,
}

impl View for CodeEntity {
    type V = EntityView;

    open spec fn view(&self) -> EntityView {
        EntityView {
            name: self.name@,
            entity_type: self.entity_type@,
            definition: self.definition@,
            file: self.file@,
            line_start: self.line_start as nat,
            line_end: self.line_end as nat,
        }
    }
}

/// The views of a sequence of entities.
pub open spec fn entity_views(es: Seq<CodeEntity>) -> Seq<EntityView> {
    es.map_values(|e: CodeEntity| e@)
}

/// The text of `s` up to its first line ending, as `str::lines` gives the first line.
pub open spec fn first_line(s: Seq<char>) -> Seq<char> {
    if exists|k: int| 0 <= k < s.len() && s[k] == '\n' {
        let k = choose|k: int| 0 <= k < s.len() && s[k] == '\n' && forall|j: int| 0 <= j < k ==> s[j] != '\n';
        let l = s.take(k);
        if l.len() > 0 && l.last() == '\r' { l.drop_last() } else { l }
    } else {
        s
    }
}

/// The node is the child under field `f` of its parent.
pub open spec fn has_field(n: SyntaxNode, f: Seq<char>) -> bool {
    n.field matches Some(x) && x@ == f
}

/// The position of the first of `ns` from `i` on that is under field `f`, or -1.
pub open spec fn field_from(ns: Seq<SyntaxNode>, f: Seq<char>, i: int) -> int
    decreases ns.len() - i,
{
    if i < 0 || i >= ns.len() {
        -1
    } else if has_field(ns[i], f) {
        i
    } else {
        field_from(ns, f, i + 1)
    }
}

/// The position of the first child under field `f`, or -1.
pub open spec fn field_index(ns: Seq<SyntaxNode>, f: Seq<char>) -> int {
    field_from(ns, f, 0)
}

/// The entity `name` of kind `ty` defined by `def` at the lines of node `n`.
pub open spec fn entity_at(name: Seq<char>, ty: Seq<char>, def: Seq<char>, file: Seq<char>, n: SyntaxNode) -> EntityView {
    EntityView { name, entity_type: ty, definition: def, file, line_start: (n.start_row + 1) as nat, line_end: (n.end_row + 1) as nat }
}

/// The fields that the body of struct `owner` declares, each named `owner.field`.
pub open spec fn struct_fields(owner: Seq<char>, ns: Seq<SyntaxNode>, file: Seq<char>) -> Seq<EntityView>
    decreases ns.len(),
{
    if ns.len() == 0 {
        Seq::empty()
    } else {
        let rest = struct_fields(owner, ns.drop_last(), file);
        let c = ns.last();
        let ni = field_index(c.children@, "name"@);
        if c.kind@ == "field_declaration"@ && 0 <= ni < c.children@.len() {
            rest.push(entity_at(owner + "."@ + c.children@[ni].text@, "Field"@, trim(c.text@), file, c))
        } else {
            rest
        }
    }
}

/// The entities that node `n` itself defines (not those inside it), within the impl of
/// `imp` when there is one.
pub open spec fn own_entities(n: SyntaxNode, file: Seq<char>, imp: Option<Seq<char>>) -> Seq<EntityView> {
    let k = n.kind@;
    let cs = n.children@;
    let ni = field_index(cs, "name"@);
    let named = 0 <= ni < cs.len();
    let name = if named { cs[ni].text@ } else { Seq::empty() };
    let head = trim(first_line(n.text@));
    if k == "function_item"@ {
        if named {
            match imp {
                Some(t) => seq![entity_at(name, "Method"@, t + "::"@ + name + " \u{2014} "@ + trim(first_line(n.text@)), file, n)],
                None => seq![entity_at(name, "Function"@, trim(first_line(n.text@)), file, n)],
            }
        } else {
            Seq::empty()
        }
    } else if k == "struct_item"@ {
        if named {
            let bi = field_index(cs, "body"@);
            seq![entity_at(name, "Struct"@, "struct "@ + name, file, n)] + (if 0 <= bi < cs.len() {
                struct_fields(name, cs[bi].children@, file)
            } else {
                Seq::empty()
            })
        } else {
            Seq::empty()
        }
    } else if k == "enum_item"@ {
        if named { seq![entity_at(name, "Enum"@, head, file, n)] } else { Seq::empty() }
    } else if k == "trait_item"@ {
        if named { seq![entity_at(name, "Trait"@, head, file, n)] } else { Seq::empty() }
    } else if k == "use_declaration"@ {
        seq![entity_at(trim(n.text@), "Import"@, trim(n.text@), file, n)]
    } else if k == "const_item"@ || k == "static_item"@ {
        if named { seq![entity_at(name, "Const"@, head, file, n)] } else { Seq::empty() }
    } else {
        Seq::empty()
    }
}

/// The entities defined in the tree of `n`, in the order a depth-first walk meets them; the
/// items in the body of an impl are methods of the implemented type.
pub open spec fn entities_of(n: SyntaxNode, file: Seq<char>, imp: Option<Seq<char>>) -> Seq<EntityView>
    decreases n,
{
    if n.kind@ == "impl_item"@ {
        let cs = n.children@;
        let ti = field_index(cs, "type"@);
        let t = if 0 <= ti < cs.len() { Some(cs[ti].text@) } else { None };
        let bi = field_index(cs, "body"@);
        if 0 <= bi < cs.len() {
            entities_of_all(cs[bi].children@, file, t)
        } else {
            Seq::empty()
        }
    } else {
        own_entities(n, file, imp) + entities_of_all(n.children@, file, imp)
    }
}

/// The entities defined in the trees of `ns`, one tree after the other.
pub open spec fn entities_of_all(ns: Seq<SyntaxNode>, file: Seq<char>, imp: Option<Seq<char>>) -> Seq<EntityView>
    decreases ns,
{
    if ns.len() == 0 {
        Seq::empty()
    } else {
        entities_of_all(ns.drop_last(), file, imp) + entities_of(ns.last(), file, imp)
    }
}

/// Every row number in the tree of `n` leaves room to count from one.
pub open spec fn rows_fit(n: SyntaxNode) -> bool
    decreases n,
{
    n.start_row < usize::MAX && n.end_row < usize::MAX && rows_fit_all(n.children@)
}

/// Every row number in the trees of `ns` leaves room to count from one.
pub open spec fn rows_fit_all(ns: Seq<SyntaxNode>) -> bool
    decreases ns,
{
    ns.len() == 0 || (rows_fit_all(ns.drop_last()) && rows_fit(ns.last()))
}

proof fn lemma_rows_fit_each(ns: Seq<SyntaxNode>, i: int)
    requires
        rows_fit_all(ns),
        0 <= i < ns.len(),
    ensures
        rows_fit(ns[i]),
    decreases ns.len(),
{
    if i < ns.len() - 1 {
        lemma_rows_fit_each(ns.drop_last(), i);
    }
}

/// Whether every row number in the tree of `n` leaves room to count from one.
pub fn check_rows(n: &SyntaxNode) -> (r: bool)
    ensures
        r == rows_fit(*n),
    decreases n,
{
    if n.start_row == usize::MAX || n.end_row == usize::MAX {
        return false;
    }
    let mut i: usize = 0;
    while i < n.children.len()
        invariant
            i <= n.children@.len(),
            rows_fit_all(n.children@.take(i as int)),
        decreases n.children@.len() - i,
    {
        assert(decreases_to!(n => n.children@[i as int]));
        if !check_rows(&n.children[i]) {
            proof {
                assert forall|k: int| i < k <= n.children@.len() implies !rows_fit_all(#[trigger] n.children@.take(k)) by {
                    assert(n.children@.take(k)[i as int] == n.children@[i as int]);
                    if rows_fit_all(n.children@.take(k)) {
                        lemma_rows_fit_each(n.children@.take(k), i as int);
                    }
                }
                assert(n.children@.take(n.children@.len() as int) == n.children@);
            }
            return false;
        }
        proof {
            assert(n.children@.take(i + 1).drop_last() == n.children@.take(i as int));
        }
        i += 1;
    }
    assert(n.children@.take(n.children@.len() as int) == n.children@);
    true
}

/// The position of the first child under field `f`.
fn field_child(ns: &Vec<SyntaxNode>, f: &str) -> (r: Option<usize>)
    ensures
        r matches Some(i) ==> i < ns@.len() && i as int == field_index(ns@, f@),
        r is None ==> field_index(ns@, f@) == -1,
{
    let mut i: usize = 0;
    while i < ns.len()
        invariant
            i <= ns@.len(),
            field_index(ns@, f@) == field_from(ns@, f@, i as int),
        decreases ns@.len() - i,
    {
        let here = match &ns[i].field {
            Some(x) => str_eq(x.as_str(), f),
            None => false,
        };
        if here {
            return Some(i);
        }
        i += 1;
    }
    None
}

/// The first line of `s`, as `str::lines` gives it.
pub fn first_line_of(s: &str) -> (r: String)
    ensures
        r@ == first_line(s@),
{
    let v = chars_of(s);
    let mut k: usize = 0;
    while k < v.len() && v[k] != '\n'
        invariant
            k <= v@.len(),
            forall|j: int| 0 <= j < k ==> v@[j] != '\n',
        decreases v@.len() - k,
    {
        k += 1;
    }
    if k == v.len() {
        proof {
            assert(!exists|j: int| 0 <= j < s@.len() && s@[j] == '\n');
        }
        return s.to_string();
    }
    let end = if k > 0 && v[k - 1] == '\r' { k - 1 } else { k };
    let mut out = String::new();
    let mut i: usize = 0;
    while i < end
        invariant
            i <= end,
            end <= k,
            k < v@.len(),
            out@ == v@.take(i as int),
        decreases end - i,
    {
        out.push(v[i]);
        i += 1;
        assert(v@.take(i as int) == v@.take(i - 1).push(v@[i - 1]));
    }
    proof {
        let sv = s@;
        assert(sv[k as int] == '\n');
        let c = choose|c: int| 0 <= c < sv.len() && sv[c] == '\n' && forall|j: int| 0 <= j < c ==> sv[j] != '\n';
        if c < k { assert(sv[c] != '\n'); }
        if c > k { assert(sv[k as int] != '\n'); }
        assert(c == k);
        if end < k {
            assert(sv.take(k as int).drop_last() == sv.take(end as int));
        }
    }
    out
}

/// An entity found in `file`, at the lines of node `n`.
fn make_entity(name: String, ty: &str, def: String, file: &str, n: &SyntaxNode) -> (e: CodeEntity)
    requires
        n.start_row < usize::MAX,
        n.end_row < usize::MAX,
    ensures
        e@ == entity_at(name@, ty@, def@, file@, *n),
{
    CodeEntity {
        name,
        entity_type: ty.to_string(),
        definition: def,
        file: file.to_string(),
        line_start: n.start_row + 1,
        line_end: n.end_row + 1,
    }
}

/// The view of an optional string slice.
pub open spec fn opt_view(o: Option<&str>) -> Option<Seq<char>> {
    match o {
        Some(s) => Some(s@),
        None => None,
    }
}

proof fn lemma_push_entity(v: Seq<CodeEntity>, e: CodeEntity)
    ensures
        entity_views(v.push(e)) == entity_views(v).push(e@),
{
    assert(entity_views(v.push(e)) =~= entity_views(v).push(e@));
}

/// Appends the fields that the body of struct `owner` declares.
fn push_struct_fields(owner: &str, ns: &Vec<SyntaxNode>, file: &str, out: &mut Vec<CodeEntity>)
    requires
        rows_fit_all(ns@),
    ensures
        entity_views(final(out)@) == entity_views(old(out)@) + struct_fields(owner@, ns@, file@),
{
    let ghost start = entity_views(out@);
    let mut i: usize = 0;
    while i < ns.len()
        invariant
            i <= ns@.len(),
            rows_fit_all(ns@),
            entity_views(out@) == start + struct_fields(owner@, ns@.take(i as int), file@),
        decreases ns@.len() - i,
    {
        let c = &ns[i];
        proof {
            lemma_rows_fit_each(ns@, i as int);
            assert(ns@.take(i + 1).drop_last() == ns@.take(i as int));
            assert(ns@.take(i + 1).last() == *c);
        }
        if str_eq(c.kind.as_str(), "field_declaration") {
            match field_child(&c.children, "name") {
                Some(ni) => {
                    let mut name = owner.to_string();
                    name.append(".");
                    name.append(c.children[ni].text.as_str());
                    let def = trim_str(c.text.as_str());
                    let e = make_entity(name, "Field", def, file, c);
                    proof { lemma_push_entity(out@, e); }
                    out.push(e);
                },
                None => {},
            }
        }
        i += 1;
    }
    assert(ns@.take(ns@.len() as int) == ns@);
}

/// Appends the entities that node `n` itself defines.
fn push_own_entities(n: &SyntaxNode, file: &str, impl_type: Option<&str>, out: &mut Vec<CodeEntity>)
    requires
        rows_fit(*n),
    ensures
        entity_views(final(out)@) == entity_views(old(out)@) + own_entities(*n, file@, opt_view(impl_type)),
{
    let k = n.kind.as_str();
    let cs = &n.children;
    let name_at = field_child(cs, "name");
    proof {
        reveal_strlit("function_item");
        reveal_strlit("struct_item");
        reveal_strlit("enum_item");
        reveal_strlit("trait_item");
        reveal_strlit("use_declaration");
        reveal_strlit("const_item");
        reveal_strlit("static_item");
    }
    if str_eq(k, "function_item") {
        if let Some(ni) = name_at {
            let name = cs[ni].text.clone();
            let sig = trim_str(first_line_of(n.text.as_str()).as_str());
            let e = match impl_type {
                Some(t) => {
                    let mut def = t.to_string();
                    def.append("::");
                    def.append(name.as_str());
                    def.append(" \u{2014} ");
                    def.append(sig.as_str());
                    make_entity(name, "Method", def, file, n)
                },
                None => make_entity(name, "Function", sig, file, n),
            };
            proof { lemma_push_entity(out@, e); }
            out.push(e);
        }
    } else if str_eq(k, "struct_item") {
        if let Some(ni) = name_at {
            let name = cs[ni].text.clone();
            let mut def = String::from_str("struct ");
            def.append(name.as_str());
            let e = make_entity(name.clone(), "Struct", def, file, n);
            proof { lemma_push_entity(out@, e); }
            out.push(e);
            if let Some(bi) = field_child(cs, "body") {
                proof {
                    lemma_rows_fit_each(cs@, bi as int);
                }
                push_struct_fields(name.as_str(), &cs[bi].children, file, out);
            }
        }
    } else if str_eq(k, "enum_item") {
        if let Some(ni) = name_at {
            let e = make_entity(cs[ni].text.clone(), "Enum", trim_str(first_line_of(n.text.as_str()).as_str()), file, n);
            proof { lemma_push_entity(out@, e); }
            out.push(e);
        }
    } else if str_eq(k, "trait_item") {
        if let Some(ni) = name_at {
            let e = make_entity(cs[ni].text.clone(), "Trait", trim_str(first_line_of(n.text.as_str()).as_str()), file, n);
            proof { lemma_push_entity(out@, e); }
            out.push(e);
        }
    } else if str_eq(k, "use_declaration") {
        let text = trim_str(n.text.as_str());
        let e = make_entity(text.clone(), "Import", text, file, n);
        proof { lemma_push_entity(out@, e); }
        out.push(e);
    } else if str_eq(k, "const_item") || str_eq(k, "static_item") {
        if let Some(ni) = name_at {
            let e = make_entity(cs[ni].text.clone(), "Const", trim_str(first_line_of(n.text.as_str()).as_str()), file, n);
            proof { lemma_push_entity(out@, e); }
            out.push(e);
        }
    }
}

proof fn lemma_entities_step(ns: Seq<SyntaxNode>, file: Seq<char>, imp: Option<Seq<char>>, i: int)
    requires
        0 <= i < ns.len(),
    ensures
        entities_of_all(ns.take(i + 1), file, imp) == entities_of_all(ns.take(i), file, imp) + entities_of(ns[i], file, imp),
{
    assert(ns.take(i + 1).drop_last() == ns.take(i));
    assert(ns.take(i + 1).last() == ns[i]);
}

/// Appends the entities defined in the tree of `node`, depth first; inside the body of an impl
/// they are methods of the implemented type `impl_type`.
fn extract_from_node(node: &SyntaxNode, file: &str, entities: &mut Vec<CodeEntity>, impl_type: Option<&str>)
    requires
        rows_fit(*node),
    ensures
        entity_views(final(entities)@) == entity_views(old(entities)@) + entities_of(*node, file@, opt_view(impl_type)),
    decreases node,
{
    let ghost start = entity_views(entities@);
    if str_eq(node.kind.as_str(), "impl_item") {
        proof { reveal_strlit("impl_item"); }
        let cs = &node.children;
        let implemented: Option<&str> = match field_child(cs, "type") {
            Some(ti) => Some(cs[ti].text.as_str()),
            None => None,
        };
        if let Some(bi) = field_child(cs, "body") {
            let body = &cs[bi];
            proof { lemma_rows_fit_each(cs@, bi as int); }
            let mut i: usize = 0;
            while i < body.children.len()
                invariant
                    i <= body.children@.len(),
                    bi < node.children@.len(),
                    *body == node.children@[bi as int],
                    rows_fit_all(body.children@),
                    entity_views(entities@) == start + entities_of_all(body.children@.take(i as int), file@, opt_view(implemented)),
                decreases body.children@.len() - i,
            {
                assert(decreases_to!(node => node.children@[bi as int]));
                assert(decreases_to!(body => body.children@[i as int]));
                assert(decreases_to!(node => body.children@[i as int]));
                proof {
                    lemma_rows_fit_each(body.children@, i as int);
                    lemma_entities_step(body.children@, file@, opt_view(implemented), i as int);
                }
                extract_from_node(&body.children[i], file, entities, implemented);
                i += 1;
            }
            assert(body.children@.take(body.children@.len() as int) == body.children@);
        }
        return;
    }
    push_own_entities(node, file, impl_type, entities);
    let ghost mid = entity_views(entities@);
    let mut i: usize = 0;
    while i < node.children.len()
        invariant
            i <= node.children@.len(),
            rows_fit_all(node.children@),
            entity_views(entities@) == mid + entities_of_all(node.children@.take(i as int), file@, opt_view(impl_type)),
        decreases node.children@.len() - i,
    {
        assert(decreases_to!(node => node.children@[i as int]));
        proof {
            lemma_rows_fit_each(node.children@, i as int);
            lemma_entities_step(node.children@, file@, opt_view(impl_type), i as int);
        }
        extract_from_node(&node.children[i], file, entities, impl_type);
        i += 1;
    }
    assert(node.children@.take(node.children@.len() as int) == node.children@);
}

/// The entities defined in a Rust syntax tree, in the order a depth-first walk meets them.
pub fn entities_from_tree(root: &SyntaxNode, file_path: &str) -> (es: Vec<CodeEntity>)
    requires
        rows_fit(*root),
    ensures
        entity_views(es@) == entities_of(*root, file_path@, None),
{
    let mut es: Vec<CodeEntity> = Vec::new();
    assert(entity_views(es@) == Seq::<EntityView>::empty());
    extract_from_node(root, file_path, &mut es, None);
    es
}

/// The syntax tree that tree-sitter's Rust grammar gives for `source`.
pub uninterp spec fn rust_syntax(source: Seq<char>) -> Option<SyntaxNode>;

/// `tree_sitter::Node`, a node of a parsed syntax tree; opaque here.
#[verifier::external_type_specification]
#[verifier::external_body]
pub struct ExSyntaxTreeNode<'tree>(ParsedNode<'tree>);

/// One tree-sitter node and the nodes below it, as plain values; `field` is the field that
/// the node stands under in its parent. Conversion only: kind, text, rows and children as
/// tree-sitter reports them.
#[verifier::external_body]
fn syntax_node_from(node: ParsedNode, field: Option<&str>, source: &[u8]) -> SyntaxNode {
    let mut cursor = node.walk();
    let children: Vec<SyntaxNode> = node.children(&mut cursor).enumerate()
        .map(|(i, c)| syntax_node_from(c, node.field_name_for_child(i as u32), source)).collect();
    SyntaxNode {
        kind: node.kind().to_string(),
        field: field.map(|f| f.to_string()),
        text: std::str::from_utf8(&source[node.byte_range()]).unwrap_or("").to_string(),
        start_row: node.start_position().row,
        end_row: node.end_position().row,
        children,
    }
}

/// `tree_sitter::Parser::parse` with the Rust grammar of `tree_sitter_rust`: the syntax tree of
/// `source`, converted to plain values. Claimed: the result is `rust_syntax` of the source, a
/// function of the source alone; `None` where the grammar cannot be loaded or parsing gives up.
#[verifier::external_body]
fn parse_rust_syntax(source: &str) -> (r: Option<SyntaxNode>)
    ensures
        r == rust_syntax(source@),
{
    let mut parser = tree_sitter::Parser::new();
    if parser.set_language(&tree_sitter_rust::LANGUAGE.into()).is_err() {
        return None;
    }
    parser.parse(source, None).map(|t| syntax_node_from(t.root_node(), None, source.as_bytes()))
}

/// The entities that a Rust source file defines, found by parsing it: functions, methods
/// (with their type), structs and their fields, enums, traits, imports and constants, each
/// with its lines; none when the source cannot be parsed or has more lines than can be counted.
pub fn parse_rust_code(source: &str, file_path: &str) -> (es: Vec<CodeEntity>)
    ensures
        match rust_syntax(source@) {
            Some(root) => if rows_fit(root) {
                entity_views(es@) == entities_of(root, file_path@, None)
            } else {
                es@.len() == 0
            },
            None => es@.len() == 0,
        },
{
    match parse_rust_syntax(source) {
        Some(root) => {
            if check_rows(&root) {
                entities_from_tree(&root, file_path)
            } else {
                Vec::new()
            }
        },
        None => Vec::new(),
    }
}

} // verus!
