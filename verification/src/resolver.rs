//! Module resolution: reading modules through a [`FileSystem`], resolving
//! their imports and exports, template inheritance with `@extends` and
//! `@block`, and the cache of resolved modules.

use std::collections::HashMap;
use std::sync::Arc;
use indexmap::{IndexMap, IndexSet};
use vstd::prelude::*;
use crate::ast::{share, BlockNode, DefineBlock, ExportDirective, Frontmatter, ImportDirective, Node};
use crate::collections::{
    block_entries, block_map_get, block_map_get_index, block_map_insert, block_map_len, inserted,
    key_set_get_index, key_set_len, keys_of, text_entries, value_entries, module_entries, new_block_map, set_items, value_of,
};
use crate::error::MdsError;
use crate::evaluator::{messages_are, plain_messages, functions_of, namespaces_of, vars_of, EvalMessage, MAX_CALL_DEPTH};
use crate::parser::{bodies_are, body_node_is, items_from, items_messages, render_items, BodyForm, texts_of, front_of, lines_from, no_at, node_is, nodes_are, plain_source, render_lines, text_of_nodes, LineNode};
use crate::fs::{FileSystem, VirtualFs};
use crate::imports::{entry_result, parse_frontmatter_imports_from_yaml, FrontmatterImport, ImportDecl, MAX_FRONTMATTER_IMPORTS};
use crate::paths::{display_name, has_type_mds_frontmatter_raw, has_type_mds_line, key_display_name, line_end};
use crate::scope::{FunctionDef, NamespaceScope, Scope};
use crate::table::Table;
use crate::text::{cat2, cat3, chars_of, decimal, decimal_string, find_char, matches_at, trim};
use crate::value::{convertible, converts, rendered, yaml_text, TemplateValue};
use crate::yaml::{parse_yaml, yaml_document, Yaml};

verus! {

broadcast use {vstd::std_specs::vec::group_vec_axioms, vstd::seq::group_seq_axioms};

/// Most `@block` declarations one module may hold.
pub const MAX_BLOCKS_PER_MODULE: usize = 256;

/// Longest chain of modules being resolved at once.
pub const MAX_IMPORT_DEPTH: usize = 64;

/// A resolved module: its functions and exports, its rendered prompt, and
/// what templates extending it inherit.
///
/// `effective_skeleton` is the body of the root ancestor, shared with every
/// descendant; `effective_blocks` maps each block name to the most derived
/// override in this module's inheritance chain.
#[derive(Debug)]
pub struct ResolvedModule {
    pub functions: Table<Arc<FunctionDef>>,
    pub prompt_body: Option<String>,
    pub raw_frontmatter: Option<String>,
    pub has_explicit_exports: bool,
    pub explicit_exports: Table<()>,
    pub effective_skeleton: Arc<Vec<Node>>,
    pub effective_blocks: IndexMap<String, Arc<BlockNode>>,
    pub frontmatter_values: Option<Vec<(Yaml, Yaml)>>,
    pub extends_path: Option<String>,
}

impl ResolvedModule {
    /// `name` is visible to importers: every name is when the module has no
    /// explicit `@export`, otherwise only the listed ones.
    pub open spec fn exported(&self, name: Seq<char>) -> bool {
        !self.has_explicit_exports || self.explicit_exports.has(name)
    }

    /// The entries of `es` whose names are exported, in order.
    pub open spec fn exported_entries(&self, es: Seq<(String, Arc<FunctionDef>)>) -> Seq<(String, Arc<FunctionDef>)>
        decreases es.len(),
    {
        if es.len() == 0 {
            Seq::empty()
        } else if self.exported(es.last().0@) {
            self.exported_entries(es.drop_last()).push(es.last())
        } else {
            self.exported_entries(es.drop_last())
        }
    }

    /// The prompt as importers see it.
    pub open spec fn exported_prompt(&self) -> Option<String> {
        if self.exported("prompt"@) {
            self.prompt_body
        } else {
            None
        }
    }

    fn is_exported(&self, name: &str) -> (b: bool)
        ensures
            b == self.exported(name@),
    {
        !self.has_explicit_exports || self.explicit_exports.contains(name)
    }

    /// The function exported under `name`.
    pub fn get_export(&self, name: &str) -> (r: Option<Arc<FunctionDef>>)
        ensures
            r == (if self.exported(name@) { self.functions.lookup(name@) } else { None }),
    {
        if !self.is_exported(name) {
            return None;
        }
        match self.functions.get(name) {
            Some(f) => Some(share(f)),
            None => None,
        }
    }

    /// All exported functions, in definition order.
    pub fn get_all_exports(&self) -> (r: Vec<(String, Arc<FunctionDef>)>)
        ensures
            r@ == self.exported_entries(self.functions.entries@),
    {
        let es = &self.functions.entries;
        let mut out: Vec<(String, Arc<FunctionDef>)> = Vec::new();
        let mut i: usize = 0;
        while i < es.len()
            invariant
                i <= es@.len(),
                es == &self.functions.entries,
                out@ == self.exported_entries(es@.subrange(0, i as int)),
            decreases es@.len() - i,
        {
            let (k, f) = &es[i];
            assert(es@.subrange(0, i + 1).drop_last() =~= es@.subrange(0, i as int));
            if self.is_exported(k.as_str()) {
                out.push((k.clone(), share(f)));
            }
            i = i + 1;
        }
        assert(es@.subrange(0, es@.len() as int) =~= es@);
        out
    }

    /// The prompt body as a value, when `prompt` is exported and the body is
    /// not blank.
    pub fn get_prompt_value(&self) -> (r: Option<TemplateValue>)
        ensures
            r == (match self.exported_prompt() {
                Some(p) => Some(TemplateValue::String(p)),
                None => None,
            }),
    {
        if self.is_exported("prompt") {
            match &self.prompt_body {
                Some(p) => Some(TemplateValue::String(p.clone())),
                None => None,
            }
        } else {
            None
        }
    }

    /// The namespace an aliased import of this module makes visible.
    fn to_namespace(&self) -> (ns: NamespaceScope)
        ensures
            ns.functions@ == self.exported_entries(self.functions.entries@),
            ns.prompt_body == self.exported_prompt(),
    {
        let functions = self.get_all_exports();
        let prompt_body = if self.is_exported("prompt") {
            match &self.prompt_body {
                Some(p) => Some(p.clone()),
                None => None,
            }
        } else {
            None
        };
        NamespaceScope { functions, prompt_body }
    }
}

/// What the walk over a module body collects.
pub struct CollectedDefs {
    pub functions: Table<Arc<FunctionDef>>,
    pub has_explicit_exports: bool,
    pub explicit_exports: Table<()>,
    /// The declared `@block` names; they share one namespace with functions.
    pub block_names: Table<()>,
}

impl CollectedDefs {
    pub open spec fn wf(&self) -> bool {
        self.functions.wf() && self.explicit_exports.wf() && self.block_names.wf()
    }

    fn new() -> (d: CollectedDefs)
        ensures
            d.wf(),
            !d.has_explicit_exports,
            d.functions.entries@.len() == 0,
            d.explicit_exports.entries@.len() == 0,
            d.block_names.entries@.len() == 0,
    {
        CollectedDefs {
            functions: Table::new(),
            has_explicit_exports: false,
            explicit_exports: Table::new(),
            block_names: Table::new(),
        }
    }
}

/// `offset` clamped to the source, and the length of the rest of its line.
pub open spec fn line_span(source: Seq<char>, offset: int) -> (int, int) {
    let o = if offset <= source.len() { offset } else { source.len() as int };
    (o, line_end(source, o) - o)
}

proof fn lemma_line_end(s: Seq<char>, i: int)
    requires
        0 <= i <= s.len(),
    ensures
        i <= line_end(s, i) <= s.len(),
        line_end(s, i) < s.len() ==> s[line_end(s, i)] == '\n',
        forall|j: int| i <= j < line_end(s, i) ==> s[j] != '\n',
    decreases s.len() - i,
{
    if i < s.len() && s[i] != '\n' {
        lemma_line_end(s, i + 1);
    }
}

/// The offset (clamped to the source) and the length of the rest of its
/// line: how much of a directive an error underlines.
fn line_span_at(source: &str, offset: usize) -> (r: (usize, usize))
    ensures
        r.0 as int == line_span(source@, offset as int).0,
        r.1 as int == line_span(source@, offset as int).1,
{
    let v = chars_of(source);
    let o = if offset <= v.len() { offset } else { v.len() };
    let e = find_char(&v, o, '\n');
    proof {
        lemma_line_end(v@, o as int);
        let le = line_end(v@, o as int);
        if le < e {
            assert(v@[le] == '\n');
        }
        if e < le {
            assert(v@[e as int] == '\n');
        }
    }
    (o, e - o)
}

/// The text of `pat` occurs somewhere in `s`.
pub open spec fn contains_text(s: Seq<char>, pat: Seq<char>) -> bool {
    exists|i: int| 0 <= i && i + pat.len() <= s.len() && #[trigger] s.subrange(i, i + pat.len()) == pat
}

fn has_text(s: &str, pat: &str) -> (b: bool)
    ensures
        b == contains_text(s@, pat@),
{
    let v = chars_of(s);
    let p = chars_of(pat);
    if p.len() > v.len() {
        return false;
    }
    let n = v.len() - p.len();
    let mut i: usize = 0;
    loop
        invariant
            v@ == s@,
            p@ == pat@,
            p@.len() <= v@.len(),
            n == v@.len() - p@.len(),
            i <= n,
            forall|j: int| 0 <= j < i ==> #[trigger] v@.subrange(j, j + p@.len()) != p@,
        decreases n - i,
    {
        assert(v@.subrange(i as int, i + p@.len()) =~= v@.subrange(i as int, v@.len() as int).subrange(0, p@.len() as int));
        if matches_at(&v, i, &p) {
            return true;
        }
        if i == n {
            proof {
                assert forall|j: int| 0 <= j && j + p@.len() <= v@.len() implies #[trigger] v@.subrange(j, j + p@.len()) != p@ by {
                    assert(j <= i);
                }
            }
            return false;
        }
        i = i + 1;
    }
}

/// Give an error about an import that carries no span the span of the
/// import directive at `offset` (to the end of its line): a missing file
/// then names the path as written, a cycle keeps its chain. Other errors
/// keep their own locations.
fn attach_import_span(err: MdsError, path: &str, source: &str, offset: usize) -> (r: MdsError)
    ensures
        ({
            let (o, len) = line_span(source@, offset as int);
            match err {
                MdsError::FileNotFound { span: None, .. } => r matches MdsError::FileNotFound { path: p, span: Some(sp) }
                    && p@ == path@ && sp == crate::error::span_in(source@, o as usize, len as usize),
                MdsError::CircularImport { cycle, span: None } => r matches MdsError::CircularImport { cycle: c, span: Some(sp) }
                    && c@ == cycle@ && sp == crate::error::span_in(source@, o as usize, len as usize),
                _ => r == err,
            }
        }),
{
    let (o, len) = line_span_at(source, offset);
    match err {
        MdsError::FileNotFound { span: None, .. } => MdsError::file_not_found_at(path, source, o, len),
        MdsError::CircularImport { cycle, span: None } => MdsError::circular_import_at(cycle.as_str(), source, o, len),
        other => other,
    }
}

/// The suffix that places an error in the frontmatter `imports` list.
pub open spec fn fm_suffix(i: nat) -> Seq<char> {
    " (in frontmatter imports["@ + decimal(i) + "])"@
}

/// Tell where in the frontmatter `imports` list an error without a span
/// comes from. Errors that carry a span keep their own locations.
fn attach_frontmatter_index(err: MdsError, i: usize) -> (r: MdsError)
    ensures
        match err {
            MdsError::FileNotFound { path, span: None } => r matches MdsError::ImportError { message, span: None }
                && message@ == "file not found: \""@ + path@ + "\""@ + fm_suffix(i as nat),
            MdsError::CircularImport { cycle, span: None } => r matches MdsError::ImportError { message, span: None }
                && message@ == "circular import detected: "@ + cycle@ + fm_suffix(i as nat),
            MdsError::ImportError { message: m, span: None } => if contains_text(m@, "in frontmatter"@) {
                r == err
            } else {
                r matches MdsError::ImportError { message, span: None } && message@ == m@ + fm_suffix(i as nat)
            },
            _ => r == err,
        },
{
    let idx = decimal_string(i);
    let suffix = cat3(" (in frontmatter imports[", idx.as_str(), "])");
    match err {
        MdsError::FileNotFound { path, span: None } => {
            let head = cat3("file not found: \"", path.as_str(), "\"");
            let m = cat2(head.as_str(), suffix.as_str());
            MdsError::import_error(m.as_str())
        },
        MdsError::CircularImport { cycle, span: None } => {
            let m = cat3("circular import detected: ", cycle.as_str(), suffix.as_str());
            MdsError::import_error(m.as_str())
        },
        MdsError::ImportError { message, span: None } => {
            if has_text(message.as_str(), "in frontmatter") {
                MdsError::ImportError { message, span: None }
            } else {
                let m = cat2(message.as_str(), suffix.as_str());
                MdsError::import_error(m.as_str())
            }
        },
        other => other,
    }
}

/// The offset of a node's first token (0 for nodes that carry none).
pub open spec fn offset_of(node: Node) -> usize {
    match node {
        Node::Interpolation(i) => i.offset,
        Node::If(b) => b.offset,
        Node::For(b) => b.offset,
        Node::Define(b) => b.offset,
        Node::Import(i) => match i {
            ImportDirective::Alias { offset, .. } => offset,
            ImportDirective::Merge { offset, .. } => offset,
            ImportDirective::Selective { offset, .. } => offset,
        },
        Node::Include(i) => i.offset,
        Node::Message(m) => m.offset,
        Node::Block(b) => b.offset,
        _ => 0,
    }
}

fn node_offset(node: &Node) -> (o: usize)
    ensures
        o == offset_of(*node),
{
    match node {
        Node::Text(_) | Node::EscapedBrace => 0,
        Node::Interpolation(i) => i.offset,
        Node::If(b) => b.offset,
        Node::For(b) => b.offset,
        Node::Define(b) => b.offset,
        Node::Import(i) => match i {
            ImportDirective::Alias { offset, .. } => *offset,
            ImportDirective::Merge { offset, .. } => *offset,
            ImportDirective::Selective { offset, .. } => *offset,
        },
        Node::Export(_) => 0,
        Node::Include(i) => i.offset,
        Node::Message(m) => m.offset,
        Node::Block(b) => b.offset,
    }
}

/// `nodes` holds an `@message` block, at top level or inside a conditional,
/// loop or block.
pub open spec fn holds_message(nodes: Seq<Node>) -> bool
    decreases nodes,
{
    if nodes.len() == 0 {
        false
    } else {
        node_holds_message(nodes[0]) || holds_message(nodes.drop_first())
    }
}

pub open spec fn branches_hold_message(bs: Seq<(String, Arc<Vec<Node>>)>) -> bool
    decreases bs,
{
    if bs.len() == 0 {
        false
    } else {
        holds_message(bs[0].1@) || branches_hold_message(bs.drop_first())
    }
}

pub open spec fn node_holds_message(node: Node) -> bool
    decreases node,
{
    match node {
        Node::Message(_) => true,
        Node::If(b) => holds_message(b.then_body@) || branches_hold_message(b.elseif_branches@)
            || match b.else_body {
                Some(e) => holds_message(e@),
                None => false,
            },
        Node::For(b) => holds_message(b.body@),
        Node::Block(b) => holds_message(b.body@),
        _ => false,
    }
}

fn has_message_block(nodes: &Vec<Node>) -> (b: bool)
    ensures
        b == holds_message(nodes@),
    decreases nodes,
{
    let mut i: usize = 0;
    assert(nodes@.subrange(0, nodes@.len() as int) =~= nodes@);
    while i < nodes.len()
        invariant
            i <= nodes@.len(),
            holds_message(nodes@) == holds_message(nodes@.subrange(i as int, nodes@.len() as int)),
        decreases nodes@.len() - i,
    {
        let ghost rest = nodes@.subrange(i as int, nodes@.len() as int);
        assert(rest[0] == nodes@[i as int]);
        assert(rest.drop_first() =~= nodes@.subrange(i + 1, nodes@.len() as int));
        if node_has_message(&nodes[i]) {
            return true;
        }
        i = i + 1;
    }
    false
}

fn branches_have_message(bs: &Vec<(String, Arc<Vec<Node>>)>) -> (b: bool)
    ensures
        b == branches_hold_message(bs@),
    decreases bs,
{
    let mut i: usize = 0;
    assert(bs@.subrange(0, bs@.len() as int) =~= bs@);
    while i < bs.len()
        invariant
            i <= bs@.len(),
            branches_hold_message(bs@) == branches_hold_message(bs@.subrange(i as int, bs@.len() as int)),
        decreases bs@.len() - i,
    {
        let ghost rest = bs@.subrange(i as int, bs@.len() as int);
        assert(rest[0] == bs@[i as int]);
        assert(rest.drop_first() =~= bs@.subrange(i + 1, bs@.len() as int));
        assert(decreases_to!(bs => bs[i as int]));
        if has_message_block(&bs[i].1) {
            return true;
        }
        i = i + 1;
    }
    false
}

fn node_has_message(node: &Node) -> (b: bool)
    ensures
        b == node_holds_message(*node),
    decreases node,
{
    match node {
        Node::Message(_) => true,
        Node::If(b) => {
            if has_message_block(&b.then_body) || branches_have_message(&b.elseif_branches) {
                return true;
            }
            match &b.else_body {
                Some(e) => has_message_block(e),
                None => false,
            }
        },
        Node::For(b) => has_message_block(&b.body),
        Node::Block(b) => has_message_block(&b.body),
        _ => false,
    }
}


/// The two texts are the same.
fn same_str(a: &str, b: &str) -> (r: bool)
    ensures
        r == (a@ == b@),
{
    let x = a.to_owned();
    let y = b.to_owned();
    x == y
}

/// `parts` joined with `sep` between them.
pub open spec fn joined(parts: Seq<Seq<char>>, sep: Seq<char>) -> Seq<char>
    decreases parts.len(),
{
    if parts.len() == 0 {
        Seq::empty()
    } else if parts.len() == 1 {
        parts[0]
    } else {
        joined(parts.drop_last(), sep) + sep + parts.last()
    }
}

/// The first position of `k` in `items` (0 when it does not occur).
pub open spec fn first_pos(items: Seq<Seq<char>>, k: Seq<char>) -> int {
    if items.contains(k) {
        choose|i: int| 0 <= i < items.len() && items[i] == k && forall|j: int| 0 <= j < i ==> items[j] != k
    } else {
        0
    }
}

/// The chain a circular import reports: the modules being resolved from
/// the first occurrence of `k` on, then `k` again, each by its file name,
/// joined with arrows.
pub open spec fn cycle_text(items: Seq<Seq<char>>, k: Seq<char>) -> Seq<char> {
    joined(
        items.subrange(first_pos(items, k), items.len() as int).push(k).map_values(|x: Seq<char>| display_name(x)),
        " \u{2192} "@,
    )
}

proof fn lemma_first_pos(items: Seq<Seq<char>>, k: Seq<char>, i: int)
    requires
        0 <= i < items.len(),
        items[i] == k,
        forall|j: int| 0 <= j < i ==> items[j] != k,
    ensures
        first_pos(items, k) == i,
{
    assert(items.contains(k));
    let p = first_pos(items, k);
    if p < i {
    } else if p > i {
    }
}

/// Format the cycle chain for `repeated` from the keys being resolved.
fn build_cycle_string(resolving: &IndexSet<String>, repeated: &str) -> (r: String)
    ensures
        r@ == cycle_text(set_items(*resolving), repeated@),
{
    let ghost items = set_items(*resolving);
    let n = key_set_len(resolving);
    let mut start: usize = 0;
    let mut found = false;
    while start < n
        invariant_except_break
            !found,
        invariant
            items == set_items(*resolving),
            n == items.len(),
            start <= n,
            forall|j: int| 0 <= j < start ==> items[j] != repeated@,
        ensures
            found ==> start < n && items[start as int] == repeated@,
            !found ==> start == n,
            forall|j: int| 0 <= j < start ==> items[j] != repeated@,
        decreases n - start,
    {
        let k = key_set_get_index(resolving, start);
        if same_str(k.as_str(), repeated) {
            found = true;
            break;
        }
        start = start + 1;
    }
    proof {
        if found {
            lemma_first_pos(items, repeated@, start as int);
        } else {
            assert(!items.contains(repeated@));
        }
    }
    if !found {
        start = 0;
    }
    let ghost parts = items.subrange(start as int, n as int).push(repeated@).map_values(|x: Seq<char>| display_name(x));
    let mut out = String::new();
    let mut j = start;
    while j < n
        invariant
            items == set_items(*resolving),
            n == items.len(),
            start <= j <= n,
            parts == items.subrange(start as int, n as int).push(repeated@).map_values(|x: Seq<char>| display_name(x)),
            out@ == joined(parts.subrange(0, j - start), " \u{2192} "@),
        decreases n - j,
    {
        let k = key_set_get_index(resolving, j);
        let d = key_display_name(k.as_str());
        if j > start {
            out.append(" \u{2192} ");
        }
        out.append(d.as_str());
        proof {
            let q = parts.subrange(0, j + 1 - start);
            assert(q.drop_last() =~= parts.subrange(0, j - start));
            assert(q.last() == display_name(items[j as int]));
            if j == start {
                assert(out@ =~= joined(q, " \u{2192} "@));
            } else {
                assert(out@ =~= joined(q, " \u{2192} "@));
            }
        }
        j = j + 1;
    }
    let d = key_display_name(repeated);
    if n > start {
        out.append(" \u{2192} ");
    }
    out.append(d.as_str());
    proof {
        assert(parts.subrange(0, parts.len() - 1) =~= parts.subrange(0, n - start));
        assert(parts.subrange(0, parts.len() as int) =~= parts);
        assert(parts.drop_last() =~= parts.subrange(0, n - start));
        assert(out@ =~= joined(parts, " \u{2192} "@));
    }
    out
}

/// Every name of `exports` is `prompt` or a function of `functions`.
pub open spec fn exports_defined(exports: Table<()>, functions: Table<Arc<FunctionDef>>) -> bool {
    forall|i: int| 0 <= i < exports.entries@.len() ==> (#[trigger] exports.entries@[i].0@ == "prompt"@
        || functions.has(exports.entries@[i].0@))
}

/// Check that every named export is `prompt` or a function of the module;
/// the first that is neither is reported.
fn validate_exports(exports: &Table<()>, functions: &Table<Arc<FunctionDef>>) -> (r: Result<(), MdsError>)
    ensures
        r is Ok <==> exports_defined(*exports, *functions),
        r matches Err(e) ==> exists|i: int| 0 <= i < exports.entries@.len()
            && (forall|j: int| 0 <= j < i ==> (#[trigger] exports.entries@[j].0@ == "prompt"@ || functions.has(exports.entries@[j].0@)))
            && exports.entries@[i].0@ != "prompt"@ && !functions.has(exports.entries@[i].0@)
            && (e matches MdsError::ExportError { message }
            && message@ == "cannot export '"@ + exports.entries@[i].0@ + "': not defined in this module"@),
{
    let mut i: usize = 0;
    while i < exports.entries.len()
        invariant
            i <= exports.entries@.len(),
            forall|j: int| 0 <= j < i ==> (#[trigger] exports.entries@[j].0@ == "prompt"@ || functions.has(exports.entries@[j].0@)),
        decreases exports.entries@.len() - i,
    {
        let name = &exports.entries[i].0;
        if !same_str(name.as_str(), "prompt") && !functions.contains(name.as_str()) {
            let m = cat3("cannot export '", name.as_str(), "': not defined in this module");
            return Err(MdsError::export_error(m.as_str()));
        }
        i = i + 1;
    }
    Ok(())
}

/// Record a `@define`: it may not reuse the name of a function or block of
/// the module. The function captures the scope at its definition (lexical
/// closure) and becomes visible in `scope`.
fn collect_define(def: &DefineBlock, defs: &mut CollectedDefs, scope: &mut Scope, source: &str) -> (r: Result<(), MdsError>)
    requires
        old(defs).wf(),
        old(scope).wf(),
    ensures
        final(defs).wf(),
        final(scope).wf(),
        r is Err <==> (old(defs).functions.has(def.name@) || old(defs).block_names.has(def.name@)),
        r matches Err(e) ==> e matches MdsError::NameCollision { name, span: Some(_) } && name@ == def.name@,
        r is Ok ==> {
            &&& final(defs).functions.lookup(def.name@) matches Some(f)
            &&& f.name@ == def.name@ && f.params == def.params && f.body == def.body
            &&& f.captured.vars.entries@ == old(scope).vars.entries@
            &&& f.captured.functions@ == old(scope).functions.entries@
            &&& f.captured.namespaces.entries@ == old(scope).namespaces.entries@
            &&& final(scope).functions.lookup(def.name@) == Some(f)
            &&& forall|q: Seq<char>| q != def.name@ ==> final(defs).functions.lookup(q) == old(defs).functions.lookup(q)
            &&& forall|q: Seq<char>| q != def.name@ ==> final(scope).functions.lookup(q) == old(scope).functions.lookup(q)
        },
        r is Ok ==> final(scope).vars == old(scope).vars && final(scope).namespaces == old(scope).namespaces,
        r is Ok ==> grows(*old(scope), *final(scope)),
        r is Ok ==> forall|q: Seq<char>| #[trigger] final(defs).functions.has(q) <==> (old(defs).functions.has(q) || q == def.name@),
        final(defs).block_names == old(defs).block_names,
        final(defs).explicit_exports == old(defs).explicit_exports,
        final(defs).has_explicit_exports == old(defs).has_explicit_exports,
{
    if defs.functions.contains(def.name.as_str()) || defs.block_names.contains(def.name.as_str()) {
        let n = chars_of(def.name.as_str());
        return Err(MdsError::name_collision_at(def.name.as_str(), source, def.offset, n.len()));
    }
    let func = FunctionDef {
        name: def.name.clone(),
        params: share(&def.params),
        body: share(&def.body),
        captured: Arc::new(scope.capture()),
    };
    let arc = Arc::new(func);
    defs.functions.insert(def.name.clone(), share(&arc));
    scope.set_function(def.name.as_str(), arc);
    Ok(())
}

/// Record a `@block` declaration, the `count`-th of the module: more than
/// [`MAX_BLOCKS_PER_MODULE`] are refused, and a block may not reuse the
/// name of another block or of a function.
fn collect_block(block: &BlockNode, defs: &mut CollectedDefs, count: usize, source: &str) -> (r: Result<(), MdsError>)
    requires
        old(defs).wf(),
    ensures
        final(defs).wf(),
        count > MAX_BLOCKS_PER_MODULE ==> (r matches Err(MdsError::ResourceLimit { message })
            && message@ == "module has more than 256 @block declarations"@),
        count <= MAX_BLOCKS_PER_MODULE ==> (r is Err <==> (old(defs).block_names.has(block.name@) || old(defs).functions.has(block.name@))),
        (count <= MAX_BLOCKS_PER_MODULE && r is Err) ==> (r matches Err(MdsError::NameCollision { name, span: Some(_) }) && name@ == block.name@),
        r is Ok ==> final(defs).block_names.has(block.name@),
        r is Ok ==> forall|q: Seq<char>| final(defs).block_names.has(q) <==> (old(defs).block_names.has(q) || q == block.name@),
        final(defs).functions == old(defs).functions,
        final(defs).explicit_exports == old(defs).explicit_exports,
        final(defs).has_explicit_exports == old(defs).has_explicit_exports,
{
    if count > MAX_BLOCKS_PER_MODULE {
        return Err(MdsError::resource_limit("module has more than 256 @block declarations"));
    }
    if defs.block_names.contains(block.name.as_str()) || defs.functions.contains(block.name.as_str()) {
        let n = chars_of(block.name.as_str());
        return Err(MdsError::name_collision_at(block.name.as_str(), source, block.offset, n.len()));
    }
    defs.block_names.insert(block.name.clone(), ());
    Ok(())
}

/// A node an extending template may hold: a block override, or text that is
/// only whitespace.
pub open spec fn allowed_in_child(node: Node) -> bool {
    match node {
        Node::Block(_) => true,
        Node::Text(t) => trim(t.text@).len() == 0,
        _ => false,
    }
}

/// An extending template holds only `@block` overrides (and blank text); the
/// first other node is reported with the rest of its line.
fn check_child_only_blocks(body: &Vec<Node>, file: &str, source: &str) -> (r: Result<(), MdsError>)
    ensures
        r is Ok <==> forall|i: int| 0 <= i < body@.len() ==> allowed_in_child(#[trigger] body@[i]),
        r matches Err(e) ==> exists|i: int| 0 <= i < body@.len()
            && (forall|j: int| 0 <= j < i ==> allowed_in_child(#[trigger] body@[j]))
            && !allowed_in_child(body@[i])
            && ({
                let (o, len) = line_span(source@, offset_of(body@[i]) as int);
                e matches MdsError::Extends { message, span: Some(sp) }
                    && message@ == "an extending template may contain only @block overrides"@
                    && sp == crate::error::span_in(source@, o as usize, len as usize)
            }),
{
    let mut i: usize = 0;
    while i < body.len()
        invariant
            i <= body@.len(),
            forall|j: int| 0 <= j < i ==> allowed_in_child(#[trigger] body@[j]),
        decreases body@.len() - i,
    {
        let node = &body[i];
        let ok = match node {
            Node::Block(_) => true,
            Node::Text(t) => {
                let w = crate::evaluator::trimmed(t.text.as_str());
                w.as_str().unicode_len() == 0
            },
            _ => false,
        };
        if !ok {
            let offset = node_offset(node);
            let (o, len) = line_span_at(source, offset);
            return Err(MdsError::extends_error_at(
                "an extending template may contain only @block overrides",
                file,
                source,
                o,
                len,
            ));
        }
        i = i + 1;
    }
    Ok(())
}

/// The block map after the overrides of `nodes`, applied in order to `es`;
/// `None` when one of them names a block that `es` lacks.
pub open spec fn overridden(es: Seq<(Seq<char>, Arc<BlockNode>)>, nodes: Seq<Node>) -> Option<Seq<(Seq<char>, Arc<BlockNode>)>>
    decreases nodes.len(),
{
    if nodes.len() == 0 {
        Some(es)
    } else {
        match overridden(es, nodes.drop_last()) {
            Some(m) => match nodes.last() {
                Node::Block(b) => if keys_of(m).contains(b.name@) {
                    Some(inserted(m, b.name@, Arc::new(b)))
                } else {
                    None
                },
                _ => Some(m),
            },
            None => None,
        }
    }
}

/// A copy of a block map, entry by entry.
fn copy_block_map(m: &IndexMap<String, Arc<BlockNode>>) -> (r: IndexMap<String, Arc<BlockNode>>)
    requires
        keys_of(block_entries(*m)).no_duplicates(),
    ensures
        block_entries(r) == block_entries(*m),
{
    let mut r = new_block_map();
    let n = block_map_len(m);
    let mut i: usize = 0;
    while i < n
        invariant
            n == block_entries(*m).len(),
            keys_of(block_entries(*m)).no_duplicates(),
            i <= n,
            block_entries(r) == block_entries(*m).subrange(0, i as int),
        decreases n - i,
    {
        let (k, v) = block_map_get_index(m, i);
        proof {
            let pre = block_entries(*m).subrange(0, i as int);
            assert(!keys_of(pre).contains(k@)) by {
                if keys_of(pre).contains(k@) {
                    let j = choose|j: int| 0 <= j < keys_of(pre).len() && keys_of(pre)[j] == k@;
                    assert(keys_of(block_entries(*m))[j] == keys_of(block_entries(*m))[i as int]);
                }
            }
        }
        block_map_insert(&mut r, k, v);
        assert(block_entries(r) =~= block_entries(*m).subrange(0, i + 1));
        i = i + 1;
    }
    assert(block_entries(*m).subrange(0, n as int) =~= block_entries(*m));
    r
}

/// Apply the `@block` overrides of an extending template to its base's block
/// map (the base's map is copied, never changed): the most derived override
/// wins, and only blocks the root template declared may be overridden.
fn override_blocks(
    base: &IndexMap<String, Arc<BlockNode>>,
    body: &Vec<Node>,
    file: &str,
    source: &str,
) -> (r: Result<IndexMap<String, Arc<BlockNode>>, MdsError>)
    requires
        keys_of(block_entries(*base)).no_duplicates(),
    ensures
        r matches Ok(m) ==> overridden(block_entries(*base), body@) == Some(block_entries(m)),
        r matches Ok(m) ==> unique_keys(block_entries(m)) && keys_of(block_entries(m)) == keys_of(block_entries(*base)),
        r is Err ==> overridden(block_entries(*base), body@) is None,
        r matches Err(e) ==> e matches MdsError::Extends { message, span: Some(_) }
            && message@ == "only the root template may declare @block placeholders"@,
{
    let mut m = copy_block_map(base);
    let mut i: usize = 0;
    while i < body.len()
        invariant
            i <= body@.len(),
            overridden(block_entries(*base), body@.subrange(0, i as int)) == Some(block_entries(m)),
        decreases body@.len() - i,
    {
        proof {
            assert(body@.subrange(0, i + 1).drop_last() =~= body@.subrange(0, i as int));
        }
        match &body[i] {
            Node::Block(b) => {
                let known = match block_map_get(&m, b.name.as_str()) {
                    Some(_) => true,
                    None => false,
                };
                proof {
                    lemma_value_of_keys(block_entries(m), b.name@);
                }
                if !known {
                    proof {
                        lemma_overridden_none(block_entries(*base), body@, i as int + 1);
                    }
                    let n = chars_of(b.name.as_str());
                    return Err(MdsError::extends_error_at(
                        "only the root template may declare @block placeholders",
                        file,
                        source,
                        b.offset,
                        n.len(),
                    ));
                }
                block_map_insert(&mut m, b.name.clone(), Arc::new(b.copy()));
            },
            _ => {},
        }
        i = i + 1;
    }
    assert(body@.subrange(0, body@.len() as int) =~= body@);
    proof {
        lemma_overridden_keys(block_entries(*base), body@);
    }
    Ok(m)
}

/// `value_of` finds exactly the keys of the entries.
proof fn lemma_value_of_keys<V>(es: Seq<(Seq<char>, V)>, k: Seq<char>)
    ensures
        value_of(es, k) is Some <==> keys_of(es).contains(k),
    decreases es.len(),
{
    if es.len() > 0 {
        lemma_value_of_keys(es.drop_first(), k);
        let ks = keys_of(es);
        let kt = keys_of(es.drop_first());
        assert(kt =~= ks.drop_first());
        assert(ks[0] == es[0].0);
        if es[0].0 == k {
            assert(ks.contains(k));
        } else {
            if ks.contains(k) {
                let j = choose|j: int| 0 <= j < ks.len() && ks[j] == k;
                assert(j > 0);
                assert(kt[j - 1] == k);
            }
            if kt.contains(k) {
                let j = choose|j: int| 0 <= j < kt.len() && kt[j] == k;
                assert(ks[j + 1] == k);
            }
        }
    }
}

/// Once the overrides fail on a prefix, they fail on the whole body.
proof fn lemma_overridden_none(es: Seq<(Seq<char>, Arc<BlockNode>)>, nodes: Seq<Node>, n: int)
    requires
        0 <= n <= nodes.len(),
        overridden(es, nodes.subrange(0, n)) is None,
    ensures
        overridden(es, nodes) is None,
    decreases nodes.len() - n,
{
    if n < nodes.len() {
        assert(nodes.subrange(0, n + 1).drop_last() =~= nodes.subrange(0, n));
        lemma_overridden_none(es, nodes, n + 1);
    } else {
        assert(nodes.subrange(0, n) =~= nodes);
    }
}

/// The block map of a root template: its top-level `@block` declarations in
/// order, the first of a repeated name winning.
pub open spec fn own_blocks(nodes: Seq<Node>) -> Seq<(Seq<char>, Arc<BlockNode>)>
    decreases nodes.len(),
{
    if nodes.len() == 0 {
        Seq::empty()
    } else {
        let m = own_blocks(nodes.drop_last());
        match nodes.last() {
            Node::Block(b) => if keys_of(m).contains(b.name@) {
                m
            } else {
                m.push((b.name@, Arc::new(b)))
            },
            _ => m,
        }
    }
}

fn seed_blocks(body: &Vec<Node>) -> (r: IndexMap<String, Arc<BlockNode>>)
    ensures
        block_entries(r) == own_blocks(body@),
{
    let mut m = new_block_map();
    let mut i: usize = 0;
    while i < body.len()
        invariant
            i <= body@.len(),
            block_entries(m) == own_blocks(body@.subrange(0, i as int)),
        decreases body@.len() - i,
    {
        proof {
            assert(body@.subrange(0, i + 1).drop_last() =~= body@.subrange(0, i as int));
        }
        match &body[i] {
            Node::Block(b) => {
                let present = match block_map_get(&m, b.name.as_str()) {
                    Some(_) => true,
                    None => false,
                };
                proof {
                    lemma_value_of_keys(block_entries(m), b.name@);
                }
                if !present {
                    block_map_insert(&mut m, b.name.clone(), Arc::new(b.copy()));
                }
            },
            _ => {},
        }
        i = i + 1;
    }
    assert(body@.subrange(0, body@.len() as int) =~= body@);
    m
}

/// The body of an extending template: the skeleton with each `@block`
/// replaced by the body of its effective override (its own body when the
/// map has none); other nodes as they are.
pub open spec fn spliced(skeleton: Seq<Node>, es: Seq<(Seq<char>, Arc<BlockNode>)>) -> Seq<Node>
    decreases skeleton.len(),
{
    if skeleton.len() == 0 {
        Seq::empty()
    } else {
        let pre = spliced(skeleton.drop_last(), es);
        match skeleton.last() {
            Node::Block(b) => match value_of(es, b.name@) {
                Some(eff) => pre + eff.body@,
                None => pre + b.body@,
            },
            n => pre.push(n),
        }
    }
}

/// Append copies of `nodes` to `out`.
fn extend_nodes(out: &mut Vec<Node>, nodes: &Vec<Node>)
    ensures
        final(out)@ == old(out)@ + nodes@,
{
    let mut i: usize = 0;
    let ghost start = out@;
    while i < nodes.len()
        invariant
            i <= nodes@.len(),
            out@ == start + nodes@.subrange(0, i as int),
        decreases nodes@.len() - i,
    {
        out.push(nodes[i].copy());
        assert(out@ =~= start + nodes@.subrange(0, i + 1));
        i = i + 1;
    }
    assert(nodes@.subrange(0, nodes@.len() as int) =~= nodes@);
}

/// Splice the skeleton: each `@block` placeholder is replaced by its
/// effective body; the text between blocks is kept as it is.
fn splice_skeleton(skeleton: &Vec<Node>, blocks: &IndexMap<String, Arc<BlockNode>>) -> (r: Vec<Node>)
    ensures
        r@ == spliced(skeleton@, block_entries(*blocks)),
{
    let mut out: Vec<Node> = Vec::new();
    let mut i: usize = 0;
    while i < skeleton.len()
        invariant
            i <= skeleton@.len(),
            out@ == spliced(skeleton@.subrange(0, i as int), block_entries(*blocks)),
        decreases skeleton@.len() - i,
    {
        proof {
            assert(skeleton@.subrange(0, i + 1).drop_last() =~= skeleton@.subrange(0, i as int));
        }
        match &skeleton[i] {
            Node::Block(b) => match block_map_get(blocks, b.name.as_str()) {
                Some(eff) => extend_nodes(&mut out, &eff.body),
                None => extend_nodes(&mut out, &b.body),
            },
            other => out.push(other.copy()),
        }
        i = i + 1;
    }
    assert(skeleton@.subrange(0, skeleton@.len() as int) =~= skeleton@);
    out
}

/// The key popped off the resolving stack is the one expected.
pub open spec fn lifo_holds(popped: Option<String>, expected: Seq<char>) -> bool {
    popped matches Some(p) && p@ == expected
}

/// The result of an operation, or the error of the resolving stack's LIFO
/// discipline when the key popped is not the one pushed. An error of the
/// operation itself wins over a LIFO error.
fn check_lifo_pop<T>(module_result: Result<T, MdsError>, popped: Option<String>, expected: &str) -> (r: Result<T, MdsError>)
    ensures
        module_result is Err ==> r == module_result,
        (module_result is Ok && lifo_holds(popped, expected@)) ==> r == module_result,
        (module_result is Ok && !lifo_holds(popped, expected@)) ==> r matches Err(MdsError::Syntax { .. }),
{
    let lifo_ok = match &popped {
        Some(p) => same_str(p.as_str(), expected),
        None => false,
    };
    match module_result {
        Err(e) => Err(e),
        Ok(v) => {
            if lifo_ok {
                Ok(v)
            } else {
                let got = match &popped {
                    Some(p) => p.clone(),
                    None => "<empty>".to_owned(),
                };
                let head = cat3("internal error: resolving stack LIFO invariant violated (expected ", expected, ", got ");
                let m = cat3(head.as_str(), got.as_str(), ") \u{2014} this is a compiler bug, please report it");
                Err(MdsError::syntax(m.as_str()))
            }
        },
    }
}


/// A frontmatter key is bound as a variable unless it is a file-type marker
/// (`type` in a Markdown file) or the import list of an MDS module.
pub open spec fn fm_key_bound(scope: Scope, k: Yaml, is_md: bool, is_mds: bool) -> bool {
    match k {
        Yaml::String(key) => if (is_md && key@ == "type"@) || (is_mds && key@ == "imports"@) {
            true
        } else {
            scope.vars.has(key@)
        },
        _ => true,
    }
}

/// The frontmatter value `v` of `imports` reads as import declarations: a
/// sequence of at most [`MAX_FRONTMATTER_IMPORTS`] valid entries.
pub open spec fn imports_parse(v: Yaml) -> bool {
    v matches Yaml::Sequence(items) && items@.len() <= MAX_FRONTMATTER_IMPORTS
        && forall|i: int| 0 <= i < items@.len() ==> entry_result(#[trigger] items@[i]) is Ok
}

/// `imps` are the declarations read from the entries of `v`, in order.
pub open spec fn imports_are(imps: Seq<FrontmatterImport>, v: Yaml) -> bool {
    v matches Yaml::Sequence(items) && imps.len() == items@.len()
        && forall|i: int| 0 <= i < items@.len() ==> entry_result(#[trigger] items@[i]) == Ok::<ImportDecl, Seq<char>>(imps[i].decl())
}

/// Bind one frontmatter entry: see [`build_scope_from_frontmatter`].
fn bind_frontmatter_entry(
    k: &Yaml,
    v: &Yaml,
    is_md: bool,
    is_mds: bool,
    scope: &mut Scope,
    fm_imports: &mut Vec<FrontmatterImport>,
) -> (r: Result<(), MdsError>)
    requires
        old(scope).wf(),
        old(scope).functions.entries@.len() == 0,
        old(scope).namespaces.entries@.len() == 0,
    ensures
        final(scope).wf(),
        final(scope).functions.entries@.len() == 0,
        final(scope).namespaces.entries@.len() == 0,
        !is_mds ==> final(fm_imports)@ == old(fm_imports)@,
        r is Ok ==> fm_key_bound(*final(scope), *k, is_md, is_mds),
        forall|q: Seq<char>| old(scope).vars.has(q) ==> #[trigger] final(scope).vars.has(q),
        match *k {
            Yaml::String(key) => if is_md && key@ == "type"@ {
                r is Ok && final(scope).vars == old(scope).vars && final(fm_imports)@ == old(fm_imports)@
            } else if is_mds && key@ == "imports"@ {
                &&& final(scope).vars == old(scope).vars
                &&& (r is Ok <==> imports_parse(*v))
                &&& r is Ok ==> imports_are(final(fm_imports)@, *v)
            } else {
                &&& final(fm_imports)@ == old(fm_imports)@
                &&& (r is Ok <==> convertible(*v))
                &&& r is Ok ==> (final(scope).vars.lookup(key@) matches Some(x) && converts(*v, x))
                &&& forall|q: Seq<char>| q != key@ ==> #[trigger] final(scope).vars.lookup(q) == old(scope).vars.lookup(q)
            },
            _ => r is Ok && final(scope).vars == old(scope).vars && final(fm_imports)@ == old(fm_imports)@,
        },
{
    match k {
        Yaml::String(key) => {
            if is_md && same_str(key.as_str(), "type") {
            } else if same_str(key.as_str(), "imports") {
                if is_mds {
                    *fm_imports = parse_frontmatter_imports_from_yaml(v)?;
                } else {
                    let value = TemplateValue::from_yaml(v)?;
                    scope.set_var(key.as_str(), value);
                }
            } else {
                let value = TemplateValue::from_yaml(v)?;
                scope.set_var(key.as_str(), value);
            }
        },
        _ => {},
    }
    Ok(())
}

/// No runtime variable is named `imports` where that name is reserved (in
/// a module that is not a Markdown file, when it has no frontmatter).
pub open spec fn no_reserved_runtime(rv: Seq<(String, TemplateValue)>, is_md: bool) -> bool {
    is_md || forall|i: int| 0 <= i < rv.len() ==> #[trigger] rv[i].0@ != "imports"@
}

/// The runtime variables as a lookup: the value of the entry named `q`.
pub open spec fn rv_vars(rv: Seq<(String, TemplateValue)>) -> spec_fn(Seq<char>) -> Option<TemplateValue> {
    |q: Seq<char>| if exists|i: int| 0 <= i < rv.len() && #[trigger] rv[i].0@ == q {
        Some(rv[choose|i: int| 0 <= i < rv.len() && #[trigger] rv[i].0@ == q].1)
    } else {
        None
    }
}

/// A frontmatter key that does not become a variable: `type` in a
/// Markdown file, `imports` in an MDS module.
pub open spec fn fm_reserved(k: Seq<char>, is_md: bool, is_mds: bool) -> bool {
    (is_md && k == "type"@) || (is_mds && k == "imports"@)
}

/// Entry `t` is the last of `es[..i]` whose key is the string `k`.
pub open spec fn last_before(es: Seq<(Yaml, Yaml)>, k: Seq<char>, t: int, i: int) -> bool {
    &&& 0 <= t < i <= es.len()
    &&& es[t].0.str_of() == Some(k)
    &&& forall|j: int| t < j < i ==> (#[trigger] es[j]).0.str_of() != Some(k)
}

/// A frontmatter mapping whose entries all bind without error and without
/// imports: each string-keyed value converts, except `type` in a Markdown
/// file, and an MDS module has no `imports` key.
pub open spec fn fm_bindable(es: Seq<(Yaml, Yaml)>, is_md: bool, is_mds: bool) -> bool {
    forall|i: int| 0 <= i < es.len() ==> match (#[trigger] es[i]).0 {
        Yaml::String(k) => if is_md && k@ == "type"@ {
            true
        } else {
            !(is_mds && k@ == "imports"@) && convertible(es[i].1)
        },
        _ => true,
    }
}

/// The variable texts of a module whose frontmatter mapping is `es`: those
/// of `base` (the runtime variables), then each frontmatter key's last
/// value, as [`yaml_text`] renders it (reserved keys aside).
pub open spec fn fm_texts(
    es: Seq<(Yaml, Yaml)>,
    is_md: bool,
    is_mds: bool,
    base: spec_fn(Seq<char>) -> Option<Seq<char>>,
) -> spec_fn(Seq<char>) -> Option<Seq<char>> {
    |q: Seq<char>| if base(q) is Some {
        base(q)
    } else if !fm_reserved(q, is_md, is_mds) && exists|t: int| #[trigger] last_before(es, q, t, es.len() as int) {
        Some(yaml_text(es[choose|t: int| #[trigger] last_before(es, q, t, es.len() as int)].1))
    } else {
        None
    }
}

/// A key that occurs in `es` has a last occurrence.
proof fn lemma_last_exists(es: Seq<(Yaml, Yaml)>, q: Seq<char>, j: int)
    requires
        0 <= j < es.len(),
        es[j].0.str_of() == Some(q),
    ensures
        exists|t: int| #[trigger] last_before(es, q, t, es.len() as int),
    decreases es.len() - j,
{
    if forall|k: int| j < k < es.len() ==> (#[trigger] es[k]).0.str_of() != Some(q) {
        assert(last_before(es, q, j, es.len() as int));
    } else {
        let k = choose|k: int| j < k < es.len() && (#[trigger] es[k]).0.str_of() == Some(q);
        lemma_last_exists(es, q, k);
    }
}

/// The frontmatter `fm` binds `q`: it is a mapping with a string key `q`
/// that is not reserved.
pub open spec fn fm_binds(fm: Option<Frontmatter>, q: Seq<char>, is_md: bool) -> bool {
    match fm {
        Some(f) => match yaml_document(f.raw@) {
            Ok(Yaml::Mapping(es)) => (exists|j: int| 0 <= j < es@.len() && #[trigger] es@[j].0.str_of() == Some(q))
                && !fm_reserved(q, is_md, !is_md || has_type_mds_line(f.raw@)),
            _ => false,
        },
        None => false,
    }
}

/// The raw frontmatter `raw` binds `q` (see [`fm_binds`]).
pub open spec fn raw_binds(raw: Option<String>, q: Seq<char>, is_md: bool) -> bool {
    match raw {
        Some(r) => match yaml_document(r@) {
            Ok(Yaml::Mapping(es)) => (exists|j: int| 0 <= j < es@.len() && #[trigger] es@[j].0.str_of() == Some(q))
                && !fm_reserved(q, is_md, !is_md || has_type_mds_line(r@)),
            _ => false,
        },
        None => false,
    }
}

/// The module is an MDS module for frontmatter purposes: a `.mds` file, or
/// a `.md` file whose frontmatter declares `type: mds`.
pub open spec fn is_mds_scope(fm: Option<Frontmatter>, is_md: bool) -> bool {
    !is_md || (fm matches Some(f) && has_type_mds_line(f.raw@))
}

/// Build the scope of a module from its frontmatter and the runtime
/// variables. Each top-level string key of a frontmatter mapping becomes a
/// variable, except `type` in a Markdown file; for an MDS module `imports`
/// is read as import declarations instead. Runtime variables then override
/// frontmatter ones; an MDS module refuses one named `imports`.
fn build_scope_from_frontmatter(
    fm: &Option<Frontmatter>,
    is_md: bool,
    rv: &Vec<(String, TemplateValue)>,
) -> (r: Result<(Scope, Vec<FrontmatterImport>), MdsError>)
    requires
        forall|i: int, j: int| 0 <= i < j < rv@.len() ==> rv@[i].0@ != rv@[j].0@,
    ensures
        fm matches Some(f) ==> (yaml_document(f.raw@) is Err ==> (r matches Err(MdsError::YamlError { message })
            && Err::<Yaml, Seq<char>>(message@) == yaml_document(f.raw@))),
        r matches Ok((s, _)) ==> s.wf() && s.functions.entries@.len() == 0 && s.namespaces.entries@.len() == 0,
        r matches Ok((s, _)) ==> forall|i: int| 0 <= i < rv@.len() ==> s.vars.lookup(#[trigger] rv@[i].0@) == Some(rv@[i].1),
        (r is Ok && is_mds_scope(*fm, is_md)) ==> forall|i: int| 0 <= i < rv@.len() ==> #[trigger] rv@[i].0@ != "imports"@,
        (fm is None || !is_mds_scope(*fm, is_md)) ==> (r matches Ok((_, imps)) ==> imps@.len() == 0),
        (fm is None && no_reserved_runtime(rv@, is_md)) ==> r is Ok,
        (fm is None && !no_reserved_runtime(rv@, is_md)) ==> (r matches Err(MdsError::ImportError { message, span: None })
            && message@ == "'imports' is a reserved frontmatter key for MDS files and cannot be set via --set"@),
        fm is None ==> (r matches Ok((s, _)) ==> forall|q: Seq<char>| #[trigger] s.vars.lookup(q) == rv_vars(rv@)(q)),
        r matches Ok((s, _)) ==> forall|q: Seq<char>| #[trigger] s.vars.has(q) ==> (rv_vars(rv@)(q) is Some
            || fm_binds(*fm, q, is_md)),
        fm matches Some(f) ==> (yaml_document(f.raw@) matches Ok(Yaml::Mapping(es)) ==> (r matches Ok((_, imps))
            ==> (is_mds_scope(*fm, is_md) ==> forall|t: int| #[trigger] last_before(es@, "imports"@, t, es@.len() as int)
                ==> imports_are(imps@, es@[t].1)))),
        fm matches Some(f) ==> (yaml_document(f.raw@) matches Ok(Yaml::Mapping(es)) ==> (r matches Ok((s, _))
            ==> forall|i: int| 0 <= i < es@.len() ==> fm_key_bound(s, (#[trigger] es@[i]).0, is_md, is_mds_scope(*fm, is_md)))),
        fm matches Some(f) ==> (yaml_document(f.raw@) matches Ok(Yaml::Mapping(es)) ==> (r matches Ok((s, _))
            ==> forall|k: Seq<char>, t: int| #[trigger] last_before(es@, k, t, es@.len() as int)
            && !fm_reserved(k, is_md, is_mds_scope(*fm, is_md)) && (forall|i: int| 0 <= i < rv@.len() ==> rv@[i].0@ != k)
            ==> (s.vars.lookup(k) matches Some(x) && converts(es@[t].1, x)))),
        fm matches Some(f) ==> (yaml_document(f.raw@) matches Ok(Yaml::Mapping(es)) ==> ((fm_bindable(es@, is_md, is_mds_scope(*fm, is_md))
            && no_reserved_runtime(rv@, !is_mds_scope(*fm, is_md))) ==> (r matches Ok((s, imps)) && imps@.len() == 0))),
        fm matches Some(f) ==> (yaml_document(f.raw@) matches Ok(Yaml::Mapping(es)) ==> (r matches Ok((s, _))
            ==> texts_of(vars_of(s)) == fm_texts(es@, is_md, is_mds_scope(*fm, is_md), texts_of(rv_vars(rv@))))),
{
    let mut scope = Scope::new();
    let mut fm_imports: Vec<FrontmatterImport> = Vec::new();
    let is_mds = !is_md || match fm {
        Some(f) => has_type_mds_frontmatter_raw(f.raw.as_str()),
        None => false,
    };
    match fm {
        Some(f) => {
            let yaml = match parse_yaml(f.raw.as_str()) {
                Ok(y) => y,
                Err(m) => {
                    return Err(MdsError::yaml_error(m.as_str()));
                },
            };
            match &yaml {
                Yaml::Mapping(map) => {
                    let mut i: usize = 0;
                    while i < map.len()
                        invariant
                            scope.wf(),
                            scope.functions.entries@.len() == 0,
                            scope.namespaces.entries@.len() == 0,
                            !is_mds_scope(*fm, is_md) ==> fm_imports@.len() == 0,
                            is_mds == is_mds_scope(*fm, is_md),
                            fm is Some,
                            fm matches Some(f) ==> yaml_document(f.raw@) == Ok::<Yaml, Seq<char>>(Yaml::Mapping(*map)),
                            i <= map@.len(),
                            forall|j: int| 0 <= j < i ==> fm_key_bound(scope, (#[trigger] map@[j]).0, is_md, is_mds),
                            forall|k: Seq<char>, t: int| #[trigger] last_before(map@, k, t, i as int) && !fm_reserved(k, is_md, is_mds)
                                ==> (scope.vars.lookup(k) matches Some(x) && converts(map@[t].1, x)),
                            is_mds ==> forall|t: int| #[trigger] last_before(map@, "imports"@, t, i as int) ==> imports_are(fm_imports@, map@[t].1),
                            fm_bindable(map@, is_md, is_mds) ==> fm_imports@.len() == 0,
                            forall|q: Seq<char>| #[trigger] scope.vars.has(q) ==> exists|j: int| 0 <= j < i
                                && map@[j].0.str_of() == Some(q) && !fm_reserved(q, is_md, is_mds),
                        decreases map@.len() - i,
                    {
                        let (k, v) = &map[i];
                        let ghost before = scope;
                        bind_frontmatter_entry(k, v, is_md, is_mds, &mut scope, &mut fm_imports)?;
                        proof {
                            assert forall|j: int| 0 <= j < i + 1 implies fm_key_bound(scope, (#[trigger] map@[j]).0, is_md, is_mds) by {
                                if j < i {
                                    assert(fm_key_bound(before, map@[j].0, is_md, is_mds));
                                }
                            }
                            assert forall|k: Seq<char>, t: int| #[trigger] last_before(map@, k, t, i + 1) && !fm_reserved(k, is_md, is_mds)
                                implies (scope.vars.lookup(k) matches Some(x) && converts(map@[t].1, x)) by {
                                if t < i {
                                    assert(last_before(map@, k, t, i as int));
                                    assert(map@[i as int].0.str_of() != Some(k));
                                }
                            }
                            assert forall|q: Seq<char>| #[trigger] scope.vars.has(q) implies exists|j: int| 0 <= j < i + 1
                                && map@[j].0.str_of() == Some(q) && !fm_reserved(q, is_md, is_mds) by {
                                if before.vars.has(q) {
                                    let j = choose|j: int| 0 <= j < i && map@[j].0.str_of() == Some(q) && !fm_reserved(q, is_md, is_mds);
                                    assert(0 <= j < i + 1);
                                } else {
                                    match map@[i as int].0 {
                                        Yaml::String(key) => {
                                            if q != key@ {
                                                assert(scope.vars.lookup(q) == before.vars.lookup(q));
                                                assert(false);
                                            }
                                            if fm_reserved(q, is_md, is_mds) {
                                                assert(scope.vars == before.vars);
                                                assert(false);
                                            }
                                            assert(map@[i as int].0.str_of() == Some(q));
                                        },
                                        _ => {
                                            assert(scope.vars == before.vars);
                                            assert(false);
                                        },
                                    }
                                }
                            }
                            if is_mds {
                                reveal_strlit("imports");
                                reveal_strlit("type");
                                assert("imports"@ != "type"@) by {
                                    assert("imports"@[0] != "type"@[0]);
                                }
                                assert forall|t: int| #[trigger] last_before(map@, "imports"@, t, i + 1) implies imports_are(fm_imports@, map@[t].1) by {
                                    if t < i {
                                        assert(last_before(map@, "imports"@, t, i as int));
                                        assert(map@[i as int].0.str_of() != Some("imports"@));
                                    }
                                }
                            }
                        }
                        i = i + 1;
                    }
                },
                _ => {},
            }
        },
        None => {},
    }
    let mut i: usize = 0;
    while i < rv.len()
        invariant
            scope.wf(),
            scope.functions.entries@.len() == 0,
            scope.namespaces.entries@.len() == 0,
            !is_mds_scope(*fm, is_md) ==> fm_imports@.len() == 0,
            fm is None ==> fm_imports@.len() == 0,
            is_mds == is_mds_scope(*fm, is_md),
            fm matches Some(f) ==> yaml_document(f.raw@) is Ok,
            fm matches Some(f) ==> (yaml_document(f.raw@) matches Ok(Yaml::Mapping(es))
                ==> forall|j: int| 0 <= j < es@.len() ==> fm_key_bound(scope, (#[trigger] es@[j]).0, is_md, is_mds)),
            i <= rv@.len(),
            forall|a: int, b: int| 0 <= a < b < rv@.len() ==> rv@[a].0@ != rv@[b].0@,
            forall|j: int| 0 <= j < i ==> scope.vars.lookup(#[trigger] rv@[j].0@) == Some(rv@[j].1),
            is_mds ==> forall|j: int| 0 <= j < i ==> #[trigger] rv@[j].0@ != "imports"@,
            fm is None ==> forall|q: Seq<char>| #[trigger] scope.vars.has(q) ==> exists|j: int| 0 <= j < i && rv@[j].0@ == q,
            forall|q: Seq<char>| #[trigger] scope.vars.has(q) ==> ((exists|j: int| 0 <= j < i && rv@[j].0@ == q)
                || fm_binds(*fm, q, is_md)),
            fm matches Some(f) ==> (yaml_document(f.raw@) matches Ok(Yaml::Mapping(es)) ==> (
                (fm_bindable(es@, is_md, is_mds) ==> fm_imports@.len() == 0)
                && forall|q: Seq<char>| #[trigger] scope.vars.has(q) ==> ((exists|j: int| 0 <= j < i && rv@[j].0@ == q)
                    || exists|j: int| 0 <= j < es@.len() && es@[j].0.str_of() == Some(q) && !fm_reserved(q, is_md, is_mds)))),
            fm matches Some(f) ==> (yaml_document(f.raw@) matches Ok(Yaml::Mapping(es))
                ==> forall|k: Seq<char>, t: int| #[trigger] last_before(es@, k, t, es@.len() as int)
                && !fm_reserved(k, is_md, is_mds) && (forall|j: int| 0 <= j < i ==> rv@[j].0@ != k)
                ==> (scope.vars.lookup(k) matches Some(x) && converts(es@[t].1, x))),
        decreases rv@.len() - i,
    {
        let (key, value) = &rv[i];
        if is_mds && same_str(key.as_str(), "imports") {
            return Err(MdsError::import_error(
                "'imports' is a reserved frontmatter key for MDS files and cannot be set via --set",
            ));
        }
        scope.set_var(key.as_str(), value.copy());
        proof {
            assert forall|j: int| 0 <= j < i + 1 implies scope.vars.lookup(#[trigger] rv@[j].0@) == Some(rv@[j].1) by {
                if j < i {
                    assert(rv@[j].0@ != rv@[i as int].0@);
                }
            }
        }
        i = i + 1;
    }
    proof {
        match fm {
            Some(f) => {
                match yaml_document(f.raw@) {
                    Ok(Yaml::Mapping(es)) => {
                        let base = texts_of(rv_vars(rv@));
                        let ft = fm_texts(es@, is_md, is_mds, base);
                        assert forall|q: Seq<char>| #[trigger] texts_of(vars_of(scope))(q) == ft(q) by {
                            if exists|j: int| 0 <= j < rv@.len() && #[trigger] rv@[j].0@ == q {
                                let j = choose|j: int| 0 <= j < rv@.len() && #[trigger] rv@[j].0@ == q;
                                assert(scope.vars.lookup(rv@[j].0@) == Some(rv@[j].1));
                            } else if !fm_reserved(q, is_md, is_mds) && exists|t: int| #[trigger] last_before(es@, q, t, es@.len() as int) {
                                let t = choose|t: int| #[trigger] last_before(es@, q, t, es@.len() as int);
                                assert(forall|j: int| 0 <= j < rv@.len() ==> rv@[j].0@ != q);
                                let x = scope.vars.lookup(q)->Some_0;
                                crate::value::lemma_converts_text(es@[t].1, x);
                            } else {
                                if scope.vars.has(q) {
                                    if exists|j: int| 0 <= j < es@.len() && es@[j].0.str_of() == Some(q) && !fm_reserved(q, is_md, is_mds) {
                                        let j = choose|j: int| 0 <= j < es@.len() && es@[j].0.str_of() == Some(q) && !fm_reserved(q, is_md, is_mds);
                                        lemma_last_exists(es@, q, j);
                                    }
                                }
                            }
                        }
                        assert(texts_of(vars_of(scope)) =~= ft);
                    },
                    _ => {},
                }
            },
            None => {},
        }
        if fm is None {
            assert forall|q: Seq<char>| #[trigger] scope.vars.lookup(q) == rv_vars(rv@)(q) by {
                if exists|j: int| 0 <= j < rv@.len() && #[trigger] rv@[j].0@ == q {
                    let j = choose|j: int| 0 <= j < rv@.len() && #[trigger] rv@[j].0@ == q;
                    assert(scope.vars.lookup(rv@[j].0@) == Some(rv@[j].1));
                } else {
                    assert(!scope.vars.has(q));
                }
            }
        }
    }
    Ok((scope, fm_imports))
}

/// The frontmatter as a YAML mapping, when it is one.
pub open spec fn frontmatter_mapping(fm: Option<Frontmatter>) -> Result<Option<Seq<(Yaml, Yaml)>>, Seq<char>> {
    match fm {
        None => Ok(None),
        Some(f) => match yaml_document(f.raw@) {
            Err(m) => Err(m),
            Ok(Yaml::Mapping(m)) => Ok(Some(m@)),
            Ok(_) => Ok(None),
        },
    }
}

/// Parse the frontmatter once, for storage: its mapping, or `None` without
/// frontmatter or when it is not a mapping.
fn parse_frontmatter_mapping(fm: &Option<Frontmatter>) -> (r: Result<Option<Vec<(Yaml, Yaml)>>, MdsError>)
    ensures
        match frontmatter_mapping(*fm) {
            Ok(None) => r matches Ok(None),
            Ok(Some(m)) => r matches Ok(Some(v)) && v@ == m,
            Err(m) => r matches Err(MdsError::YamlError { message }) && message@ == m,
        },
{
    match fm {
        None => Ok(None),
        Some(f) => match parse_yaml(f.raw.as_str()) {
            Err(m) => Err(MdsError::yaml_error(m.as_str())),
            Ok(Yaml::Mapping(m)) => Ok(Some(m)),
            Ok(_) => Ok(None),
        },
    }
}


/// No two entries share a key.
pub open spec fn unique_keys<V>(es: Seq<(Seq<char>, V)>) -> bool {
    keys_of(es).no_duplicates()
}

/// A table of runtime variables: no name twice.
pub open spec fn distinct_names(rv: Seq<(String, TemplateValue)>) -> bool {
    forall|i: int, j: int| 0 <= i < j < rv.len() ==> rv[i].0@ != rv[j].0@
}

proof fn lemma_inserted<V>(es: Seq<(Seq<char>, V)>, k: Seq<char>, v: V)
    requires
        unique_keys(es),
    ensures
        unique_keys(inserted(es, k, v)),
        keys_of(es).contains(k) ==> keys_of(inserted(es, k, v)) == keys_of(es),
        !keys_of(es).contains(k) ==> inserted(es, k, v) == es.push((k, v)),
{
    let ks = keys_of(es);
    if ks.contains(k) {
        let p = ks.index_of(k);
        assert(keys_of(inserted(es, k, v)) =~= ks);
    } else {
        assert(keys_of(es.push((k, v))) =~= ks.push(k));
    }
}

proof fn lemma_own_blocks_unique(nodes: Seq<Node>)
    ensures
        unique_keys(own_blocks(nodes)),
    decreases nodes.len(),
{
    if nodes.len() > 0 {
        lemma_own_blocks_unique(nodes.drop_last());
        let m = own_blocks(nodes.drop_last());
        match nodes.last() {
            Node::Block(b) => {
                if !keys_of(m).contains(b.name@) {
                    assert(keys_of(m.push((b.name@, Arc::new(b)))) =~= keys_of(m).push(b.name@));
                }
            },
            _ => {},
        }
    }
}

proof fn lemma_overridden_keys(es: Seq<(Seq<char>, Arc<BlockNode>)>, nodes: Seq<Node>)
    requires
        unique_keys(es),
        overridden(es, nodes) is Some,
    ensures
        unique_keys(overridden(es, nodes)->Some_0),
        keys_of(overridden(es, nodes)->Some_0) == keys_of(es),
    decreases nodes.len(),
{
    if nodes.len() > 0 {
        lemma_overridden_keys(es, nodes.drop_last());
        let m = overridden(es, nodes.drop_last())->Some_0;
        match nodes.last() {
            Node::Block(b) => {
                lemma_inserted(m, b.name@, Arc::new(b));
            },
            _ => {},
        }
    }
}

proof fn lemma_value_of_push<V>(es: Seq<(Seq<char>, V)>, k: Seq<char>, v: V, q: Seq<char>)
    ensures
        value_of(es.push((k, v)), q) == (if value_of(es, q) is Some { value_of(es, q) } else if q == k { Some(v) } else { None }),
    decreases es.len(),
{
    let p = es.push((k, v));
    if es.len() > 0 {
        assert(p.drop_first() =~= es.drop_first().push((k, v)));
        assert(p[0] == es[0]);
        lemma_value_of_push(es.drop_first(), k, v, q);
    } else {
        assert(p.drop_first() =~= Seq::<(Seq<char>, V)>::empty());
        assert(p[0] == (k, v));
        assert(value_of(p.drop_first(), q) is None);
        assert(value_of(es, q) is None);
    }
}

proof fn lemma_value_of_prefix<V>(a: Seq<(Seq<char>, V)>, b: Seq<(Seq<char>, V)>, q: Seq<char>)
    requires
        a.len() <= b.len(),
        forall|i: int| 0 <= i < a.len() ==> a[i] == b[i],
        value_of(a, q) is Some,
    ensures
        value_of(b, q) == value_of(a, q),
    decreases a.len(),
{
    if a[0].0 != q {
        lemma_value_of_prefix(a.drop_first(), b.drop_first(), q);
    }
}

/// Non-blank text, or nothing.
fn non_blank(s: String) -> (r: Option<String>)
    ensures
        trim(s@).len() == 0 ==> r is None,
        trim(s@).len() > 0 ==> r == Some(s),
{
    let t = crate::evaluator::trimmed(s.as_str());
    if t.as_str().unicode_len() == 0 {
        None
    } else {
        Some(s)
    }
}

/// A key of a base template's frontmatter that never becomes a variable of
/// an extending template.
pub open spec fn reserved_key(q: Seq<char>) -> bool {
    q == "imports"@ || q == "type"@
}

/// Entry `t` of `es` is the first whose key is the string `q` and whose
/// value converts to a template value.
pub open spec fn first_convertible(es: Seq<(Yaml, Yaml)>, q: Seq<char>, t: int) -> bool {
    &&& 0 <= t < es.len()
    &&& es[t].0.str_of() == Some(q)
    &&& convertible(es[t].1)
    &&& forall|j: int| 0 <= j < t ==> !((#[trigger] es[j]).0.str_of() == Some(q) && convertible(es[j].1))
}

/// Bring the frontmatter variables of a base template into an extending
/// template's scope, where the extending template has none of that name.
/// `imports`, `type` and values that do not convert are passed over.
fn merge_base_vars(base_fm: &Option<Vec<(Yaml, Yaml)>>, scope: &mut Scope)
    requires
        old(scope).wf(),
    ensures
        final(scope).wf(),
        final(scope).functions == old(scope).functions,
        final(scope).namespaces == old(scope).namespaces,
        forall|q: Seq<char>| old(scope).vars.has(q) ==> #[trigger] final(scope).vars.lookup(q) == old(scope).vars.lookup(q),
        forall|q: Seq<char>| !old(scope).vars.has(q) ==> (#[trigger] final(scope).vars.has(q) <==> (base_fm matches Some(es)
            && !reserved_key(q) && exists|t: int| first_convertible(es@, q, t))),
        base_fm is Some ==> forall|q: Seq<char>, t: int| !old(scope).vars.has(q) && !reserved_key(q)
            && #[trigger] first_convertible(base_fm->Some_0@, q, t) ==> (final(scope).vars.lookup(q) matches Some(x)
            && converts(base_fm->Some_0@[t].1, x)),
{
    match base_fm {
        Some(map) => {
            let mut i: usize = 0;
            while i < map.len()
                invariant
                    scope.wf(),
                    scope.functions == old(scope).functions,
                    scope.namespaces == old(scope).namespaces,
                    forall|q: Seq<char>| old(scope).vars.has(q) ==> #[trigger] scope.vars.lookup(q) == old(scope).vars.lookup(q),
                    forall|q: Seq<char>| old(scope).vars.has(q) ==> #[trigger] scope.vars.has(q),
                    forall|q: Seq<char>| !old(scope).vars.has(q) ==> (#[trigger] scope.vars.has(q) <==> (!reserved_key(q)
                        && exists|t: int| 0 <= t < i && first_convertible(map@, q, t))),
                    forall|q: Seq<char>, t: int| !old(scope).vars.has(q) && !reserved_key(q) && 0 <= t < i
                        && #[trigger] first_convertible(map@, q, t) ==> (scope.vars.lookup(q) matches Some(x)
                        && converts(map@[t].1, x)),
                    i <= map@.len(),
                decreases map@.len() - i,
            {
                let ghost before = scope;
                match &map[i].0 {
                    Yaml::String(key) => {
                        if !same_str(key.as_str(), "imports") && !same_str(key.as_str(), "type")
                            && scope.get_var(key.as_str()).is_none() {
                            match TemplateValue::from_yaml(&map[i].1) {
                                Ok(value) => {
                                    scope.set_var(key.as_str(), value);
                                    proof {
                                        assert(first_convertible(map@, key@, i as int)) by {
                                            assert forall|j: int| 0 <= j < i implies !((#[trigger] map@[j]).0.str_of() == Some(key@)
                                                && convertible(map@[j].1)) by {
                                                if map@[j].0.str_of() == Some(key@) && convertible(map@[j].1) {
                                                    lemma_first_convertible_exists(map@, key@, j);
                                                }
                                            }
                                        }
                                    }
                                },
                                Err(_) => {},
                            }
                        }
                    },
                    _ => {},
                }
                proof {
                    assert forall|q: Seq<char>| !old(scope).vars.has(q) implies (#[trigger] scope.vars.has(q) <==> (!reserved_key(q)
                        && exists|t: int| 0 <= t < i + 1 && first_convertible(map@, q, t))) by {
                        if !reserved_key(q) && exists|t: int| 0 <= t < i + 1 && first_convertible(map@, q, t) {
                            let t = choose|t: int| 0 <= t < i + 1 && first_convertible(map@, q, t);
                            if t == i && before.vars.has(q) {
                                let t2 = choose|t2: int| 0 <= t2 < i && first_convertible(map@, q, t2);
                                assert(false);
                            }
                        }
                        if scope.vars.has(q) && !before.vars.has(q) {
                            assert(first_convertible(map@, q, i as int));
                        }
                    }
                    assert forall|q: Seq<char>, t: int| !old(scope).vars.has(q) && !reserved_key(q) && 0 <= t < i + 1
                        && #[trigger] first_convertible(map@, q, t) implies (scope.vars.lookup(q) matches Some(x)
                        && converts(map@[t].1, x)) by {
                        if t < i {
                            assert(before.vars.has(q));
                            if map@[i as int].0.str_of() == Some(q) {
                            }
                        } else if before.vars.has(q) {
                            let t2 = choose|t2: int| 0 <= t2 < i && first_convertible(map@, q, t2);
                            assert(false);
                        }
                    }
                }
                i = i + 1;
            }
        },
        None => {},
    }
}

/// Two entries cannot both be the first convertible one of a key.
proof fn lemma_first_convertible_exists(es: Seq<(Yaml, Yaml)>, q: Seq<char>, j: int)
    requires
        0 <= j < es.len(),
        es[j].0.str_of() == Some(q),
        convertible(es[j].1),
    ensures
        exists|t: int| 0 <= t <= j && first_convertible(es, q, t),
    decreases j,
{
    if forall|i: int| 0 <= i < j ==> !((#[trigger] es[i]).0.str_of() == Some(q) && convertible(es[i].1)) {
        assert(first_convertible(es, q, j));
    } else {
        let i = choose|i: int| 0 <= i < j && (#[trigger] es[i]).0.str_of() == Some(q) && convertible(es[i].1);
        lemma_first_convertible_exists(es, q, i);
    }
}

/// Make the functions of a base template visible in an extending
/// template's scope; one the scope already has is a name collision.
fn merge_base_functions(base: &Table<Arc<FunctionDef>>, scope: &mut Scope) -> (r: Result<(), MdsError>)
    requires
        old(scope).wf(),
    ensures
        final(scope).wf(),
        final(scope).vars == old(scope).vars,
        final(scope).namespaces == old(scope).namespaces,
        r is Ok ==> forall|i: int| 0 <= i < base.entries@.len()
            ==> #[trigger] final(scope).functions.has(base.entries@[i].0@),
        r matches Err(e) ==> e matches MdsError::NameCollision { span: None, .. },
        (old(scope).functions.entries@.len() == 0 && base.wf()) ==> (r is Ok
            && forall|q: Seq<char>| #[trigger] final(scope).functions.lookup(q) == base.lookup(q)),
{
    let mut i: usize = 0;
    let ghost fresh = old(scope).functions.entries@.len() == 0 && base.wf();
    while i < base.entries.len()
        invariant
            scope.wf(),
            scope.vars == old(scope).vars,
            scope.namespaces == old(scope).namespaces,
            i <= base.entries@.len(),
            forall|j: int| 0 <= j < i ==> #[trigger] scope.functions.has(base.entries@[j].0@),
            fresh == (old(scope).functions.entries@.len() == 0 && base.wf()),
            fresh ==> forall|q: Seq<char>| #[trigger] scope.functions.lookup(q) == (if exists|j: int| 0 <= j < i
                && base.entries@[j].0@ == q {
                Some(base.entries@[choose|j: int| 0 <= j < i && base.entries@[j].0@ == q].1)
            } else {
                None
            }),
        decreases base.entries@.len() - i,
    {
        let (name, f) = &base.entries[i];
        proof {
            if fresh {
                if scope.functions.has(name@) {
                    assert(scope.functions.lookup(name@) is Some);
                    let j = choose|j: int| 0 <= j < i && base.entries@[j].0@ == name@;
                    assert(base.entries@[j].0@ == base.entries@[i as int].0@);
                }
            }
        }
        if scope.get_function(name.as_str()).is_some() {
            return Err(MdsError::name_collision(name.as_str()));
        }
        let ghost before = *scope;
        scope.set_function(name.as_str(), share(f));
        proof {
            if fresh {
                assert forall|q: Seq<char>| #[trigger] scope.functions.lookup(q) == (if exists|j: int| 0 <= j < i + 1
                    && base.entries@[j].0@ == q {
                    Some(base.entries@[choose|j: int| 0 <= j < i + 1 && base.entries@[j].0@ == q].1)
                } else {
                    None
                }) by {
                    if q == name@ {
                        let j = choose|j: int| 0 <= j < i + 1 && base.entries@[j].0@ == q;
                        if j < i {
                            assert(base.entries@[j].0@ == base.entries@[i as int].0@);
                        }
                    } else {
                        if exists|j: int| 0 <= j < i + 1 && base.entries@[j].0@ == q {
                            let j = choose|j: int| 0 <= j < i + 1 && base.entries@[j].0@ == q;
                            assert(j < i);
                            let j2 = choose|j2: int| 0 <= j2 < i && base.entries@[j2].0@ == q;
                            if j != j2 {
                                if j < j2 {
                                    assert(base.entries@[j].0@ != base.entries@[j2].0@);
                                } else {
                                    assert(base.entries@[j2].0@ != base.entries@[j].0@);
                                }
                            }
                        }
                    }
                }
            }
        }
        i = i + 1;
    }
    proof {
        if fresh {
            assert forall|q: Seq<char>| #[trigger] scope.functions.lookup(q) == base.lookup(q) by {
                if exists|j: int| 0 <= j < base.entries@.len() && base.entries@[j].0@ == q {
                    let j = choose|j: int| 0 <= j < base.entries@.len() && base.entries@[j].0@ == q;
                    assert forall|k: int| 0 <= k < j implies base.entries@[k].0@ != q by {
                        assert(base.entries@[k].0@ != base.entries@[j].0@);
                    }
                    base.lemma_position_is(q, j);
                } else {
                    assert(!base.has(q));
                }
            }
        }
    }
    Ok(())
}

/// The functions of an extending template: those of its base, then its own
/// over them (its own win).
fn merged_functions(base: &Table<Arc<FunctionDef>>, own: &Table<Arc<FunctionDef>>) -> (r: Table<Arc<FunctionDef>>)
    requires
        base.wf(),
    ensures
        r.wf(),
        forall|q: Seq<char>| #[trigger] r.has(q) <==> (base.has(q) || own.has(q)),
        forall|q: Seq<char>| own.has(q) && own.wf() ==> #[trigger] r.lookup(q) == own.lookup(q),
        forall|q: Seq<char>| !own.has(q) ==> #[trigger] r.lookup(q) == base.lookup(q),
{
    let mut r = crate::scope::share_all(base);
    let mut i: usize = 0;
    while i < own.entries.len()
        invariant
            r.wf(),
            i <= own.entries@.len(),
            forall|q: Seq<char>| #[trigger] r.has(q) <==> (base.has(q) || exists|j: int| 0 <= j < i && own.entries@[j].0@ == q),
            forall|j: int| 0 <= j < i && own.wf() ==> #[trigger] r.lookup(own.entries@[j].0@) == Some(own.entries@[j].1),
            forall|q: Seq<char>| !(exists|j: int| 0 <= j < i && own.entries@[j].0@ == q) ==> #[trigger] r.lookup(q) == base.lookup(q),
        decreases own.entries@.len() - i,
    {
        let (name, f) = &own.entries[i];
        r.insert(name.clone(), share(f));
        proof {
            assert forall|j: int| 0 <= j < i + 1 && own.wf() implies #[trigger] r.lookup(own.entries@[j].0@) == Some(own.entries@[j].1) by {
                if j < i {
                    assert(own.entries@[j].0@ != own.entries@[i as int].0@);
                }
            }
        }
        i = i + 1;
    }
    proof {
        assert forall|q: Seq<char>| own.has(q) && own.wf() implies #[trigger] r.lookup(q) == own.lookup(q) by {
            own.lemma_position(q);
        }
    }
    r
}


impl ResolvedModule {
    /// The tables hold each name once and the block map each key once.
    pub open spec fn wf(&self) -> bool {
        &&& self.functions.wf()
        &&& self.explicit_exports.wf()
        &&& unique_keys(block_entries(self.effective_blocks))
    }
}

/// The cache of resolved modules over a [`FileSystem`].
///
/// `modules` holds each module resolved so far, in first-resolution
/// (depth-first) order; `resolving` the modules being resolved, innermost
/// last, which detects cycles and bounds the depth of imports.
pub struct ModuleCache<F: FileSystem> {
    fs: F,
    modules: IndexMap<String, Arc<ResolvedModule>>,
    resolving: IndexSet<String>,
}

impl<F: FileSystem> ModuleCache<F> {
    /// The keys being resolved, innermost last.
    pub closed spec fn stack(&self) -> Seq<Seq<char>> {
        set_items(self.resolving)
    }

    /// The modules resolved so far, by key, in first-resolution order.
    pub closed spec fn cached(&self) -> Seq<(Seq<char>, Arc<ResolvedModule>)> {
        module_entries(self.modules)
    }

    /// The file system the cache reads through.
    pub closed spec fn file_system(&self) -> F {
        self.fs
    }

    /// The cache's invariant: the stack is at most [`MAX_IMPORT_DEPTH`]
    /// deep and holds each key once; each key is cached once, with a
    /// well-formed module.
    pub closed spec fn inv(&self) -> bool {
        &&& self.stack().len() <= MAX_IMPORT_DEPTH
        &&& self.stack().no_duplicates()
        &&& unique_keys(self.cached())
        &&& forall|i: int| 0 <= i < self.cached().len() ==> (#[trigger] self.cached()[i]).1.wf()
    }

    /// The state between two public calls: the invariant, and nothing is
    /// being resolved.
    pub closed spec fn wf(&self) -> bool {
        self.inv() && self.stack().len() == 0
    }

    /// Between public calls the invariant holds.
    pub proof fn lemma_wf_inv(&self)
        requires
            self.wf(),
        ensures
            self.inv(),
            self.stack().len() == 0,
    {
    }

    /// What a resolution step keeps, spelled out for callers: the
    /// invariant, the resolving stack and the file system as they were, and
    /// every cached module in its place.
    pub proof fn lemma_evolves(&self, next: &Self)
        requires
            self.evolves(next),
        ensures
            next.inv(),
            next.stack() == self.stack(),
            next.file_system() == self.file_system(),
            self.cached().len() <= next.cached().len(),
            forall|i: int| 0 <= i < self.cached().len() ==> #[trigger] next.cached()[i] == self.cached()[i],
    {
    }

    /// The module an import of `path` from the module at `base_key` finds
    /// already in the cache, where the path is accepted and the file system
    /// knows its key.
    pub open spec fn cached_import(&self, base_key: Seq<char>, path: Seq<char>) -> Option<Arc<ResolvedModule>> {
        if crate::paths::import_path_error(path) is None && self.file_system().known_key(base_key, path) is Some {
            value_of(self.cached(), self.file_system().known_key(base_key, path)->Some_0)
        } else {
            None
        }
    }

    /// Every frontmatter import is an alias of a module already in the
    /// cache, under a name the scope leaves free and no earlier import takes.
    pub open spec fn aliases_ready(&self, imports: Seq<FrontmatterImport>, base_key: Seq<char>, scope: Scope) -> bool {
        forall|i: int| 0 <= i < imports.len() ==> {
            &&& (#[trigger] imports[i]).decl() is Alias
            &&& self.cached_import(base_key, imports[i].decl()->Alias_0) is Some
            &&& !scope.namespaces.has(imports[i].decl()->Alias_1)
            &&& forall|j: int| 0 <= j < i ==> imports[j].decl()->Alias_1 != imports[i].decl()->Alias_1
        }
    }

    /// How many more modules can be resolved inside one another.
    pub closed spec fn room(&self) -> nat {
        (MAX_IMPORT_DEPTH - self.stack().len()) as nat
    }

    /// What every resolution step keeps: the invariant, the stack as it was
    /// (each push is matched by its pop), every cached module in its place
    /// (the first resolution of a key wins; the cache only grows), and no
    /// key being resolved gets cached meanwhile.
    pub closed spec fn evolves(&self, next: &Self) -> bool {
        &&& next.inv()
        &&& next.stack() == self.stack()
        &&& next.fs == self.fs
        &&& self.cached().len() <= next.cached().len()
        &&& forall|i: int| 0 <= i < self.cached().len() ==> #[trigger] next.cached()[i] == self.cached()[i]
        &&& forall|k: Seq<char>| self.stack().contains(k)
            ==> (#[trigger] keys_of(next.cached()).contains(k) == keys_of(self.cached()).contains(k))
    }

    /// A cache over `fs` with nothing resolved.
    pub fn with_fs(fs: F) -> (c: Self)
        ensures
            c.wf(),
            c.cached().len() == 0,
            c.file_system() == fs,
    {
        let c = ModuleCache { fs, modules: crate::collections::new_module_map(), resolving: crate::collections::new_key_set() };
        c
    }

    /// The keys of all modules resolved so far, in first-resolution order
    /// (depth-first); the entry module is among them.
    pub fn dependencies(&self) -> (r: Vec<String>)
        ensures
            r@.map_values(|k: String| k@) == keys_of(self.cached()),
    {
        let n = crate::collections::module_map_len(&self.modules);
        let mut out: Vec<String> = Vec::new();
        let mut i: usize = 0;
        while i < n
            invariant
                n == module_entries(self.modules).len(),
                i <= n,
                out@.len() == i,
                out@.map_values(|k: String| k@) == keys_of(module_entries(self.modules)).subrange(0, i as int),
            decreases n - i,
        {
            let (k, _) = crate::collections::module_map_get_index(&self.modules, i);
            let ghost kv = k@;
            assert(keys_of(module_entries(self.modules))[i as int] == kv);
            out.push(k);
            assert(out@[i as int]@ == kv);
            assert(out@.map_values(|k: String| k@) =~= keys_of(module_entries(self.modules)).subrange(0, i + 1));
            i = i + 1;
        }
        assert(keys_of(module_entries(self.modules)).subrange(0, n as int) =~= keys_of(module_entries(self.modules)));
        out
    }

    /// Refuse to go deeper than [`MAX_IMPORT_DEPTH`].
    fn check_import_depth(&self) -> (r: Result<(), MdsError>)
        ensures
            r is Ok <==> self.stack().len() < MAX_IMPORT_DEPTH,
            r matches Err(e) ==> e matches MdsError::ImportError { message, span: None }
                && message@ == "import depth exceeds maximum of 64 (possible deep chain)"@,
    {
        if crate::collections::key_set_len(&self.resolving) >= MAX_IMPORT_DEPTH {
            return Err(MdsError::import_error("import depth exceeds maximum of 64 (possible deep chain)"));
        }
        Ok(())
    }

    /// Push `key` on the stack of modules being resolved.
    fn push_resolving(&mut self, key: &str)
        requires
            old(self).inv(),
            old(self).stack().len() < MAX_IMPORT_DEPTH,
            !old(self).stack().contains(key@),
        ensures
            final(self).inv(),
            final(self).stack() == old(self).stack().push(key@),
            final(self).cached() == old(self).cached(),
            final(self).fs == old(self).fs,
            final(self).room() < old(self).room(),
    {
        crate::collections::key_set_insert(&mut self.resolving, key.to_owned());
        proof {
            assert(self.stack() == old(self).stack().push(key@));
            assert(self.cached() == old(self).cached());
            assert(self.stack().no_duplicates()) by {
                let s = self.stack();
                assert forall|i: int, j: int| 0 <= i < s.len() && 0 <= j < s.len() && i != j implies s[i] != s[j] by {
                    if i < s.len() - 1 && j < s.len() - 1 {
                        assert(s[i] == old(self).stack()[i]);
                        assert(s[j] == old(self).stack()[j]);
                    } else if i == s.len() - 1 {
                        assert(s[j] == old(self).stack()[j]);
                    } else {
                        assert(s[i] == old(self).stack()[i]);
                    }
                }
            }
        }
    }

    /// Pop the innermost key, and hand back the operation's result unless
    /// the key popped is not `key` (which the stack discipline rules out).
    fn pop_resolving<T>(&mut self, key: &str, result: Result<T, MdsError>) -> (r: Result<T, MdsError>)
        requires
            old(self).inv(),
            old(self).stack().len() > 0,
            old(self).stack().last() == key@,
        ensures
            final(self).inv(),
            final(self).stack() == old(self).stack().drop_last(),
            final(self).cached() == old(self).cached(),
            final(self).fs == old(self).fs,
            r == result,
    {
        let popped = crate::collections::key_set_pop(&mut self.resolving);
        proof {
            let s = self.stack();
            let o = old(self).stack();
            assert(s == o.drop_last());
            assert(s.no_duplicates()) by {
                assert forall|i: int, j: int| 0 <= i < s.len() && 0 <= j < s.len() && i != j implies s[i] != s[j] by {
                    assert(s[i] == o[i] && s[j] == o[j]);
                }
            }
        }
        check_lifo_pop(result, popped, key)
    }

    /// Store a freshly resolved module under `key`.
    fn store(&mut self, key: &str, m: ResolvedModule) -> (r: Arc<ResolvedModule>)
        requires
            old(self).inv(),
            !keys_of(old(self).cached()).contains(key@),
            !old(self).stack().contains(key@),
            m.wf(),
        ensures
            final(self).inv(),
            final(self).stack() == old(self).stack(),
            final(self).fs == old(self).fs,
            final(self).cached() == old(self).cached().push((key@, r)),
            forall|k: Seq<char>| k != key@ ==> (#[trigger] keys_of(final(self).cached()).contains(k) == keys_of(old(self).cached()).contains(k)),
            *r == m,
    {
        let arc = Arc::new(m);
        proof {
            lemma_inserted(module_entries(self.modules), key@, arc);
        }
        crate::collections::module_map_insert(&mut self.modules, key.to_owned(), share(&arc));
        proof {
            let c = self.cached();
            let o = old(self).cached();
            assert(keys_of(c) =~= keys_of(o).push(key@));
            assert forall|k: Seq<char>| k != key@ implies (#[trigger] keys_of(c).contains(k) == keys_of(o).contains(k)) by {
                if keys_of(c).contains(k) {
                    let j = choose|j: int| 0 <= j < keys_of(c).len() && keys_of(c)[j] == k;
                    assert(j < o.len());
                    assert(keys_of(o)[j] == k);
                }
                if keys_of(o).contains(k) {
                    let j = choose|j: int| 0 <= j < keys_of(o).len() && keys_of(o)[j] == k;
                    assert(keys_of(c)[j] == k);
                }
            }
            assert forall|i: int| 0 <= i < c.len() implies (#[trigger] c[i]).1.wf() by {
                if i < o.len() {
                    assert(c[i] == o[i]);
                }
            }
        }
        arc
    }
}


/// `name` is bound in `scope` by a selective import: `prompt` as a
/// variable, any other name as a function.
pub open spec fn bound_name(scope: Scope, name: Seq<char>) -> bool {
    if name == "prompt"@ {
        scope.vars.has(name)
    } else {
        scope.functions.has(name)
    }
}

/// An import path that is not relative (or holds a null byte) is refused
/// before anything is read.
pub open spec fn refuses_path<T>(r: Result<T, MdsError>, path: Seq<char>) -> bool {
    crate::paths::import_path_error(path) matches Some(msg) ==> (r matches Err(MdsError::ImportError { message, span: None })
        && message@ == msg)
}

/// What a resolved frontmatter import leaves visible in the scope: an alias
/// as a namespace, each selected name as [`bound_name`] says.
pub open spec fn fm_import_bound(scope: Scope, d: ImportDecl) -> bool {
    match d {
        ImportDecl::Alias(_, alias) => scope.namespaces.has(alias),
        ImportDecl::Merge(_) => true,
        ImportDecl::Selective(_, names) => forall|k: int| 0 <= k < names.len() ==> bound_name(scope, #[trigger] names[k]),
    }
}

/// The namespace an aliased import of `m` makes visible: its exported
/// functions and its exported prompt.
pub open spec fn namespace_of(ns: Arc<NamespaceScope>, m: ResolvedModule) -> bool {
    ns.functions@ == m.exported_entries(m.functions.entries@) && ns.prompt_body == m.exported_prompt()
}

/// The exported entries of a table without repeated names repeat no name.
proof fn lemma_exported_distinct(m: &ResolvedModule, es: Seq<(String, Arc<FunctionDef>)>)
    requires
        forall|i: int, j: int| 0 <= i < j < es.len() ==> es[i].0@ != es[j].0@,
    ensures
        forall|i: int| 0 <= i < m.exported_entries(es).len() ==> exists|j: int| 0 <= j < es.len()
            && #[trigger] m.exported_entries(es)[i] == es[j],
        forall|i: int, j: int| 0 <= i < j < m.exported_entries(es).len()
            ==> m.exported_entries(es)[i].0@ != m.exported_entries(es)[j].0@,
    decreases es.len(),
{
    if es.len() > 0 {
        let pre = es.drop_last();
        lemma_exported_distinct(m, pre);
        let ep = m.exported_entries(pre);
        let e = m.exported_entries(es);
        assert forall|i: int| 0 <= i < e.len() implies exists|j: int| 0 <= j < es.len() && #[trigger] e[i] == es[j] by {
            if i < ep.len() {
                assert(e[i] == ep[i]);
                let j = choose|j: int| 0 <= j < pre.len() && #[trigger] ep[i] == pre[j];
                assert(es[j] == pre[j]);
            } else {
                assert(e[i] == es[es.len() - 1]);
            }
        }
        assert forall|i: int, j: int| 0 <= i < j < e.len() implies e[i].0@ != e[j].0@ by {
            if j < ep.len() {
                assert(e[i] == ep[i] && e[j] == ep[j]);
            } else {
                assert(e[i] == ep[i]);
                let a = choose|a: int| 0 <= a < pre.len() && #[trigger] ep[i] == pre[a];
                assert(e[j] == es[es.len() - 1]);
                assert(es[a] == pre[a]);
            }
        }
    }
}

/// The function `m` exports under `name`, if any.
pub open spec fn export_of(m: ResolvedModule, name: Seq<char>) -> Option<Arc<FunctionDef>> {
    if m.exported(name) {
        m.functions.lookup(name)
    } else {
        None
    }
}

/// The exported prompt of `m` as a value, if any.
pub open spec fn prompt_value(m: ResolvedModule) -> Option<TemplateValue> {
    match m.exported_prompt() {
        Some(p) => Some(TemplateValue::String(p)),
        None => None,
    }
}

/// `name`, selected from `m`, is bound in `s` to what `m` exports under it:
/// its exported prompt for `prompt`, else its exported function.
pub open spec fn selected(s: Scope, m: ResolvedModule, name: Seq<char>) -> bool {
    if name == "prompt"@ {
        prompt_value(m) is Some && s.vars.lookup(name) == prompt_value(m)
    } else {
        export_of(m, name) is Some && s.functions.lookup(name) == export_of(m, name)
    }
}

/// `m` exports `name`: its prompt for `prompt`, else a function.
pub open spec fn exports_name(m: ResolvedModule, name: Seq<char>) -> bool {
    if name == "prompt"@ {
        prompt_value(m) is Some
    } else {
        export_of(m, name) is Some
    }
}

/// `s` holds each exported function of `m` under its name, and the
/// exported prompt of `m`, if any, as `prompt`.
pub open spec fn merged_from(s: Scope, m: ResolvedModule) -> bool {
    &&& forall|i: int| 0 <= i < m.exported_entries(m.functions.entries@).len()
        ==> #[trigger] s.functions.lookup(m.exported_entries(m.functions.entries@)[i].0@)
        == Some(m.exported_entries(m.functions.entries@)[i].1)
    &&& prompt_value(m) is Some ==> s.vars.lookup("prompt"@) == prompt_value(m)
}

/// Every variable but `prompt` has in `b` the value it has in `a` (an
/// import may bring in a module's exported prompt as `prompt`).
pub open spec fn same_vars_but_prompt(a: Scope, b: Scope) -> bool {
    forall|q: Seq<char>| q != "prompt"@ ==> #[trigger] b.vars.lookup(q) == a.vars.lookup(q)
}

/// Each runtime variable other than `prompt` has its runtime value in `s`.
pub open spec fn keeps_runtime(s: Scope, rv: Seq<(String, TemplateValue)>) -> bool {
    forall|i: int| 0 <= i < rv.len() && rv[i].0@ != "prompt"@ ==> s.vars.lookup(#[trigger] rv[i].0@) == Some(rv[i].1)
}

/// Each frontmatter variable of a module whose raw frontmatter is `raw`
/// has in `s` the value of its key's last entry, converted (keys that are
/// reserved, named `prompt`, or set by a runtime variable aside).
pub open spec fn keeps_frontmatter(s: Scope, raw: Option<String>, is_md: bool, rv: Seq<(String, TemplateValue)>) -> bool {
    match raw {
        None => true,
        Some(r) => match yaml_document(r@) {
            Ok(Yaml::Mapping(es)) => forall|k: Seq<char>, t: int| #[trigger] last_before(es@, k, t, es@.len() as int)
                && !fm_reserved(k, is_md, !is_md || has_type_mds_line(r@)) && k != "prompt"@
                && (forall|i: int| 0 <= i < rv.len() ==> rv[i].0@ != k)
                ==> (s.vars.lookup(k) matches Some(x) && converts(es@[t].1, x)),
            _ => true,
        },
    }
}

/// `raw` is the raw text of the frontmatter `fm`.
pub open spec fn raw_of(fm: Option<Frontmatter>, raw: Option<String>) -> bool {
    match fm {
        None => raw is None,
        Some(f) => raw matches Some(r) && r@ == f.raw@,
    }
}

/// `p` is the prompt of the rendered text `t`: none when it is blank.
pub open spec fn prompt_is(p: Option<String>, t: Seq<char>) -> bool {
    if trim(t).len() == 0 {
        p is None
    } else {
        p matches Some(x) && x@ == t
    }
}

/// A source without frontmatter or directives whose lines parse and
/// render with the variable texts `texts` alone: what it renders to.
pub open spec fn line_template(source: Seq<char>, texts: spec_fn(Seq<char>) -> Option<Seq<char>>) -> Option<Seq<char>> {
    if front_of(source) == Some((None::<Seq<char>>, 0int)) && no_at(source, 0, source.len() as int) {
        match lines_from(source, 0) {
            Some(fs) => render_lines(fs, texts),
            None => None,
        }
    } else {
        None
    }
}

/// What a module renders to whose source is an optional frontmatter
/// mapping that binds without error or imports, then text lines (no
/// directives), in a scope holding the variable texts `base` (the runtime
/// variables) and the frontmatter's variables; `None` for other sources or
/// when a line does not render.
pub open spec fn module_text(source: Seq<char>, base: spec_fn(Seq<char>) -> Option<Seq<char>>, is_md: bool) -> Option<Seq<char>> {
    match front_of(source) {
        Some((None, _)) => line_template(source, base),
        Some((Some(raw), b)) => match yaml_document(raw) {
            Ok(Yaml::Mapping(es)) => if fm_bindable(es@, is_md, !is_md || has_type_mds_line(raw))
                && no_at(source, b, source.len() as int) {
                match lines_from(source, b) {
                    Some(fs) => render_lines(fs, fm_texts(es@, is_md, !is_md || has_type_mds_line(raw), base)),
                    None => None,
                }
            } else {
                None
            },
            _ => None,
        },
        None => None,
    }
}

/// The body forms and frontmatter variable texts of a module whose source
/// is an optional frontmatter mapping that binds without error or imports,
/// then text lines and `@block` / `@message` sections (the blocks distinct,
/// at most [`MAX_BLOCKS_PER_MODULE`]); the variable texts are those of
/// `base` (the runtime variables), then the frontmatter's.
pub open spec fn module_items(source: Seq<char>, base: spec_fn(Seq<char>) -> Option<Seq<char>>, is_md: bool)
    -> Option<(Seq<BodyForm>, spec_fn(Seq<char>) -> Option<Seq<char>>)> {
    match front_of(source) {
        Some((raw, b)) => match items_from(source, b) {
            Some((fs, _, false)) => if forms_blocks_ok(fs) {
                match raw {
                    None => Some((fs, base)),
                    Some(r) => match yaml_document(r) {
                        Ok(Yaml::Mapping(es)) => if fm_bindable(es@, is_md, !is_md || has_type_mds_line(r)) {
                            Some((fs, fm_texts(es@, is_md, !is_md || has_type_mds_line(r), base)))
                        } else {
                            None
                        },
                        _ => None,
                    },
                }
            } else {
                None
            },
            _ => None,
        },
        None => None,
    }
}

/// The messages such a module (see [`module_items`]) gives in messages
/// mode, when it has an `@message` block at its top level.
pub open spec fn items_chat(source: Seq<char>, base: spec_fn(Seq<char>) -> Option<Seq<char>>, is_md: bool)
    -> Option<Seq<(Seq<char>, Seq<char>)>> {
    match module_items(source, base, is_md) {
        Some((fs, texts)) => if exists|i: int| 0 <= i < fs.len() && #[trigger] fs[i] is Message {
            items_messages(fs, texts)
        } else {
            None
        },
        None => None,
    }
}

/// What such a module (see [`module_items`]) renders to.
pub open spec fn items_text(source: Seq<char>, base: spec_fn(Seq<char>) -> Option<Seq<char>>, is_md: bool) -> Option<Seq<char>> {
    match module_items(source, base, is_md) {
        Some((fs, texts)) => render_items(fs, texts),
        None => None,
    }
}

/// `prompt` is what `body` renders to in `s`, wherever [`plain_nodes`]
/// covers the body: `None` when that text is blank, else the text.
pub open spec fn renders_in(prompt: Option<String>, body: Seq<Node>, s: Scope) -> bool {
    crate::evaluator::plain_nodes(body, vars_of(s), functions_of(s), namespaces_of(s), MAX_CALL_DEPTH as nat) matches Some(t)
        ==> (if trim(t).len() == 0 {
        prompt is None
    } else {
        prompt matches Some(p) && p@ == t
    })
}

/// `b` binds every name `a` binds.
pub open spec fn grows(a: Scope, b: Scope) -> bool {
    &&& forall|q: Seq<char>| a.vars.has(q) ==> #[trigger] b.vars.has(q)
    &&& forall|q: Seq<char>| a.functions.has(q) ==> #[trigger] b.functions.has(q)
    &&& forall|q: Seq<char>| a.namespaces.has(q) ==> #[trigger] b.namespaces.has(q)
}

proof fn lemma_bound_grows(a: Scope, b: Scope, d: ImportDecl)
    requires
        grows(a, b),
        fm_import_bound(a, d),
    ensures
        fm_import_bound(b, d),
{
    match d {
        ImportDecl::Selective(_, names) => {
            assert forall|k: int| 0 <= k < names.len() implies bound_name(b, #[trigger] names[k]) by {
                assert(bound_name(a, names[k]));
            }
        },
        _ => {},
    }
}

/// `b` records every function and block name that `a` does.
pub open spec fn defs_grow(a: CollectedDefs, b: CollectedDefs) -> bool {
    &&& forall|q: Seq<char>| a.functions.has(q) ==> #[trigger] b.functions.has(q)
    &&& forall|q: Seq<char>| a.block_names.has(q) ==> #[trigger] b.block_names.has(q)
}

/// A body with no `@define`, `@import`, `@export` or `@block` at its top
/// level.
pub open spec fn no_definitions(body: Seq<Node>) -> bool {
    forall|i: int| 0 <= i < body.len() ==> !(#[trigger] body[i] is Define || body[i] is Import
        || body[i] is Export || body[i] is Block)
}

/// A plain-text body has no definitions, no validation problem, and
/// renders to its text.
proof fn lemma_text_body(
    ns: Seq<Node>,
    scope: Scope,
    vars: spec_fn(Seq<char>) -> Option<TemplateValue>,
    fns: spec_fn(Seq<char>) -> Option<Arc<FunctionDef>>,
    nss: spec_fn(Seq<char>) -> Option<Arc<NamespaceScope>>,
    depth: nat,
)
    requires
        text_of_nodes(ns) is Some,
    ensures
        forall|i: int| 0 <= i < ns.len() ==> #[trigger] ns[i] is Text,
        no_definitions(ns),
        !holds_message(ns),
        crate::validator::nodes_problem(ns, scope) is None,
        crate::evaluator::plain_nodes(ns, vars, fns, nss, depth) == text_of_nodes(ns),
    decreases ns.len(),
{
    if ns.len() == 0 {
        assert(crate::evaluator::plain_nodes(ns, vars, fns, nss, depth) == Some(Seq::<char>::empty()));
    } else {
        assert(ns[0] is Text);
        assert(text_of_nodes(ns.drop_first()) is Some);
        assert(!node_holds_message(ns[0]));
        assert(crate::validator::node_problem(ns[0], scope) is None);
        assert(holds_message(ns) == holds_message(ns.drop_first()));
        assert(crate::validator::nodes_problem(ns, scope) == crate::validator::nodes_problem(ns.drop_first(), scope));
        assert(crate::evaluator::plain_node(ns[0], vars, fns, nss, depth) == Some(ns[0]->Text_0.text@));
        assert(crate::evaluator::plain_nodes(ns, vars, fns, nss, depth) == match crate::evaluator::plain_nodes(ns.drop_first(), vars, fns, nss, depth) {
            Some(b) => Some(ns[0]->Text_0.text@ + b),
            None => None,
        });
        lemma_text_body(ns.drop_first(), scope, vars, fns, nss, depth);
        assert forall|i: int| 0 <= i < ns.len() implies #[trigger] ns[i] is Text by {
            if i > 0 {
                assert(ns[i] == ns.drop_first()[i - 1]);
            }
        }
    }
}

/// The scope an extending template without frontmatter renders in, given
/// its base `b`: the runtime variables; then, for other names, the base's
/// frontmatter variables (each key's first convertible value, `imports`
/// and `type` aside); no other variable; the base's functions; no
/// namespace.
pub open spec fn leaf_scope(s: Scope, b: ResolvedModule, rv: Seq<(String, TemplateValue)>) -> bool {
    &&& s.wf()
    &&& s.namespaces.entries@.len() == 0
    &&& forall|q: Seq<char>| #[trigger] s.functions.lookup(q) == b.functions.lookup(q)
    &&& forall|q: Seq<char>| rv_vars(rv)(q) is Some ==> #[trigger] s.vars.lookup(q) == rv_vars(rv)(q)
    &&& forall|q: Seq<char>, t: int| rv_vars(rv)(q) is None && !reserved_key(q) && b.frontmatter_values is Some
        && #[trigger] first_convertible(b.frontmatter_values->Some_0@, q, t)
        ==> (s.vars.lookup(q) matches Some(x) && converts(b.frontmatter_values->Some_0@[t].1, x))
    &&& forall|q: Seq<char>| #[trigger] s.vars.has(q) ==> (rv_vars(rv)(q) is Some || (b.frontmatter_values is Some
        && !reserved_key(q) && exists|t: int| first_convertible(b.frontmatter_values->Some_0@, q, t)))
}

/// An extending template without frontmatter whose overrides are distinct
/// blocks its base declares, whose base has the module `b`, and whose
/// spliced body validates and renders in every scope [`leaf_scope`]
/// describes.
pub open spec fn extends_ready(module: crate::ast::Module, b: ResolvedModule, rv: Seq<(String, TemplateValue)>, is_md: bool) -> bool {
    &&& module.frontmatter is None
    &&& child_only(module.body@)
    &&& blocks_ok(module.body@)
    &&& no_reserved_runtime(rv, is_md)
    &&& overridden(block_entries(b.effective_blocks), module.body@) is Some
    &&& forall|s: Scope| #[trigger] leaf_scope(s, b, rv) ==> leaf_renders(
        spliced(b.effective_skeleton@, overridden(block_entries(b.effective_blocks), module.body@)->Some_0), s)
}

/// The prompt of the extending module `m` of base `b` is what its spliced
/// body renders to in a scope [`leaf_scope`] describes.
pub open spec fn extends_prompt(m: ResolvedModule, b: ResolvedModule, rv: Seq<(String, TemplateValue)>) -> bool {
    exists|s: Scope| #[trigger] leaf_scope(s, b, rv) && prompt_is(m.prompt_body,
        crate::evaluator::plain_nodes(spliced(m.effective_skeleton@, block_entries(m.effective_blocks)),
        vars_of(s), functions_of(s), namespaces_of(s), MAX_CALL_DEPTH as nat)->Some_0)
}

/// A body validates and renders in `s` (as [`plain_nodes`] covers it).
pub open spec fn leaf_renders(nodes: Seq<Node>, s: Scope) -> bool {
    crate::validator::nodes_problem(nodes, s) is None
        && crate::evaluator::plain_nodes(nodes, vars_of(s), functions_of(s), namespaces_of(s), MAX_CALL_DEPTH as nat) is Some
}

/// The number of top-level `@block` nodes of a body.
pub open spec fn block_count(body: Seq<Node>) -> nat
    decreases body.len(),
{
    if body.len() == 0 {
        0
    } else {
        block_count(body.drop_last()) + if body.last() is Block { 1nat } else { 0nat }
    }
}

/// The top-level `@block` nodes of a body name distinct blocks, at most
/// [`MAX_BLOCKS_PER_MODULE`] of them.
pub open spec fn blocks_ok(body: Seq<Node>) -> bool {
    &&& block_count(body) <= MAX_BLOCKS_PER_MODULE
    &&& forall|i: int, j: int| 0 <= i < j < body.len() && #[trigger] body[i] is Block && #[trigger] body[j] is Block
        ==> body[i]->Block_0.name@ != body[j]->Block_0.name@
}

proof fn lemma_block_count_prefix(body: Seq<Node>, i: int)
    requires
        0 <= i <= body.len(),
    ensures
        block_count(body.subrange(0, i)) <= block_count(body),
    decreases body.len(),
{
    if i < body.len() {
        lemma_block_count_prefix(body.drop_last(), i);
        assert(body.drop_last().subrange(0, i) =~= body.subrange(0, i));
    } else {
        assert(body.subrange(0, i) =~= body);
    }
}

/// An extending template's body holds only block overrides and blank text.
pub open spec fn child_only(body: Seq<Node>) -> bool {
    forall|i: int| 0 <= i < body.len() ==> allowed_in_child(#[trigger] body[i])
}

/// The base's frontmatter variables are in `s`: each key of the base's
/// frontmatter (`imports` and `type` aside) that neither a runtime variable
/// nor the child's frontmatter (raw text `raw`) binds, and that is not
/// `prompt`, has the value of its first convertible entry.
pub open spec fn base_vars_merged(s: Scope, b: ResolvedModule, raw: Option<String>, is_md: bool, rv: Seq<(String, TemplateValue)>) -> bool {
    forall|q: Seq<char>, t: int| q != "prompt"@ && rv_vars(rv)(q) is None && !reserved_key(q) && !raw_binds(raw, q, is_md)
        && b.frontmatter_values is Some && #[trigger] first_convertible(b.frontmatter_values->Some_0@, q, t)
        ==> (s.vars.lookup(q) matches Some(x) && converts(b.frontmatter_values->Some_0@[t].1, x))
}

/// `m` is the module an extending template whose body is `body` makes of
/// its base `b`: the base's skeleton and functions, the base's blocks with the body's
/// overrides applied, and the prompt the spliced skeleton renders to in a
/// scope that holds the runtime variables and the base's functions.
pub open spec fn extended(m: ResolvedModule, b: ResolvedModule, body: Seq<Node>, rv: Seq<(String, TemplateValue)>, is_md: bool) -> bool {
    &&& child_only(body)
    &&& m.effective_skeleton == b.effective_skeleton
    &&& forall|q: Seq<char>| #[trigger] m.functions.lookup(q) == b.functions.lookup(q)
    &&& overridden(block_entries(b.effective_blocks), body) == Some(block_entries(m.effective_blocks))
    &&& exists|s: Scope| s.wf() && keeps_runtime(s, rv) && keeps_frontmatter(s, m.raw_frontmatter, is_md, rv)
        && base_vars_merged(s, b, m.raw_frontmatter, is_md, rv)
        && (forall|i: int| 0 <= i < b.functions.entries@.len() ==> #[trigger] s.functions.has(b.functions.entries@[i].0@))
        && #[trigger] renders_in(m.prompt_body, spliced(m.effective_skeleton@, block_entries(m.effective_blocks)), s)
}

/// What a module resolved with the runtime variables `rv` into the cache
/// `c` is made of. A root template: its blocks are its skeleton's own, and
/// its prompt is what the skeleton renders to in a scope holding the
/// runtime and frontmatter variables. An extending template: a cached base
/// extended by some body of overrides (see [`extended`]).
pub open spec fn resolved_shape(m: ResolvedModule, c: Seq<(Seq<char>, Arc<ResolvedModule>)>, rv: Seq<(String, TemplateValue)>, is_md: bool) -> bool {
    &&& m.extends_path is None ==> (block_entries(m.effective_blocks) == own_blocks(m.effective_skeleton@)
        && exists|s: Scope| s.wf() && keeps_runtime(s, rv) && keeps_frontmatter(s, m.raw_frontmatter, is_md, rv)
        && #[trigger] renders_in(m.prompt_body, m.effective_skeleton@, s))
    &&& m.extends_path is Some ==> exists|k: Seq<char>, b: Arc<ResolvedModule>, body: Seq<Node>|
        #![trigger value_of(c, k), extended(m, *b, body, rv, is_md)]
        value_of(c, k) == Some(b) && extended(m, *b, body, rv, is_md)
}

/// A module's make-up holds in any cache that keeps the old one's entries.
proof fn lemma_shape_grows(m: ResolvedModule, c1: Seq<(Seq<char>, Arc<ResolvedModule>)>, c2: Seq<(Seq<char>, Arc<ResolvedModule>)>,
    rv: Seq<(String, TemplateValue)>, is_md: bool)
    requires
        resolved_shape(m, c1, rv, is_md),
        c1.len() <= c2.len(),
        forall|i: int| 0 <= i < c1.len() ==> c2[i] == c1[i],
    ensures
        resolved_shape(m, c2, rv, is_md),
{
    if m.extends_path is Some {
        let (k, b, body) = choose|k: Seq<char>, b: Arc<ResolvedModule>, body: Seq<Node>|
            #![trigger value_of(c1, k), extended(m, *b, body, rv, is_md)]
            value_of(c1, k) == Some(b) && extended(m, *b, body, rv, is_md);
        lemma_value_of_prefix(c1, c2, k);
        assert(value_of(c2, k) == Some(b) && extended(m, *b, body, rv, is_md));
    }
}

/// A body with no `@define`, `@import` or `@export` at its top level.
pub open spec fn only_sections(body: Seq<Node>) -> bool {
    forall|i: int| 0 <= i < body.len() ==> !(#[trigger] body[i] is Define || body[i] is Import || body[i] is Export)
}

/// The number of top-level `@block` sections among body forms.
pub open spec fn form_block_count(fs: Seq<BodyForm>) -> nat
    decreases fs.len(),
{
    if fs.len() == 0 {
        0
    } else {
        form_block_count(fs.drop_last()) + if fs.last() is Block { 1nat } else { 0nat }
    }
}

/// The top-level `@block` sections among body forms name distinct blocks,
/// at most [`MAX_BLOCKS_PER_MODULE`] of them.
pub open spec fn forms_blocks_ok(fs: Seq<BodyForm>) -> bool {
    &&& form_block_count(fs) <= MAX_BLOCKS_PER_MODULE
    &&& forall|i: int, j: int| 0 <= i < j < fs.len() && #[trigger] fs[i] is Block && #[trigger] fs[j] is Block
        ==> fs[i]->Block_0 != fs[j]->Block_0
}

proof fn lemma_block_count_forms(ns: Seq<Node>, fs: Seq<BodyForm>)
    requires
        bodies_are(ns, fs),
    ensures
        block_count(ns) == form_block_count(fs),
    decreases fs.len(),
{
    if fs.len() > 0 {
        assert(bodies_are(ns.drop_last(), fs.drop_last())) by {
            assert forall|j: int| 0 <= j < fs.drop_last().len() implies body_node_is(#[trigger] ns.drop_last()[j], fs.drop_last()[j]) by {
                assert(body_node_is(ns[j], fs[j]));
            }
        }
        lemma_block_count_forms(ns.drop_last(), fs.drop_last());
        assert(body_node_is(ns[ns.len() - 1], fs[fs.len() - 1]));
    }
}

/// Body forms whose blocks are fine give nodes whose blocks are.
proof fn lemma_forms_blocks(ns: Seq<Node>, fs: Seq<BodyForm>)
    requires
        bodies_are(ns, fs),
        forms_blocks_ok(fs),
    ensures
        blocks_ok(ns),
{
    lemma_block_count_forms(ns, fs);
    assert forall|i: int, j: int| 0 <= i < j < ns.len() && #[trigger] ns[i] is Block && #[trigger] ns[j] is Block
        implies ns[i]->Block_0.name@ != ns[j]->Block_0.name@ by {
        assert(body_node_is(ns[i], fs[i]));
        assert(body_node_is(ns[j], fs[j]));
        assert(fs[i] is Block && fs[j] is Block);
    }
}

/// In messages mode, a body of text lines and sections gives the messages
/// [`items_messages`] says, validates wherever those render, and holds an
/// `@message` block where its forms have one at the top.
proof fn lemma_items_messages(ns: Seq<Node>, fs: Seq<BodyForm>, s: Scope, depth: nat)
    requires
        bodies_are(ns, fs),
        s.functions.entries@.len() == 0,
        s.namespaces.entries@.len() == 0,
    ensures
        items_messages(fs, texts_of(vars_of(s))) is Some ==> (crate::validator::nodes_problem(ns, s) is None
            && crate::evaluator::plain_messages(ns, vars_of(s), functions_of(s), namespaces_of(s), depth)
            == items_messages(fs, texts_of(vars_of(s)))),
        (exists|i: int| 0 <= i < fs.len() && #[trigger] fs[i] is Message) ==> holds_message(ns),
    decreases fs.len(),
{
    if ns.len() > 0 {
        let t = ns.drop_first();
        let g = fs.drop_first();
        assert forall|j: int| 0 <= j < g.len() implies body_node_is(#[trigger] t[j], g[j]) by {
            assert(body_node_is(ns[j + 1], fs[j + 1]));
        }
        assert(body_node_is(ns[0], fs[0]));
        lemma_items_messages(t, g, s, depth);
        let texts = texts_of(vars_of(s));
        match fs[0] {
            BodyForm::Message(_, inner, _) => {
                let m = ns[0]->Message_0;
                assert(bodies_are(m.body@, inner));
                lemma_items_body(m.body@, inner, s, depth);
                assert(node_holds_message(ns[0]));
            },
            _ => {
                let one = seq![ns[0]];
                let fone = seq![fs[0]];
                assert(bodies_are(one, fone)) by {
                    assert(one[0] == ns[0] && fone[0] == fs[0]);
                }
                lemma_items_body(one, fone, s, depth);
                assert(one.drop_first() =~= Seq::<Node>::empty());
                assert(crate::evaluator::plain_nodes(one.drop_first(), vars_of(s), functions_of(s), namespaces_of(s), depth) == Some(Seq::<char>::empty()));
                assert(crate::validator::nodes_problem(one.drop_first(), s) is None);
                assert(!(fs[0] is Message));
                if exists|i: int| 0 <= i < fs.len() && #[trigger] fs[i] is Message {
                    let i = choose|i: int| 0 <= i < fs.len() && #[trigger] fs[i] is Message;
                    assert(g[i - 1] is Message);
                }
            },
        }
        assert(holds_message(ns) == (node_holds_message(ns[0]) || holds_message(t)));
        assert(crate::validator::nodes_problem(ns, s) == match crate::validator::node_problem(ns[0], s) {
            Some(p) => Some(p),
            None => crate::validator::nodes_problem(t, s),
        });
    }
}

/// A child's body holds no definition or import.
proof fn lemma_child_only_sections(body: Seq<Node>)
    ensures
        child_only(body) ==> only_sections(body),
{
    if child_only(body) {
        assert forall|i: int| 0 <= i < body.len() implies !(#[trigger] body[i] is Define || body[i] is Import || body[i] is Export) by {
            assert(allowed_in_child(body[i]));
        }
    }
}

/// A body of text lines and `@block` / `@message` sections, in a scope
/// with no functions or namespaces: it renders as [`render_items`] says,
/// validates wherever it renders, and holds no definition or import.
proof fn lemma_items_body(ns: Seq<Node>, fs: Seq<BodyForm>, s: Scope, depth: nat)
    requires
        bodies_are(ns, fs),
        s.functions.entries@.len() == 0,
        s.namespaces.entries@.len() == 0,
    ensures
        crate::evaluator::plain_nodes(ns, vars_of(s), functions_of(s), namespaces_of(s), depth)
            == render_items(fs, texts_of(vars_of(s))),
        render_items(fs, texts_of(vars_of(s))) is Some ==> crate::validator::nodes_problem(ns, s) is None,
        only_sections(ns),
    decreases fs,
{
    if ns.len() > 0 {
        let t = ns.drop_first();
        let g = fs.drop_first();
        assert forall|j: int| 0 <= j < g.len() implies body_node_is(#[trigger] t[j], g[j]) by {
            assert(body_node_is(ns[j + 1], fs[j + 1]));
        }
        assert(body_node_is(ns[0], fs[0]));
        lemma_items_body(t, g, s, depth);
        let texts = texts_of(vars_of(s));
        match fs[0] {
            BodyForm::Line(l) => {
                match l {
                    LineNode::Text(x) => {
                        assert(crate::evaluator::plain_node(ns[0], vars_of(s), functions_of(s), namespaces_of(s), depth) == Some(x));
                    },
                    LineNode::Escaped => {
                        assert(crate::evaluator::plain_node(ns[0], vars_of(s), functions_of(s), namespaces_of(s), depth) == Some("{"@));
                    },
                    LineNode::Interp(f, _) => {
                        match f {
                            crate::parser::ExprForm::Var(n) => {
                                assert(crate::evaluator::plain_node(ns[0], vars_of(s), functions_of(s), namespaces_of(s), depth)
                                    == texts(n));
                            },
                            _ => {
                                assert(crate::evaluator::plain_node(ns[0], vars_of(s), functions_of(s), namespaces_of(s), depth) is None);
                            },
                        }
                    },
                }
                let one = seq![l];
                assert(one.drop_first() =~= Seq::<LineNode>::empty());
                assert(one[0] == l);
                assert(render_lines(one.drop_first(), texts) == Some(Seq::<char>::empty()));
                match render_lines(one, texts) {
                    Some(a) => {
                        assert(a + Seq::<char>::empty() =~= a);
                    },
                    None => {},
                }
                assert(crate::evaluator::plain_node(ns[0], vars_of(s), functions_of(s), namespaces_of(s), depth) == render_lines(one, texts));
            },
            BodyForm::Block(_, inner, _) => {
                let b = ns[0]->Block_0;
                assert(bodies_are(b.body@, inner));
                lemma_items_body(b.body@, inner, s, depth);
            },
            BodyForm::Message(_, _, _) => {},
        }
        assert(crate::evaluator::plain_nodes(ns, vars_of(s), functions_of(s), namespaces_of(s), depth) == match crate::evaluator::plain_node(ns[0], vars_of(s), functions_of(s), namespaces_of(s), depth) {
            Some(a) => match crate::evaluator::plain_nodes(t, vars_of(s), functions_of(s), namespaces_of(s), depth) {
                Some(b) => Some(a + b),
                None => None,
            },
            None => None,
        });
        assert(crate::validator::nodes_problem(ns, s) == match crate::validator::node_problem(ns[0], s) {
            Some(p) => Some(p),
            None => crate::validator::nodes_problem(t, s),
        });
        assert forall|i: int| 0 <= i < ns.len() implies !(#[trigger] ns[i] is Define || ns[i] is Import || ns[i] is Export) by {
            if i > 0 {
                assert(ns[i] == t[i - 1]);
            }
        }
    } else {
        assert(crate::evaluator::plain_nodes(ns, vars_of(s), functions_of(s), namespaces_of(s), depth) == Some(Seq::<char>::empty()));
    }
}

/// A body of text-line nodes, in a scope with no functions or namespaces:
/// it has no definitions and no `@message`, it validates wherever it
/// renders, and it renders as [`render_lines`] says.
proof fn lemma_lines_body(ns: Seq<Node>, fs: Seq<LineNode>, s: Scope, depth: nat)
    requires
        nodes_are(ns, fs),
        s.functions.entries@.len() == 0,
        s.namespaces.entries@.len() == 0,
        render_lines(fs, texts_of(vars_of(s))) is Some,
    ensures
        no_definitions(ns),
        !holds_message(ns),
        crate::validator::nodes_problem(ns, s) is None,
        crate::evaluator::plain_nodes(ns, vars_of(s), functions_of(s), namespaces_of(s), depth) == render_lines(fs, texts_of(vars_of(s))),
    decreases ns.len(),
{
    if ns.len() > 0 {
        let t = ns.drop_first();
        let g = fs.drop_first();
        assert forall|j: int| 0 <= j < g.len() implies node_is(#[trigger] t[j], g[j]) by {
            assert(node_is(ns[j + 1], fs[j + 1]));
        }
        assert(node_is(ns[0], fs[0]));
        lemma_lines_body(t, g, s, depth);
        match fs[0] {
            LineNode::Text(x) => {
                assert(crate::evaluator::plain_node(ns[0], vars_of(s), functions_of(s), namespaces_of(s), depth) == Some(x));
            },
            LineNode::Escaped => {
                assert(crate::evaluator::plain_node(ns[0], vars_of(s), functions_of(s), namespaces_of(s), depth) == Some("{"@));
            },
            LineNode::Interp(f, _) => {
                match f {
                    crate::parser::ExprForm::Var(n) => {
                        assert(crate::evaluator::plain_node(ns[0], vars_of(s), functions_of(s), namespaces_of(s), depth)
                            == match vars_of(s)(n) {
                            Some(v) => Some(crate::value::rendered(v)),
                            None => None,
                        });
                    },
                    _ => {},
                }
            },
        }
        assert(crate::evaluator::plain_nodes(ns, vars_of(s), functions_of(s), namespaces_of(s), depth) == match crate::evaluator::plain_node(ns[0], vars_of(s), functions_of(s), namespaces_of(s), depth) {
            Some(a) => match crate::evaluator::plain_nodes(t, vars_of(s), functions_of(s), namespaces_of(s), depth) {
                Some(b) => Some(a + b),
                None => None,
            },
            None => None,
        });
        assert(!node_holds_message(ns[0]));
        assert(crate::validator::node_problem(ns[0], s) is None);
        assert(holds_message(ns) == holds_message(t));
        assert(crate::validator::nodes_problem(ns, s) == crate::validator::nodes_problem(t, s));
        assert forall|i: int| 0 <= i < ns.len() implies !(#[trigger] ns[i] is Define || ns[i] is Import
            || ns[i] is Export || ns[i] is Block) by {
            if i > 0 {
                assert(ns[i] == t[i - 1]);
            }
        }
    } else {
        assert(crate::evaluator::plain_nodes(ns, vars_of(s), functions_of(s), namespaces_of(s), depth) == Some(Seq::<char>::empty()));
    }
}

/// A top-level `@define` or `@block` of a body is recorded in `d`.
pub open spec fn recorded(d: CollectedDefs, node: Node) -> bool {
    match node {
        Node::Define(def) => d.functions.has(def.name@),
        Node::Block(b) => d.block_names.has(b.name@),
        _ => true,
    }
}

impl<F: FileSystem> ModuleCache<F> {
    /// Resolve the module at `key`: a cached module is returned as it is; a
    /// key being resolved is a circular import; beyond [`MAX_IMPORT_DEPTH`]
    /// nested modules the import is refused; otherwise the module is read,
    /// checked to be an MDS file, processed and cached.
    pub(crate) fn resolve_by_key(&mut self, key: &str, rv: &Vec<(String, TemplateValue)>) -> (r: Result<Arc<ResolvedModule>, MdsError>)
        requires
            old(self).inv(),
            distinct_names(rv@),
        ensures
            old(self).evolves(final(self)),
            value_of(old(self).cached(), key@) matches Some(m) ==> r == Ok::<Arc<ResolvedModule>, MdsError>(m)
                && final(self).cached() == old(self).cached(),
            (value_of(old(self).cached(), key@) is None && old(self).stack().contains(key@)) ==> (r matches Err(
                MdsError::CircularImport { cycle, span: None }) && cycle@ == cycle_text(old(self).stack(), key@)),
            (value_of(old(self).cached(), key@) is None && !old(self).stack().contains(key@)
                && old(self).stack().len() >= MAX_IMPORT_DEPTH) ==> (r matches Err(MdsError::ImportError { message, span: None })
                && message@ == "import depth exceeds maximum of 64 (possible deep chain)"@),
            r matches Ok(m) ==> m.wf() && value_of(final(self).cached(), key@) == Some(m),
            (value_of(old(self).cached(), key@) is None && !old(self).stack().contains(key@)
                && old(self).stack().len() < MAX_IMPORT_DEPTH && crate::paths::extension(key@) == Some("mds"@)
                && no_reserved_runtime(rv@, false) && old(self).file_system().known_text(key@) is Some
                && plain_source(old(self).file_system().known_text(key@)->Some_0)) ==> (r matches Ok(m)
                && plain_prompt(*m, old(self).file_system().known_text(key@)->Some_0)),
            (value_of(old(self).cached(), key@) is None && !old(self).stack().contains(key@)
                && old(self).stack().len() < MAX_IMPORT_DEPTH && crate::paths::extension(key@) == Some("mds"@)
                && no_reserved_runtime(rv@, false) && old(self).file_system().known_text(key@) is Some
                && old(self).file_system().known_markdown(key@) is Some
                && items_text(old(self).file_system().known_text(key@)->Some_0, texts_of(rv_vars(rv@)),
                    old(self).file_system().known_markdown(key@)->Some_0) is Some) ==> (r matches Ok(m)
                && prompt_is(m.prompt_body, items_text(old(self).file_system().known_text(key@)->Some_0, texts_of(rv_vars(rv@)),
                    old(self).file_system().known_markdown(key@)->Some_0)->Some_0)),
            (value_of(old(self).cached(), key@) is None && (old(self).stack().contains(key@)
                || old(self).stack().len() >= MAX_IMPORT_DEPTH)) ==> final(self).cached() == old(self).cached(),
            (value_of(old(self).cached(), key@) is None && r is Err) ==> value_of(final(self).cached(), key@) is None,
            (value_of(old(self).cached(), key@) is None && r is Ok) ==> final(self).cached().len() > 0
                && final(self).cached().last() == (key@, r->Ok_0),
            (value_of(old(self).cached(), key@) is None && r is Ok) ==> exists|md: bool|
                #[trigger] resolved_shape(*r->Ok_0, final(self).cached(), rv@, md),
        decreases old(self).room(), 1nat,
    {
        match crate::collections::module_map_get(&self.modules, key) {
            Some(c) => {
                proof {
                    lemma_cached_wf(self.cached(), key@);
                }
                return Ok(c);
            },
            None => {},
        }
        if crate::collections::key_set_contains(&self.resolving, key) {
            let cycle = build_cycle_string(&self.resolving, key);
            return Err(MdsError::circular_import(cycle.as_str()));
        }
        self.check_import_depth()?;
        let source = self.fs.read(key)?;
        let is_md = self.fs.is_markdown(key);
        crate::paths::validate_file_type(key, source.as_str())?;
        proof {
            lemma_value_of_keys(self.cached(), key@);
        }
        self.push_resolving(key);
        proof {
            assert(self.stack()[self.stack().len() - 1] == key@);
            assert(self.stack().contains(key@));
        }
        let ghost pushed = *self;
        let resolved = self.process_module(key, source.as_str(), key, is_md, rv);
        let resolved = self.pop_resolving(key, resolved);
        assert(old(self).stack().push(key@).drop_last() =~= old(self).stack());
        proof {
            assert(keys_of(self.cached()).contains(key@) == keys_of(pushed.cached()).contains(key@));
            lemma_value_of_keys(self.cached(), key@);
        }
        let m = resolved?;
        let ghost prev = self.cached();
        let ghost gm = m;
        let arc = self.store(key, m);
        proof {
            lemma_value_of_push(prev, key@, arc, key@);
            lemma_value_of_keys(prev, key@);
            lemma_shape_grows(gm, prev, self.cached(), rv@, is_md);
        }
        Ok(arc)
    }

    /// Resolve the module at `key` as the base of an extending template:
    /// like [`Self::resolve_by_key`], but the module is only collected, not
    /// validated or evaluated (its blocks are rendered in the leaf).
    fn resolve_by_key_skeleton(&mut self, key: &str, rv: &Vec<(String, TemplateValue)>) -> (r: Result<Arc<ResolvedModule>, MdsError>)
        requires
            old(self).inv(),
            distinct_names(rv@),
        ensures
            old(self).evolves(final(self)),
            value_of(old(self).cached(), key@) matches Some(m) ==> r == Ok::<Arc<ResolvedModule>, MdsError>(m)
                && final(self).cached() == old(self).cached(),
            (value_of(old(self).cached(), key@) is None && old(self).stack().contains(key@)) ==> (r matches Err(
                MdsError::CircularImport { cycle, span: None }) && cycle@ == cycle_text(old(self).stack(), key@)),
            (value_of(old(self).cached(), key@) is None && !old(self).stack().contains(key@)
                && old(self).stack().len() >= MAX_IMPORT_DEPTH) ==> (r matches Err(MdsError::ImportError { message, span: None })
                && message@ == "import depth exceeds maximum of 64 (possible deep chain)"@),
            r matches Ok(m) ==> m.wf() && value_of(final(self).cached(), key@) == Some(m),
        decreases old(self).room(), 1nat,
    {
        match crate::collections::module_map_get(&self.modules, key) {
            Some(c) => {
                proof {
                    lemma_cached_wf(self.cached(), key@);
                }
                return Ok(c);
            },
            None => {},
        }
        if crate::collections::key_set_contains(&self.resolving, key) {
            let cycle = build_cycle_string(&self.resolving, key);
            return Err(MdsError::circular_import(cycle.as_str()));
        }
        self.check_import_depth()?;
        let source = self.fs.read(key)?;
        let is_md = self.fs.is_markdown(key);
        crate::paths::validate_file_type(key, source.as_str())?;
        proof {
            lemma_value_of_keys(self.cached(), key@);
        }
        self.push_resolving(key);
        proof {
            assert(self.stack()[self.stack().len() - 1] == key@);
            assert(self.stack().contains(key@));
        }
        let resolved = self.process_module_skeleton(key, source.as_str(), key, is_md, rv);
        let resolved = self.pop_resolving(key, resolved);
        assert(old(self).stack().push(key@).drop_last() =~= old(self).stack());
        let m = resolved?;
        let ghost prev = self.cached();
        let arc = self.store(key, m);
        proof {
            lemma_value_of_push(prev, key@, arc, key@);
            lemma_value_of_keys(prev, key@);
        }
        Ok(arc)
    }

    /// Resolve `relative` as imported from the module at `base_key`: the
    /// path must be relative; the file system normalizes it to a key.
    fn resolve_import_from(&mut self, base_key: &str, relative: &str, rv: &Vec<(String, TemplateValue)>) -> (r: Result<Arc<ResolvedModule>, MdsError>)
        requires
            old(self).inv(),
            distinct_names(rv@),
        ensures
            old(self).evolves(final(self)),
            r matches Ok(m) ==> m.wf() && exists|k: Seq<char>| value_of(final(self).cached(), k) == Some(m),
            crate::paths::import_path_error(relative@) matches Some(msg) ==> (r matches Err(MdsError::ImportError { message, span: None })
                && message@ == msg),
            old(self).cached_import(base_key@, relative@) matches Some(m) ==> (r == Ok::<Arc<ResolvedModule>, MdsError>(m)
                && final(self).cached() == old(self).cached()),
        decreases old(self).room(), 2nat,
    {
        crate::paths::validate_import_path(relative)?;
        let key = self.fs.normalize(base_key, relative)?;
        self.resolve_by_key(key.as_str(), rv)
    }

    /// Resolve the base of an extending template (errors about the import
    /// underline the `@extends` directive).
    fn resolve_extends_base(
        &mut self,
        path: &str,
        offset: usize,
        source: &str,
        base_key: &str,
        rv: &Vec<(String, TemplateValue)>,
    ) -> (r: Result<Arc<ResolvedModule>, MdsError>)
        requires
            old(self).inv(),
            distinct_names(rv@),
        ensures
            old(self).evolves(final(self)),
            r matches Ok(m) ==> m.wf() && exists|k: Seq<char>| value_of(final(self).cached(), k) == Some(m),
            refuses_path(r, path@),
            (crate::paths::import_path_error(path@) is None && old(self).file_system().known_key(base_key@, path@) is Some
                && value_of(old(self).cached(), old(self).file_system().known_key(base_key@, path@)->Some_0) is Some)
                ==> r == Ok::<Arc<ResolvedModule>, MdsError>(
                value_of(old(self).cached(), old(self).file_system().known_key(base_key@, path@)->Some_0)->Some_0),
        decreases old(self).room(), 2nat,
    {
        match crate::paths::validate_import_path(path) {
            Ok(()) => {},
            Err(e) => {
                return Err(attach_import_span(e, path, source, offset));
            },
        }
        let key = match self.fs.normalize(base_key, path) {
            Ok(k) => k,
            Err(e) => {
                return Err(attach_import_span(e, path, source, offset));
            },
        };
        match self.resolve_by_key_skeleton(key.as_str(), rv) {
            Ok(m) => Ok(m),
            Err(e) => Err(attach_import_span(e, path, source, offset)),
        }
    }

    /// `@import "path" as alias`: the module's exports become visible under
    /// `alias`, which may not be taken.
    fn resolve_alias_import(
        &mut self,
        path: &str,
        alias: &str,
        offset: usize,
        scope: &mut Scope,
        source: &str,
        base_key: &str,
        rv: &Vec<(String, TemplateValue)>,
    ) -> (r: Result<(), MdsError>)
        requires
            old(self).inv(),
            old(scope).wf(),
            distinct_names(rv@),
        ensures
            old(self).evolves(final(self)),
            final(scope).wf(),
            old(scope).namespaces.has(alias@) ==> (r matches Err(MdsError::NameCollision { name, span: None }) && name@ == alias@),
            !old(scope).namespaces.has(alias@) ==> refuses_path(r, path@),
            (!old(scope).namespaces.has(alias@) && old(self).cached_import(base_key@, path@) is Some) ==> (r is Ok
                && (final(scope).namespaces.lookup(alias@) matches Some(ns)
                && namespace_of(ns, *old(self).cached_import(base_key@, path@)->Some_0))),
            r is Ok ==> final(scope).namespaces.has(alias@),
            r is Ok ==> exists|k: Seq<char>, m: Arc<ResolvedModule>| #![trigger value_of(final(self).cached(), k), m.functions]
                value_of(final(self).cached(), k) == Some(m)
                && (final(scope).namespaces.lookup(alias@) matches Some(ns) && namespace_of(ns, *m)),
            grows(*old(scope), *final(scope)),
            final(scope).vars == old(scope).vars,
            final(scope).functions == old(scope).functions,
        decreases old(self).room(), 3nat,
    {
        if scope.get_namespace(alias).is_some() {
            return Err(MdsError::name_collision(alias));
        }
        let resolved = match self.resolve_import_from(base_key, path, rv) {
            Ok(m) => m,
            Err(e) => {
                return Err(attach_import_span(e, path, source, offset));
            },
        };
        scope.set_namespace(alias, resolved.to_namespace());
        Ok(())
    }

    /// Bring all exported functions of `m` into `scope` (a name the scope
    /// already has is a collision), and its exported prompt as `prompt`;
    /// no other variable of `m` comes in.
    fn merge_exports(m: &ResolvedModule, scope: &mut Scope) -> (r: Result<(), MdsError>)
        requires
            old(scope).wf(),
        ensures
            final(scope).wf(),
            grows(*old(scope), *final(scope)),
            final(scope).namespaces == old(scope).namespaces,
            forall|q: Seq<char>| q != "prompt"@ ==> #[trigger] final(scope).vars.lookup(q) == old(scope).vars.lookup(q),
            r is Ok ==> forall|i: int| 0 <= i < m.exported_entries(m.functions.entries@).len()
                ==> #[trigger] final(scope).functions.has(m.exported_entries(m.functions.entries@)[i].0@),
            r matches Err(e) ==> e matches MdsError::NameCollision { span: None, .. },
            r is Ok ==> forall|i: int| 0 <= i < m.exported_entries(m.functions.entries@).len()
                ==> #[trigger] final(scope).functions.lookup(m.exported_entries(m.functions.entries@)[i].0@)
                == Some(m.exported_entries(m.functions.entries@)[i].1),
            r is Ok ==> match m.exported_prompt() {
                Some(p) => final(scope).vars.lookup("prompt"@) == Some(TemplateValue::String(p)),
                None => final(scope).vars == old(scope).vars,
            },
            (exists|i: int| 0 <= i < m.exported_entries(m.functions.entries@).len()
                && old(scope).functions.has(#[trigger] m.exported_entries(m.functions.entries@)[i].0@)) ==> r is Err,
            (m.functions.wf() && !(exists|i: int| 0 <= i < m.exported_entries(m.functions.entries@).len()
                && old(scope).functions.has(#[trigger] m.exported_entries(m.functions.entries@)[i].0@))) ==> r is Ok,
    {
        let exports = m.get_all_exports();
        proof {
            if m.functions.wf() {
                lemma_exported_distinct(m, m.functions.entries@);
            }
        }
        let mut i: usize = 0;
        while i < exports.len()
            invariant
                scope.wf(),
                grows(*old(scope), *scope),
                scope.namespaces == old(scope).namespaces,
                scope.vars == old(scope).vars,
                exports@ == m.exported_entries(m.functions.entries@),
                forall|j: int| 0 <= j < i ==> #[trigger] scope.functions.has(exports@[j].0@),
                forall|j: int| 0 <= j < i ==> #[trigger] scope.functions.lookup(exports@[j].0@) == Some(exports@[j].1),
                forall|j: int| 0 <= j < i ==> !old(scope).functions.has(#[trigger] exports@[j].0@),
                forall|q: Seq<char>| #[trigger] scope.functions.has(q) ==> (old(scope).functions.has(q)
                    || exists|j: int| 0 <= j < i && exports@[j].0@ == q),
                m.functions.wf() ==> forall|a: int, b: int| 0 <= a < b < exports@.len() ==> exports@[a].0@ != exports@[b].0@,
                i <= exports@.len(),
            decreases exports@.len() - i,
        {
            let (name, f) = &exports[i];
            proof {
                if m.functions.wf() && scope.functions.has(name@) && !old(scope).functions.has(name@) {
                    let j = choose|j: int| 0 <= j < i && exports@[j].0@ == name@;
                    assert(exports@[j].0@ != exports@[i as int].0@);
                }
            }
            if scope.get_function(name.as_str()).is_some() {
                return Err(MdsError::name_collision(name.as_str()));
            }
            let ghost before = *scope;
            scope.set_function(name.as_str(), share(f));
            proof {
                assert forall|j: int| 0 <= j < i + 1 implies #[trigger] scope.functions.lookup(exports@[j].0@) == Some(exports@[j].1) by {
                    if j < i {
                        assert(before.functions.has(exports@[j].0@));
                        assert(exports@[j].0@ != name@);
                    }
                }
            }
            i = i + 1;
        }
        proof {
            assert forall|k: int| 0 <= k < exports@.len() implies !old(scope).functions.has(#[trigger] exports@[k].0@) by {
            }
        }
        match m.get_prompt_value() {
            Some(v) => scope.set_var("prompt", v),
            None => {},
        }
        Ok(())
    }

    /// `@import "path"`: the module's exports merge into the scope.
    fn resolve_merge_import(
        &mut self,
        path: &str,
        offset: usize,
        scope: &mut Scope,
        source: &str,
        base_key: &str,
        rv: &Vec<(String, TemplateValue)>,
    ) -> (r: Result<(), MdsError>)
        requires
            old(self).inv(),
            old(scope).wf(),
            distinct_names(rv@),
        ensures
            old(self).evolves(final(self)),
            final(scope).wf(),
            refuses_path(r, path@),
            grows(*old(scope), *final(scope)),
            final(scope).namespaces == old(scope).namespaces,
            forall|q: Seq<char>| q != "prompt"@ ==> #[trigger] final(scope).vars.lookup(q) == old(scope).vars.lookup(q),
            r is Ok ==> exists|k: Seq<char>, m: Arc<ResolvedModule>| #![trigger value_of(final(self).cached(), k), merged_from(*final(scope), *m)]
                value_of(final(self).cached(), k) == Some(m) && merged_from(*final(scope), *m),
            (old(self).cached_import(base_key@, path@) matches Some(m) && !(exists|i: int| 0 <= i < m.exported_entries(m.functions.entries@).len()
                && old(scope).functions.has(#[trigger] m.exported_entries(m.functions.entries@)[i].0@)))
                ==> (r is Ok && merged_from(*final(scope), *old(self).cached_import(base_key@, path@)->Some_0)),
        decreases old(self).room(), 3nat,
    {
        let resolved = match self.resolve_import_from(base_key, path, rv) {
            Ok(m) => m,
            Err(e) => {
                return Err(attach_import_span(e, path, source, offset));
            },
        };
        let r = Self::merge_exports(&resolved, scope);
        assert(r is Ok ==> merged_from(*scope, *resolved));
        r
    }

    /// `@import { a, b } from "path"`: only the named exports (or the
    /// exported prompt, for `prompt`) come into the scope; a name the module
    /// does not export is refused.
    #[verifier::loop_isolation(false)]
    fn resolve_selective_import(
        &mut self,
        names: &Vec<String>,
        path: &str,
        offset: usize,
        scope: &mut Scope,
        source: &str,
        base_key: &str,
        rv: &Vec<(String, TemplateValue)>,
    ) -> (r: Result<(), MdsError>)
        requires
            old(self).inv(),
            old(scope).wf(),
            distinct_names(rv@),
        ensures
            old(self).evolves(final(self)),
            final(scope).wf(),
            r is Ok ==> forall|i: int| 0 <= i < names@.len() ==> bound_name(*final(scope), #[trigger] names@[i]@),
            r is Ok ==> exists|k: Seq<char>, m: Arc<ResolvedModule>| #![trigger value_of(final(self).cached(), k), m.functions]
                value_of(final(self).cached(), k) == Some(m)
                && forall|i: int| 0 <= i < names@.len() ==> #[trigger] selected(*final(scope), *m, names@[i]@),
            (old(self).cached_import(base_key@, path@) is Some && forall|i: int| 0 <= i < names@.len()
                ==> #[trigger] exports_name(*old(self).cached_import(base_key@, path@)->Some_0, names@[i]@))
                ==> (r is Ok && forall|i: int| 0 <= i < names@.len()
                ==> #[trigger] selected(*final(scope), *old(self).cached_import(base_key@, path@)->Some_0, names@[i]@)),
            refuses_path(r, path@),
            grows(*old(scope), *final(scope)),
            final(scope).namespaces == old(scope).namespaces,
            forall|q: Seq<char>| q != "prompt"@ ==> #[trigger] final(scope).vars.lookup(q) == old(scope).vars.lookup(q),
        decreases old(self).room(), 3nat,
    {
        let resolved = match self.resolve_import_from(base_key, path, rv) {
            Ok(m) => m,
            Err(e) => {
                return Err(attach_import_span(e, path, source, offset));
            },
        };
        let (o, len) = line_span_at(source, offset);
        let mut i: usize = 0;
        while i < names.len()
            invariant
                scope.wf(),
                i <= names@.len(),
                forall|j: int| 0 <= j < i ==> bound_name(*scope, #[trigger] names@[j]@),
                forall|j: int| 0 <= j < i ==> selected(*scope, *resolved, #[trigger] names@[j]@),
                grows(*old(scope), *scope),
                scope.namespaces == old(scope).namespaces,
                forall|q: Seq<char>| q != "prompt"@ ==> #[trigger] scope.vars.lookup(q) == old(scope).vars.lookup(q),
            decreases names@.len() - i,
        {
            let name = &names[i];
            proof {
                if old(self).cached_import(base_key@, path@) is Some && forall|x: int| 0 <= x < names@.len()
                    ==> #[trigger] exports_name(*old(self).cached_import(base_key@, path@)->Some_0, names@[x]@) {
                    assert(exports_name(*old(self).cached_import(base_key@, path@)->Some_0, names@[i as int]@));
                }
            }
            if same_str(name.as_str(), "prompt") {
                match resolved.get_prompt_value() {
                    Some(v) => scope.set_var("prompt", v),
                    None => {
                        return Err(not_exported_at(name.as_str(), path, source, o, len));
                    },
                }
            } else {
                match resolved.get_export(name.as_str()) {
                    Some(f) => scope.set_function(name.as_str(), f),
                    None => {
                        return Err(not_exported_at(name.as_str(), path, source, o, len));
                    },
                }
            }
            i = i + 1;
        }
        Ok(())
    }

    /// Resolve one `@import` directive of a module body.
    fn resolve_import(
        &mut self,
        import: &ImportDirective,
        scope: &mut Scope,
        source: &str,
        base_key: &str,
        rv: &Vec<(String, TemplateValue)>,
    ) -> (r: Result<(), MdsError>)
        requires
            old(self).inv(),
            old(scope).wf(),
            distinct_names(rv@),
        ensures
            old(self).evolves(final(self)),
            final(scope).wf(),
            grows(*old(scope), *final(scope)),
            match *import {
                ImportDirective::Alias { path, alias, .. } => {
                    &&& old(scope).namespaces.has(alias@) ==> (r matches Err(MdsError::NameCollision { name, span: None })
                        && name@ == alias@)
                    &&& !old(scope).namespaces.has(alias@) ==> refuses_path(r, path@)
                    &&& r is Ok ==> final(scope).namespaces.has(alias@)
                    &&& final(scope).vars == old(scope).vars
                    &&& final(scope).functions == old(scope).functions
                },
                ImportDirective::Merge { path, .. } => {
                    &&& refuses_path(r, path@)
                    &&& final(scope).namespaces == old(scope).namespaces
                    &&& forall|q: Seq<char>| q != "prompt"@ ==> #[trigger] final(scope).vars.lookup(q) == old(scope).vars.lookup(q)
                },
                ImportDirective::Selective { names, path, .. } => {
                    &&& refuses_path(r, path@)
                    &&& r is Ok ==> forall|i: int| 0 <= i < names@.len() ==> bound_name(*final(scope), #[trigger] names@[i]@)
                    &&& final(scope).namespaces == old(scope).namespaces
                    &&& forall|q: Seq<char>| q != "prompt"@ ==> #[trigger] final(scope).vars.lookup(q) == old(scope).vars.lookup(q)
                },
            },
        decreases old(self).room(), 4nat,
    {
        match import {
            ImportDirective::Alias { path, alias, offset } => self.resolve_alias_import(
                path.as_str(),
                alias.as_str(),
                *offset,
                scope,
                source,
                base_key,
                rv,
            ),
            ImportDirective::Merge { path, offset } => self.resolve_merge_import(path.as_str(), *offset, scope, source, base_key, rv),
            ImportDirective::Selective { names, path, offset } => self.resolve_selective_import(
                names,
                path.as_str(),
                *offset,
                scope,
                source,
                base_key,
                rv,
            ),
        }
    }

    /// Record one `@export` directive: a name of this module, one function
    /// re-exported from another module, or all exports of another module.
    /// Re-exported functions are visible to importers only, not in this
    /// module's scope.
    #[verifier::loop_isolation(false)]
    fn collect_export(
        &mut self,
        export: &ExportDirective,
        defs: &mut CollectedDefs,
        base_key: &str,
        rv: &Vec<(String, TemplateValue)>,
    ) -> (r: Result<(), MdsError>)
        requires
            old(self).inv(),
            old(defs).wf(),
            distinct_names(rv@),
        ensures
            old(self).evolves(final(self)),
            final(defs).wf(),
            final(defs).block_names == old(defs).block_names,
            r is Ok ==> final(defs).has_explicit_exports,
            r is Ok ==> defs_grow(*old(defs), *final(defs)),
            export matches ExportDirective::Named { name } ==> (r is Ok && final(defs).explicit_exports.has(name@)
                && final(defs).functions == old(defs).functions),
            export matches ExportDirective::ReExport { name, .. } ==> (r is Ok ==> final(defs).explicit_exports.has(name@)
                && final(defs).functions.has(name@)),
            export matches ExportDirective::ReExport { name, path } ==> (refuses_path(r, path@)
                && (r is Ok ==> exists|k: Seq<char>, m: Arc<ResolvedModule>|
                    #![trigger value_of(final(self).cached(), k), export_of(*m, name@)]
                    value_of(final(self).cached(), k) == Some(m) && export_of(*m, name@) is Some
                    && final(defs).functions.lookup(name@) == export_of(*m, name@))),
            export matches ExportDirective::ReExport { name, path } ==> (old(self).cached_import(base_key@, path@) matches Some(m)
                ==> if export_of(*m, name@) is Some {
                    r is Ok && final(defs).functions.lookup(name@) == export_of(*m, name@)
                } else {
                    r matches Err(MdsError::ExportError { message })
                        && message@ == "cannot re-export '"@ + name@ + "': not exported from \""@ + path@ + "\""@
                }),
            export matches ExportDirective::Wildcard { path } ==> (old(self).cached_import(base_key@, path@) matches Some(m)
                ==> ((exists|i: int| 0 <= i < m.exported_entries(m.functions.entries@).len()
                    && old(defs).functions.has(#[trigger] m.exported_entries(m.functions.entries@)[i].0@))
                    <==> r matches Err(MdsError::NameCollision { .. }))
                && (r is Err ==> r matches Err(MdsError::NameCollision { .. }))),
            export matches ExportDirective::Wildcard { path } ==> (refuses_path(r, path@)
                && (r is Ok ==> exists|k: Seq<char>, m: Arc<ResolvedModule>|
                    #![trigger value_of(final(self).cached(), k), m.exported_entries(m.functions.entries@)]
                    value_of(final(self).cached(), k) == Some(m)
                    && forall|i: int| 0 <= i < m.exported_entries(m.functions.entries@).len()
                    ==> #[trigger] final(defs).functions.lookup(m.exported_entries(m.functions.entries@)[i].0@)
                    == Some(m.exported_entries(m.functions.entries@)[i].1)
                    && final(defs).explicit_exports.has(m.exported_entries(m.functions.entries@)[i].0@))),
        decreases old(self).room(), 4nat,
    {
        defs.has_explicit_exports = true;
        match export {
            ExportDirective::Named { name } => {
                defs.explicit_exports.insert(name.clone(), ());
                Ok(())
            },
            ExportDirective::ReExport { name, path } => {
                let source_module = self.resolve_import_from(base_key, path.as_str(), rv)?;
                let func = match source_module.get_export(name.as_str()) {
                    Some(f) => f,
                    None => {
                        let head = cat3("cannot re-export '", name.as_str(), "': not exported from \"");
                        let m = cat3(head.as_str(), path.as_str(), "\"");
                        return Err(MdsError::export_error(m.as_str()));
                    },
                };
                let ghost fv = func;
                defs.functions.insert(name.clone(), func);
                defs.explicit_exports.insert(name.clone(), ());
                assert(defs.functions.lookup(name@) == Some(fv));
                assert(export_of(*source_module, name@) == Some(fv));
                Ok(())
            },
            ExportDirective::Wildcard { path } => {
                let source_module = self.resolve_import_from(base_key, path.as_str(), rv)?;
                let exports = source_module.get_all_exports();
                proof {
                    lemma_exported_distinct(&*source_module, source_module.functions.entries@);
                }
                let mut i: usize = 0;
                while i < exports.len()
                    invariant
                        defs.wf(),
                        defs.block_names == old(defs).block_names,
                        defs.has_explicit_exports,
                        defs_grow(*old(defs), *defs),
                        i <= exports@.len(),
                        exports@ == source_module.exported_entries(source_module.functions.entries@),
                        forall|j: int| 0 <= j < i ==> #[trigger] defs.functions.lookup(exports@[j].0@) == Some(exports@[j].1)
                            && defs.explicit_exports.has(exports@[j].0@),
                        forall|j: int| 0 <= j < i ==> !old(defs).functions.has(#[trigger] exports@[j].0@),
                        forall|q: Seq<char>| #[trigger] defs.functions.has(q) ==> (old(defs).functions.has(q)
                            || exists|j: int| 0 <= j < i && exports@[j].0@ == q),
                        forall|a: int, b: int| 0 <= a < b < exports@.len() ==> exports@[a].0@ != exports@[b].0@,
                    decreases exports@.len() - i,
                {
                    let (name, f) = &exports[i];
                    proof {
                        if defs.functions.has(name@) && !old(defs).functions.has(name@) {
                            let j = choose|j: int| 0 <= j < i && exports@[j].0@ == name@;
                            assert(exports@[j].0@ != exports@[i as int].0@);
                        }
                    }
                    if defs.functions.contains(name.as_str()) {
                        return Err(MdsError::name_collision(name.as_str()));
                    }
                    let ghost before = *defs;
                    defs.functions.insert(name.clone(), share(f));
                    defs.explicit_exports.insert(name.clone(), ());
                    proof {
                        assert forall|j: int| 0 <= j < i + 1 implies #[trigger] defs.functions.lookup(exports@[j].0@) == Some(exports@[j].1)
                            && defs.explicit_exports.has(exports@[j].0@) by {
                            if j < i {
                                assert(before.functions.lookup(exports@[j].0@) is Some);
                                assert(exports@[j].0@ != name@);
                            }
                        }
                    }
                    i = i + 1;
                }
                Ok(())
            },
        }
    }

    /// Resolve the frontmatter `imports`, in order, before the body's.
    /// Errors without a span say which entry they come from.
    #[verifier::loop_isolation(false)]
    fn resolve_frontmatter_imports(
        &mut self,
        imports: &Vec<FrontmatterImport>,
        scope: &mut Scope,
        base_key: &str,
        rv: &Vec<(String, TemplateValue)>,
    ) -> (r: Result<(), MdsError>)
        requires
            old(self).inv(),
            old(scope).wf(),
            distinct_names(rv@),
        ensures
            old(self).evolves(final(self)),
            final(scope).wf(),
            r is Ok ==> forall|i: int| 0 <= i < imports@.len() ==> fm_import_bound(*final(scope), #[trigger] imports@[i].decl()),
            (imports@.len() > 0 && imports@[0].decl() is Alias && old(scope).namespaces.has(imports@[0].decl()->Alias_1))
                ==> (r matches Err(MdsError::NameCollision { name, span: None }) && name@ == imports@[0].decl()->Alias_1),
            imports@.len() == 0 ==> (r is Ok && *final(scope) == *old(scope) && *final(self) == *old(self)),
            same_vars_but_prompt(*old(scope), *final(scope)),
            old(self).aliases_ready(imports@, base_key@, *old(scope)) ==> (r is Ok && forall|i: int| 0 <= i < imports@.len()
                ==> (final(scope).namespaces.lookup((#[trigger] imports@[i]).decl()->Alias_1) matches Some(ns)
                && namespace_of(ns, *old(self).cached_import(base_key@, imports@[i].decl()->Alias_0)->Some_0))),
        decreases old(self).room(), 4nat,
    {
        let mut i: usize = 0;
        while i < imports.len()
            invariant
                old(self).evolves(self),
                old(self).room() == self.room(),
                scope.wf(),
                distinct_names(rv@),
                i <= imports@.len(),
                forall|j: int| 0 <= j < i ==> fm_import_bound(*scope, #[trigger] imports@[j].decl()),
                imports@.len() == 0 ==> (*scope == *old(scope) && *self == *old(self)),
                same_vars_but_prompt(*old(scope), *scope),
                i == 0 ==> *scope == *old(scope),
                (imports@.len() > 0 && imports@[0].decl() is Alias && old(scope).namespaces.has(imports@[0].decl()->Alias_1)) ==> i == 0,
                old(self).aliases_ready(imports@, base_key@, *old(scope)) ==> {
                    &&& self.cached() == old(self).cached()
                    &&& forall|j: int| 0 <= j < i ==> (scope.namespaces.lookup((#[trigger] imports@[j]).decl()->Alias_1) matches Some(ns)
                        && namespace_of(ns, *old(self).cached_import(base_key@, imports@[j].decl()->Alias_0)->Some_0))
                    &&& forall|q: Seq<char>| #[trigger] scope.namespaces.has(q) ==> (old(scope).namespaces.has(q)
                        || exists|j: int| 0 <= j < i && imports@[j].decl()->Alias_1 == q)
                },
            decreases imports@.len() - i,
        {
            let ghost s0 = *scope;
            let ghost ready = old(self).aliases_ready(imports@, base_key@, *old(scope));
            proof {
                if ready {
                    assert(imports@[i as int].decl() is Alias);
                    assert(self.cached_import(base_key@, imports@[i as int].decl()->Alias_0)
                        == old(self).cached_import(base_key@, imports@[i as int].decl()->Alias_0));
                    if scope.namespaces.has(imports@[i as int].decl()->Alias_1) {
                        let j = choose|j: int| 0 <= j < i && imports@[j].decl()->Alias_1 == imports@[i as int].decl()->Alias_1;
                        assert(false);
                    }
                }
            }
            match &imports[i] {
                FrontmatterImport::Alias { path, alias } => {
                    if scope.get_namespace(alias.as_str()).is_some() {
                        return Err(MdsError::name_collision(alias.as_str()));
                    }
                    let resolved = match self.resolve_import_from(base_key, path.as_str(), rv) {
                        Ok(m) => m,
                        Err(e) => {
                            return Err(attach_frontmatter_index(e, i));
                        },
                    };
                    scope.set_namespace(alias.as_str(), resolved.to_namespace());
                },
                FrontmatterImport::Merge { path } => {
                    let resolved = match self.resolve_import_from(base_key, path.as_str(), rv) {
                        Ok(m) => m,
                        Err(e) => {
                            return Err(attach_frontmatter_index(e, i));
                        },
                    };
                    Self::merge_exports(&resolved, scope)?;
                },
                FrontmatterImport::Selective { path, names } => {
                    let resolved = match self.resolve_import_from(base_key, path.as_str(), rv) {
                        Ok(m) => m,
                        Err(e) => {
                            return Err(attach_frontmatter_index(e, i));
                        },
                    };
                    let mut j: usize = 0;
                    while j < names.len()
                        invariant
                            scope.wf(),
                            j <= names@.len(),
                            forall|k: int| 0 <= k < j ==> bound_name(*scope, #[trigger] names@[k]@),
                            grows(s0, *scope),
                            same_vars_but_prompt(*old(scope), *scope),
                        decreases names@.len() - j,
                    {
                        let name = &names[j];
                        if same_str(name.as_str(), "prompt") {
                            match resolved.get_prompt_value() {
                                Some(v) => scope.set_var("prompt", v),
                                None => {
                                    return Err(not_exported_fm(name.as_str(), path.as_str(), i));
                                },
                            }
                        } else {
                            match resolved.get_export(name.as_str()) {
                                Some(f) => scope.set_function(name.as_str(), f),
                                None => {
                                    return Err(not_exported_fm(name.as_str(), path.as_str(), i));
                                },
                            }
                        }
                        j = j + 1;
                    }
                    proof {
                        let ns = names@.map_values(|n: String| n@);
                        assert(imports@[i as int].decl() == ImportDecl::Selective(path@, ns));
                        assert forall|k: int| 0 <= k < ns.len() implies bound_name(*scope, #[trigger] ns[k]) by {
                            assert(ns[k] == names@[k]@);
                            assert(bound_name(*scope, names@[k]@));
                        }
                    }
                },
            }
            proof {
                assert(grows(s0, *scope));
                assert forall|j: int| 0 <= j < i implies fm_import_bound(*scope, #[trigger] imports@[j].decl()) by {
                    lemma_bound_grows(s0, *scope, imports@[j].decl());
                }
            }
            i = i + 1;
        }
        Ok(())
    }

    /// Walk a module body: collect `@define` functions (each capturing the
    /// scope at its definition), resolve `@import`s, record `@export`s and
    /// `@block` declarations, in document order.
    fn collect_definitions_and_imports(
        &mut self,
        body: &Vec<Node>,
        scope: &mut Scope,
        source: &str,
        base_key: &str,
        rv: &Vec<(String, TemplateValue)>,
    ) -> (r: Result<CollectedDefs, MdsError>)
        requires
            old(self).inv(),
            old(scope).wf(),
            distinct_names(rv@),
        ensures
            old(self).evolves(final(self)),
            final(scope).wf(),
            r matches Ok(d) ==> d.wf(),
            r matches Ok(d) ==> forall|i: int| 0 <= i < body@.len() ==> recorded(d, #[trigger] body@[i]),
            no_definitions(body@) ==> (r matches Ok(d) && d.functions.entries@.len() == 0 && !d.has_explicit_exports
                && d.explicit_exports.entries@.len() == 0 && d.block_names.entries@.len() == 0
                && *final(scope) == *old(scope) && *final(self) == *old(self)),
            r is Ok ==> same_vars_but_prompt(*old(scope), *final(scope)),
            r is Ok ==> grows(*old(scope), *final(scope)),
            child_only(body@) ==> (r matches Ok(d) ==> d.functions.entries@.len() == 0 && !d.has_explicit_exports
                && d.explicit_exports.entries@.len() == 0 && *final(scope) == *old(scope) && *final(self) == *old(self)),
            (child_only(body@) && blocks_ok(body@)) ==> r is Ok,
            only_sections(body@) ==> (r matches Ok(d) ==> d.functions.entries@.len() == 0 && !d.has_explicit_exports
                && d.explicit_exports.entries@.len() == 0 && *final(scope) == *old(scope) && *final(self) == *old(self)),
            (only_sections(body@) && blocks_ok(body@)) ==> r is Ok,
        decreases old(self).room(), 5nat,
    {
        proof {
            lemma_child_only_sections(body@);
        }
        let mut defs = CollectedDefs::new();
        let mut count: usize = 0;
        let mut i: usize = 0;
        while i < body.len()
            invariant
                old(self).evolves(self),
                old(self).room() == self.room(),
                scope.wf(),
                defs.wf(),
                distinct_names(rv@),
                i <= body@.len(),
                count <= i,
                forall|j: int| 0 <= j < i ==> recorded(defs, #[trigger] body@[j]),
                no_definitions(body@) ==> (defs.functions.entries@.len() == 0 && !defs.has_explicit_exports
                    && defs.explicit_exports.entries@.len() == 0 && defs.block_names.entries@.len() == 0
                    && *scope == *old(scope) && *self == *old(self)),
                same_vars_but_prompt(*old(scope), *scope),
                grows(*old(scope), *scope),
                only_sections(body@) ==> (defs.functions.entries@.len() == 0 && !defs.has_explicit_exports
                    && defs.explicit_exports.entries@.len() == 0 && *scope == *old(scope) && *self == *old(self)),
                count == block_count(body@.subrange(0, i as int)),
                only_sections(body@) ==> forall|q: Seq<char>| #[trigger] defs.block_names.has(q) ==> exists|j: int| 0 <= j < i
                    && body@[j] is Block && body@[j]->Block_0.name@ == q,
            decreases body@.len() - i,
        {
            proof {
                assert(body@.subrange(0, i + 1).drop_last() =~= body@.subrange(0, i as int));
                if only_sections(body@) && blocks_ok(body@) {
                    lemma_block_count_prefix(body@, i + 1);
                    if body@[i as int] is Block && defs.block_names.has(body@[i as int]->Block_0.name@) {
                        let j = choose|j: int| 0 <= j < i && body@[j] is Block && body@[j]->Block_0.name@ == body@[i as int]->Block_0.name@;
                        assert(body@[j] is Block && body@[i as int] is Block);
                    }
                }
            }
            let ghost d0 = defs;
            match &body[i] {
                Node::Define(def) => collect_define(def, &mut defs, scope, source)?,
                Node::Import(imp) => self.resolve_import(imp, scope, source, base_key, rv)?,
                Node::Export(exp) => self.collect_export(exp, &mut defs, base_key, rv)?,
                Node::Block(b) => {
                    count = count + 1;
                    collect_block(b, &mut defs, count, source)?;
                },
                _ => {},
            }
            proof {
                assert(defs_grow(d0, defs));
                assert forall|j: int| 0 <= j < i + 1 implies recorded(defs, #[trigger] body@[j]) by {
                    if j < i {
                        assert(recorded(d0, body@[j]));
                    }
                }
            }
            i = i + 1;
        }
        Ok(defs)
    }

    /// Process a module that is not an extending template: build its scope,
    /// resolve its imports and definitions, validate and evaluate its body.
    fn process_module(
        &mut self,
        file: &str,
        source: &str,
        base_key: &str,
        is_md: bool,
        rv: &Vec<(String, TemplateValue)>,
    ) -> (r: Result<ResolvedModule, MdsError>)
        requires
            old(self).inv(),
            distinct_names(rv@),
        ensures
            old(self).evolves(final(self)),
            r matches Ok(m) ==> m.wf() && (m.prompt_body matches Some(p) ==> trim(p@).len() > 0),
            plain_source(source@) && no_reserved_runtime(rv@, is_md) ==> (r matches Ok(m) && m.functions.entries@.len() == 0
                && m.extends_path is None && (if trim(source@).len() == 0 {
                    m.prompt_body is None
                } else {
                    m.prompt_body matches Some(p) && p@ == source@
                })),
            r matches Ok(m) ==> resolved_shape(m, final(self).cached(), rv@, is_md),
            (line_template(source@, texts_of(rv_vars(rv@))) is Some && no_reserved_runtime(rv@, is_md)) ==> (r matches Ok(m)
                && m.extends_path is None && nodes_are(m.effective_skeleton@, lines_from(source@, 0)->Some_0)
                && prompt_is(m.prompt_body, line_template(source@, texts_of(rv_vars(rv@)))->Some_0)),
            (module_text(source@, texts_of(rv_vars(rv@)), is_md) is Some && no_reserved_runtime(rv@, false)) ==> (r matches Ok(m)
                && m.extends_path is None && prompt_is(m.prompt_body, module_text(source@, texts_of(rv_vars(rv@)), is_md)->Some_0)),
            (items_text(source@, texts_of(rv_vars(rv@)), is_md) is Some && no_reserved_runtime(rv@, false)) ==> (r matches Ok(m)
                && m.extends_path is None && prompt_is(m.prompt_body, items_text(source@, texts_of(rv_vars(rv@)), is_md)->Some_0)),
        decreases old(self).room(), 8nat,
    {
        let module = crate::parser::parse_module(source, file)?;
        let raw_frontmatter = match &module.frontmatter {
            Some(f) => Some(f.raw.clone()),
            None => None,
        };
        let frontmatter_values = parse_frontmatter_mapping(&module.frontmatter)?;
        match &module.extends {
            Some(ext) => {
                return self.process_module_extends(
                    &module,
                    ext.path.as_str(),
                    ext.offset,
                    file,
                    source,
                    base_key,
                    is_md,
                    raw_frontmatter,
                    frontmatter_values,
                    rv,
                );
            },
            None => {},
        }
        let (mut scope, fm_imports) = build_scope_from_frontmatter(&module.frontmatter, is_md, rv)?;
        proof {
            if plain_source(source@) && no_reserved_runtime(rv@, is_md) {
                lemma_text_body(module.body@, scope, vars_of(scope), functions_of(scope), namespaces_of(scope),
                    MAX_CALL_DEPTH as nat);
            }
            if line_template(source@, texts_of(rv_vars(rv@))) is Some && no_reserved_runtime(rv@, is_md) {
                assert(vars_of(scope) =~= rv_vars(rv@));
                lemma_lines_body(module.body@, lines_from(source@, 0)->Some_0, scope, MAX_CALL_DEPTH as nat);
            }
            if module_text(source@, texts_of(rv_vars(rv@)), is_md) is Some && no_reserved_runtime(rv@, false) {
                match front_of(source@) {
                    Some((None, _)) => {
                        assert(vars_of(scope) =~= rv_vars(rv@));
                        lemma_lines_body(module.body@, lines_from(source@, 0)->Some_0, scope, MAX_CALL_DEPTH as nat);
                    },
                    Some((Some(raw), b)) => {
                        lemma_lines_body(module.body@, lines_from(source@, b)->Some_0, scope, MAX_CALL_DEPTH as nat);
                    },
                    None => {},
                }
            }
            if items_text(source@, texts_of(rv_vars(rv@)), is_md) is Some && no_reserved_runtime(rv@, false) {
                let (fs, texts) = module_items(source@, texts_of(rv_vars(rv@)), is_md)->Some_0;
                match front_of(source@) {
                    Some((None, _)) => {
                        assert(vars_of(scope) =~= rv_vars(rv@));
                    },
                    _ => {},
                }
                assert(texts_of(vars_of(scope)) == texts);
                lemma_items_body(module.body@, fs, scope, MAX_CALL_DEPTH as nat);
                lemma_forms_blocks(module.body@, fs);
            }
        }
        self.resolve_frontmatter_imports(&fm_imports, &mut scope, base_key, rv)?;
        let defs = self.collect_definitions_and_imports(&module.body, &mut scope, source, base_key, rv)?;
        validate_exports(&defs.explicit_exports, &defs.functions)?;
        crate::validator::validate(module.body.as_slice(), &scope)?;
        let prompt = crate::evaluator::evaluate(module.body.as_slice(), &scope)?;
        let prompt_body = non_blank(prompt);
        assert(keeps_runtime(scope, rv@));
        assert(keeps_frontmatter(scope, raw_frontmatter, is_md, rv@));
        assert(renders_in(prompt_body, module.body@, scope));
        let effective_blocks = seed_blocks(&module.body);
        proof {
            lemma_own_blocks_unique(module.body@);
        }
        let ghost body = module.body@;
        let m = ResolvedModule {
            functions: defs.functions,
            prompt_body,
            raw_frontmatter,
            has_explicit_exports: defs.has_explicit_exports,
            explicit_exports: defs.explicit_exports,
            effective_skeleton: Arc::new(module.body),
            effective_blocks,
            frontmatter_values,
            extends_path: None,
        };
        assert(m.effective_skeleton@ == body);
        assert(renders_in(m.prompt_body, m.effective_skeleton@, scope));
        Ok(m)
    }

    /// Process an extending template: resolve its base as a skeleton, then
    /// build the module from it (see [`Self::extend_base`]).
    fn process_module_extends(
        &mut self,
        module: &crate::ast::Module,
        ext_path: &str,
        ext_offset: usize,
        file: &str,
        source: &str,
        base_key: &str,
        is_md: bool,
        raw_frontmatter: Option<String>,
        frontmatter_values: Option<Vec<(Yaml, Yaml)>>,
        rv: &Vec<(String, TemplateValue)>,
    ) -> (r: Result<ResolvedModule, MdsError>)
        requires
            old(self).inv(),
            distinct_names(rv@),
            raw_of(module.frontmatter, raw_frontmatter),
        ensures
            old(self).evolves(final(self)),
            r matches Ok(m) ==> m.wf() && (m.prompt_body matches Some(p) ==> trim(p@).len() > 0)
                && (m.extends_path matches Some(p) && p@ == ext_path@),
            refuses_path(r, ext_path@),
            !child_only(module.body@) ==> r is Err,
            (crate::paths::import_path_error(ext_path@) is None && old(self).file_system().known_key(base_key@, ext_path@) is Some
                && value_of(old(self).cached(), old(self).file_system().known_key(base_key@, ext_path@)->Some_0) is Some
                && extends_ready(*module, *value_of(old(self).cached(),
                    old(self).file_system().known_key(base_key@, ext_path@)->Some_0)->Some_0, rv@, is_md))
                ==> (r matches Ok(m) && extends_prompt(m, *value_of(old(self).cached(),
                    old(self).file_system().known_key(base_key@, ext_path@)->Some_0)->Some_0, rv@)),
            r matches Ok(m) ==> exists|k: Seq<char>, b: Arc<ResolvedModule>|
                #![trigger value_of(final(self).cached(), k), extended(m, *b, module.body@, rv@, is_md)]
                value_of(final(self).cached(), k) == Some(b) && extended(m, *b, module.body@, rv@, is_md),
        decreases old(self).room(), 7nat,
    {
        let base = self.resolve_extends_base(ext_path, ext_offset, source, base_key, rv)?;
        let ghost mid = *self;
        let r = self.extend_base(module, &base, ext_path, file, source, base_key, is_md, raw_frontmatter, frontmatter_values, rv);
        proof {
            if r is Ok {
                let k = choose|k: Seq<char>| value_of(mid.cached(), k) == Some(base);
                lemma_value_of_prefix(mid.cached(), self.cached(), k);
            }
        }
        r
    }

    /// Build an extending template from its resolved base: check that it
    /// holds only block overrides of blocks its root declared, build the
    /// merged scope, splice the base's skeleton with the overridden blocks,
    /// then validate and evaluate the spliced body (so a base default is
    /// checked against the leaf's scope).
    #[verifier::rlimit(40)]
    fn extend_base(
        &mut self,
        module: &crate::ast::Module,
        base: &ResolvedModule,
        ext_path: &str,
        file: &str,
        source: &str,
        base_key: &str,
        is_md: bool,
        raw_frontmatter: Option<String>,
        frontmatter_values: Option<Vec<(Yaml, Yaml)>>,
        rv: &Vec<(String, TemplateValue)>,
    ) -> (r: Result<ResolvedModule, MdsError>)
        requires
            old(self).inv(),
            distinct_names(rv@),
            base.wf(),
            raw_of(module.frontmatter, raw_frontmatter),
        ensures
            old(self).evolves(final(self)),
            r matches Ok(m) ==> m.wf() && (m.prompt_body matches Some(p) ==> trim(p@).len() > 0)
                && (m.extends_path matches Some(p) && p@ == ext_path@),
            !child_only(module.body@) ==> exists|i: int| 0 <= i < module.body@.len()
                && (forall|j: int| 0 <= j < i ==> allowed_in_child(#[trigger] module.body@[j]))
                && !allowed_in_child(module.body@[i])
                && ({
                    let (o, len) = line_span(source@, offset_of(module.body@[i]) as int);
                    r matches Err(MdsError::Extends { message, span: Some(sp) })
                        && message@ == "an extending template may contain only @block overrides"@
                        && sp == crate::error::span_in(source@, o as usize, len as usize)
                }),
            (child_only(module.body@) && overridden(block_entries(base.effective_blocks), module.body@) is None)
                ==> (r matches Err(MdsError::Extends { message, span: Some(_) })
                && message@ == "only the root template may declare @block placeholders"@),
            r matches Ok(m) ==> forall|q: Seq<char>| #[trigger] m.functions.lookup(q) == base.functions.lookup(q),
            r matches Ok(m) ==> extended(m, *base, module.body@, rv@, is_md) && m.raw_frontmatter == raw_frontmatter
                && m.frontmatter_values == frontmatter_values,
            extends_ready(*module, *base, rv@, is_md) ==> (r matches Ok(m) && extends_prompt(m, *base, rv@)),
        decreases old(self).room(), 6nat,
    {
        check_child_only_blocks(&module.body, file, source)?;
        let effective_blocks = override_blocks(&base.effective_blocks, &module.body, file, source)?;
        let effective_skeleton = share(&base.effective_skeleton);
        let (mut scope, fm_imports) = build_scope_from_frontmatter(&module.frontmatter, is_md, rv)?;
        let ghost s_build = scope;
        self.resolve_frontmatter_imports(&fm_imports, &mut scope, base_key, rv)?;
        let ghost s_fm = scope;
        merge_base_vars(&base.frontmatter_values, &mut scope);
        let ghost s_merged = scope;
        merge_base_functions(&base.functions, &mut scope)?;
        let ghost s_funcs = scope;
        let defs = self.collect_definitions_and_imports(&module.body, &mut scope, source, base_key, rv)?;
        proof {
            assert forall|q: Seq<char>, t: int| q != "prompt"@ && rv_vars(rv@)(q) is None && !reserved_key(q)
                && !raw_binds(raw_frontmatter, q, is_md) && base.frontmatter_values is Some
                && #[trigger] first_convertible(base.frontmatter_values->Some_0@, q, t)
                implies (scope.vars.lookup(q) matches Some(x) && converts(base.frontmatter_values->Some_0@[t].1, x)) by {
                assert(!fm_binds(module.frontmatter, q, is_md));
                assert(!s_build.vars.has(q));
                assert(s_fm.vars.lookup(q) == s_build.vars.lookup(q));
                assert(!s_fm.vars.has(q));
                assert(s_merged.vars.lookup(q) matches Some(x) && converts(base.frontmatter_values->Some_0@[t].1, x));
                assert(scope.vars.lookup(q) == s_funcs.vars.lookup(q));
            }
            assert(base_vars_merged(scope, *base, raw_frontmatter, is_md, rv@));
        }
        let functions = merged_functions(&base.functions, &defs.functions);
        validate_exports(&defs.explicit_exports, &functions)?;
        let final_body = splice_skeleton(&effective_skeleton, &effective_blocks);
        proof {
            if module.frontmatter is None && child_only(module.body@) && blocks_ok(module.body@)
                && no_reserved_runtime(rv@, is_md) {
                assert forall|q: Seq<char>| rv_vars(rv@)(q) is Some implies #[trigger] scope.vars.lookup(q) == rv_vars(rv@)(q) by {
                    assert(s_fm.vars.lookup(q) == rv_vars(rv@)(q));
                }
                assert(scope.wf());
                assert(scope.namespaces.entries@.len() == 0);
                assert(forall|q: Seq<char>| #[trigger] scope.functions.lookup(q) == base.functions.lookup(q));
                assert forall|q: Seq<char>, t: int| rv_vars(rv@)(q) is None && !reserved_key(q) && base.frontmatter_values is Some
                    && #[trigger] first_convertible(base.frontmatter_values->Some_0@, q, t)
                    implies (scope.vars.lookup(q) matches Some(x) && converts(base.frontmatter_values->Some_0@[t].1, x)) by {
                    assert(s_fm.vars.lookup(q) is None);
                    assert(!s_fm.vars.has(q));
                }
                assert forall|q: Seq<char>| #[trigger] scope.vars.has(q) implies (rv_vars(rv@)(q) is Some || (base.frontmatter_values is Some
                    && !reserved_key(q) && exists|t: int| first_convertible(base.frontmatter_values->Some_0@, q, t))) by {
                    if !s_fm.vars.has(q) {
                    } else {
                        assert(s_fm.vars.lookup(q) is Some);
                    }
                }
                assert(leaf_scope(scope, *base, rv@));
            }
        }
        crate::validator::validate(final_body.as_slice(), &scope)?;
        let prompt = crate::evaluator::evaluate(final_body.as_slice(), &scope)?;
        let prompt_body = non_blank(prompt);
        assert(keeps_runtime(scope, rv@));
        assert(keeps_frontmatter(scope, raw_frontmatter, is_md, rv@));
        assert(renders_in(prompt_body, final_body@, scope));
        let m = ResolvedModule {
            functions,
            prompt_body,
            raw_frontmatter,
            has_explicit_exports: defs.has_explicit_exports,
            explicit_exports: defs.explicit_exports,
            effective_skeleton,
            effective_blocks,
            frontmatter_values,
            extends_path: Some(ext_path.to_owned()),
        };
        assert(forall|i: int| 0 <= i < base.functions.entries@.len() ==> #[trigger] scope.functions.has(base.functions.entries@[i].0@));
        assert(renders_in(m.prompt_body, spliced(m.effective_skeleton@, block_entries(m.effective_blocks)), scope));
        Ok(m)
    }

    /// Process a module as the base of an extending template: collect its
    /// functions, blocks and frontmatter without validating or evaluating
    /// it. A base that itself extends another takes its root's skeleton and
    /// applies its overrides to its own base's blocks.
    fn process_module_skeleton(
        &mut self,
        file: &str,
        source: &str,
        base_key: &str,
        is_md: bool,
        rv: &Vec<(String, TemplateValue)>,
    ) -> (r: Result<ResolvedModule, MdsError>)
        requires
            old(self).inv(),
            distinct_names(rv@),
        ensures
            old(self).evolves(final(self)),
            r matches Ok(m) ==> m.wf() && m.prompt_body is None,
            plain_source(source@) && no_reserved_runtime(rv@, is_md) ==> (r matches Ok(m) && m.functions.entries@.len() == 0
                && m.extends_path is None && text_of_nodes(m.effective_skeleton@) == Some(source@)),
            r matches Ok(m) ==> (m.extends_path is None ==> block_entries(m.effective_blocks) == own_blocks(m.effective_skeleton@)),
            r matches Ok(m) ==> (m.extends_path is Some ==> exists|k: Seq<char>, g: Arc<ResolvedModule>, body: Seq<Node>|
                #![trigger value_of(final(self).cached(), k), overridden(block_entries(g.effective_blocks), body)]
                value_of(final(self).cached(), k) == Some(g) && m.effective_skeleton == g.effective_skeleton
                && child_only(body) && overridden(block_entries(g.effective_blocks), body) == Some(block_entries(m.effective_blocks))),
        decreases old(self).room(), 8nat,
    {
        let module = crate::parser::parse_module(source, file)?;
        let raw_frontmatter = match &module.frontmatter {
            Some(f) => Some(f.raw.clone()),
            None => None,
        };
        let frontmatter_values = parse_frontmatter_mapping(&module.frontmatter)?;
        let (mut scope, fm_imports) = build_scope_from_frontmatter(&module.frontmatter, is_md, rv)?;
        proof {
            if plain_source(source@) && no_reserved_runtime(rv@, is_md) {
                lemma_text_body(module.body@, scope, vars_of(scope), functions_of(scope), namespaces_of(scope),
                    MAX_CALL_DEPTH as nat);
            }
        }
        self.resolve_frontmatter_imports(&fm_imports, &mut scope, base_key, rv)?;
        let defs = self.collect_definitions_and_imports(&module.body, &mut scope, source, base_key, rv)?;
        let (effective_skeleton, effective_blocks, extends_path) = match module.extends {
            Some(ext) => {
                let grandparent = self.resolve_extends_base(ext.path.as_str(), ext.offset, source, base_key, rv)?;
                check_child_only_blocks(&module.body, file, source)?;
                let blocks = override_blocks(&grandparent.effective_blocks, &module.body, file, source)?;
                assert(exists|k: Seq<char>| value_of(self.cached(), k) == Some(grandparent));
                assert(child_only(module.body@));
                (share(&grandparent.effective_skeleton), blocks, Some(ext.path))
            },
            None => {
                let blocks = seed_blocks(&module.body);
                proof {
                    lemma_own_blocks_unique(module.body@);
                }
                (Arc::new(module.body), blocks, None)
            },
        };
        Ok(ResolvedModule {
            functions: defs.functions,
            prompt_body: None,
            raw_frontmatter,
            has_explicit_exports: defs.has_explicit_exports,
            explicit_exports: defs.explicit_exports,
            effective_skeleton,
            effective_blocks,
            frontmatter_values,
            extends_path,
        })
    }
}

/// A cached module is well formed.
proof fn lemma_cached_wf(es: Seq<(Seq<char>, Arc<ResolvedModule>)>, k: Seq<char>)
    requires
        forall|i: int| 0 <= i < es.len() ==> (#[trigger] es[i]).1.wf(),
    ensures
        value_of(es, k) matches Some(m) ==> m.wf(),
    decreases es.len(),
{
    if es.len() > 0 {
        assert(es[0].1.wf());
        assert forall|i: int| 0 <= i < es.drop_first().len() implies (#[trigger] es.drop_first()[i]).1.wf() by {
            assert(es.drop_first()[i] == es[i + 1]);
        }
        lemma_cached_wf(es.drop_first(), k);
    }
}

/// The error for a selective import of a name the module does not export.
fn not_exported_at(name: &str, path: &str, source: &str, offset: usize, len: usize) -> (e: MdsError)
    ensures
        e matches MdsError::ImportError { message, span: Some(_) }
            && message@ == "'"@ + name@ + "' is not exported from '"@ + path@ + "'"@,
{
    let head = cat3("'", name, "' is not exported from '");
    let m = cat3(head.as_str(), path, "'");
    MdsError::import_error_at(m.as_str(), source, offset, len)
}

/// The error for a frontmatter selective import of a name the module does
/// not export.
fn not_exported_fm(name: &str, path: &str, i: usize) -> (e: MdsError)
    ensures
        e matches MdsError::ImportError { message, span: None }
            && message@ == "'"@ + name@ + "' is not exported from '"@ + path@ + "'"@ + fm_suffix(i as nat),
{
    let head = cat3("'", name, "' is not exported from '");
    let idx = decimal_string(i);
    let suffix = cat3(" (in frontmatter imports[", idx.as_str(), "])");
    let m = cat3(head.as_str(), path, "'");
    let m = cat2(m.as_str(), suffix.as_str());
    MdsError::import_error(m.as_str())
}


impl ModuleCache<VirtualFs> {
    /// A cache over an in-memory file system holding `modules` (key to
    /// source), with nothing resolved.
    pub fn virtual_fs(modules: HashMap<String, String>) -> (c: ModuleCache<VirtualFs>)
        ensures
            c.wf(),
            c.cached().len() == 0,
            forall|k: String| modules@.contains_key(k) ==> c.file_system().files.lookup(k@) == Some(modules@[k]),
            forall|q: Seq<char>| c.file_system().files.has(q) ==> exists|k: String| modules@.contains_key(k) && k@ == q,
    {
        let entries = text_entries(&modules);
        let mut files: Table<String> = Table::new();
        let mut i: usize = 0;
        while i < entries.len()
            invariant
                files.wf(),
                i <= entries@.len(),
                forall|a: int, b: int| 0 <= a < b < entries@.len() ==> entries@[a].0@ != entries@[b].0@,
                forall|j: int| 0 <= j < entries@.len() ==> modules@.contains_key(#[trigger] entries@[j].0) && modules@[entries@[j].0] == entries@[j].1,
                forall|j: int| 0 <= j < i ==> files.lookup(#[trigger] entries@[j].0@) == Some(entries@[j].1),
                forall|q: Seq<char>| files.has(q) ==> exists|j: int| 0 <= j < i && #[trigger] entries@[j].0@ == q,
            decreases entries@.len() - i,
        {
            let (k, v) = &entries[i];
            files.insert(k.clone(), v.clone());
            proof {
                assert forall|j: int| 0 <= j < i + 1 implies files.lookup(#[trigger] entries@[j].0@) == Some(entries@[j].1) by {
                    if j < i {
                        assert(entries@[j].0@ != entries@[i as int].0@);
                    }
                }
                assert forall|q: Seq<char>| files.has(q) implies exists|j: int| 0 <= j < i + 1 && #[trigger] entries@[j].0@ == q by {
                    if q == entries@[i as int].0@ {
                        assert(entries@[i as int].0@ == q);
                    }
                }
            }
            i = i + 1;
        }
        proof {
            assert forall|k: String| modules@.contains_key(k) implies files.lookup(k@) == Some(modules@[k]) by {
                let j = choose|j: int| 0 <= j < entries@.len() && #[trigger] entries@[j].0 == k;
                assert(files.lookup(entries@[j].0@) == Some(entries@[j].1));
            }
            assert forall|q: Seq<char>| files.has(q) implies exists|k: String| modules@.contains_key(k) && k@ == q by {
                let j = choose|j: int| 0 <= j < entries@.len() && #[trigger] entries@[j].0@ == q;
                assert(modules@.contains_key(entries@[j].0));
            }
        }
        ModuleCache::with_fs(VirtualFs::new(files))
    }
}

/// `rv` holds one entry for each key of `m`, with the map's value.
pub open spec fn entries_of(rv: Seq<(String, TemplateValue)>, m: Map<String, TemplateValue>) -> bool {
    &&& forall|i: int| 0 <= i < rv.len() ==> m.contains_key(#[trigger] rv[i].0) && m[rv[i].0] == rv[i].1
    &&& forall|k: String| m.contains_key(k) ==> exists|i: int| 0 <= i < rv.len() && #[trigger] rv[i].0 == k
    &&& distinct_names(rv)
}

/// No key of the runtime variables is `imports`.
pub open spec fn no_imports_key(m: Map<String, TemplateValue>) -> bool {
    forall|k: String| m.contains_key(k) ==> k@ != "imports"@
}

/// The prompt a plain-text source renders to: none when it is blank, else
/// the source itself.
pub open spec fn plain_prompt(m: ResolvedModule, source: Seq<char>) -> bool {
    if trim(source).len() == 0 {
        m.prompt_body is None
    } else {
        m.prompt_body matches Some(p) && p@ == source
    }
}

/// `key` names neither a `.mds` nor a `.md` file.
pub open spec fn not_mds_key(key: Seq<char>) -> bool {
    crate::paths::extension(key) != Some("mds"@) && crate::paths::extension(key) != Some("md"@)
}

proof fn lemma_rv_no_imports(m: Map<String, TemplateValue>, rv: Seq<(String, TemplateValue)>)
    requires
        no_imports_key(m),
        forall|i: int| 0 <= i < rv.len() ==> m.contains_key(#[trigger] rv[i].0),
    ensures
        no_reserved_runtime(rv, false),
{
    assert forall|i: int| 0 <= i < rv.len() implies #[trigger] rv[i].0@ != "imports"@ by {
        assert(m.contains_key(rv[i].0));
    }
}

impl<F: FileSystem> ModuleCache<F> {
    /// Resolve the module at `key`. A module already in the cache is
    /// returned as it is (the first resolution of a key wins); otherwise it
    /// is read, checked to be an MDS file, processed and cached, and the
    /// cache keeps every module it held, in order. `warnings` is passed
    /// through unchanged: nothing here warns.
    pub fn resolve_key(
        &mut self,
        key: &str,
        runtime_vars: &HashMap<String, TemplateValue>,
        warnings: &mut Vec<String>,
    ) -> (r: Result<Arc<ResolvedModule>, MdsError>)
        requires
            old(self).wf(),
        ensures
            final(warnings)@ == old(warnings)@,
            final(self).wf(),
            old(self).evolves(final(self)),
            value_of(old(self).cached(), key@) matches Some(m) ==> r == Ok::<Arc<ResolvedModule>, MdsError>(m)
                && final(self).cached() == old(self).cached(),
            r matches Ok(m) ==> value_of(final(self).cached(), key@) == Some(m),
            (value_of(old(self).cached(), key@) is None && r is Ok) ==> exists|rv: Seq<(String, TemplateValue)>, md: bool|
                #[trigger] resolved_shape(*r->Ok_0, final(self).cached(), rv, md) && entries_of(rv, runtime_vars@),
            (value_of(old(self).cached(), key@) is None && crate::paths::extension(key@) == Some("mds"@)
                && no_imports_key(runtime_vars@) && old(self).file_system().known_text(key@) is Some
                && old(self).file_system().known_markdown(key@) is Some
                && items_text(old(self).file_system().known_text(key@)->Some_0, texts_of(crate::map_vars(Some(*runtime_vars))),
                    old(self).file_system().known_markdown(key@)->Some_0) is Some) ==> (r matches Ok(m)
                && prompt_is(m.prompt_body, items_text(old(self).file_system().known_text(key@)->Some_0,
                    texts_of(crate::map_vars(Some(*runtime_vars))), old(self).file_system().known_markdown(key@)->Some_0)->Some_0)),
    {
        let rv = value_entries(runtime_vars);
        proof {
            self.lemma_wf_inv();
            if no_imports_key(runtime_vars@) {
                lemma_rv_no_imports(runtime_vars@, rv@);
            }
        }
        let r = self.resolve_by_key(key, &rv);
        proof {
            if value_of(old(self).cached(), key@) is None && r is Ok {
                let md = choose|md: bool| #[trigger] resolved_shape(*r->Ok_0, self.cached(), rv@, md);
                assert(resolved_shape(*r->Ok_0, self.cached(), rv@, md) && entries_of(rv@, runtime_vars@));
            }
        }
        r
    }

    /// Resolve the module at a path: the file system normalizes it to a key
    /// (relative to no module), then as [`Self::resolve_key`].
    pub fn resolve_path(
        &mut self,
        path: &str,
        runtime_vars: &HashMap<String, TemplateValue>,
        warnings: &mut Vec<String>,
    ) -> (r: Result<Arc<ResolvedModule>, MdsError>)
        requires
            old(self).wf(),
        ensures
            final(warnings)@ == old(warnings)@,
            final(self).wf(),
            old(self).evolves(final(self)),
            r matches Ok(m) ==> m.wf() && exists|k: Seq<char>| value_of(final(self).cached(), k) == Some(m),
    {
        let key = self.fs.normalize("", path)?;
        let rv = value_entries(runtime_vars);
        self.resolve_by_key(key.as_str(), &rv)
    }

    /// Resolve a module given as source text, whose imports resolve relative
    /// to `base_dir`. The directory is canonicalized and made the file
    /// system's root; the module is processed under the key
    /// `<dir>/<source>` and not cached (its imports are).
    pub fn resolve_source(
        &mut self,
        source: &str,
        base_dir: &str,
        runtime_vars: &HashMap<String, TemplateValue>,
        warnings: &mut Vec<String>,
    ) -> (r: Result<Arc<ResolvedModule>, MdsError>)
        requires
            old(self).wf(),
        ensures
            final(warnings)@ == old(warnings)@,
            final(self).wf(),
            final(self).cached().len() >= old(self).cached().len(),
            forall|i: int| 0 <= i < old(self).cached().len() ==> #[trigger] final(self).cached()[i] == old(self).cached()[i],
            r matches Ok(m) ==> m.wf() && (m.prompt_body matches Some(p) ==> trim(p@).len() > 0),
            plain_source(source@) && no_imports_key(runtime_vars@) ==> (r matches Ok(m) ==> (m.extends_path is None
                && plain_prompt(*m, source@))),
            (no_imports_key(runtime_vars@) && items_text(source@, texts_of(crate::map_vars(Some(*runtime_vars))), false) is Some)
                ==> (r matches Ok(m) ==> prompt_is(m.prompt_body,
                items_text(source@, texts_of(crate::map_vars(Some(*runtime_vars))), false)->Some_0)),
    {
        let canonical = self.fs.canonicalize(base_dir)?;
        self.fs.set_root(canonical.as_str())?;
        let base_key = cat2(canonical.as_str(), "/<source>");
        self.check_import_depth()?;
        let rv = value_entries(runtime_vars);
        proof {
            if no_imports_key(runtime_vars@) {
                lemma_rv_no_imports(runtime_vars@, rv@);
            }
        }
        self.push_resolving(base_key.as_str());
        let resolved = self.process_module("<source>", source, base_key.as_str(), false, &rv);
        let resolved = self.pop_resolving(base_key.as_str(), resolved);
        assert(old(self).stack().push(base_key@).drop_last() =~= old(self).stack());
        let m = resolved?;
        Ok(Arc::new(m))
    }

    /// Resolve the module at `key` in messages mode: instead of rendering
    /// its body, collect its `@message` blocks (at least one is required).
    /// The module itself is not cached; its imports are.
    pub fn resolve_key_messages(
        &mut self,
        key: &str,
        runtime_vars: &HashMap<String, TemplateValue>,
        warnings: &mut Vec<String>,
    ) -> (r: Result<Vec<EvalMessage>, MdsError>)
        requires
            old(self).wf(),
        ensures
            final(warnings)@ == old(warnings)@,
            final(self).wf(),
            old(self).evolves(final(self)),
            not_mds_key(key@) ==> r is Err,
            (crate::paths::extension(key@) == Some("mds"@) && no_imports_key(runtime_vars@)
                && old(self).file_system().known_text(key@) is Some && old(self).file_system().known_markdown(key@) is Some
                && items_chat(old(self).file_system().known_text(key@)->Some_0, texts_of(crate::map_vars(Some(*runtime_vars))),
                    old(self).file_system().known_markdown(key@)->Some_0) is Some) ==> (r matches Ok(msgs)
                && messages_are(msgs@, items_chat(old(self).file_system().known_text(key@)->Some_0,
                    texts_of(crate::map_vars(Some(*runtime_vars))), old(self).file_system().known_markdown(key@)->Some_0)->Some_0)),
    {
        proof {
            self.lemma_wf_inv();
        }
        if crate::collections::key_set_contains(&self.resolving, key) {
            let cycle = build_cycle_string(&self.resolving, key);
            return Err(MdsError::circular_import(cycle.as_str()));
        }
        self.check_import_depth()?;
        let source = self.fs.read(key)?;
        let is_md = self.fs.is_markdown(key);
        crate::paths::validate_file_type(key, source.as_str())?;
        let rv = value_entries(runtime_vars);
        proof {
            if no_imports_key(runtime_vars@) {
                lemma_rv_no_imports(runtime_vars@, rv@);
            }
        }
        self.push_resolving(key);
        let result = self.process_module_messages(key, source.as_str(), key, is_md, &rv);
        let result = self.pop_resolving(key, result);
        assert(old(self).stack().push(key@).drop_last() =~= old(self).stack());
        result
    }

    /// Resolve a module given as source text in messages mode: see
    /// [`Self::resolve_source`] and [`Self::resolve_key_messages`].
    pub fn resolve_source_messages(
        &mut self,
        source: &str,
        base_dir: &str,
        runtime_vars: &HashMap<String, TemplateValue>,
        warnings: &mut Vec<String>,
    ) -> (r: Result<Vec<EvalMessage>, MdsError>)
        requires
            old(self).wf(),
        ensures
            final(warnings)@ == old(warnings)@,
            final(self).wf(),
            final(self).cached().len() >= old(self).cached().len(),
            forall|i: int| 0 <= i < old(self).cached().len() ==> #[trigger] final(self).cached()[i] == old(self).cached()[i],
            plain_source(source@) && no_imports_key(runtime_vars@) ==> r is Err,
            (no_imports_key(runtime_vars@) && items_chat(source@, texts_of(crate::map_vars(Some(*runtime_vars))), false) is Some)
                ==> (r matches Ok(msgs) ==> messages_are(msgs@,
                items_chat(source@, texts_of(crate::map_vars(Some(*runtime_vars))), false)->Some_0)),
    {
        let canonical = self.fs.canonicalize(base_dir)?;
        self.fs.set_root(canonical.as_str())?;
        let base_key = cat2(canonical.as_str(), "/<source>");
        self.check_import_depth()?;
        let rv = value_entries(runtime_vars);
        proof {
            if no_imports_key(runtime_vars@) {
                lemma_rv_no_imports(runtime_vars@, rv@);
            }
        }
        self.push_resolving(base_key.as_str());
        let result = self.process_module_messages("<source>", source, base_key.as_str(), false, &rv);
        let result = self.pop_resolving(base_key.as_str(), result);
        assert(old(self).stack().push(base_key@).drop_last() =~= old(self).stack());
        result
    }

    /// Messages-mode processing: build the scope, resolve imports and
    /// definitions, validate, require a `@message` block, and collect the
    /// messages.
    fn process_module_messages(
        &mut self,
        file: &str,
        source: &str,
        base_key: &str,
        is_md: bool,
        rv: &Vec<(String, TemplateValue)>,
    ) -> (r: Result<Vec<EvalMessage>, MdsError>)
        requires
            old(self).inv(),
            distinct_names(rv@),
        ensures
            old(self).evolves(final(self)),
            plain_source(source@) && no_reserved_runtime(rv@, is_md) ==> (r matches Err(MdsError::Syntax { message, span: None })
                && message@ == "compile_messages requires at least one @message block, but none were found in the template"@),
            line_template(source@, texts_of(rv_vars(rv@))) is Some && no_reserved_runtime(rv@, is_md) ==> (r matches Err(
                MdsError::Syntax { message, span: None })
                && message@ == "compile_messages requires at least one @message block, but none were found in the template"@),
            (items_chat(source@, texts_of(rv_vars(rv@)), is_md) is Some && no_reserved_runtime(rv@, false)) ==> (r matches Ok(msgs)
                && messages_are(msgs@, items_chat(source@, texts_of(rv_vars(rv@)), is_md)->Some_0)),
        decreases old(self).room(), 8nat,
    {
        let module = crate::parser::parse_module(source, file)?;
        let (mut scope, fm_imports) = build_scope_from_frontmatter(&module.frontmatter, is_md, rv)?;
        let ghost chat = items_chat(source@, texts_of(rv_vars(rv@)), is_md) is Some && no_reserved_runtime(rv@, false);
        proof {
            if chat {
                let (fs, texts) = module_items(source@, texts_of(rv_vars(rv@)), is_md)->Some_0;
                match front_of(source@) {
                    Some((None, _)) => {
                        assert(vars_of(scope) =~= rv_vars(rv@));
                    },
                    _ => {},
                }
                assert(texts_of(vars_of(scope)) == texts);
                lemma_items_messages(module.body@, fs, scope, MAX_CALL_DEPTH as nat);
                lemma_items_body(module.body@, fs, scope, MAX_CALL_DEPTH as nat);
                lemma_forms_blocks(module.body@, fs);
            }
            if plain_source(source@) && no_reserved_runtime(rv@, is_md) {
                lemma_text_body(module.body@, scope, vars_of(scope), functions_of(scope), namespaces_of(scope),
                    MAX_CALL_DEPTH as nat);
            }
            if line_template(source@, texts_of(rv_vars(rv@))) is Some && no_reserved_runtime(rv@, is_md) {
                assert(vars_of(scope) =~= rv_vars(rv@));
                lemma_lines_body(module.body@, lines_from(source@, 0)->Some_0, scope, MAX_CALL_DEPTH as nat);
            }
        }
        self.resolve_frontmatter_imports(&fm_imports, &mut scope, base_key, rv)?;
        let defs = self.collect_definitions_and_imports(&module.body, &mut scope, source, base_key, rv)?;
        validate_exports(&defs.explicit_exports, &defs.functions)?;
        let mut i: usize = 0;
        let ghost s1 = scope;
        while i < defs.functions.entries.len()
            invariant
                scope.wf(),
                i <= defs.functions.entries@.len(),
                ((plain_source(source@) || line_template(source@, texts_of(rv_vars(rv@))) is Some) && no_reserved_runtime(rv@, is_md))
                    ==> (defs.functions.entries@.len() == 0 && scope == s1),
                chat ==> (defs.functions.entries@.len() == 0 && scope == s1),
            decreases defs.functions.entries@.len() - i,
        {
            let (name, f) = &defs.functions.entries[i];
            scope.set_function(name.as_str(), share(f));
            i = i + 1;
        }
        crate::validator::validate(module.body.as_slice(), &scope)?;
        if !has_message_block(&module.body) {
            return Err(MdsError::syntax(
                "compile_messages requires at least one @message block, but none were found in the template",
            ));
        }
        crate::evaluator::evaluate_messages(module.body.as_slice(), &scope)
    }
}


/// In a map without repeated keys, entry `i` is what its key finds.
proof fn lemma_value_of_index<V>(es: Seq<(Seq<char>, V)>, i: int)
    requires
        unique_keys(es),
        0 <= i < es.len(),
    ensures
        value_of(es, es[i].0) == Some(es[i].1),
    decreases i,
{
    if i > 0 {
        let t = es.drop_first();
        assert(keys_of(es)[0] == es[0].0 && keys_of(es)[i] == es[i].0);
        assert(keys_of(t) =~= keys_of(es).drop_first());
        assert(t[i - 1] == es[i]);
        lemma_value_of_index(t, i - 1);
    }
}

/// What the key `q` finds after inserting `(k, v)` over an existing key.
proof fn lemma_value_of_inserted<V>(m: Seq<(Seq<char>, V)>, k: Seq<char>, v: V, q: Seq<char>)
    requires
        unique_keys(m),
        keys_of(m).contains(k),
    ensures
        value_of(inserted(m, k, v), q) == (if q == k { Some(v) } else { value_of(m, q) }),
{
    let n = inserted(m, k, v);
    let p = keys_of(m).index_of(k);
    lemma_inserted(m, k, v);
    assert(n == m.update(p, (k, v)));
    assert(keys_of(n)[p] == k);
    if q == k {
        lemma_value_of_index(n, p);
    } else {
        lemma_value_of_keys(m, q);
        lemma_value_of_keys(n, q);
        if keys_of(m).contains(q) {
            let j = choose|j: int| 0 <= j < keys_of(m).len() && keys_of(m)[j] == q;
            assert(j != p);
            assert(n[j] == m[j]);
            lemma_value_of_index(m, j);
            lemma_value_of_index(n, j);
        }
    }
}

/// The block a name finds after the overrides of `nodes`: the last
/// override of that name, or, without one, what it found before.
pub open spec fn last_override(es: Seq<(Seq<char>, Arc<BlockNode>)>, nodes: Seq<Node>, name: Seq<char>) -> Option<Arc<BlockNode>>
    decreases nodes.len(),
{
    if nodes.len() == 0 {
        value_of(es, name)
    } else {
        match nodes.last() {
            Node::Block(b) => if b.name@ == name {
                Some(Arc::new(b))
            } else {
                last_override(es, nodes.drop_last(), name)
            },
            _ => last_override(es, nodes.drop_last(), name),
        }
    }
}

/// Most derived wins: after an extending template's overrides, each block
/// name finds the template's last override of it, and a block it does not
/// override keeps what its base had (the base's own default or a nearer
/// ancestor's override).
pub proof fn law_most_derived_wins(es: Seq<(Seq<char>, Arc<BlockNode>)>, nodes: Seq<Node>, name: Seq<char>)
    requires
        unique_keys(es),
        overridden(es, nodes) is Some,
    ensures
        value_of(overridden(es, nodes)->Some_0, name) == last_override(es, nodes, name),
    decreases nodes.len(),
{
    if nodes.len() > 0 {
        law_most_derived_wins(es, nodes.drop_last(), name);
        lemma_overridden_keys(es, nodes.drop_last());
        let m = overridden(es, nodes.drop_last())->Some_0;
        match nodes.last() {
            Node::Block(b) => {
                lemma_value_of_inserted(m, b.name@, Arc::new(b), name);
            },
            _ => {},
        }
    }
}

/// Exports agree: a name is among a module's exported functions exactly
/// when it is exported and the module defines it, which is when
/// `get_export` finds it.
pub proof fn law_exports_agree(m: ResolvedModule, name: Seq<char>)
    requires
        m.functions.wf(),
    ensures
        (exists|i: int| 0 <= i < m.exported_entries(m.functions.entries@).len()
            && #[trigger] m.exported_entries(m.functions.entries@)[i].0@ == name)
            <==> (m.exported(name) && m.functions.has(name)),
{
    lemma_exported_entries(m, m.functions.entries@, name);
}

proof fn lemma_exported_entries(m: ResolvedModule, es: Seq<(String, Arc<FunctionDef>)>, name: Seq<char>)
    ensures
        (exists|i: int| 0 <= i < m.exported_entries(es).len() && #[trigger] m.exported_entries(es)[i].0@ == name)
            <==> (m.exported(name) && exists|j: int| 0 <= j < es.len() && #[trigger] es[j].0@ == name),
    decreases es.len(),
{
    if es.len() > 0 {
        let pre = es.drop_last();
        lemma_exported_entries(m, pre, name);
        let e = m.exported_entries(es);
        let ep = m.exported_entries(pre);
        if exists|i: int| 0 <= i < e.len() && #[trigger] e[i].0@ == name {
            let i = choose|i: int| 0 <= i < e.len() && #[trigger] e[i].0@ == name;
            if i < ep.len() {
                assert(e[i] == ep[i]);
                let j = choose|j: int| 0 <= j < pre.len() && #[trigger] pre[j].0@ == name;
                assert(es[j] == pre[j]);
            } else {
                assert(e[i] == es.last());
                assert(es[es.len() - 1].0@ == name);
            }
        }
        if m.exported(name) && exists|j: int| 0 <= j < es.len() && #[trigger] es[j].0@ == name {
            let j = choose|j: int| 0 <= j < es.len() && #[trigger] es[j].0@ == name;
            if j < pre.len() {
                assert(pre[j] == es[j]);
                let i = choose|i: int| 0 <= i < ep.len() && #[trigger] ep[i].0@ == name;
                assert(e[i] == ep[i]);
            } else {
                assert(e[e.len() - 1] == es.last());
            }
        }
    }
}


/// An extending template inherits its base's frontmatter: its prompt is
/// what its spliced body renders to in a scope that holds the runtime
/// variables, its own frontmatter variables, and every base frontmatter
/// variable that neither of those binds (the child wins on a shared key).
pub proof fn law_child_inherits_base_frontmatter(
    m: ResolvedModule,
    b: ResolvedModule,
    body: Seq<Node>,
    rv: Seq<(String, TemplateValue)>,
    is_md: bool,
)
    requires
        extended(m, b, body, rv, is_md),
    ensures
        exists|s: Scope| #[trigger] renders_in(m.prompt_body, spliced(m.effective_skeleton@, block_entries(m.effective_blocks)), s)
            && keeps_runtime(s, rv) && keeps_frontmatter(s, m.raw_frontmatter, is_md, rv)
            && base_vars_merged(s, b, m.raw_frontmatter, is_md, rv),
{
}

/// A circular import reports the chain from the first module of the cycle
/// to the module met again: the keys being resolved from the first
/// occurrence of `k` on, then `k`, each by its file name, with arrows.
pub proof fn law_cycle_chain(pre: Seq<Seq<char>>, k: Seq<char>, post: Seq<Seq<char>>)
    requires
        !pre.contains(k),
    ensures
        cycle_text(pre + seq![k] + post, k)
            == joined((seq![k] + post).push(k).map_values(|x: Seq<char>| display_name(x)), " \u{2192} "@),
{
    let items = pre + seq![k] + post;
    assert(items[pre.len() as int] == k);
    assert forall|j: int| 0 <= j < pre.len() implies items[j] != k by {
        assert(items[j] == pre[j]);
        if items[j] == k {
            assert(pre.contains(k));
        }
    }
    lemma_first_pos(items, k, pre.len() as int);
    assert(items.subrange(pre.len() as int, items.len() as int) =~= seq![k] + post);
}

/// An explicit export must name `prompt` or a function of the module:
/// one that names neither makes the export list invalid.
pub proof fn law_exports_must_be_defined(exports: Table<()>, functions: Table<Arc<FunctionDef>>, name: Seq<char>)
    requires
        exports.has(name),
        name != seq!['p', 'r', 'o', 'm', 'p', 't'],
        !functions.has(name),
    ensures
        !exports_defined(exports, functions),
{
    reveal_strlit("prompt");
    assert("prompt"@ =~= seq!['p', 'r', 'o', 'm', 'p', 't']);
    let i = choose|i: int| 0 <= i < exports.entries@.len() && exports.entries@[i].0@ == name;
    assert(!(exports.entries@[i].0@ == "prompt"@ || functions.has(exports.entries@[i].0@)));
}

/// An extending template may hold nothing but `@block` overrides and blank
/// text: any other node, or text that is not blank, is refused.
pub proof fn law_child_holds_only_overrides(body: Seq<Node>, i: int)
    requires
        0 <= i < body.len(),
        !(body[i] is Block),
        !(body[i] matches Node::Text(t) && trim(t.text@).len() == 0),
    ensures
        !child_only(body),
{
    assert(!allowed_in_child(body[i]));
}

/// An explicit export list is the whole of what a module exports: a name
/// it does not list (`prompt` included) is not exported, finds no function,
/// and an unlisted `prompt` leaves the module without an exported prompt.
pub proof fn law_explicit_exports_only(m: ResolvedModule, name: Seq<char>)
    requires
        m.has_explicit_exports,
        !m.explicit_exports.has(name),
    ensures
        !m.exported(name),
        export_of(m, name) is None,
        name == "prompt"@ ==> m.exported_prompt() is None && prompt_value(m) is None,
{
}

/// Without an explicit export list a module exports everything: every
/// name is exported, each function under its own name, and its prompt.
/// With a list, each listed name is exported.
pub proof fn law_exports_without_list(m: ResolvedModule, name: Seq<char>)
    ensures
        !m.has_explicit_exports ==> m.exported(name) && export_of(m, name) == m.functions.lookup(name)
            && m.exported_prompt() == m.prompt_body,
        m.has_explicit_exports && m.explicit_exports.has(name) ==> m.exported(name)
            && export_of(m, name) == m.functions.lookup(name),
{
}

/// A body without `@message`, `@if`, `@for` or `@block` nodes holds no
/// message.
pub proof fn law_no_message_without_sections(nodes: Seq<Node>)
    requires
        forall|i: int| 0 <= i < nodes.len() ==> !(#[trigger] nodes[i] is Message || nodes[i] is If || nodes[i] is For
            || nodes[i] is Block),
    ensures
        !holds_message(nodes),
    decreases nodes.len(),
{
    if nodes.len() > 0 {
        assert forall|i: int| 0 <= i < nodes.drop_first().len() implies !(#[trigger] nodes.drop_first()[i] is Message
            || nodes.drop_first()[i] is If || nodes.drop_first()[i] is For || nodes.drop_first()[i] is Block) by {
            assert(nodes.drop_first()[i] == nodes[i + 1]);
        }
        law_no_message_without_sections(nodes.drop_first());
        assert(!node_holds_message(nodes[0]));
        assert(holds_message(nodes) == (node_holds_message(nodes[0]) || holds_message(nodes.drop_first())));
    }
}

/// An `@message` anywhere in a body counts: one at the top level, or one
/// at the top of the default body of a top-level `@block`, of a `@for`
/// body, or of an `@if` branch.
pub proof fn law_nested_message_counts(nodes: Seq<Node>, i: int, j: int)
    requires
        0 <= i < nodes.len(),
        nodes[i] is Message || (nodes[i] is Block && 0 <= j < nodes[i]->Block_0.body@.len()
            && nodes[i]->Block_0.body@[j] is Message) || (nodes[i] is For && 0 <= j < nodes[i]->For_0.body@.len()
            && nodes[i]->For_0.body@[j] is Message) || (nodes[i] is If && 0 <= j < nodes[i]->If_0.then_body@.len()
            && nodes[i]->If_0.then_body@[j] is Message),
    ensures
        holds_message(nodes),
    decreases i,
{
    assert(holds_message(nodes) == (node_holds_message(nodes[0]) || holds_message(nodes.drop_first())));
    if i > 0 {
        law_nested_message_counts(nodes.drop_first(), i - 1, j);
        assert(nodes.drop_first()[i - 1] == nodes[i]);
    } else {
        match nodes[0] {
            Node::Block(b) => lemma_message_at(b.body@, j),
            Node::For(b) => lemma_message_at(b.body@, j),
            Node::If(b) => lemma_message_at(b.then_body@, j),
            _ => {},
        }
        assert(node_holds_message(nodes[0]));
    }
}

proof fn lemma_message_at(nodes: Seq<Node>, j: int)
    requires
        0 <= j < nodes.len(),
        nodes[j] is Message,
    ensures
        holds_message(nodes),
    decreases j,
{
    assert(holds_message(nodes) == (node_holds_message(nodes[0]) || holds_message(nodes.drop_first())));
    if j > 0 {
        lemma_message_at(nodes.drop_first(), j - 1);
        assert(nodes.drop_first()[j - 1] == nodes[j]);
    } else {
        assert(node_holds_message(nodes[0]));
    }
}

/// The first resolution of a key wins: once the cache maps a key to a
/// module, every later state the resolver reaches maps it to the same
/// module (a cached module is never replaced or changed).
pub proof fn law_first_resolution_wins<F: FileSystem>(
    before: ModuleCache<F>,
    after: ModuleCache<F>,
    key: Seq<char>,
    m: Arc<ResolvedModule>,
)
    requires
        before.evolves(&after),
        value_of(before.cached(), key) == Some(m),
    ensures
        value_of(after.cached(), key) == Some(m),
{
    lemma_value_of_prefix(before.cached(), after.cached(), key);
}

} // verus!
