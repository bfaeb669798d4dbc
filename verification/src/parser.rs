//! The line-oriented parser of template sources.
//!
//! A source is an optional YAML frontmatter between `---` fences, then a
//! body. Body lines that begin with a directive (`@block`, `@define`, `@if`,
//! `@elseif`, `@else`, `@for`, `@message`, `@import`, `@export`, `@include`,
//! `@extends`, `@end`) structure the module; other lines are text in which
//! `{expr}` interpolates and `\{` writes a literal brace.

use std::sync::Arc;
use vstd::prelude::*;
use crate::ast::{
    Arg, BlockNode, DefineBlock, ExportDirective, Expr, ExtendsDirective, ForBlock, Frontmatter,
    IfBlock, ImportDirective, IncludeNode, Interpolation, MessageBlock, Module, Node, TextNode,
};
use crate::error::MdsError;
use crate::text::{chars_of, has_prefix, is_alnum, is_identifier, is_identifier_at, is_ws, lead_ws, matches_at, text_of, trim, trim_bounds, ws};
use crate::error::span_in;
use crate::value::{rendered, TemplateValue};

verus! {

broadcast use {vstd::std_specs::vec::group_vec_axioms, vstd::seq::group_seq_axioms};

/// How a body ended.
enum Terminator {
    Eof,
    End,
    Else,
    ElseIf(String),
}

/// The parse state of one source.
struct Src<'a> {
    v: Vec<char>,
    source: &'a str,
}

/// A character of a word: an ASCII letter or digit, or `_`.
pub open spec fn is_word(c: char) -> bool {
    is_alnum(c) || c == '_'
}

/// The first position in `[i, b)` that is not whitespace, or `b`.
pub open spec fn skip_spec(s: Seq<char>, i: int, b: int) -> int
    decreases b - i,
{
    if i < b && is_ws(s[i]) {
        skip_spec(s, i + 1, b)
    } else {
        i
    }
}

/// The first position in `[i, b)` that is not a word character, or `b`.
pub open spec fn word_end_spec(s: Seq<char>, i: int, b: int) -> int
    decreases b - i,
{
    if i < b && is_word(s[i]) {
        word_end_spec(s, i + 1, b)
    } else {
        i
    }
}

/// The first `"` in `[i, b)`, or `b`.
pub open spec fn quote_end(s: Seq<char>, i: int, b: int) -> int
    decreases b - i,
{
    if i < b && s[i] != '"' {
        quote_end(s, i + 1, b)
    } else {
        i
    }
}

/// The line `[a, b)` begins with `@` and the word `w`, not followed by a
/// word character: the position after the word.
pub open spec fn keyword_spec(s: Seq<char>, a: int, b: int, w: Seq<char>) -> Option<int> {
    let p = a + 1 + w.len();
    if a < b && s[a] == '@' && w.len() > 0 && p <= b && s.subrange(a + 1, p) == w && !(p < b && is_word(s[p])) {
        Some(p)
    } else {
        None
    }
}

/// A `"..."` literal at `i` after whitespace: its content's bounds and the
/// position after it.
pub open spec fn quoted_spec(s: Seq<char>, i: int, b: int) -> Option<(int, int, int)> {
    let k = skip_spec(s, i, b);
    let e = quote_end(s, k + 1, b);
    if k < b && s[k] == '"' && e < b {
        Some((k + 1, e, e + 1))
    } else {
        None
    }
}

/// An identifier at `i` after whitespace, up to the end of its word.
pub open spec fn ident_spec(s: Seq<char>, i: int, b: int) -> Option<(int, int)> {
    let k = skip_spec(s, i, b);
    let e = word_end_spec(s, k, b);
    if k < e && is_identifier(s.subrange(k, e)) {
        Some((k, e))
    } else {
        None
    }
}

/// The character `c` at `i` after whitespace: the position after it.
pub open spec fn expect_spec(s: Seq<char>, i: int, b: int, c: char) -> Option<int> {
    let k = skip_spec(s, i, b);
    if k < b && s[k] == c {
        Some(k + 1)
    } else {
        None
    }
}

/// The word `w` at `i` after whitespace: the position after it.
pub open spec fn expect_word_spec(s: Seq<char>, i: int, b: int, w: Seq<char>) -> Option<int> {
    let k = skip_spec(s, i, b);
    let e = word_end_spec(s, k, b);
    if e - k == w.len() && s.subrange(k, e) == w {
        Some(e)
    } else {
        None
    }
}

/// Only whitespace in `[i, b)`.
pub open spec fn at_end_spec(s: Seq<char>, i: int, b: int) -> bool {
    skip_spec(s, i, b) == b
}

/// `NAME:` at `i` and nothing after it: the name's bounds.
pub open spec fn name_colon_spec(s: Seq<char>, i: int, b: int) -> Option<(int, int)> {
    match ident_spec(s, i, b) {
        Some((n, e)) => match expect_spec(s, e, b, ':') {
            Some(p) => if at_end_spec(s, p, b) {
                Some((n, e))
            } else {
                None
            },
            None => None,
        },
        None => None,
    }
}

/// The condition of `@if COND:` in `[i, b)`: the trimmed text before the
/// final `:`, which must be a variable name.
pub open spec fn condition_spec(s: Seq<char>, i: int, b: int) -> Option<Seq<char>> {
    let t = trim(s.subrange(i, b));
    if t.len() == 0 || t.last() != ':' {
        None
    } else if is_identifier(trim(t.drop_last())) {
        Some(trim(t.drop_last()))
    } else {
        None
    }
}

/// The trimmed pieces of `[start, b)` between top-level commas (those
/// outside `"..."`), scanning from `k` with `in_str` telling whether a
/// literal is open.
pub open spec fn pieces_from(s: Seq<char>, start: int, k: int, b: int, in_str: bool) -> Seq<Seq<char>>
    decreases b - k,
{
    if k >= b {
        seq![trim(s.subrange(start, b))]
    } else if s[k] == '"' {
        pieces_from(s, start, k + 1, b, !in_str)
    } else if s[k] == ',' && !in_str {
        seq![trim(s.subrange(start, k))] + pieces_from(s, k + 1, k + 1, b, in_str)
    } else {
        pieces_from(s, start, k + 1, b, in_str)
    }
}

/// The arguments of a call, `[a, b)` between its parentheses: none when
/// only whitespace is there, else the trimmed top-level comma pieces.
pub open spec fn arg_pieces(s: Seq<char>, a: int, b: int) -> Seq<Seq<char>> {
    if trim(s.subrange(a, b)).len() == 0 {
        Seq::empty()
    } else {
        pieces_from(s, a, a, b, false)
    }
}

/// `t` is a string literal: `"` at both ends.
pub open spec fn is_str_lit(t: Seq<char>) -> bool {
    t.len() >= 2 && t[0] == '"' && t.last() == '"'
}

/// The three forms of `@export`, by their texts.
pub enum ExportForm {
    Named(Seq<char>),
    ReExport(Seq<char>, Seq<char>),
    Wildcard(Seq<char>),
}

/// The `@export` directive whose arguments are `[k, c)`, if well formed.
pub open spec fn export_form(s: Seq<char>, k: int, c: int) -> Option<ExportForm> {
    match expect_spec(s, k, c, '*') {
        Some(q) => match expect_word_spec(s, q, c, "from"@) {
            Some(q2) => match quoted_spec(s, q2, c) {
                Some((ps, pe, q3)) => if at_end_spec(s, q3, c) {
                    Some(ExportForm::Wildcard(s.subrange(ps, pe)))
                } else {
                    None
                },
                None => None,
            },
            None => None,
        },
        None => match ident_spec(s, k, c) {
            None => None,
            Some((ns, ne)) => if at_end_spec(s, ne, c) {
                Some(ExportForm::Named(s.subrange(ns, ne)))
            } else {
                match expect_word_spec(s, ne, c, "from"@) {
                    Some(q) => match quoted_spec(s, q, c) {
                        Some((ps, pe, q2)) => if at_end_spec(s, q2, c) {
                            Some(ExportForm::ReExport(s.subrange(ns, ne), s.subrange(ps, pe)))
                        } else {
                            None
                        },
                        None => None,
                    },
                    None => None,
                }
            },
        },
    }
}

/// The names of a selective import from `p`: identifiers separated by
/// commas; the names and the position after the last one.
pub open spec fn import_names(s: Seq<char>, p: int, c: int) -> Option<(Seq<Seq<char>>, int)>
    decreases c - p,
{
    match ident_spec(s, p, c) {
        None => None,
        Some((ns, ne)) => match expect_spec(s, ne, c, ',') {
            Some(q) => if p < q <= c {
                match import_names(s, q, c) {
                    Some((rest, e)) => Some((seq![s.subrange(ns, ne)] + rest, e)),
                    None => None,
                }
            } else {
                None
            },
            None => Some((seq![s.subrange(ns, ne)], ne)),
        },
    }
}

/// `acc` before the names of `r`.
pub open spec fn with_names(acc: Seq<Seq<char>>, r: Option<(Seq<Seq<char>>, int)>) -> Option<(Seq<Seq<char>>, int)> {
    match r {
        Some((ns, e)) => Some((acc + ns, e)),
        None => None,
    }
}

/// The three forms of `@import`, by their texts.
pub enum ImportForm {
    Merge(Seq<char>),
    Alias(Seq<char>, Seq<char>),
    Selective(Seq<Seq<char>>, Seq<char>),
}

/// The `@import` directive whose arguments are `[k, c)`, if well formed.
pub open spec fn import_form(s: Seq<char>, k: int, c: int) -> Option<ImportForm> {
    match quoted_spec(s, k, c) {
        Some((ps, pe, q)) => if at_end_spec(s, q, c) {
            Some(ImportForm::Merge(s.subrange(ps, pe)))
        } else {
            match expect_word_spec(s, q, c, "as"@) {
                Some(q2) => match ident_spec(s, q2, c) {
                    Some((as_, ae)) => if at_end_spec(s, ae, c) {
                        Some(ImportForm::Alias(s.subrange(ps, pe), s.subrange(as_, ae)))
                    } else {
                        None
                    },
                    None => None,
                },
                None => None,
            }
        },
        None => match import_names(s, k, c) {
            None => None,
            Some((names, e)) => match expect_word_spec(s, e, c, "from"@) {
                None => None,
                Some(q) => match quoted_spec(s, q, c) {
                    Some((ps, pe, q2)) => if at_end_spec(s, q2, c) {
                        Some(ImportForm::Selective(names, s.subrange(ps, pe)))
                    } else {
                        None
                    },
                    None => None,
                },
            },
        },
    }
}

/// Where the trimmed text of `[a, b)` starts.
pub open spec fn trim_start(s: Seq<char>, a: int, b: int) -> int {
    a + lead_ws(s.subrange(a, b))
}

/// Where the trimmed text of `[a, b)` ends.
pub open spec fn trim_end(s: Seq<char>, a: int, b: int) -> int {
    trim_start(s, a, b) + trim(s.subrange(a, b)).len()
}

/// A call argument's text: a string literal or a variable name.
pub open spec fn valid_arg(t: Seq<char>) -> bool {
    is_str_lit(t) || is_identifier(t)
}

/// The argument parsed from the text `t`.
pub open spec fn arg_is(a: Arg, t: Seq<char>) -> bool {
    if is_str_lit(t) {
        a matches Arg::Str(x) && x@ == t.subrange(1, t.len() - 1)
    } else {
        a matches Arg::Var(x) && x@ == t
    }
}

/// The arguments parsed from the texts `ts`, one each.
pub open spec fn args_are(args: Seq<Arg>, ts: Seq<Seq<char>>) -> bool {
    args.len() == ts.len() && forall|j: int| 0 <= j < ts.len() ==> arg_is(#[trigger] args[j], ts[j])
}

/// The forms of an interpolated expression, by their texts; a call's
/// arguments by their trimmed texts.
pub enum ExprForm {
    Var(Seq<char>),
    Call(Seq<char>, Seq<Seq<char>>),
    QualifiedCall(Seq<char>, Seq<char>, Seq<Seq<char>>),
}

/// The call whose name is `[s, ne)` (qualified by `qual`), whose argument
/// list starts at `p` after whitespace and ends at `e`.
pub open spec fn call_form(s: Seq<char>, n0: int, ne: int, p: int, e: int, qual: Option<(int, int)>) -> Option<ExprForm> {
    let p2 = skip_spec(s, p, e);
    if p2 >= e || s[p2] != '(' || s[e - 1] != ')' || e - 1 < p2 + 1 {
        None
    } else {
        let ps = arg_pieces(s, p2 + 1, e - 1);
        if forall|j: int| 0 <= j < ps.len() ==> valid_arg(#[trigger] ps[j]) {
            match qual {
                None => Some(ExprForm::Call(s.subrange(n0, ne), ps)),
                Some((qs, qe)) => Some(ExprForm::QualifiedCall(s.subrange(n0, ne), s.subrange(qs, qe), ps)),
            }
        } else {
            None
        }
    }
}

/// The expression between the braces `[a, b)`: a variable name, `NAME(ARGS)`
/// or `NS.NAME(ARGS)`, with whitespace around.
pub open spec fn expr_form(s: Seq<char>, a: int, b: int) -> Option<ExprForm> {
    let n0 = trim_start(s, a, b);
    let e = trim_end(s, a, b);
    let ne = word_end_spec(s, n0, e);
    if n0 < e && is_identifier(s.subrange(n0, e)) {
        Some(ExprForm::Var(s.subrange(n0, e)))
    } else if ne == n0 || !is_identifier(s.subrange(n0, ne)) {
        None
    } else if ne < e && s[ne] == '.' {
        let n2 = word_end_spec(s, ne + 1, e);
        if n2 == ne + 1 || !is_identifier(s.subrange(ne + 1, n2)) {
            None
        } else {
            call_form(s, n0, ne, n2, e, Some((ne + 1, n2)))
        }
    } else {
        call_form(s, n0, ne, ne, e, None)
    }
}

/// The expression parsed from the form `f`.
pub open spec fn expr_is(x: Expr, f: ExprForm) -> bool {
    match f {
        ExprForm::Var(t) => x matches Expr::Var(n) && n@ == t,
        ExprForm::Call(n, ps) => x matches Expr::Call { name, args } && name@ == n && args_are(args@, ps),
        ExprForm::QualifiedCall(ns, n, ps) => x matches Expr::QualifiedCall { namespace, name, args }
            && namespace@ == ns && name@ == n && args_are(args@, ps),
    }
}

/// The nodes of a text line, by their texts.
pub enum LineNode {
    Text(Seq<char>),
    Escaped,
    Interp(ExprForm, int),
}

/// The node parsed from the form `f`.
pub open spec fn node_is(n: Node, f: LineNode) -> bool {
    match f {
        LineNode::Text(t) => n matches Node::Text(tn) && tn.text@ == t,
        LineNode::Escaped => n is EscapedBrace,
        LineNode::Interp(ef, off) => n matches Node::Interpolation(i) && i.offset == off && expr_is(i.expr, ef),
    }
}

/// The first `}` or newline in `[i, b)`, or `b`.
pub open spec fn brace_end(s: Seq<char>, i: int, b: int) -> int
    decreases b - i,
{
    if i < b && s[i] != '}' && s[i] != '\n' {
        brace_end(s, i + 1, b)
    } else {
        i
    }
}

/// The pending text `[start, k)` as a node, when it is not empty.
pub open spec fn pending_text(s: Seq<char>, start: int, k: int) -> Seq<LineNode> {
    if start < k {
        seq![LineNode::Text(s.subrange(start, k))]
    } else {
        Seq::empty()
    }
}

/// The nodes of the text `[start, b)` scanned from `k`: runs of text,
/// `\{` as a literal brace and `{expr}` as an interpolation; `None` when a
/// brace is unclosed on its line or its expression is malformed.
pub open spec fn line_from(s: Seq<char>, start: int, k: int, b: int) -> Option<Seq<LineNode>>
    decreases b - k,
{
    if k >= b {
        Some(pending_text(s, start, b))
    } else if s[k] == '\\' && k + 1 < b && s[k + 1] == '{' {
        match line_from(s, k + 2, k + 2, b) {
            Some(r) => Some(pending_text(s, start, k) + seq![LineNode::Escaped] + r),
            None => None,
        }
    } else if s[k] == '{' {
        let c = brace_end(s, k + 1, b);
        if c >= b || s[c] != '}' {
            None
        } else {
            match expr_form(s, k + 1, c) {
                None => None,
                Some(f) => if c + 1 > k {
                    match line_from(s, c + 1, c + 1, b) {
                        Some(r) => Some(pending_text(s, start, k) + seq![LineNode::Interp(f, k)] + r),
                        None => None,
                    }
                } else {
                    None
                },
            }
        }
    } else {
        line_from(s, start, k + 1, b)
    }
}

/// `acc` before the nodes of `r`.
pub open spec fn with_line(acc: Seq<LineNode>, r: Option<Seq<LineNode>>) -> Option<Seq<LineNode>> {
    match r {
        Some(ns) => Some(acc + ns),
        None => None,
    }
}

/// No `@` and no `{` in `[i, b)`: plain text, without directives or
/// interpolations.
pub open spec fn no_markup(s: Seq<char>, i: int, b: int) -> bool {
    forall|j: int| i <= j < b ==> s[j] != '@' && s[j] != '{'
}

/// A source that is plain text: no frontmatter fence at its start, and no
/// `@` or `{` anywhere.
pub open spec fn plain_source(s: Seq<char>) -> bool {
    !has_prefix(s, "---"@) && no_markup(s, 0, s.len() as int)
}

/// The text of a body made of text nodes only; `None` when another node
/// is among them.
pub open spec fn text_of_nodes(nodes: Seq<Node>) -> Option<Seq<char>>
    decreases nodes.len(),
{
    if nodes.len() == 0 {
        Some(Seq::empty())
    } else {
        match nodes[0] {
            Node::Text(t) => match text_of_nodes(nodes.drop_first()) {
                Some(r) => Some(t.text@ + r),
                None => None,
            },
            _ => None,
        }
    }
}

/// A text node appended to text nodes appends its text.
pub proof fn lemma_text_of_nodes_push(ns: Seq<Node>, n: Node)
    requires
        n is Text,
        text_of_nodes(ns) is Some,
    ensures
        text_of_nodes(ns.push(n)) == Some(text_of_nodes(ns)->Some_0 + n->Text_0.text@),
    decreases ns.len(),
{
    if ns.len() == 0 {
        assert(ns.push(n).drop_first() =~= Seq::<Node>::empty());
        assert(text_of_nodes(ns.push(n).drop_first()) == Some(Seq::<char>::empty()));
        assert(ns.push(n)[0] == n);
        assert(n->Text_0.text@ + Seq::<char>::empty() =~= Seq::<char>::empty() + n->Text_0.text@);
    } else {
        lemma_text_of_nodes_push(ns.drop_first(), n);
        assert(ns.push(n).drop_first() =~= ns.drop_first().push(n));
        assert(ns.push(n)[0] == ns[0]);
        let t = ns[0]->Text_0.text@;
        let r = text_of_nodes(ns.drop_first())->Some_0;
        assert(t + (r + n->Text_0.text@) =~= (t + r) + n->Text_0.text@);
    }
}

/// A line without `{` is one run of text.
proof fn lemma_line_plain(s: Seq<char>, start: int, k: int, b: int)
    requires
        start <= k <= b <= s.len(),
        forall|j: int| k <= j < b ==> s[j] != '{',
    ensures
        line_from(s, start, k, b) == Some(pending_text(s, start, b)),
    decreases b - k,
{
    if k < b {
        lemma_line_plain(s, start, k + 1, b);
    }
}

/// The end of the line at `p`: its `\n`, or the end of `s`.
pub open spec fn nl_at(s: Seq<char>, p: int) -> int
    decreases s.len() - p,
{
    if 0 <= p < s.len() && s[p] != '\n' {
        nl_at(s, p + 1)
    } else {
        p
    }
}

/// Where the line after the one at `p` starts.
pub open spec fn next_line(s: Seq<char>, p: int) -> int {
    if nl_at(s, p) < s.len() {
        nl_at(s, p) + 1
    } else {
        nl_at(s, p)
    }
}

/// The end of the content of the line at `p`, without a trailing `\r`.
pub open spec fn content_end(s: Seq<char>, p: int) -> int {
    if nl_at(s, p) > p && s[nl_at(s, p) - 1] == '\r' {
        nl_at(s, p) - 1
    } else {
        nl_at(s, p)
    }
}

/// The first line from `p` on that is exactly `---`.
pub open spec fn closing_fence(s: Seq<char>, p: int) -> Option<int>
    decreases s.len() - p,
{
    if p < 0 || p >= s.len() {
        None
    } else if content_end(s, p) - p == 3 && s.subrange(p, p + 3) == "---"@ {
        Some(p)
    } else if p < next_line(s, p) <= s.len() {
        closing_fence(s, next_line(s, p))
    } else {
        None
    }
}

/// The frontmatter of a source and where its body starts: a first line
/// that is exactly `---` opens a frontmatter, which the next such line
/// closes (`None` when none does); any other source has none.
pub open spec fn front_of(s: Seq<char>) -> Option<(Option<Seq<char>>, int)> {
    if s.len() >= 3 && s.subrange(0, 3) == "---"@ && content_end(s, 0) == 3 {
        match closing_fence(s, next_line(s, 0)) {
            Some(p) => Some((Some(s.subrange(next_line(s, 0), p)), next_line(s, p))),
            None => None,
        }
    } else {
        Some((None, 0))
    }
}

/// No `@` in `[i, b)`: no directive can start there.
pub open spec fn no_at(s: Seq<char>, i: int, b: int) -> bool {
    forall|j: int| i <= j < b ==> s[j] != '@'
}

/// The nodes of the text lines from `p` to the end, line by line (see
/// [`line_from`]); `None` when a line is malformed.
pub open spec fn lines_from(s: Seq<char>, p: int) -> Option<Seq<LineNode>>
    decreases s.len() - p,
{
    if p < 0 || p >= s.len() {
        Some(Seq::empty())
    } else {
        match line_from(s, p, p, next_line(s, p)) {
            None => None,
            Some(a) => if p < next_line(s, p) <= s.len() {
                match lines_from(s, next_line(s, p)) {
                    Some(b) => Some(a + b),
                    None => None,
                }
            } else {
                None
            },
        }
    }
}

/// The nodes `ns` are the forms `fs`, one by one.
pub open spec fn nodes_are(ns: Seq<Node>, fs: Seq<LineNode>) -> bool {
    ns.len() == fs.len() && forall|j: int| 0 <= j < fs.len() ==> node_is(#[trigger] ns[j], fs[j])
}

/// The frontmatter `fm` holds the raw text `raw`, or is absent with it.
pub open spec fn frontmatter_is(fm: Option<Frontmatter>, raw: Option<Seq<char>>) -> bool {
    match raw {
        None => fm is None,
        Some(t) => fm matches Some(f) && f.raw@ == t,
    }
}

/// The rendered text of each variable of `vars`.
pub open spec fn texts_of(vars: spec_fn(Seq<char>) -> Option<TemplateValue>) -> spec_fn(Seq<char>) -> Option<Seq<char>> {
    |q: Seq<char>| match vars(q) {
        Some(v) => Some(rendered(v)),
        None => None,
    }
}

/// What the text-line forms `fs` render to with the variable texts
/// `texts`, in a scope without functions or namespaces: text as written,
/// `\{` as a brace, `{name}` as the variable's rendered text; `None` when a
/// variable is missing or a call is made.
pub open spec fn render_lines(fs: Seq<LineNode>, texts: spec_fn(Seq<char>) -> Option<Seq<char>>) -> Option<Seq<char>>
    decreases fs.len(),
{
    if fs.len() == 0 {
        Some(Seq::empty())
    } else {
        let head = match fs[0] {
            LineNode::Text(t) => Some(t),
            LineNode::Escaped => Some("{"@),
            LineNode::Interp(ExprForm::Var(n), _) => texts(n),
            LineNode::Interp(_, _) => None,
        };
        match head {
            Some(a) => match render_lines(fs.drop_first(), texts) {
                Some(b) => Some(a + b),
                None => None,
            },
            None => None,
        }
    }
}

/// A node of a body made of text lines, `@block NAME:` sections and
/// `@message ROLE:` sections, by its text.
pub enum BodyForm {
    Line(LineNode),
    Block(Seq<char>, Seq<BodyForm>, int),
    Message(Seq<char>, Seq<BodyForm>, int),
}

/// The forms of text-line nodes, as body forms.
pub open spec fn line_forms(a: Seq<LineNode>) -> Seq<BodyForm> {
    a.map_values(|x: LineNode| BodyForm::Line(x))
}

/// `@block` or `@message` opens a section on the line at `p` (ending its
/// content at `c`): which one, the bounds of its name and the position
/// after the keyword.
pub open spec fn section_at(s: Seq<char>, p: int, c: int) -> Option<(bool, int, int)> {
    if keyword_spec(s, p, c, "block"@) is Some {
        match name_colon_spec(s, keyword_spec(s, p, c, "block"@)->Some_0, c) {
            Some((ns, ne)) => Some((true, ns, ne)),
            None => None,
        }
    } else {
        match name_colon_spec(s, keyword_spec(s, p, c, "message"@)->Some_0, c) {
            Some((ns, ne)) => Some((false, ns, ne)),
            None => None,
        }
    }
}

/// The line at `p` begins with a directive this grammar leaves out.
pub open spec fn other_directive(s: Seq<char>, p: int, c: int) -> bool {
    keyword_spec(s, p, c, "else"@) is Some || keyword_spec(s, p, c, "elseif"@) is Some
        || keyword_spec(s, p, c, "define"@) is Some || keyword_spec(s, p, c, "if"@) is Some
        || keyword_spec(s, p, c, "for"@) is Some || keyword_spec(s, p, c, "import"@) is Some
        || keyword_spec(s, p, c, "export"@) is Some || keyword_spec(s, p, c, "include"@) is Some
        || keyword_spec(s, p, c, "extends"@) is Some
}

/// The body from `p` on, in the grammar of text lines and `@block` /
/// `@message` sections: its forms, where it ends, and whether an `@end`
/// line ended it (else the source did). `None` when a line is malformed or
/// holds another directive.
pub open spec fn items_from(s: Seq<char>, p: int) -> Option<(Seq<BodyForm>, int, bool)>
    decreases s.len() - p,
{
    if p < 0 || p >= s.len() {
        Some((Seq::empty(), p, false))
    } else if !(p < next_line(s, p) <= s.len()) {
        None
    } else if p < content_end(s, p) && s[p] == '@' {
        let c = content_end(s, p);
        if keyword_spec(s, p, c, "end"@) is Some {
            if at_end_spec(s, keyword_spec(s, p, c, "end"@)->Some_0, c) {
                Some((Seq::empty(), next_line(s, p), true))
            } else {
                None
            }
        } else if other_directive(s, p, c) {
            None
        } else if keyword_spec(s, p, c, "block"@) is Some || keyword_spec(s, p, c, "message"@) is Some {
            match section_at(s, p, c) {
                None => None,
                Some((is_block, ns, ne)) => match items_from(s, next_line(s, p)) {
                    Some((inner, after, true)) => if p < after <= s.len() {
                        match items_from(s, after) {
                            Some((rest, e, t)) => Some((seq![if is_block {
                                BodyForm::Block(s.subrange(ns, ne), inner, p)
                            } else {
                                BodyForm::Message(s.subrange(ns, ne), inner, p)
                            }] + rest, e, t)),
                            None => None,
                        }
                    } else {
                        None
                    },
                    _ => None,
                },
            }
        } else {
            match line_from(s, p, p, next_line(s, p)) {
                Some(a) => match items_from(s, next_line(s, p)) {
                    Some((rest, e, t)) => Some((line_forms(a) + rest, e, t)),
                    None => None,
                },
                None => None,
            }
        }
    } else {
        match line_from(s, p, p, next_line(s, p)) {
            Some(a) => match items_from(s, next_line(s, p)) {
                Some((rest, e, t)) => Some((line_forms(a) + rest, e, t)),
                None => None,
            },
            None => None,
        }
    }
}

/// The node `n` is the body form `f`.
pub open spec fn body_node_is(n: Node, f: BodyForm) -> bool
    decreases f,
{
    match f {
        BodyForm::Line(l) => node_is(n, l),
        BodyForm::Block(name, inner, off) => n matches Node::Block(b) && b.name@ == name && b.offset == off
            && b.body@.len() == inner.len()
            && forall|j: int| 0 <= j < inner.len() ==> body_node_is(#[trigger] b.body@[j], inner[j]),
        BodyForm::Message(role, inner, off) => n matches Node::Message(m) && m.role@ == role && m.offset == off
            && m.body@.len() == inner.len()
            && forall|j: int| 0 <= j < inner.len() ==> body_node_is(#[trigger] m.body@[j], inner[j]),
    }
}

/// The nodes `ns` are the body forms `fs`, one by one.
pub open spec fn bodies_are(ns: Seq<Node>, fs: Seq<BodyForm>) -> bool {
    ns.len() == fs.len() && forall|j: int| 0 <= j < fs.len() ==> body_node_is(#[trigger] ns[j], fs[j])
}

/// `acc` before the forms of `r`.
pub open spec fn with_items(acc: Seq<BodyForm>, r: Option<(Seq<BodyForm>, int, bool)>) -> Option<(Seq<BodyForm>, int, bool)> {
    match r {
        Some((fs, e, t)) => Some((acc + fs, e, t)),
        None => None,
    }
}

/// What body forms render to with the variable texts `texts`, in a scope
/// without functions or namespaces: text lines as [`render_lines`] says,
/// `@block` sections as their bodies; `None` for an `@message` section or
/// a line that does not render.
pub open spec fn render_items(fs: Seq<BodyForm>, texts: spec_fn(Seq<char>) -> Option<Seq<char>>) -> Option<Seq<char>>
    decreases fs,
{
    if fs.len() == 0 {
        Some(Seq::empty())
    } else {
        let head = match fs[0] {
            BodyForm::Line(l) => render_lines(seq![l], texts),
            BodyForm::Block(_, inner, _) => render_items(inner, texts),
            BodyForm::Message(_, _, _) => None,
        };
        match head {
            Some(a) => match render_items(fs.drop_first(), texts) {
                Some(b) => Some(a + b),
                None => None,
            },
            None => None,
        }
    }
}

/// The messages body forms give in messages mode: each top-level
/// `@message` section with its role and its rendered body without
/// surrounding whitespace; other forms must render and give none.
pub open spec fn items_messages(fs: Seq<BodyForm>, texts: spec_fn(Seq<char>) -> Option<Seq<char>>) -> Option<Seq<(Seq<char>, Seq<char>)>>
    decreases fs.len(),
{
    if fs.len() == 0 {
        Some(Seq::empty())
    } else {
        let head = match fs[0] {
            BodyForm::Message(role, inner, _) => match render_items(inner, texts) {
                Some(t) => Some(seq![(role, trim(t))]),
                None => None,
            },
            f => match render_items(seq![f], texts) {
                Some(_) => Some(Seq::empty()),
                None => None,
            },
        };
        match head {
            Some(h) => match items_messages(fs.drop_first(), texts) {
                Some(r) => Some(h + r),
                None => None,
            },
            None => None,
        }
    }
}

fn syntax(src: &Src, message: &str, offset: usize, length: usize) -> (e: MdsError)
    ensures
        e matches MdsError::Syntax { message: m, span: Some(sp) } && m@ == message@
            && sp == span_in(src.source@, offset, length),
{
    MdsError::syntax_at(message, src.source, offset, length)
}

fn skip_ws(v: &Vec<char>, i: usize, b: usize) -> (r: usize)
    requires
        i <= b <= v@.len(),
    ensures
        i <= r <= b,
        r == skip_spec(v@, i as int, b as int),
{
    let mut k = i;
    while k < b && ws(v[k])
        invariant
            i <= k <= b <= v@.len(),
            skip_spec(v@, k as int, b as int) == skip_spec(v@, i as int, b as int),
        decreases b - k,
    {
        k = k + 1;
    }
    k
}

fn is_word_char(c: char) -> (r: bool)
    ensures
        r == is_word(c),
{
    ('a' <= c && c <= 'z') || ('A' <= c && c <= 'Z') || ('0' <= c && c <= '9') || c == '_'
}

fn word_end(v: &Vec<char>, i: usize, b: usize) -> (r: usize)
    requires
        i <= b <= v@.len(),
    ensures
        i <= r <= b,
        r == word_end_spec(v@, i as int, b as int),
{
    let mut k = i;
    while k < b && is_word_char(v[k])
        invariant
            i <= k <= b <= v@.len(),
            word_end_spec(v@, k as int, b as int) == word_end_spec(v@, i as int, b as int),
        decreases b - k,
    {
        k = k + 1;
    }
    k
}

/// The line `[a, b)` begins with `@word` followed by a non-word character
/// or the end of the line; the position after the keyword.
fn keyword(v: &Vec<char>, a: usize, b: usize, word: &str) -> (r: Option<usize>)
    requires
        a <= b <= v@.len(),
    ensures
        r matches Some(p) ==> a < p <= b,
        r matches Some(p) ==> keyword_spec(v@, a as int, b as int, word@) == Some(p as int),
        r is None ==> keyword_spec(v@, a as int, b as int, word@) is None,
{
    if a >= b || v[a] != '@' {
        return None;
    }
    let w = chars_of(word);
    if w.len() == 0 || w.len() > b - a - 1 {
        return None;
    }
    if !matches_at(v, a + 1, &w) {
        proof {
            let p = a + 1 + w@.len();
            if v@.subrange(a + 1, p as int) == w@ {
                assert(v@.subrange(a + 1, v@.len() as int).subrange(0, w@.len() as int) =~= v@.subrange(a + 1, p as int));
            }
        }
        return None;
    }
    let p = a + 1 + w.len();
    assert(v@.subrange(a + 1, v@.len() as int).subrange(0, w@.len() as int) =~= v@.subrange(a + 1, p as int));
    if p < b && is_word_char(v[p]) {
        return None;
    }
    Some(p)
}

/// A `"..."` literal starting at `i` (after optional whitespace): the bounds
/// of its content and the position after it.
fn quoted(v: &Vec<char>, i: usize, b: usize) -> (r: Option<(usize, usize, usize)>)
    requires
        i <= b <= v@.len(),
    ensures
        r matches Some((s, e, p)) ==> i <= s <= e < p <= b,
        r matches Some((s, e, p)) ==> quoted_spec(v@, i as int, b as int) == Some((s as int, e as int, p as int)),
        r is None ==> quoted_spec(v@, i as int, b as int) is None,
{
    let k = skip_ws(v, i, b);
    if k >= b || v[k] != '"' {
        return None;
    }
    let mut e = k + 1;
    while e < b && v[e] != '"'
        invariant
            k < e <= b <= v@.len(),
            quote_end(v@, e as int, b as int) == quote_end(v@, k + 1, b as int),
        decreases b - e,
    {
        e = e + 1;
    }
    if e >= b {
        return None;
    }
    Some((k + 1, e, e + 1))
}

/// An identifier starting at `i` (after optional whitespace).
fn ident(v: &Vec<char>, i: usize, b: usize) -> (r: Option<(usize, usize)>)
    requires
        i <= b <= v@.len(),
    ensures
        r matches Some((s, e)) ==> i <= s < e <= b,
        r matches Some((s, e)) ==> ident_spec(v@, i as int, b as int) == Some((s as int, e as int)),
        r is None ==> ident_spec(v@, i as int, b as int) is None,
{
    let s = skip_ws(v, i, b);
    let e = word_end(v, s, b);
    if s < e && is_identifier_at(v, s, e) {
        Some((s, e))
    } else {
        None
    }
}

/// Only whitespace remains in `[i, b)`.
fn at_end(v: &Vec<char>, i: usize, b: usize) -> (r: bool)
    requires
        i <= b <= v@.len(),
    ensures
        r == at_end_spec(v@, i as int, b as int),
{
    skip_ws(v, i, b) == b
}

/// The next non-whitespace character in `[i, b)` is `c`; the position after it.
fn expect(v: &Vec<char>, i: usize, b: usize, c: char) -> (r: Option<usize>)
    requires
        i <= b <= v@.len(),
    ensures
        r matches Some(p) ==> i < p <= b,
        r matches Some(p) ==> expect_spec(v@, i as int, b as int, c) == Some(p as int),
        r is None ==> expect_spec(v@, i as int, b as int, c) is None,
{
    let k = skip_ws(v, i, b);
    if k < b && v[k] == c {
        Some(k + 1)
    } else {
        None
    }
}

/// A word (letters, digits, `_`) equal to `w` at `i` after whitespace.
fn expect_word(v: &Vec<char>, i: usize, b: usize, w: &str) -> (r: Option<usize>)
    requires
        i <= b <= v@.len(),
    ensures
        r matches Some(p) ==> i <= p <= b,
        r matches Some(p) ==> expect_word_spec(v@, i as int, b as int, w@) == Some(p as int),
        r is None ==> expect_word_spec(v@, i as int, b as int, w@) is None,
{
    let s = skip_ws(v, i, b);
    let e = word_end(v, s, b);
    let wc = chars_of(w);
    if e - s == wc.len() && matches_at(v, s, &wc) {
        assert(v@.subrange(s as int, v@.len() as int).subrange(0, wc@.len() as int) =~= v@.subrange(s as int, e as int));
        Some(e)
    } else {
        proof {
            if e - s == wc@.len() {
                assert(v@.subrange(s as int, v@.len() as int).subrange(0, wc@.len() as int) =~= v@.subrange(s as int, e as int));
            }
        }
        None
    }
}

/// `NAME:` at `i`, then nothing: the name's bounds.
fn name_colon(v: &Vec<char>, i: usize, b: usize) -> (r: Option<(usize, usize)>)
    requires
        i <= b <= v@.len(),
    ensures
        r matches Some((s, e)) ==> i <= s < e <= b,
        r matches Some((s, e)) ==> name_colon_spec(v@, i as int, b as int) == Some((s as int, e as int)),
        r is None ==> name_colon_spec(v@, i as int, b as int) is None,
{
    let (s, e) = ident(v, i, b)?;
    let p = expect(v, e, b, ':')?;
    if at_end(v, p, b) {
        Some((s, e))
    } else {
        None
    }
}

/// The condition of `@if COND:` / `@elseif COND:`: the trimmed text before
/// the final `:`.
fn condition(src: &Src, i: usize, b: usize, line: usize, what: &str) -> (r: Result<String, MdsError>)
    requires
        i <= b <= src.v@.len(),
        line <= i,
    ensures
        r matches Ok(x) ==> condition_spec(src.v@, i as int, b as int) == Some(x@),
        r matches Err(e) ==> (condition_spec(src.v@, i as int, b as int) is None
            && (e matches MdsError::Syntax { span: Some(sp), .. } && sp == span_in(src.source@, line, (b - line) as usize))),
{
    let v = &src.v;
    let (s, e) = trim_bounds(v, i, b);
    let ghost t = trim(v@.subrange(i as int, b as int));
    if s < e {
        assert(t.last() == v@[e - 1]);
        assert(v@.subrange(s as int, e - 1) =~= t.drop_last());
    }
    if s == e || v[e - 1] != ':' {
        return Err(syntax(src, "expected ':' at the end of the directive", line, b - line));
    }
    let (cs, ce) = trim_bounds(v, s, e - 1);
    if cs == ce {
        let m = crate::text::cat2(what, " requires a condition");
        return Err(syntax(src, m.as_str(), line, b - line));
    }
    if !is_identifier_at(v, cs, ce) {
        let m = crate::text::cat2(what, " condition must be a variable name");
        return Err(syntax(src, m.as_str(), line, b - line));
    }
    Ok(text_of(v, cs, ce))
}

/// Split `[a, b)` at top-level commas (outside string literals) into
/// trimmed argument bounds.
fn split_args(v: &Vec<char>, a: usize, b: usize) -> (r: Vec<(usize, usize)>)
    requires
        a <= b <= v@.len(),
    ensures
        forall|k: int| 0 <= k < r@.len() ==> a <= (#[trigger] r@[k]).0 <= r@[k].1 <= b,
        r@.len() == arg_pieces(v@, a as int, b as int).len(),
        forall|k: int| 0 <= k < r@.len() ==> v@.subrange((#[trigger] r@[k]).0 as int, r@[k].1 as int)
            == arg_pieces(v@, a as int, b as int)[k],
{
    let mut out: Vec<(usize, usize)> = Vec::new();
    let (ta, tb) = trim_bounds(v, a, b);
    if ta == tb {
        return out;
    }
    let ghost full = pieces_from(v@, a as int, a as int, b as int, false);
    let ghost acc: Seq<Seq<char>> = Seq::empty();
    let mut start = a;
    let mut k = a;
    let mut in_str = false;
    assert(acc + pieces_from(v@, start as int, k as int, b as int, in_str) =~= full);
    while k < b
        invariant
            a <= start <= k <= b <= v@.len(),
            forall|j: int| 0 <= j < out@.len() ==> a <= (#[trigger] out@[j]).0 <= out@[j].1 <= b,
            acc.len() == out@.len(),
            forall|j: int| 0 <= j < out@.len() ==> v@.subrange((#[trigger] out@[j]).0 as int, out@[j].1 as int) == acc[j],
            acc + pieces_from(v@, start as int, k as int, b as int, in_str) == full,
        decreases b - k,
    {
        let c = v[k];
        if c == '"' {
            in_str = !in_str;
        } else if c == ',' && !in_str {
            let (s, e) = trim_bounds(v, start, k);
            let ghost t = trim(v@.subrange(start as int, k as int));
            assert(pieces_from(v@, start as int, k as int, b as int, in_str)
                == seq![t] + pieces_from(v@, (k + 1) as int, (k + 1) as int, b as int, in_str));
            assert(acc.push(t) + pieces_from(v@, (k + 1) as int, (k + 1) as int, b as int, in_str)
                =~= acc + (seq![t] + pieces_from(v@, (k + 1) as int, (k + 1) as int, b as int, in_str)));
            out.push((s, e));
            proof {
                acc = acc.push(t);
            }
            start = k + 1;
        }
        k = k + 1;
    }
    let (s, e) = trim_bounds(v, start, b);
    proof {
        assert(pieces_from(v@, start as int, k as int, b as int, in_str) == seq![trim(v@.subrange(start as int, b as int))]);
        acc = acc.push(trim(v@.subrange(start as int, b as int)));
    }
    out.push((s, e));
    assert(acc =~= full);
    out
}

fn parse_arg(src: &Src, s: usize, e: usize, at: usize) -> (r: Result<Arg, MdsError>)
    requires
        s <= e <= src.v@.len(),
    ensures
        is_str_lit(src.v@.subrange(s as int, e as int)) ==> (r matches Ok(Arg::Str(x))
            && x@ == src.v@.subrange(s + 1, e - 1)),
        !is_str_lit(src.v@.subrange(s as int, e as int)) && is_identifier(src.v@.subrange(s as int, e as int))
            ==> (r matches Ok(Arg::Var(x)) && x@ == src.v@.subrange(s as int, e as int)),
        !is_str_lit(src.v@.subrange(s as int, e as int)) && !is_identifier(src.v@.subrange(s as int, e as int))
            ==> r matches Err(MdsError::Syntax { .. }),
{
    let ghost t = src.v@.subrange(s as int, e as int);
    proof {
        if e - s >= 2 {
            assert(t[0] == src.v@[s as int]);
            assert(t.last() == src.v@[e - 1]);
        }
    }
    let v = &src.v;
    if e - s >= 2 && v[s] == '"' && v[e - 1] == '"' {
        return Ok(Arg::Str(text_of(v, s + 1, e - 1)));
    }
    if s < e && is_identifier_at(v, s, e) {
        return Ok(Arg::Var(text_of(v, s, e)));
    }
    Err(syntax(src, "invalid argument: expected a variable name or a string literal", at, e - s))
}

/// The expression between the braces `[a, b)` of an interpolation at `at`.
#[verifier::loop_isolation(false)]
fn parse_expr(src: &Src, a: usize, b: usize, at: usize) -> (r: Result<Expr, MdsError>)
    requires
        a <= b <= src.v@.len(),
    ensures
        match expr_form(src.v@, a as int, b as int) {
            None => r matches Err(MdsError::Syntax { .. }),
            Some(f) => r matches Ok(x) && expr_is(x, f),
        },
{
    let v = &src.v;
    let (s, e) = trim_bounds(v, a, b);
    assert(s == trim_start(v@, a as int, b as int));
    assert(e == trim_end(v@, a as int, b as int));
    // plain variable
    if s < e && is_identifier_at(v, s, e) {
        return Ok(Expr::Var(text_of(v, s, e)));
    }
    // call: NAME(args) or NS.NAME(args)
    let ne = word_end(v, s, e);
    if ne == s || !is_identifier_at(v, s, ne) {
        return Err(syntax(src, "invalid expression", at, b - a));
    }
    let mut qualified: Option<(usize, usize)> = None;
    let mut p = ne;
    if p < e && v[p] == '.' {
        let n2 = word_end(v, p + 1, e);
        if n2 == p + 1 || !is_identifier_at(v, p + 1, n2) {
            return Err(syntax(src, "invalid expression", at, b - a));
        }
        qualified = Some((p + 1, n2));
        p = n2;
    }
    let p = skip_ws(v, p, e);
    if p >= e || v[p] != '(' || v[e - 1] != ')' || e - 1 < p + 1 {
        return Err(syntax(src, "invalid expression", at, b - a));
    }
    let bounds = split_args(v, p + 1, e - 1);
    let mut args: Vec<Arg> = Vec::new();
    let mut k: usize = 0;
    let ghost ps = arg_pieces(v@, p + 1, e - 1);
    while k < bounds.len()
        invariant
            k <= bounds@.len(),
            forall|j: int| 0 <= j < bounds@.len() ==> p + 1 <= (#[trigger] bounds@[j]).0 <= bounds@[j].1 <= e - 1,
            bounds@.len() == ps.len(),
            forall|j: int| 0 <= j < bounds@.len() ==> v@.subrange((#[trigger] bounds@[j]).0 as int, bounds@[j].1 as int) == ps[j],
            e <= v@.len(),
            src.v@ == v@,
            args@.len() == k,
            forall|j: int| 0 <= j < k ==> arg_is(#[trigger] args@[j], ps[j]) && valid_arg(ps[j]),
        decreases bounds@.len() - k,
    {
        let (x, y) = bounds[k];
        assert(v@.subrange(x as int, y as int) == ps[k as int]);
        let arg = match parse_arg(src, x, y, at) {
            Ok(arg) => arg,
            Err(err) => {
                assert(!valid_arg(ps[k as int]));
                return Err(err);
            },
        };
        let ghost before = args@;
        let ghost ga = arg;
        args.push(arg);
        proof {
            assert(args@ == before.push(ga));
            assert(arg_is(ga, ps[k as int]) && valid_arg(ps[k as int])) by {
                if is_str_lit(ps[k as int]) {
                    assert(ps[k as int].subrange(1, ps[k as int].len() - 1) =~= v@.subrange(x + 1, y - 1));
                }
            }
            assert forall|j: int| 0 <= j < k + 1 implies arg_is(#[trigger] args@[j], ps[j]) && valid_arg(ps[j]) by {
                if j < k {
                    assert(args@[j] == before[j]);
                } else {
                    assert(args@[j] == arg);
                    assert(v@.subrange(x as int, y as int) == ps[j]);
                    if is_str_lit(ps[j]) {
                        assert(ps[j].subrange(1, ps[j].len() - 1) =~= v@.subrange(x + 1, y - 1));
                    }
                }
            }
        }
        k = k + 1;
    }
    assert(args_are(args@, ps));
    assert forall|j: int| 0 <= j < ps.len() implies valid_arg(#[trigger] ps[j]) by {
        assert(arg_is(args@[j], ps[j]));
    }
    match qualified {
        None => Ok(Expr::Call { name: text_of(v, s, ne), args: Arc::new(args) }),
        Some((qs, qe)) => Ok(Expr::QualifiedCall {
            namespace: text_of(v, s, ne),
            name: text_of(v, qs, qe),
            args: Arc::new(args),
        }),
    }
}

/// The text line `[a, b)` (its newline included) as text, escaped braces
/// and interpolations.
fn parse_text_line(src: &Src, a: usize, b: usize, out: &mut Vec<Node>) -> (r: Result<(), MdsError>)
    requires
        a <= b <= src.v@.len(),
    ensures
        final(out)@.len() >= old(out)@.len(),
        forall|j: int| 0 <= j < old(out)@.len() ==> #[trigger] final(out)@[j] == old(out)@[j],
        match line_from(src.v@, a as int, a as int, b as int) {
            None => r matches Err(MdsError::Syntax { .. }),
            Some(ns) => r is Ok && final(out)@.len() == old(out)@.len() + ns.len()
                && forall|j: int| 0 <= j < ns.len() ==> node_is(#[trigger] final(out)@[old(out)@.len() + j], ns[j]),
        },
{
    let v = &src.v;
    let mut start = a;
    let mut k = a;
    let ghost n0 = out@.len();
    let ghost acc: Seq<LineNode> = Seq::empty();
    proof {
        match line_from(v@, a as int, a as int, b as int) {
            Some(r) => {
                assert(acc + r =~= r);
            },
            None => {},
        }
    }
    while k < b
        invariant
            a <= start <= k <= b <= v@.len(),
            src.v@ == v@,
            out@.len() == n0 + acc.len(),
            n0 == old(out)@.len(),
            forall|j: int| 0 <= j < n0 ==> #[trigger] out@[j] == old(out)@[j],
            forall|j: int| 0 <= j < acc.len() ==> node_is(#[trigger] out@[n0 + j], acc[j]),
            with_line(acc, line_from(v@, start as int, k as int, b as int)) == line_from(v@, a as int, a as int, b as int),
        decreases b - k,
    {
        let ghost before = out@;
        let ghost pt = pending_text(v@, start as int, k as int);
        if v[k] == '\\' && k + 1 < b && v[k + 1] == '{' {
            if start < k {
                out.push(Node::Text(TextNode { text: text_of(v, start, k) }));
            }
            out.push(Node::EscapedBrace);
            proof {
                let ghost tail = line_from(v@, (k + 2) as int, (k + 2) as int, b as int);
                let nacc = acc + pt + seq![LineNode::Escaped];
                match tail {
                    Some(r) => {
                        assert(nacc + r =~= acc + (pt + seq![LineNode::Escaped] + r));
                    },
                    None => {},
                }
                assert forall|j: int| 0 <= j < nacc.len() implies node_is(#[trigger] out@[n0 + j], nacc[j]) by {
                    if j < acc.len() {
                        assert(out@[n0 + j] == before[n0 + j]);
                    }
                }
                assert forall|j: int| 0 <= j < n0 implies #[trigger] out@[j] == old(out)@[j] by {
                    assert(out@[j] == before[j]);
                }
                acc = nacc;
            }
            k = k + 2;
            start = k;
        } else if v[k] == '{' {
            if start < k {
                out.push(Node::Text(TextNode { text: text_of(v, start, k) }));
            }
            let ghost mid = out@;
            let mut c = k + 1;
            while c < b && v[c] != '}' && v[c] != '\n'
                invariant
                    k < c <= b <= v@.len(),
                    brace_end(v@, c as int, b as int) == brace_end(v@, k + 1, b as int),
                decreases b - c,
            {
                c = c + 1;
            }
            if c >= b || v[c] != '}' {
                proof {
                    assert forall|j: int| 0 <= j < n0 implies #[trigger] out@[j] == old(out)@[j] by {
                        assert(out@[j] == before[j]);
                    }
                }
                return Err(syntax(src, "unclosed '{' in text", k, c - k));
            }
            let expr = match parse_expr(src, k + 1, c, k) {
                Ok(x) => x,
                Err(err) => {
                    proof {
                        assert forall|j: int| 0 <= j < n0 implies #[trigger] out@[j] == old(out)@[j] by {
                            assert(out@[j] == before[j]);
                        }
                    }
                    return Err(err);
                },
            };
            out.push(Node::Interpolation(Interpolation { expr, offset: k }));
            proof {
                let f = expr_form(v@, k + 1, c as int)->Some_0;
                let tail = line_from(v@, (c + 1) as int, (c + 1) as int, b as int);
                let nacc = acc + pt + seq![LineNode::Interp(f, k as int)];
                match tail {
                    Some(r) => {
                        assert(nacc + r =~= acc + (pt + seq![LineNode::Interp(f, k as int)] + r));
                    },
                    None => {},
                }
                assert forall|j: int| 0 <= j < nacc.len() implies node_is(#[trigger] out@[n0 + j], nacc[j]) by {
                    if j < acc.len() {
                        assert(out@[n0 + j] == before[n0 + j]);
                    } else if j < acc.len() + pt.len() {
                        assert(out@[n0 + j] == mid[n0 + j]);
                    }
                }
                assert forall|j: int| 0 <= j < n0 implies #[trigger] out@[j] == old(out)@[j] by {
                    assert(out@[j] == before[j]);
                }
                acc = nacc;
            }
            k = c + 1;
            start = k;
        } else {
            k = k + 1;
        }
    }
    let ghost before = out@;
    if start < b {
        out.push(Node::Text(TextNode { text: text_of(v, start, b) }));
    }
    proof {
        let nacc = acc + pending_text(v@, start as int, b as int);
        assert forall|j: int| 0 <= j < nacc.len() implies node_is(#[trigger] out@[n0 + j], nacc[j]) by {
            if j < acc.len() {
                assert(out@[n0 + j] == before[n0 + j]);
            }
        }
        assert forall|j: int| 0 <= j < n0 implies #[trigger] out@[j] == old(out)@[j] by {
            assert(out@[j] == before[j]);
        }
    }
    Ok(())
}

/// The end of the line at `pos`: the index of its `\n` (or the end), the
/// end of its content without `\r`, and where the next line starts.
fn line_bounds(v: &Vec<char>, pos: usize) -> (r: (usize, usize, usize))
    requires
        pos < v@.len(),
    ensures
        pos <= r.1 <= r.0 <= v@.len(),
        pos < r.2 <= v@.len(),
        r.0 <= r.2,
        r.0 == nl_at(v@, pos as int),
        r.1 == content_end(v@, pos as int),
        r.2 == next_line(v@, pos as int),
{
    let mut e = pos;
    while e < v.len() && v[e] != '\n'
        invariant
            pos <= e <= v@.len(),
            nl_at(v@, e as int) == nl_at(v@, pos as int),
        decreases v@.len() - e,
    {
        e = e + 1;
    }
    let c = if e > pos && v[e - 1] == '\r' { e - 1 } else { e };
    let next = if e < v.len() { e + 1 } else { e };
    (e, c, next)
}

/// The end of a directive body: it must be closed by `@end`.
fn need_end(src: &Src, t: &Terminator, what: &str, at: usize) -> (r: Result<(), MdsError>)
    ensures
        r matches Err(e) ==> e is Syntax,
        r is Ok <==> t is End,
{
    match t {
        Terminator::End => Ok(()),
        Terminator::Eof => {
            let m = crate::text::cat3("unterminated ", what, ": missing @end");
            Err(syntax(src, m.as_str(), at, 1))
        },
        _ => {
            let m = crate::text::cat3("unexpected @else in ", what, "");
            Err(syntax(src, m.as_str(), at, 1))
        },
    }
}

/// Parse body lines from `pos` until `@end`, `@else:`, `@elseif` or the end
/// of the source. `top` allows `@extends`.
#[verifier::loop_isolation(false)]
#[verifier::spinoff_prover]
#[verifier::rlimit(100)]
fn parse_body(src: &Src, pos: usize, top: bool, extends: &mut Option<ExtendsDirective>) -> (r: Result<(Vec<Node>, usize, Terminator), MdsError>)
    requires
        pos <= src.v@.len(),
    ensures
        r matches Err(e) ==> e is Syntax,
        r matches Ok((_, p, t)) ==> pos <= p <= src.v@.len() && (!(t is Eof) ==> pos < p),
        no_markup(src.v@, pos as int, src.v@.len() as int) ==> (r matches Ok((ns, p, t)) && t is Eof && p == src.v@.len()
            && text_of_nodes(ns@) == Some(src.v@.subrange(pos as int, src.v@.len() as int))
            && *final(extends) == *old(extends)),
        no_at(src.v@, pos as int, src.v@.len() as int) ==> match lines_from(src.v@, pos as int) {
            Some(fs) => r matches Ok((ns, p, t)) && t is Eof && p == src.v@.len() && nodes_are(ns@, fs)
                && *final(extends) == *old(extends),
            None => r matches Err(MdsError::Syntax { .. }),
        },
        items_from(src.v@, pos as int) matches Some((fs, e, ended)) ==> (r matches Ok((ns, p, t)) && bodies_are(ns@, fs)
            && p == e && (t is End <==> ended) && (!ended ==> t is Eof) && *final(extends) == *old(extends)),
    decreases src.v@.len() - pos,
{
    let v = &src.v;
    let n = v.len();
    let mut nodes: Vec<Node> = Vec::new();
    let mut p = pos;
    let ghost sec = items_from(v@, pos as int) is Some;
    let ghost mut bacc: Seq<BodyForm> = Seq::empty();
    proof {
        match items_from(v@, pos as int) {
            Some((fs, e, t)) => {
                assert(bacc + fs =~= fs);
            },
            None => {},
        }
    }
    let ghost plain = no_markup(v@, pos as int, n as int);
    let ghost bare = no_at(v@, pos as int, n as int);
    let ghost mut acc: Seq<LineNode> = Seq::empty();
    proof {
        match lines_from(v@, pos as int) {
            Some(fs) => {
                assert(acc + fs =~= fs);
            },
            None => {},
        }
    }
    assert(v@.subrange(pos as int, pos as int) =~= Seq::<char>::empty());
    while p < n
        invariant
            pos <= p <= n == v@.len(),
            src.v@ == v@,
            plain == no_markup(v@, pos as int, n as int),
            plain ==> text_of_nodes(nodes@) == Some(v@.subrange(pos as int, p as int)),
            plain ==> *extends == *old(extends),
            bare == no_at(v@, pos as int, n as int),
            bare ==> *extends == *old(extends),
            bare ==> with_line(acc, lines_from(v@, p as int)) == lines_from(v@, pos as int),
            bare ==> nodes_are(nodes@, acc),
            sec == items_from(v@, pos as int) is Some,
            sec ==> *extends == *old(extends),
            sec ==> with_items(bacc, items_from(v@, p as int)) == items_from(v@, pos as int),
            sec ==> bodies_are(nodes@, bacc),
        decreases n - p,
    {
        let (_e, c, next) = line_bounds(v, p);
        let a = skip_ws(v, p, c);
        proof {
            if sec {
                assert(items_from(v@, p as int) is Some);
                if p < c && v@[p as int] == '@' {
                    assert(a == p);
                }
            }
        }
        if a < c && v[a] == '@' && a == p {
            if let Some(k) = keyword(v, a, c, "end") {
                if !at_end(v, k, c) {
                    return Err(syntax(src, "unexpected text after @end", p, c - p));
                }
                proof {
                    if sec {
                        assert(items_from(v@, p as int) == Some((Seq::<BodyForm>::empty(), next as int, true)));
                        assert(bacc + Seq::<BodyForm>::empty() =~= bacc);
                    }
                }
                return Ok((nodes, next, Terminator::End));
            }
            if let Some(k) = keyword(v, a, c, "else") {
                match expect(v, k, c, ':') {
                    Some(q) if at_end(v, q, c) => {
                        return Ok((nodes, next, Terminator::Else));
                    },
                    _ => {
                        return Err(syntax(src, "expected '@else:'", p, c - p));
                    },
                }
            }
            if let Some(k) = keyword(v, a, c, "elseif") {
                let cond = condition(src, k, c, p, "@elseif")?;
                return Ok((nodes, next, Terminator::ElseIf(cond)));
            }
            if let Some(k) = keyword(v, a, c, "block") {
                let (ns, ne) = match name_colon(v, k, c) {
                    Some(x) => x,
                    None => {
                        return Err(syntax(src, "expected '@block NAME:'", p, c - p));
                    },
                };
                let (body, after, t) = parse_body(src, next, false, extends)?;
                need_end(src, &t, "@block", p)?;
                let ghost before = nodes@;
                let ghost gbody = body@;
                nodes.push(Node::Block(BlockNode { name: text_of(v, ns, ne), body: Arc::new(body), offset: p }));
                proof {
                    if sec {
                        let inner = items_from(v@, next as int)->Some_0.0;
                        let rest = items_from(v@, after as int);
                        let f = BodyForm::Block(v@.subrange(ns as int, ne as int), inner, p as int);
                        assert(section_at(v@, p as int, c as int) == Some((true, ns as int, ne as int)));
                        assert(items_from(v@, p as int) == with_items(seq![f], rest));
                        match rest {
                            Some((rr, ee, tt)) => {
                                assert(bacc.push(f) + rr =~= bacc + (seq![f] + rr));
                            },
                            None => {},
                        }
                        assert(nodes@[before.len() as int] == nodes@.last());
                        assert(body_node_is(nodes@[before.len() as int], f));
                        assert forall|j: int| 0 <= j < bacc.len() + 1 implies body_node_is(#[trigger] nodes@[j], bacc.push(f)[j]) by {
                            if j < bacc.len() {
                                assert(nodes@[j] == before[j]);
                            }
                        }
                        bacc = bacc.push(f);
                    }
                }
                p = after;
                continue;
            }
            if let Some(k) = keyword(v, a, c, "define") {
                let (ns, ne) = match ident(v, k, c) {
                    Some(x) => x,
                    None => {
                        return Err(syntax(src, "expected '@define NAME(PARAMS):'", p, c - p));
                    },
                };
                let open = match expect(v, ne, c, '(') {
                    Some(q) => q,
                    None => {
                        return Err(syntax(src, "expected '(' after the function name", p, c - p));
                    },
                };
                let mut close = open;
                while close < c && v[close] != ')'
                    invariant
                        open <= close <= c <= v@.len(),
                    decreases c - close,
                {
                    close = close + 1;
                }
                if close >= c {
                    return Err(syntax(src, "expected ')' after the parameters", p, c - p));
                }
                match expect(v, close + 1, c, ':') {
                    Some(q) if at_end(v, q, c) => {},
                    _ => {
                        return Err(syntax(src, "expected ':' after the parameters", p, c - p));
                    },
                }
                let bounds = split_args(v, open, close);
                let mut params: Vec<String> = Vec::new();
                let mut j: usize = 0;
                while j < bounds.len()
                    invariant
                        j <= bounds@.len(),
                        forall|t: int| 0 <= t < bounds@.len() ==> open <= (#[trigger] bounds@[t]).0 <= bounds@[t].1 <= close,
                        close <= v@.len(),
                        src.v@ == v@,
                    decreases bounds@.len() - j,
                {
                    let (x, y) = bounds[j];
                    if x == y || !is_identifier_at(v, x, y) {
                        return Err(syntax(src, "parameters must be identifiers", p, c - p));
                    }
                    params.push(text_of(v, x, y));
                    j = j + 1;
                }
                let (body, after, t) = parse_body(src, next, false, extends)?;
                need_end(src, &t, "@define", p)?;
                nodes.push(Node::Define(DefineBlock {
                    name: text_of(v, ns, ne),
                    params: Arc::new(params),
                    body: Arc::new(body),
                    offset: p,
                }));
                p = after;
                continue;
            }
            if let Some(k) = keyword(v, a, c, "if") {
                let cond = condition(src, k, c, p, "@if")?;
                let (then_body, mut after, mut t) = parse_body(src, next, false, extends)?;
                let mut branches: Vec<(String, Arc<Vec<Node>>)> = Vec::new();
                let mut else_body: Option<Arc<Vec<Node>>> = None;
                loop
                    invariant
                        next <= after <= v@.len(),
                        src.v@ == v@,
                        pos < next,
                    decreases v@.len() - after, if t is ElseIf { 1nat } else { 0nat },
                {
                    match t {
                        Terminator::End => {
                            break;
                        },
                        Terminator::Eof => {
                            return Err(syntax(src, "unterminated @if: missing @end", p, c - p));
                        },
                        Terminator::ElseIf(bc) => {
                            let (b, a2, t2) = parse_body(src, after, false, extends)?;
                            branches.push((bc, Arc::new(b)));
                            after = a2;
                            t = t2;
                        },
                        Terminator::Else => {
                            let (b, a2, t2) = parse_body(src, after, false, extends)?;
                            need_end(src, &t2, "@else", p)?;
                            else_body = Some(Arc::new(b));
                            after = a2;
                            break;
                        },
                    }
                }
                nodes.push(Node::If(IfBlock {
                    condition: cond,
                    then_body: Arc::new(then_body),
                    elseif_branches: Arc::new(branches),
                    else_body,
                    offset: p,
                }));
                p = after;
                continue;
            }
            if let Some(k) = keyword(v, a, c, "for") {
                let parsed = match ident(v, k, c) {
                    Some((vs, ve)) => match expect_word(v, ve, c, "in") {
                        Some(q) => match name_colon(v, q, c) {
                            Some((is, ie)) => Some((vs, ve, is, ie)),
                            None => None,
                        },
                        None => None,
                    },
                    None => None,
                };
                let (vs, ve, is, ie) = match parsed {
                    Some(x) => x,
                    None => {
                        return Err(syntax(src, "expected '@for VAR in ITERABLE:'", p, c - p));
                    },
                };
                let (body, after, t) = parse_body(src, next, false, extends)?;
                need_end(src, &t, "@for", p)?;
                nodes.push(Node::For(ForBlock {
                    var: text_of(v, vs, ve),
                    iterable: text_of(v, is, ie),
                    body: Arc::new(body),
                    offset: p,
                }));
                p = after;
                continue;
            }
            if let Some(k) = keyword(v, a, c, "message") {
                let (rs, re) = match name_colon(v, k, c) {
                    Some(x) => x,
                    None => {
                        return Err(syntax(src, "expected '@message ROLE:'", p, c - p));
                    },
                };
                let (body, after, t) = parse_body(src, next, false, extends)?;
                need_end(src, &t, "@message", p)?;
                let ghost before = nodes@;
                let ghost gbody = body@;
                nodes.push(Node::Message(MessageBlock { role: text_of(v, rs, re), body: Arc::new(body), offset: p }));
                proof {
                    if sec {
                        let inner = items_from(v@, next as int)->Some_0.0;
                        let rest = items_from(v@, after as int);
                        let f = BodyForm::Message(v@.subrange(rs as int, re as int), inner, p as int);
                        assert(section_at(v@, p as int, c as int) == Some((false, rs as int, re as int)));
                        assert(items_from(v@, p as int) == with_items(seq![f], rest));
                        match rest {
                            Some((rr, ee, tt)) => {
                                assert(bacc.push(f) + rr =~= bacc + (seq![f] + rr));
                            },
                            None => {},
                        }
                        assert(nodes@[before.len() as int] == nodes@.last());
                        assert(body_node_is(nodes@[before.len() as int], f));
                        assert forall|j: int| 0 <= j < bacc.len() + 1 implies body_node_is(#[trigger] nodes@[j], bacc.push(f)[j]) by {
                            if j < bacc.len() {
                                assert(nodes@[j] == before[j]);
                            }
                        }
                        bacc = bacc.push(f);
                    }
                }
                p = after;
                continue;
            }
            if let Some(k) = keyword(v, a, c, "import") {
                let node = parse_import(src, k, c, p)?;
                nodes.push(node);
                p = next;
                continue;
            }
            if let Some(k) = keyword(v, a, c, "export") {
                let node = parse_export(src, k, c, p)?;
                nodes.push(node);
                p = next;
                continue;
            }
            if let Some(k) = keyword(v, a, c, "include") {
                match ident(v, k, c) {
                    Some((s, e)) if at_end(v, e, c) => {
                        nodes.push(Node::Include(IncludeNode { alias: text_of(v, s, e), offset: p }));
                    },
                    _ => {
                        return Err(syntax(src, "expected '@include ALIAS'", p, c - p));
                    },
                }
                p = next;
                continue;
            }
            if let Some(k) = keyword(v, a, c, "extends") {
                if !top {
                    return Err(syntax(src, "@extends must appear at the top level", p, c - p));
                }
                if extends.is_some() {
                    return Err(syntax(src, "a template may extend only one base", p, c - p));
                }
                match quoted(v, k, c) {
                    Some((s, e, q)) if at_end(v, q, c) => {
                        *extends = Some(ExtendsDirective { path: text_of(v, s, e), offset: p });
                    },
                    _ => {
                        return Err(syntax(src, "expected '@extends \"PATH\"'", p, c - p));
                    },
                }
                p = next;
                continue;
            }
        }
        let ghost before = nodes@;
        proof {
            if plain {
                lemma_line_plain(v@, p as int, p as int, next as int);
            }
        }
        parse_text_line(src, p, next, &mut nodes)?;
        proof {
            if sec {
                let a2 = line_from(v@, p as int, p as int, next as int)->Some_0;
                let lf = line_forms(a2);
                let rest = items_from(v@, next as int);
                assert(items_from(v@, p as int) == with_items(lf, rest));
                match rest {
                    Some((rr, ee, tt)) => {
                        assert(bacc + lf + rr =~= bacc + (lf + rr));
                    },
                    None => {},
                }
                assert forall|j: int| 0 <= j < bacc.len() + lf.len() implies body_node_is(#[trigger] nodes@[j], (bacc + lf)[j]) by {
                    if j < bacc.len() {
                        assert(nodes@[j] == before[j]);
                    } else {
                        assert(node_is(nodes@[before.len() + (j - bacc.len())], a2[j - bacc.len()]));
                    }
                }
                bacc = bacc + lf;
            }
        }
        proof {
            if bare {
                let a = line_from(v@, p as int, p as int, next as int)->Some_0;
                let nacc = acc + a;
                match lines_from(v@, next as int) {
                    Some(b) => {
                        assert(nacc + b =~= acc + (a + b));
                    },
                    None => {},
                }
                assert forall|j: int| 0 <= j < nacc.len() implies node_is(#[trigger] nodes@[j], nacc[j]) by {
                    if j < acc.len() {
                        assert(nodes@[j] == before[j]);
                    } else {
                        assert(node_is(nodes@[before.len() + (j - acc.len())], a[j - acc.len()]));
                    }
                }
                acc = nacc;
            }
        }
        proof {
            if plain {
                let pt = pending_text(v@, p as int, next as int);
                assert(pt.len() == 1);
                assert(node_is(nodes@[before.len() + 0int], pt[0]));
                assert(nodes@ =~= before.push(nodes@[before.len() as int]));
                lemma_text_of_nodes_push(before, nodes@[before.len() as int]);
                assert(v@.subrange(pos as int, p as int) + v@.subrange(p as int, next as int) =~= v@.subrange(pos as int, next as int));
            }
        }
        p = next;
    }
    proof {
        if bare {
            assert(acc + Seq::<LineNode>::empty() =~= acc);
        }
        if sec {
            assert(bacc + Seq::<BodyForm>::empty() =~= bacc);
        }
    }
    Ok((nodes, p, Terminator::Eof))
}

/// `@import "PATH"`, `@import "PATH" as ALIAS` or `@import A, B from "PATH"`.
#[verifier::loop_isolation(false)]
fn parse_import(src: &Src, k: usize, c: usize, line: usize) -> (r: Result<Node, MdsError>)
    requires
        line <= k <= c <= src.v@.len(),
    ensures
        match import_form(src.v@, k as int, c as int) {
            None => r matches Err(MdsError::Syntax { .. }),
            Some(ImportForm::Merge(p)) => r matches Ok(Node::Import(ImportDirective::Merge { path, offset }))
                && path@ == p && offset == line,
            Some(ImportForm::Alias(p, a)) => r matches Ok(Node::Import(ImportDirective::Alias { path, alias, offset }))
                && path@ == p && alias@ == a && offset == line,
            Some(ImportForm::Selective(ns, p)) => r matches Ok(Node::Import(ImportDirective::Selective { names, path, offset }))
                && path@ == p && offset == line && names@.len() == ns.len()
                && forall|j: int| 0 <= j < ns.len() ==> (#[trigger] names@[j])@ == ns[j],
        },
{
    let v = &src.v;
    if let Some((s, e, q)) = quoted(v, k, c) {
        let path = text_of(v, s, e);
        if at_end(v, q, c) {
            return Ok(Node::Import(ImportDirective::Merge { path, offset: line }));
        }
        if let Some(q2) = expect_word(v, q, c, "as") {
            if let Some((as_, ae)) = ident(v, q2, c) {
                if at_end(v, ae, c) {
                    return Ok(Node::Import(ImportDirective::Alias { path, alias: text_of(v, as_, ae), offset: line }));
                }
            }
        }
        return Err(syntax(src, "expected '@import \"PATH\" as ALIAS'", line, c - line));
    }
    // selective: names up to `from`
    let mut names: Vec<String> = Vec::new();
    let mut p = k;
    let ghost acc: Seq<Seq<char>> = Seq::empty();
    assert(with_names(acc, import_names(v@, k as int, c as int)) == import_names(v@, k as int, c as int)) by {
        match import_names(v@, k as int, c as int) {
            Some((r, e)) => {
                assert(acc + r =~= r);
            },
            None => {},
        }
    }
    loop
        invariant
            k <= p <= c <= v@.len(),
            src.v@ == v@,
            names@.len() == acc.len(),
            forall|j: int| 0 <= j < acc.len() ==> (#[trigger] names@[j])@ == acc[j],
            import_names(v@, k as int, c as int) == with_names(acc, import_names(v@, p as int, c as int)),
        decreases c - p,
    {
        let (s, e) = match ident(v, p, c) {
            Some(x) => x,
            None => {
                return Err(syntax(src, "expected '@import NAME, ... from \"PATH\"'", line, c - line));
            },
        };
        let ghost n = v@.subrange(s as int, e as int);
        names.push(text_of(v, s, e));
        match expect(v, e, c, ',') {
            Some(q) => {
                proof {
                    match import_names(v@, q as int, c as int) {
                        Some((r, e2)) => {
                            assert(acc.push(n) + r =~= acc + (seq![n] + r));
                        },
                        None => {},
                    }
                    acc = acc.push(n);
                }
                p = q;
            },
            None => {
                proof {
                    assert(acc.push(n) =~= acc + seq![n]);
                    acc = acc.push(n);
                }
                p = e;
                break;
            },
        }
    }
    assert(import_names(v@, k as int, c as int) == Some((acc, p as int)));
    let q = match expect_word(v, p, c, "from") {
        Some(q) => q,
        None => {
            return Err(syntax(src, "expected 'from' in a selective @import", line, c - line));
        },
    };
    match quoted(v, q, c) {
        Some((s, e, q2)) if at_end(v, q2, c) => Ok(Node::Import(ImportDirective::Selective {
            names: Arc::new(names),
            path: text_of(v, s, e),
            offset: line,
        })),
        _ => Err(syntax(src, "expected a quoted path after 'from'", line, c - line)),
    }
}

/// `@export NAME`, `@export NAME from "PATH"` or `@export * from "PATH"`.
fn parse_export(src: &Src, k: usize, c: usize, line: usize) -> (r: Result<Node, MdsError>)
    requires
        line <= k <= c <= src.v@.len(),
    ensures
        match export_form(src.v@, k as int, c as int) {
            None => r matches Err(MdsError::Syntax { .. }),
            Some(ExportForm::Named(n)) => r matches Ok(Node::Export(ExportDirective::Named { name })) && name@ == n,
            Some(ExportForm::ReExport(n, p)) => r matches Ok(Node::Export(ExportDirective::ReExport { name, path }))
                && name@ == n && path@ == p,
            Some(ExportForm::Wildcard(p)) => r matches Ok(Node::Export(ExportDirective::Wildcard { path })) && path@ == p,
        },
{
    let v = &src.v;
    if let Some(q) = expect(v, k, c, '*') {
        if let Some(q2) = expect_word(v, q, c, "from") {
            if let Some((s, e, q3)) = quoted(v, q2, c) {
                if at_end(v, q3, c) {
                    return Ok(Node::Export(ExportDirective::Wildcard { path: text_of(v, s, e) }));
                }
            }
        }
        return Err(syntax(src, "expected '@export * from \"PATH\"'", line, c - line));
    }
    let (s, e) = match ident(v, k, c) {
        Some(x) => x,
        None => {
            return Err(syntax(src, "expected '@export NAME'", line, c - line));
        },
    };
    let name = text_of(v, s, e);
    if at_end(v, e, c) {
        return Ok(Node::Export(ExportDirective::Named { name }));
    }
    if let Some(q) = expect_word(v, e, c, "from") {
        if let Some((ps, pe, q2)) = quoted(v, q, c) {
            if at_end(v, q2, c) {
                return Ok(Node::Export(ExportDirective::ReExport { name, path: text_of(v, ps, pe) }));
            }
        }
    }
    Err(syntax(src, "expected '@export NAME from \"PATH\"'", line, c - line))
}

/// Parse a whole template source: frontmatter, `@extends` and body.
#[verifier::loop_isolation(false)]
#[verifier::rlimit(60)]
pub fn parse_module(source: &str, file: &str) -> (r: Result<Module, MdsError>)
    ensures
        r matches Err(e) ==> e is Syntax,
        !crate::text::has_prefix(source@, "---"@) ==> (r matches Ok(m) ==> m.frontmatter is None),
        plain_source(source@) ==> (r matches Ok(m) && m.frontmatter is None && m.extends is None
            && text_of_nodes(m.body@) == Some(source@)),
        front_of(source@) is None ==> r matches Err(MdsError::Syntax { .. }),
        front_of(source@) matches Some((raw, b)) ==> (items_from(source@, b) matches Some((fs, e, ended)) ==> (!ended
            ==> (r matches Ok(m) && frontmatter_is(m.frontmatter, raw) && m.extends is None && bodies_are(m.body@, fs)))
            && (ended ==> r matches Err(MdsError::Syntax { .. }))),
        front_of(source@) matches Some((raw, b)) ==> (no_at(source@, b, source@.len() as int) ==> match lines_from(source@, b) {
            Some(fs) => r matches Ok(m) && frontmatter_is(m.frontmatter, raw) && m.extends is None && nodes_are(m.body@, fs),
            None => r matches Err(MdsError::Syntax { .. }),
        }),
{
    let v = chars_of(source);
    let n = v.len();
    let src = Src { v, source };
    let v = &src.v;
    let mut body_start: usize = 0;
    let mut frontmatter: Option<Frontmatter> = None;
    let fence = chars_of("---");
    proof {
        reveal_strlit("---");
    }
    if n >= 3 && matches_at(v, 0, &fence) {
        proof {
            assert(v@.subrange(0, v@.len() as int) =~= v@);
            assert(crate::text::has_prefix(source@, "---"@));
        }
        let (_e, c0, next0) = line_bounds(v, 0);
        assert(v@.subrange(0, v@.len() as int).subrange(0, 3) =~= v@.subrange(0, 3));
        if c0 == 3 {
            // find the closing fence line
            let mut p = next0;
            let mut found = false;
            while p < n
                invariant
                    next0 <= p <= n == v@.len(),
                    src.v@ == v@,
                    body_start <= n,
                    closing_fence(v@, p as int) == closing_fence(v@, next0 as int),
                    !found,
                    frontmatter is None,
                decreases n - p,
            {
                let (_e2, c2, next2) = line_bounds(v, p);
                proof {
                    if c2 - p == 3 {
                        assert(v@.subrange(p as int, v@.len() as int).subrange(0, 3) =~= v@.subrange(p as int, p + 3));
                    }
                }
                if c2 - p == 3 && matches_at(v, p, &fence) {
                    frontmatter = Some(Frontmatter { raw: text_of(v, next0, p) });
                    body_start = next2;
                    found = true;
                    break;
                }
                p = next2;
            }
            if !found {
                proof {
                    assert(closing_fence(v@, p as int) is None);
                    assert(v@ == source@);
                    assert(fence@ == "---"@);
                    assert(v@.subrange(0, 3) == "---"@);
                    assert(content_end(source@, 0) == 3);
                    assert(closing_fence(source@, next_line(source@, 0)) is None);
                    assert(front_of(source@) is None);
                }
                return Err(syntax(&src, "unterminated frontmatter: missing closing '---'", 0, 3));
            }
        }
    }
    let mut extends: Option<ExtendsDirective> = None;
    assert(body_start <= src.v@.len());
    assert(plain_source(source@) ==> body_start == 0 && v@.subrange(0, v@.len() as int) =~= source@);
    let (body, _after, t) = parse_body(&src, body_start, true, &mut extends)?;
    match t {
        Terminator::Eof => {},
        Terminator::End => {
            return Err(syntax(&src, "unexpected @end without an open block", body_start, 0));
        },
        _ => {
            return Err(syntax(&src, "unexpected @else outside @if", body_start, 0));
        },
    }
    Ok(Module { frontmatter, extends, body })
}

} // verus!
