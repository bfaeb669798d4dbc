//! Rendering of a validated module body to text, and collection of its
//! `@message` blocks.

use std::sync::Arc;
use vstd::prelude::*;
use crate::ast::{share, Arg, Expr, ForBlock, Node};
use crate::error::MdsError;
use crate::scope::{copy_values, share_all, FunctionDef, NamespaceScope, Scope};
use crate::table::{find_entry, Table};
use crate::text::{cat3, chars_of, text_of, trim_bounds};
use crate::value::{render, rendered, TemplateValue};

verus! {

broadcast use {vstd::std_specs::vec::group_vec_axioms, vstd::seq::group_seq_axioms};

/// Deepest chain of nested function calls.
pub const MAX_CALL_DEPTH: usize = 64;

/// A chat message produced by an `@message role:` block.
#[derive(Debug)]
pub struct EvalMessage {
    pub role: String,
    pub content: String,
}

/// The variables of a scope, by name.
pub open spec fn vars_of(scope: Scope) -> spec_fn(Seq<char>) -> Option<TemplateValue> {
    |q: Seq<char>| scope.vars.lookup(q)
}

/// The functions of a scope, by name.
pub open spec fn functions_of(scope: Scope) -> spec_fn(Seq<char>) -> Option<Arc<FunctionDef>> {
    |q: Seq<char>| scope.functions.lookup(q)
}

/// The namespaces of a scope, by name.
pub open spec fn namespaces_of(scope: Scope) -> spec_fn(Seq<char>) -> Option<Arc<NamespaceScope>> {
    |q: Seq<char>| scope.namespaces.lookup(q)
}

/// `vars` with `name` bound to `v`.
pub open spec fn bind(vars: spec_fn(Seq<char>) -> Option<TemplateValue>, name: Seq<char>, v: TemplateValue) -> spec_fn(Seq<char>) -> Option<TemplateValue> {
    |q: Seq<char>| if q == name { Some(v) } else { vars(q) }
}

/// `vars` with the parameters bound to the values, in order (a later
/// parameter of a repeated name wins).
pub open spec fn bind_params(
    vars: spec_fn(Seq<char>) -> Option<TemplateValue>,
    params: Seq<String>,
    vals: Seq<TemplateValue>,
) -> spec_fn(Seq<char>) -> Option<TemplateValue>
    decreases params.len(),
{
    if params.len() == 0 || vals.len() == 0 {
        vars
    } else {
        bind(bind_params(vars, params.drop_last(), vals.drop_last()), params.last()@, vals.last())
    }
}

/// The values of call arguments: variables as `vars` binds them, string
/// literals as text; `None` when a variable is unbound.
pub open spec fn arg_values(args: Seq<Arg>, vars: spec_fn(Seq<char>) -> Option<TemplateValue>) -> Option<Seq<TemplateValue>>
    decreases args.len(),
{
    if args.len() == 0 {
        Some(Seq::empty())
    } else {
        match arg_values(args.drop_last(), vars) {
            None => None,
            Some(p) => match args.last() {
                Arg::Var(n) => match vars(n@) {
                    Some(v) => Some(p.push(v)),
                    None => None,
                },
                Arg::Str(t) => Some(p.push(TemplateValue::String(t))),
            },
        }
    }
}

/// What a function captured is well formed: each of its tables holds a name
/// once.
pub open spec fn captured_wf(f: FunctionDef) -> bool {
    f.captured.vars.wf() && (Table { entries: f.captured.functions }).wf() && f.captured.namespaces.wf()
}

/// `s` without one trailing newline.
pub open spec fn chomped(s: Seq<char>) -> Seq<char> {
    if s.len() > 0 && s.last() == '\n' {
        s.drop_last()
    } else {
        s
    }
}

/// The scope a call of `f` with `args` runs in, as lookups: the variables,
/// functions and namespaces `f` captured, with its parameters bound to the
/// values of the arguments; `None` when the number of arguments is wrong,
/// an argument is unbound, or what `f` captured is not well formed.
pub open spec fn call_env(
    f: Arc<FunctionDef>,
    args: Seq<Arg>,
    vars: spec_fn(Seq<char>) -> Option<TemplateValue>,
) -> Option<(spec_fn(Seq<char>) -> Option<TemplateValue>, spec_fn(Seq<char>) -> Option<Arc<FunctionDef>>, spec_fn(Seq<char>) -> Option<Arc<NamespaceScope>>)> {
    if args.len() != f.params@.len() || !captured_wf(*f) {
        None
    } else {
        match arg_values(args, vars) {
            None => None,
            Some(vals) => Some((
                bind_params(|q: Seq<char>| f.captured.vars.lookup(q), f.params@, vals),
                |q: Seq<char>| (Table { entries: f.captured.functions }).lookup(q),
                |q: Seq<char>| f.captured.namespaces.lookup(q),
            )),
        }
    }
}

/// The text a body renders to with the variables `vars`, functions `fns`
/// and namespaces `nss`, calls nesting at most `depth` deep, when it is made
/// only of literal text, escaped braces, interpolated variables that are
/// bound, calls of bound functions with the right number of bound
/// arguments whose bodies are again of such nodes, conditionals with bound
/// conditions whose taken branch is of such nodes, loops over bound lists
/// whose body is of such nodes, `@include`s of bound namespaces (their
/// exported prompt, if any), blocks of such nodes, and directives that
/// render nothing (definitions, imports, exports); `None` when it holds
/// anything else.
pub open spec fn plain_nodes(
    nodes: Seq<Node>,
    vars: spec_fn(Seq<char>) -> Option<TemplateValue>,
    fns: spec_fn(Seq<char>) -> Option<Arc<FunctionDef>>,
    nss: spec_fn(Seq<char>) -> Option<Arc<NamespaceScope>>,
    depth: nat,
) -> Option<Seq<char>>
    decreases depth, nodes, 0nat,
{
    if nodes.len() == 0 {
        Some(Seq::empty())
    } else {
        match plain_node(nodes[0], vars, fns, nss, depth) {
            Some(a) => match plain_nodes(nodes.drop_first(), vars, fns, nss, depth) {
                Some(b) => Some(a + b),
                None => None,
            },
            None => None,
        }
    }
}

/// The text the first `@elseif` branch with a truthy condition renders to
/// (`Some(None)` when no condition holds), for branches [`plain_nodes`]
/// covers.
pub open spec fn plain_branches(
    bs: Seq<(String, Arc<Vec<Node>>)>,
    vars: spec_fn(Seq<char>) -> Option<TemplateValue>,
    fns: spec_fn(Seq<char>) -> Option<Arc<FunctionDef>>,
    nss: spec_fn(Seq<char>) -> Option<Arc<NamespaceScope>>,
    depth: nat,
) -> Option<Option<Seq<char>>>
    decreases depth, bs, 0nat,
{
    if bs.len() == 0 {
        Some(None)
    } else {
        match vars(bs[0].0@) {
            None => None,
            Some(v) => if v.truthy() {
                match plain_nodes(bs[0].1@, vars, fns, nss, depth) {
                    Some(t) => Some(Some(t)),
                    None => None,
                }
            } else {
                plain_branches(bs.drop_first(), vars, fns, nss, depth)
            },
        }
    }
}

/// The text a loop body renders to once per item of `items`, with `var`
/// bound to the item.
pub open spec fn plain_loop(
    body: Seq<Node>,
    items: Seq<TemplateValue>,
    var: Seq<char>,
    vars: spec_fn(Seq<char>) -> Option<TemplateValue>,
    fns: spec_fn(Seq<char>) -> Option<Arc<FunctionDef>>,
    nss: spec_fn(Seq<char>) -> Option<Arc<NamespaceScope>>,
    depth: nat,
) -> Option<Seq<char>>
    decreases depth, body, items.len(),
{
    if items.len() == 0 {
        Some(Seq::empty())
    } else {
        match plain_loop(body, items.drop_last(), var, vars, fns, nss, depth) {
            Some(a) => match plain_nodes(body, bind(vars, var, items.last()), fns, nss, depth) {
                Some(b) => Some(a + b),
                None => None,
            },
            None => None,
        }
    }
}

/// The text one node renders to, for the nodes [`plain_nodes`] covers.
pub open spec fn plain_node(
    node: Node,
    vars: spec_fn(Seq<char>) -> Option<TemplateValue>,
    fns: spec_fn(Seq<char>) -> Option<Arc<FunctionDef>>,
    nss: spec_fn(Seq<char>) -> Option<Arc<NamespaceScope>>,
    depth: nat,
) -> Option<Seq<char>>
    decreases depth, node, 0nat,
{
    match node {
        Node::Text(t) => Some(t.text@),
        Node::EscapedBrace => Some("{"@),
        Node::Interpolation(i) => match i.expr {
            Expr::Var(n) => match vars(n@) {
                Some(v) => Some(rendered(v)),
                None => None,
            },
            Expr::Call { name, args } => match fns(name@) {
                Some(f) => if depth == 0 {
                    None
                } else {
                    match call_env(f, args@, vars) {
                        Some(e) => match plain_nodes(f.body@, e.0, e.1, e.2, (depth - 1) as nat) {
                            Some(t) => Some(chomped(t)),
                            None => None,
                        },
                        None => None,
                    }
                },
                None => None,
            },
            Expr::QualifiedCall { namespace, name, args } => match nss(namespace@) {
                Some(ns) => match (Table { entries: ns.functions }).lookup(name@) {
                    Some(f) => if depth == 0 {
                        None
                    } else {
                        match call_env(f, args@, vars) {
                            Some(e) => match plain_nodes(f.body@, e.0, e.1, e.2, (depth - 1) as nat) {
                                Some(t) => Some(chomped(t)),
                                None => None,
                            },
                            None => None,
                        }
                    },
                    None => None,
                },
                None => None,
            },
        },
        Node::If(b) => match vars(b.condition@) {
            None => None,
            Some(v) => if v.truthy() {
                plain_nodes(b.then_body@, vars, fns, nss, depth)
            } else {
                match plain_branches(b.elseif_branches@, vars, fns, nss, depth) {
                    None => None,
                    Some(Some(t)) => Some(t),
                    Some(None) => match b.else_body {
                        Some(e) => plain_nodes(e@, vars, fns, nss, depth),
                        None => Some(Seq::empty()),
                    },
                }
            },
        },
        Node::For(b) => match vars(b.iterable@) {
            Some(TemplateValue::List(items)) => plain_loop(b.body@, items@, b.var@, vars, fns, nss, depth),
            _ => None,
        },
        Node::Include(i) => match nss(i.alias@) {
            Some(ns) => match ns.prompt_body {
                Some(p) => Some(p@),
                None => Some(Seq::empty()),
            },
            None => None,
        },
        Node::Block(b) => plain_nodes(b.body@, vars, fns, nss, depth),
        Node::Define(_) => Some(Seq::empty()),
        Node::Import(_) => Some(Seq::empty()),
        Node::Export(_) => Some(Seq::empty()),
        _ => None,
    }
}

/// A well-formed table holding the entries of `t` (a later entry of a
/// repeated name replaces the earlier one): the same lookups when `t` is
/// well formed.
fn rebuilt_values(t: &Table<TemplateValue>) -> (r: Table<TemplateValue>)
    ensures
        r.wf(),
        forall|q: Seq<char>| r.has(q) <==> t.has(q),
        t.wf() ==> forall|q: Seq<char>| #[trigger] r.lookup(q) == t.lookup(q),
{
    let mut r: Table<TemplateValue> = Table::new();
    let mut i: usize = 0;
    while i < t.entries.len()
        invariant
            r.wf(),
            i <= t.entries@.len(),
            forall|q: Seq<char>| r.has(q) <==> exists|j: int| 0 <= j < i && #[trigger] t.entries@[j].0@ == q,
            t.wf() ==> forall|j: int| 0 <= j < i ==> r.lookup(#[trigger] t.entries@[j].0@) == Some(t.entries@[j].1),
        decreases t.entries@.len() - i,
    {
        let (k, v) = &t.entries[i];
        r.insert(k.clone(), v.copy());
        proof {
            if t.wf() {
                assert forall|j: int| 0 <= j < i + 1 implies r.lookup(#[trigger] t.entries@[j].0@) == Some(t.entries@[j].1) by {
                    if j < i {
                        assert(t.entries@[j].0@ != t.entries@[i as int].0@);
                    }
                }
            }
        }
        i = i + 1;
    }
    proof {
        if t.wf() {
            assert forall|q: Seq<char>| #[trigger] r.lookup(q) == t.lookup(q) by {
                if t.has(q) {
                    t.lemma_position(q);
                    let p = t.position(q);
                    assert(r.lookup(t.entries@[p].0@) == Some(t.entries@[p].1));
                }
            }
        }
    }
    r
}

/// A well-formed table holding the shared entries `entries` (a later entry
/// of a repeated name replaces the earlier one): the same lookups when the
/// entries hold each name once.
fn rebuilt_shared<T>(entries: &Vec<(String, Arc<T>)>) -> (r: Table<Arc<T>>)
    ensures
        r.wf(),
        (Table { entries: *entries }).wf() ==> forall|q: Seq<char>| #[trigger] r.lookup(q) == (Table { entries: *entries }).lookup(q),
{
    let ghost t = Table { entries: *entries };
    let mut r: Table<Arc<T>> = Table::new();
    let mut i: usize = 0;
    while i < entries.len()
        invariant
            r.wf(),
            t == (Table { entries: *entries }),
            i <= entries@.len(),
            forall|q: Seq<char>| r.has(q) <==> exists|j: int| 0 <= j < i && #[trigger] entries@[j].0@ == q,
            t.wf() ==> forall|j: int| 0 <= j < i ==> r.lookup(#[trigger] entries@[j].0@) == Some(entries@[j].1),
        decreases entries@.len() - i,
    {
        let (k, v) = &entries[i];
        r.insert(k.clone(), share(v));
        proof {
            assert(t.entries@ == entries@);
            if t.wf() {
                assert forall|j: int| 0 <= j < i + 1 implies r.lookup(#[trigger] entries@[j].0@) == Some(entries@[j].1) by {
                    if j < i {
                        assert(entries@[j].0@ != entries@[i as int].0@);
                    }
                }
            }
        }
        i = i + 1;
    }
    proof {
        assert(t.entries@ == entries@);
        if t.wf() {
            assert forall|q: Seq<char>| #[trigger] r.lookup(q) == t.lookup(q) by {
                if t.has(q) {
                    t.lemma_position(q);
                    let p = t.position(q);
                    assert(r.lookup(entries@[p].0@) == Some(entries@[p].1));
                }
            }
        }
    }
    r
}

/// The scope a call of `f` runs in: what `f` captured, plus its parameters
/// bound to the values of `args` in the caller's `scope`.
fn call_scope(f: &FunctionDef, display: &str, args: &Vec<Arg>, scope: &Scope) -> (r: Result<Scope, MdsError>)
    requires
        scope.wf(),
    ensures
        r matches Ok(s) ==> s.wf(),
        r is Ok ==> args@.len() == f.params@.len() && arg_values(args@, vars_of(*scope)) is Some,
        (args@.len() == f.params@.len() && arg_values(args@, vars_of(*scope)) is Some) ==> r is Ok,
        r matches Ok(s) ==> (captured_wf(*f) ==> {
            &&& vars_of(s) == bind_params(|q: Seq<char>| f.captured.vars.lookup(q), f.params@, arg_values(args@, vars_of(*scope))->Some_0)
            &&& functions_of(s) == (|q: Seq<char>| (Table { entries: f.captured.functions }).lookup(q))
            &&& namespaces_of(s) == (|q: Seq<char>| f.captured.namespaces.lookup(q))
        }),
        args@.len() != f.params@.len() ==> (r matches Err(MdsError::Arity { name: n, expected: x, got: g })
            && n@ == display@ && x == f.params@.len() && g == args@.len()),
{
    if args.len() != f.params.len() {
        return Err(MdsError::arity(display, f.params.len(), args.len()));
    }
    let mut inner = Scope {
        vars: rebuilt_values(&f.captured.vars),
        functions: rebuilt_shared(&f.captured.functions),
        namespaces: rebuilt_shared(&f.captured.namespaces.entries),
    };
    let ghost cvars = |q: Seq<char>| f.captured.vars.lookup(q);
    proof {
        if captured_wf(*f) {
            assert(vars_of(inner) =~= cvars);
            assert(functions_of(inner) =~= (|q: Seq<char>| (Table { entries: f.captured.functions }).lookup(q)));
            assert(namespaces_of(inner) =~= (|q: Seq<char>| f.captured.namespaces.lookup(q)));
        }
        assert(args@.subrange(0, 0) =~= Seq::<Arg>::empty());
        assert(f.params@.subrange(0, 0) =~= Seq::<String>::empty());
    }
    let mut i: usize = 0;
    while i < args.len()
        invariant
            inner.wf(),
            scope.wf(),
            i <= args@.len(),
            args@.len() == f.params@.len(),
            arg_values(args@.subrange(0, i as int), vars_of(*scope)) is Some,
            arg_values(args@, vars_of(*scope)) is Some ==> arg_values(args@.subrange(0, i as int), vars_of(*scope)) is Some,
            captured_wf(*f) ==> {
                &&& vars_of(inner) == bind_params(cvars, f.params@.subrange(0, i as int), arg_values(args@.subrange(0, i as int), vars_of(*scope))->Some_0)
                &&& functions_of(inner) == (|q: Seq<char>| (Table { entries: f.captured.functions }).lookup(q))
                &&& namespaces_of(inner) == (|q: Seq<char>| f.captured.namespaces.lookup(q))
            },
        decreases args@.len() - i,
    {
        let ghost pre = args@.subrange(0, i as int);
        let ghost nxt = args@.subrange(0, i + 1);
        proof {
            assert(nxt.drop_last() =~= pre);
            assert(nxt.last() == args@[i as int]);
        }
        let v = match &args[i] {
            Arg::Var(n) => match scope.get_var(n.as_str()) {
                Some(v) => v.copy(),
                None => {
                    proof {
                        lemma_arg_values_none(args@, vars_of(*scope), i + 1);
                    }
                    return Err(MdsError::undefined_var(n.as_str()));
                },
            },
            Arg::Str(s) => TemplateValue::String(s.clone()),
        };
        let ghost before = vars_of(inner);
        inner.set_var(f.params[i].as_str(), v);
        proof {
            let vals = arg_values(nxt, vars_of(*scope))->Some_0;
            assert(vals.last() == v);
            assert(vals.drop_last() == arg_values(pre, vars_of(*scope))->Some_0);
            let ps = f.params@.subrange(0, i + 1);
            assert(ps.drop_last() =~= f.params@.subrange(0, i as int));
            assert(ps.last() == f.params@[i as int]);
            assert(vars_of(inner) =~= bind(before, f.params@[i as int]@, v));
        }
        i = i + 1;
    }
    proof {
        assert(args@.subrange(0, args@.len() as int) =~= args@);
        assert(f.params@.subrange(0, f.params@.len() as int) =~= f.params@);
    }
    Ok(inner)
}

/// Once the arguments fail to evaluate on a prefix, they fail on the whole.
proof fn lemma_arg_values_none(args: Seq<Arg>, vars: spec_fn(Seq<char>) -> Option<TemplateValue>, n: int)
    requires
        0 <= n <= args.len(),
        arg_values(args.subrange(0, n), vars) is None,
    ensures
        arg_values(args, vars) is None,
    decreases args.len() - n,
{
    if n < args.len() {
        assert(args.subrange(0, n + 1).drop_last() =~= args.subrange(0, n));
        lemma_arg_values_none(args, vars, n + 1);
    } else {
        assert(args.subrange(0, n) =~= args);
    }
}

/// `s` without one trailing newline.
fn chomp(s: String) -> (r: String)
    ensures
        r@ == (if s@.len() > 0 && s@.last() == '\n' { s@.drop_last() } else { s@ }),
{
    let v = chars_of(s.as_str());
    let n = v.len();
    if n > 0 && v[n - 1] == '\n' {
        let r = text_of(&v, 0, n - 1);
        assert(r@ =~= s@.drop_last());
        r
    } else {
        s
    }
}

/// `s` without surrounding whitespace.
pub fn trimmed(s: &str) -> (r: String)
    ensures
        r@ == crate::text::trim(s@),
{
    let v = chars_of(s);
    let (a, b) = trim_bounds(&v, 0, v.len());
    assert(v@.subrange(0, v@.len() as int) =~= v@);
    text_of(&v, a, b)
}

/// The messages a body gives in messages mode, as (role, content) texts,
/// for a body whose top-level nodes are `@message` blocks with bodies
/// [`plain_nodes`] covers, and other nodes it covers (which give none):
/// each message's content is its rendered body without surrounding
/// whitespace. `None` for any other body.
pub open spec fn plain_messages(
    nodes: Seq<Node>,
    vars: spec_fn(Seq<char>) -> Option<TemplateValue>,
    fns: spec_fn(Seq<char>) -> Option<Arc<FunctionDef>>,
    nss: spec_fn(Seq<char>) -> Option<Arc<NamespaceScope>>,
    depth: nat,
) -> Option<Seq<(Seq<char>, Seq<char>)>>
    decreases nodes.len(),
{
    if nodes.len() == 0 {
        Some(Seq::empty())
    } else {
        match node_messages(nodes[0], vars, fns, nss, depth) {
            Some(h) => match plain_messages(nodes.drop_first(), vars, fns, nss, depth) {
                Some(r) => Some(h + r),
                None => None,
            },
            None => None,
        }
    }
}

/// The messages one top-level node gives in messages mode: see
/// [`plain_messages`].
pub open spec fn node_messages(
    node: Node,
    vars: spec_fn(Seq<char>) -> Option<TemplateValue>,
    fns: spec_fn(Seq<char>) -> Option<Arc<FunctionDef>>,
    nss: spec_fn(Seq<char>) -> Option<Arc<NamespaceScope>>,
    depth: nat,
) -> Option<Seq<(Seq<char>, Seq<char>)>> {
    match node {
        Node::Message(m) => match plain_nodes(m.body@, vars, fns, nss, depth) {
            Some(t) => Some(seq![(m.role@, crate::text::trim(t))]),
            None => None,
        },
        n => match plain_node(n, vars, fns, nss, depth) {
            Some(_) => Some(Seq::empty()),
            None => None,
        },
    }
}

/// `msgs` are the messages `ms`, by their texts.
pub open spec fn messages_are(msgs: Seq<EvalMessage>, ms: Seq<(Seq<char>, Seq<char>)>) -> bool {
    msgs.len() == ms.len() && forall|j: int| 0 <= j < ms.len() ==> (#[trigger] msgs[j]).role@ == ms[j].0
        && msgs[j].content@ == ms[j].1
}

/// Render `nodes` in `scope`, appending the text to `out`; in messages mode
/// each `@message` block is also collected into `msgs`.
fn eval_nodes(
    nodes: &Vec<Node>,
    scope: &Scope,
    budget: usize,
    out: &mut String,
    msgs: &mut Vec<EvalMessage>,
    messages: bool,
) -> (r: Result<(), MdsError>)
    requires
        scope.wf(),
    ensures
        plain_nodes(nodes@, vars_of(*scope), functions_of(*scope), namespaces_of(*scope), budget as nat) matches Some(t) ==> r is Ok && final(out)@ == old(out)@ + t
            && final(msgs)@ == old(msgs)@,
        messages ==> (plain_messages(nodes@, vars_of(*scope), functions_of(*scope), namespaces_of(*scope), budget as nat) matches Some(ms)
            ==> r is Ok && final(msgs)@.subrange(0, old(msgs)@.len() as int) == old(msgs)@
            && messages_are(final(msgs)@.subrange(old(msgs)@.len() as int, final(msgs)@.len() as int), ms)),
    decreases budget, nodes,
{
    let ghost out0 = out@;
    let ghost pm = plain_messages(nodes@, vars_of(*scope), functions_of(*scope), namespaces_of(*scope), budget as nat);
    let mut i: usize = 0;
    assert(nodes@.subrange(0, nodes@.len() as int) =~= nodes@);
    while i < nodes.len()
        invariant
            scope.wf(),
            i <= nodes@.len(),
            plain_nodes(nodes@, vars_of(*scope), functions_of(*scope), namespaces_of(*scope), budget as nat) matches Some(t) ==> (plain_nodes(nodes@.subrange(i as int, nodes@.len() as int), vars_of(*scope), functions_of(*scope), namespaces_of(*scope), budget as nat)
                matches Some(u) && out0 + t == out@ + u && msgs@ == old(msgs)@),
            pm == plain_messages(nodes@, vars_of(*scope), functions_of(*scope), namespaces_of(*scope), budget as nat),
            messages ==> (pm matches Some(ms) ==> (plain_messages(nodes@.subrange(i as int, nodes@.len() as int), vars_of(*scope), functions_of(*scope), namespaces_of(*scope), budget as nat)
                matches Some(rest) && msgs@.subrange(0, old(msgs)@.len() as int) == old(msgs)@
                && old(msgs)@.len() <= msgs@.len()
                && msgs@.len() - old(msgs)@.len() + rest.len() == ms.len()
                && messages_are(msgs@.subrange(old(msgs)@.len() as int, msgs@.len() as int), ms.subrange(0, msgs@.len() - old(msgs)@.len()))
                && rest == ms.subrange(msgs@.len() - old(msgs)@.len(), ms.len() as int))),
        decreases nodes@.len() - i,
    {
        let ghost rest = nodes@.subrange(i as int, nodes@.len() as int);
        assert(rest[0] == nodes@[i as int]);
        assert(rest.drop_first() =~= nodes@.subrange(i + 1, nodes@.len() as int));
        let ghost before = out@;
        let ghost mbefore = msgs@;
        proof {
            if messages && pm is Some {
                assert(plain_messages(rest, vars_of(*scope), functions_of(*scope), namespaces_of(*scope), budget as nat) is Some);
                assert(node_messages(rest[0], vars_of(*scope), functions_of(*scope), namespaces_of(*scope), budget as nat) is Some);
            }
        }
        eval_node(&nodes[i], scope, budget, out, msgs, messages)?;
        proof {
            if messages && pm is Some {
                let ms = pm->Some_0;
                let vs = vars_of(*scope);
                let fs = functions_of(*scope);
                let ns = namespaces_of(*scope);
                let h = node_messages(rest[0], vs, fs, ns, budget as nat)->Some_0;
                let tail = plain_messages(rest.drop_first(), vs, fs, ns, budget as nat)->Some_0;
                let n0 = old(msgs)@.len();
                let g0 = mbefore.len() - n0;
                let g1 = msgs@.len() - n0;
                assert(g1 == g0 + h.len());
                assert(msgs@.subrange(0, n0 as int) =~= mbefore.subrange(0, n0 as int));
                assert(ms.subrange(g0, ms.len() as int) == h + tail);
                assert((h + tail).subrange(h.len() as int, (h + tail).len() as int) =~= tail);
                assert(ms.subrange(g0, ms.len() as int).subrange(h.len() as int, ms.len() - g0) =~= ms.subrange(g1, ms.len() as int));
                assert(tail =~= ms.subrange(g1, ms.len() as int));
                let got = msgs@.subrange(n0 as int, msgs@.len() as int);
                assert forall|j: int| 0 <= j < g1 implies (#[trigger] got[j]).role@ == ms.subrange(0, g1)[j].0
                    && got[j].content@ == ms.subrange(0, g1)[j].1 by {
                    if j < g0 {
                        assert(got[j] == mbefore.subrange(n0 as int, mbefore.len() as int)[j]);
                        assert(ms.subrange(0, g1)[j] == ms.subrange(0, g0)[j]);
                    } else {
                        assert(got[j] == msgs@.subrange(mbefore.len() as int, msgs@.len() as int)[j - g0]);
                        assert(ms.subrange(0, g1)[j] == (h + tail)[j - g0]);
                    }
                }
            }
            if plain_nodes(nodes@, vars_of(*scope), functions_of(*scope), namespaces_of(*scope), budget as nat) is Some {
                let a = plain_node(nodes@[i as int], vars_of(*scope), functions_of(*scope), namespaces_of(*scope), budget as nat)->Some_0;
                let b = plain_nodes(rest.drop_first(), vars_of(*scope), functions_of(*scope), namespaces_of(*scope), budget as nat)->Some_0;
                assert(out@ == before + a);
                assert(before + (a + b) =~= (before + a) + b);
            }
        }
        i = i + 1;
    }
    proof {
        assert(nodes@.subrange(nodes@.len() as int, nodes@.len() as int) =~= Seq::<Node>::empty());
        if plain_nodes(nodes@, vars_of(*scope), functions_of(*scope), namespaces_of(*scope), budget as nat) is Some {
            assert(out@ + Seq::<char>::empty() =~= out@);
        }
        if messages && pm is Some {
            let ms = pm->Some_0;
            assert(ms.subrange(0, ms.len() as int) =~= ms);
        }
    }
    Ok(())
}

/// Render the first `@elseif` branch whose condition is truthy, if any;
/// tells whether one was.
fn eval_branches(
    branches: &Vec<(String, Arc<Vec<Node>>)>,
    scope: &Scope,
    budget: usize,
    out: &mut String,
    msgs: &mut Vec<EvalMessage>,
    messages: bool,
) -> (r: Result<bool, MdsError>)
    requires
        scope.wf(),
    ensures
        plain_branches(branches@, vars_of(*scope), functions_of(*scope), namespaces_of(*scope), budget as nat) matches Some(res) ==> (match res {
            Some(t) => r == Ok::<bool, MdsError>(true) && final(out)@ == old(out)@ + t,
            None => r == Ok::<bool, MdsError>(false) && final(out)@ == old(out)@,
        } && final(msgs)@ == old(msgs)@),
    decreases budget, branches,
{
    let mut i: usize = 0;
    assert(branches@.subrange(0, branches@.len() as int) =~= branches@);
    while i < branches.len()
        invariant
            scope.wf(),
            i <= branches@.len(),
            plain_branches(branches@, vars_of(*scope), functions_of(*scope), namespaces_of(*scope), budget as nat) is Some ==> (plain_branches(branches@.subrange(i as int, branches@.len() as int), vars_of(*scope), functions_of(*scope), namespaces_of(*scope), budget as nat)
                == plain_branches(branches@, vars_of(*scope), functions_of(*scope), namespaces_of(*scope), budget as nat) && out@ == old(out)@ && msgs@ == old(msgs)@),
        decreases branches@.len() - i,
    {
        let ghost rest = branches@.subrange(i as int, branches@.len() as int);
        assert(rest[0] == branches@[i as int]);
        assert(rest.drop_first() =~= branches@.subrange(i + 1, branches@.len() as int));
        let (cond, body) = &branches[i];
        let holds = match scope.get_var(cond.as_str()) {
            Some(v) => v.is_truthy(),
            None => {
                return Err(MdsError::undefined_var(cond.as_str()));
            },
        };
        if holds {
            assert(decreases_to!(branches => branches[i as int]));
            eval_nodes(body, scope, budget, out, msgs, messages)?;
            return Ok(true);
        }
        i = i + 1;
    }
    proof {
        assert(branches@.subrange(branches@.len() as int, branches@.len() as int) =~= Seq::<(String, Arc<Vec<Node>>)>::empty());
    }
    Ok(false)
}

/// Render a `@for` body once per item of its list, with the loop variable
/// bound to the item.
fn eval_for(
    b: &ForBlock,
    scope: &Scope,
    budget: usize,
    out: &mut String,
    msgs: &mut Vec<EvalMessage>,
    messages: bool,
) -> (r: Result<(), MdsError>)
    requires
        scope.wf(),
    ensures
        scope.vars.lookup(b.iterable@) matches Some(TemplateValue::List(items)) ==> (
            plain_loop(b.body@, items@, b.var@, vars_of(*scope), functions_of(*scope), namespaces_of(*scope), budget as nat) matches Some(t)
                ==> (r is Ok && final(out)@ == old(out)@ + t && final(msgs)@ == old(msgs)@)),
    decreases budget, b,
{
    let items = match scope.get_var(b.iterable.as_str()) {
        Some(TemplateValue::List(items)) => share(items),
        Some(_) => {
            let msg = cat3("@for iterable '", b.iterable.as_str(), "' is not a list");
            return Err(MdsError::syntax(msg.as_str()));
        },
        None => {
            return Err(MdsError::undefined_var(b.iterable.as_str()));
        },
    };
    let ghost vars = vars_of(*scope);
    let ghost fns = functions_of(*scope);
    let ghost nss = namespaces_of(*scope);
    let ghost out0 = out@;
    let mut k: usize = 0;
    assert(items@.subrange(0, 0) =~= Seq::<TemplateValue>::empty());
    while k < items.len()
        invariant
            scope.wf(),
            k <= items@.len(),
            vars == vars_of(*scope),
            fns == functions_of(*scope),
            nss == namespaces_of(*scope),
            scope.vars.lookup(b.iterable@) == Some(TemplateValue::List(items)),
            out0 == old(out)@,
            plain_loop(b.body@, items@, b.var@, vars, fns, nss, budget as nat) is Some ==> (
                plain_loop(b.body@, items@.subrange(0, k as int), b.var@, vars, fns, nss, budget as nat) matches Some(t)
                    && out@ == out0 + t && msgs@ == old(msgs)@),
        decreases items@.len() - k,
    {
        let mut inner = Scope {
            vars: copy_values(&scope.vars),
            functions: share_all(&scope.functions),
            namespaces: share_all(&scope.namespaces),
        };
        let item = items[k].copy();
        inner.set_var(b.var.as_str(), item);
        proof {
            assert(vars_of(inner) =~= bind(vars, b.var@, items@[k as int]));
            assert(namespaces_of(inner) =~= nss);
            assert(functions_of(inner) =~= fns);
            let pre = items@.subrange(0, k as int);
            let nxt = items@.subrange(0, k + 1);
            assert(nxt.drop_last() =~= pre);
            assert(nxt.last() == items@[k as int]);
            if plain_loop(b.body@, items@, b.var@, vars, fns, nss, budget as nat) is Some {
                lemma_loop_prefix(b.body@, items@, b.var@, vars, fns, nss, budget as nat, k + 1);
                assert(plain_loop(b.body@, nxt, b.var@, vars, fns, nss, budget as nat) is Some);
                assert(plain_nodes(b.body@, bind(vars, b.var@, items@[k as int]), fns, nss, budget as nat) is Some);
                assert(plain_nodes(b.body@, vars_of(inner), functions_of(inner), namespaces_of(inner), budget as nat) is Some);
            }
        }
        let ghost before = out@;
        eval_nodes(&b.body, &inner, budget, out, msgs, messages)?;
        proof {
            if plain_loop(b.body@, items@, b.var@, vars, fns, nss, budget as nat) is Some {
                let nxt = items@.subrange(0, k + 1);
                let t = plain_loop(b.body@, items@.subrange(0, k as int), b.var@, vars, fns, nss, budget as nat)->Some_0;
                let u = plain_nodes(b.body@, bind(vars, b.var@, items@[k as int]), fns, nss, budget as nat)->Some_0;
                assert(out@ == before + u);
                assert(out0 + (t + u) =~= (out0 + t) + u);
            }
        }
        k = k + 1;
    }
    assert(items@.subrange(0, items@.len() as int) =~= items@);
    Ok(())
}

/// A loop that renders renders on each prefix of its items.
proof fn lemma_loop_prefix(
    body: Seq<Node>,
    items: Seq<TemplateValue>,
    var: Seq<char>,
    vars: spec_fn(Seq<char>) -> Option<TemplateValue>,
    fns: spec_fn(Seq<char>) -> Option<Arc<FunctionDef>>,
    nss: spec_fn(Seq<char>) -> Option<Arc<NamespaceScope>>,
    depth: nat,
    n: int,
)
    requires
        0 <= n <= items.len(),
        plain_loop(body, items, var, vars, fns, nss, depth) is Some,
    ensures
        plain_loop(body, items.subrange(0, n), var, vars, fns, nss, depth) is Some,
    decreases items.len(),
{
    if n < items.len() {
        lemma_loop_prefix(body, items.drop_last(), var, vars, fns, nss, depth, n);
        assert(items.drop_last().subrange(0, n) =~= items.subrange(0, n));
    } else {
        assert(items.subrange(0, n) =~= items);
    }
}

/// Render one node.
fn eval_node(
    node: &Node,
    scope: &Scope,
    budget: usize,
    out: &mut String,
    msgs: &mut Vec<EvalMessage>,
    messages: bool,
) -> (r: Result<(), MdsError>)
    requires
        scope.wf(),
    ensures
        plain_node(*node, vars_of(*scope), functions_of(*scope), namespaces_of(*scope), budget as nat) matches Some(t) ==> r is Ok && final(out)@ == old(out)@ + t
            && final(msgs)@ == old(msgs)@,
        messages ==> (node_messages(*node, vars_of(*scope), functions_of(*scope), namespaces_of(*scope), budget as nat) matches Some(h)
            ==> r is Ok && old(msgs)@.len() <= final(msgs)@.len() && final(msgs)@.subrange(0, old(msgs)@.len() as int) == old(msgs)@
            && messages_are(final(msgs)@.subrange(old(msgs)@.len() as int, final(msgs)@.len() as int), h)),
    decreases budget, node,
{
    match node {
        Node::Text(t) => {
            out.append(t.text.as_str());
            Ok(())
        },
        Node::EscapedBrace => {
            proof {
                reveal_strlit("{");
            }
            out.append("{");
            Ok(())
        },
        Node::Interpolation(interp) => match &interp.expr {
            Expr::Var(name) => match scope.get_var(name.as_str()) {
                Some(v) => {
                    let s = render(v);
                    out.append(s.as_str());
                    Ok(())
                },
                None => Err(MdsError::undefined_var(name.as_str())),
            },
            Expr::Call { name, args } => {
                let f = match scope.get_function(name.as_str()) {
                    Some(f) => share(f),
                    None => {
                        return Err(MdsError::undefined_fn(name.as_str()));
                    },
                };
                if budget == 0 {
                    return Err(MdsError::resource_limit("function calls nested too deeply"));
                }
                let inner = call_scope(&f, name.as_str(), args, scope)?;
                let mut body = String::new();
                eval_nodes(&f.body, &inner, budget - 1, &mut body, msgs, false)?;
                let body = chomp(body);
                out.append(body.as_str());
                Ok(())
            },
            Expr::QualifiedCall { namespace, name, args } => {
                let qualified = cat3(namespace.as_str(), ".", name.as_str());
                let ns = match scope.get_namespace(namespace.as_str()) {
                    Some(n) => share(n),
                    None => {
                        return Err(MdsError::undefined_var(namespace.as_str()));
                    },
                };
                let f = match find_entry(&ns.functions, name.as_str()) {
                    Some(f) => share(f),
                    None => {
                        return Err(MdsError::undefined_fn(qualified.as_str()));
                    },
                };
                if budget == 0 {
                    return Err(MdsError::resource_limit("function calls nested too deeply"));
                }
                let inner = call_scope(&f, qualified.as_str(), args, scope)?;
                let mut body = String::new();
                eval_nodes(&f.body, &inner, budget - 1, &mut body, msgs, false)?;
                let body = chomp(body);
                out.append(body.as_str());
                Ok(())
            },
        },
        Node::If(b) => {
            let holds = match scope.get_var(b.condition.as_str()) {
                Some(v) => v.is_truthy(),
                None => {
                    return Err(MdsError::undefined_var(b.condition.as_str()));
                },
            };
            if holds {
                eval_nodes(&b.then_body, scope, budget, out, msgs, messages)
            } else if eval_branches(&b.elseif_branches, scope, budget, out, msgs, messages)? {
                Ok(())
            } else {
                match &b.else_body {
                    Some(e) => eval_nodes(e, scope, budget, out, msgs, messages),
                    None => Ok(()),
                }
            }
        },
        Node::For(b) => eval_for(b, scope, budget, out, msgs, messages),
        Node::Include(inc) => match scope.get_namespace(inc.alias.as_str()) {
            Some(ns) => {
                match &ns.prompt_body {
                    Some(p) => out.append(p.as_str()),
                    None => {},
                }
                Ok(())
            },
            None => Err(MdsError::undefined_var(inc.alias.as_str())),
        },
        Node::Message(m) => {
            if messages {
                let mut body = String::new();
                eval_nodes(&m.body, scope, budget, &mut body, msgs, false)?;
                let content = trimmed(body.as_str());
                msgs.push(EvalMessage { role: m.role.clone(), content });
                Ok(())
            } else {
                eval_nodes(&m.body, scope, budget, out, msgs, messages)
            }
        },
        Node::Block(b) => eval_nodes(&b.body, scope, budget, out, msgs, messages),
        Node::Define(_) | Node::Import(_) | Node::Export(_) => Ok(()),
    }
}

/// Render a validated module body in `scope` to text.
///
/// Literal text and escaped braces come out as written; `{var}` renders
/// the variable's value; a function call renders the function's body in
/// its captured scope with the parameters bound, without one trailing
/// newline; `@if` picks the first branch whose condition is truthy;
/// `@for` renders its body once per list item; `@include` inserts the
/// namespace's exported prompt; blocks and messages render their bodies.
/// Calls nest at most [`MAX_CALL_DEPTH`] deep; deeper nesting is a
/// resource-limit error. The contract states the text for every body
/// [`plain_nodes`] covers (all but `@message` blocks and functions whose
/// captured tables repeat a name).
pub fn evaluate(nodes: &[Node], scope: &Scope) -> (r: Result<String, MdsError>)
    requires
        scope.wf(),
    ensures
        plain_nodes(nodes@, vars_of(*scope), functions_of(*scope), namespaces_of(*scope), MAX_CALL_DEPTH as nat) matches Some(t) ==> (r matches Ok(s) && s@ == t),
{
    let v = nodes_vec(nodes);
    let mut out = String::new();
    let mut msgs: Vec<EvalMessage> = Vec::new();
    eval_nodes(&v, scope, MAX_CALL_DEPTH, &mut out, &mut msgs, false)?;
    proof {
        if plain_nodes(nodes@, vars_of(*scope), functions_of(*scope), namespaces_of(*scope), MAX_CALL_DEPTH as nat) is Some {
            assert(out@ =~= Seq::<char>::empty() + plain_nodes(nodes@, vars_of(*scope), functions_of(*scope), namespaces_of(*scope), MAX_CALL_DEPTH as nat)->Some_0);
        }
    }
    Ok(out)
}

/// Collect the `@message` blocks of a validated module body, each with its
/// role and its rendered body without surrounding whitespace, in the order
/// they are reached. Text outside messages is discarded.
pub fn evaluate_messages(nodes: &[Node], scope: &Scope) -> (r: Result<Vec<EvalMessage>, MdsError>)
    requires
        scope.wf(),
    ensures
        plain_nodes(nodes@, vars_of(*scope), functions_of(*scope), namespaces_of(*scope), MAX_CALL_DEPTH as nat) is Some ==> (r matches Ok(m) && m@.len() == 0),
        plain_messages(nodes@, vars_of(*scope), functions_of(*scope), namespaces_of(*scope), MAX_CALL_DEPTH as nat) matches Some(ms)
            ==> (r matches Ok(m) && messages_are(m@, ms)),
{
    let v = nodes_vec(nodes);
    let mut out = String::new();
    let mut msgs: Vec<EvalMessage> = Vec::new();
    eval_nodes(&v, scope, MAX_CALL_DEPTH, &mut out, &mut msgs, true)?;
    assert(msgs@.subrange(0, msgs@.len() as int) =~= msgs@);
    Ok(msgs)
}

/// The nodes of a slice, shared into a vector.
fn nodes_vec(nodes: &[Node]) -> (v: Vec<Node>)
    ensures
        v@ == nodes@,
{
    let mut v: Vec<Node> = Vec::new();
    let mut i: usize = 0;
    while i < nodes.len()
        invariant
            i <= nodes@.len(),
            v@ == nodes@.subrange(0, i as int),
        decreases nodes@.len() - i,
    {
        v.push(nodes[i].copy());
        assert(v@ =~= nodes@.subrange(0, i + 1));
        i = i + 1;
    }
    assert(v@ =~= nodes@);
    v
}

} // verus!
