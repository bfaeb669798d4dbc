//! Semantic checks on a module body before evaluation: every variable,
//! function and namespace it references is defined, and calls have the right
//! number of arguments.

use vstd::prelude::*;
use crate::ast::{Arg, Expr, Node};
use crate::error::MdsError;
use crate::scope::Scope;
use crate::table::{find_entry, Table};
use crate::text::cat3;

verus! {

broadcast use {vstd::std_specs::vec::group_vec_axioms, vstd::seq::group_seq_axioms};

/// What the validator can find wrong, as plain text.
pub enum Problem {
    UndefinedVar(Seq<char>),
    UndefinedFn(Seq<char>),
    Arity(Seq<char>, nat, nat),
}

/// The problem an error reports, for the three kinds the validator raises.
pub open spec fn problem_of(e: MdsError) -> Option<Problem> {
    match e {
        MdsError::UndefinedVar { name, span: None } => Some(Problem::UndefinedVar(name@)),
        MdsError::UndefinedFn { name } => Some(Problem::UndefinedFn(name@)),
        MdsError::Arity { name, expected, got } => Some(Problem::Arity(name@, expected as nat, got as nat)),
        _ => None,
    }
}

/// The first argument that names an undefined variable.
pub open spec fn args_problem(args: Seq<Arg>, scope: Scope) -> Option<Problem>
    decreases args.len(),
{
    if args.len() == 0 {
        None
    } else {
        match args[0] {
            Arg::Var(v) if !scope.vars.has(v@) => Some(Problem::UndefinedVar(v@)),
            _ => args_problem(args.drop_first(), scope),
        }
    }
}

/// What is wrong with an interpolated expression, if anything.
pub open spec fn expr_problem(e: Expr, scope: Scope) -> Option<Problem> {
    match e {
        Expr::Var(n) => if scope.vars.has(n@) { None } else { Some(Problem::UndefinedVar(n@)) },
        Expr::Call { name, args } => match scope.functions.lookup(name@) {
            None => Some(Problem::UndefinedFn(name@)),
            Some(f) => if args@.len() != f.params@.len() {
                Some(Problem::Arity(name@, f.params@.len(), args@.len()))
            } else {
                args_problem(args@, scope)
            },
        },
        Expr::QualifiedCall { namespace, name, args } => match scope.namespaces.lookup(namespace@) {
            None => Some(Problem::UndefinedVar(namespace@)),
            Some(ns) => {
                let q = namespace@ + "."@ + name@;
                match (Table { entries: ns.functions }).lookup(name@) {
                    None => Some(Problem::UndefinedFn(q)),
                    Some(f) => if args@.len() != f.params@.len() {
                        Some(Problem::Arity(q, f.params@.len(), args@.len()))
                    } else {
                        args_problem(args@, scope)
                    },
                }
            },
        },
    }
}

/// The first problem in a list of nodes, in document order.
pub open spec fn nodes_problem(nodes: Seq<Node>, scope: Scope) -> Option<Problem>
    decreases nodes,
{
    if nodes.len() == 0 {
        None
    } else {
        match node_problem(nodes[0], scope) {
            Some(p) => Some(p),
            None => nodes_problem(nodes.drop_first(), scope),
        }
    }
}

/// The first problem among `@elseif` branches: an undefined condition, then
/// the branch body.
pub open spec fn branches_problem(bs: Seq<(String, std::sync::Arc<Vec<Node>>)>, scope: Scope) -> Option<Problem>
    decreases bs,
{
    if bs.len() == 0 {
        None
    } else if !scope.vars.has(bs[0].0@) {
        Some(Problem::UndefinedVar(bs[0].0@))
    } else {
        match nodes_problem(bs[0].1@, scope) {
            Some(p) => Some(p),
            None => branches_problem(bs.drop_first(), scope),
        }
    }
}

/// What is wrong with a node, if anything. Conditions and iterables must be
/// defined variables; an `@include` must name an imported namespace; bodies
/// of conditionals, messages and blocks are checked in turn. Definitions and
/// imports are checked elsewhere; a loop's body is checked when it runs.
pub open spec fn node_problem(node: Node, scope: Scope) -> Option<Problem>
    decreases node,
{
    match node {
        Node::Interpolation(i) => expr_problem(i.expr, scope),
        Node::If(b) => if !scope.vars.has(b.condition@) {
            Some(Problem::UndefinedVar(b.condition@))
        } else {
            match nodes_problem(b.then_body@, scope) {
                Some(p) => Some(p),
                None => match branches_problem(b.elseif_branches@, scope) {
                    Some(p) => Some(p),
                    None => match b.else_body {
                        Some(e) => nodes_problem(e@, scope),
                        None => None,
                    },
                },
            }
        },
        Node::For(b) => if scope.vars.has(b.iterable@) {
            None
        } else {
            Some(Problem::UndefinedVar(b.iterable@))
        },
        Node::Include(i) => if scope.namespaces.has(i.alias@) {
            None
        } else {
            Some(Problem::UndefinedVar(i.alias@))
        },
        Node::Message(m) => nodes_problem(m.body@, scope),
        Node::Block(b) => nodes_problem(b.body@, scope),
        _ => None,
    }
}

/// `b` defines everything `a` defines: its functions with the same number
/// of parameters, its namespaces as they are.
pub open spec fn scope_extends(a: Scope, b: Scope) -> bool {
    &&& forall|q: Seq<char>| a.vars.has(q) ==> #[trigger] b.vars.has(q)
    &&& forall|q: Seq<char>| #[trigger] a.functions.lookup(q) matches Some(f)
        ==> (b.functions.lookup(q) matches Some(g) && g.params@.len() == f.params@.len())
    &&& forall|q: Seq<char>| a.namespaces.has(q) ==> #[trigger] b.namespaces.lookup(q) == a.namespaces.lookup(q)
}

/// A `@for` must iterate over a defined variable: a body holding, at its
/// top level, a `@for` whose iterable the scope does not define has a
/// problem, and when that `@for` comes first the problem is the undefined
/// iterable.
pub proof fn law_for_needs_iterable(nodes: Seq<Node>, scope: Scope, i: int)
    requires
        0 <= i < nodes.len(),
        nodes[i] is For,
        !scope.vars.has(nodes[i]->For_0.iterable@),
    ensures
        nodes_problem(nodes, scope) is Some,
        i == 0 ==> nodes_problem(nodes, scope) == Some(Problem::UndefinedVar(nodes[i]->For_0.iterable@)),
    decreases i,
{
    assert(nodes_problem(nodes, scope) == match node_problem(nodes[0], scope) {
        Some(p) => Some(p),
        None => nodes_problem(nodes.drop_first(), scope),
    });
    if i > 0 {
        law_for_needs_iterable(nodes.drop_first(), scope, i - 1);
        assert(nodes.drop_first()[i - 1] == nodes[i]);
    } else {
        assert(node_problem(nodes[0], scope) == Some(Problem::UndefinedVar(nodes[0]->For_0.iterable@)));
    }
}

/// Every reference must be defined and every call must match its
/// function's arity: a body holding at its top level an interpolation of
/// an undefined variable, a call of an undefined function or with the wrong
/// number of arguments, an `@if` on an undefined condition, or an
/// `@include` of an unknown namespace, has a problem.
pub proof fn law_undefined_references(nodes: Seq<Node>, scope: Scope, i: int)
    requires
        0 <= i < nodes.len(),
        (nodes[i] matches Node::Interpolation(x) && (x.expr matches Expr::Var(v) && !scope.vars.has(v@)))
            || (nodes[i] matches Node::Interpolation(x) && (x.expr matches Expr::Call { name, args }
                && (scope.functions.lookup(name@) matches Some(f) ==> f.params@.len() != args@.len())))
            || (nodes[i] matches Node::If(b) && !scope.vars.has(b.condition@))
            || (nodes[i] matches Node::Include(inc) && !scope.namespaces.has(inc.alias@)),
    ensures
        nodes_problem(nodes, scope) is Some,
    decreases i,
{
    assert(nodes_problem(nodes, scope) == match node_problem(nodes[0], scope) {
        Some(p) => Some(p),
        None => nodes_problem(nodes.drop_first(), scope),
    });
    if i > 0 {
        assert(nodes.drop_first()[i - 1] == nodes[i]);
        law_undefined_references(nodes.drop_first(), scope, i - 1);
    } else {
        assert(node_problem(nodes[0], scope) is Some);
    }
}

/// Bodies are checked inside too: a problem in the default body of a
/// top-level `@block`, in the body of an `@message`, or in the first
/// branch of an `@if` (on a defined condition) is a problem of the body.
pub proof fn law_nested_problems(nodes: Seq<Node>, scope: Scope, i: int)
    requires
        0 <= i < nodes.len(),
        (nodes[i] matches Node::Block(b) && nodes_problem(b.body@, scope) is Some)
            || (nodes[i] matches Node::Message(m) && nodes_problem(m.body@, scope) is Some)
            || (nodes[i] matches Node::If(b) && scope.vars.has(b.condition@) && nodes_problem(b.then_body@, scope) is Some),
    ensures
        nodes_problem(nodes, scope) is Some,
    decreases i,
{
    assert(nodes_problem(nodes, scope) == match node_problem(nodes[0], scope) {
        Some(p) => Some(p),
        None => nodes_problem(nodes.drop_first(), scope),
    });
    if i > 0 {
        assert(nodes.drop_first()[i - 1] == nodes[i]);
        law_nested_problems(nodes.drop_first(), scope, i - 1);
    } else {
        assert(node_problem(nodes[0], scope) is Some);
    }
}

/// Adding definitions never invalidates a module: a body with no problem
/// in a scope has none in any scope that only adds names to it.
pub proof fn law_definitions_keep_valid(nodes: Seq<Node>, a: Scope, b: Scope)
    requires
        nodes_problem(nodes, a) is None,
        scope_extends(a, b),
    ensures
        nodes_problem(nodes, b) is None,
    decreases nodes,
{
    if nodes.len() > 0 {
        lemma_node_keeps_valid(nodes[0], a, b);
        law_definitions_keep_valid(nodes.drop_first(), a, b);
    }
}

proof fn lemma_node_keeps_valid(node: Node, a: Scope, b: Scope)
    requires
        node_problem(node, a) is None,
        scope_extends(a, b),
    ensures
        node_problem(node, b) is None,
    decreases node,
{
    match node {
        Node::Interpolation(i) => lemma_expr_keeps_valid(i.expr, a, b),
        Node::If(blk) => {
            law_definitions_keep_valid(blk.then_body@, a, b);
            lemma_branches_keep_valid(blk.elseif_branches@, a, b);
            match blk.else_body {
                Some(e) => law_definitions_keep_valid(e@, a, b),
                None => {},
            }
        },
        Node::Include(i) => {
            assert(a.namespaces.has(i.alias@));
            assert(b.namespaces.lookup(i.alias@) is Some);
        },
        Node::Message(m) => law_definitions_keep_valid(m.body@, a, b),
        Node::Block(blk) => law_definitions_keep_valid(blk.body@, a, b),
        _ => {},
    }
}

proof fn lemma_branches_keep_valid(bs: Seq<(String, std::sync::Arc<Vec<Node>>)>, a: Scope, b: Scope)
    requires
        branches_problem(bs, a) is None,
        scope_extends(a, b),
    ensures
        branches_problem(bs, b) is None,
    decreases bs,
{
    if bs.len() > 0 {
        law_definitions_keep_valid(bs[0].1@, a, b);
        lemma_branches_keep_valid(bs.drop_first(), a, b);
    }
}

proof fn lemma_args_keep_valid(args: Seq<Arg>, a: Scope, b: Scope)
    requires
        args_problem(args, a) is None,
        scope_extends(a, b),
    ensures
        args_problem(args, b) is None,
    decreases args.len(),
{
    if args.len() > 0 {
        lemma_args_keep_valid(args.drop_first(), a, b);
    }
}

proof fn lemma_expr_keeps_valid(e: Expr, a: Scope, b: Scope)
    requires
        expr_problem(e, a) is None,
        scope_extends(a, b),
    ensures
        expr_problem(e, b) is None,
{
    match e {
        Expr::Var(_) => {},
        Expr::Call { name, args } => {
            assert(a.functions.lookup(name@) is Some);
            lemma_args_keep_valid(args@, a, b);
        },
        Expr::QualifiedCall { namespace, name, args } => {
            assert(a.namespaces.has(namespace@));
            lemma_args_keep_valid(args@, a, b);
        },
    }
}

/// Check that all variable arguments reference defined variables.
fn validate_var_args(args: &Vec<Arg>, scope: &Scope) -> (r: Result<(), MdsError>)
    requires
        scope.wf(),
    ensures
        r is Ok <==> args_problem(args@, *scope) is None,
        r matches Err(e) ==> problem_of(e) == args_problem(args@, *scope),
{
    let mut i: usize = 0;
    assert(args@.subrange(0, args@.len() as int) =~= args@);
    while i < args.len()
        invariant
            scope.wf(),
            i <= args@.len(),
            args_problem(args@, *scope) == args_problem(args@.subrange(i as int, args@.len() as int), *scope),
        decreases args@.len() - i,
    {
        let ghost rest = args@.subrange(i as int, args@.len() as int);
        assert(rest[0] == args@[i as int]);
        assert(rest.drop_first() =~= args@.subrange(i + 1, args@.len() as int));
        match &args[i] {
            Arg::Var(name) => {
                if scope.get_var(name.as_str()).is_none() {
                    return Err(MdsError::undefined_var(name.as_str()));
                }
            },
            _ => {},
        }
        i = i + 1;
    }
    Ok(())
}

/// Check one interpolated expression.
fn validate_expr(expr: &Expr, scope: &Scope) -> (r: Result<(), MdsError>)
    requires
        scope.wf(),
    ensures
        r is Ok <==> expr_problem(*expr, *scope) is None,
        r matches Err(e) ==> problem_of(e) == expr_problem(*expr, *scope),
{
    match expr {
        Expr::Var(name) => {
            if scope.get_var(name.as_str()).is_none() {
                return Err(MdsError::undefined_var(name.as_str()));
            }
            Ok(())
        },
        Expr::Call { name, args } => {
            let func = match scope.get_function(name.as_str()) {
                Some(f) => f,
                None => {
                    return Err(MdsError::undefined_fn(name.as_str()));
                },
            };
            if args.len() != func.params.len() {
                return Err(MdsError::arity(name.as_str(), func.params.len(), args.len()));
            }
            validate_var_args(args, scope)
        },
        Expr::QualifiedCall { namespace, name, args } => {
            let ns = match scope.get_namespace(namespace.as_str()) {
                Some(n) => n,
                None => {
                    return Err(MdsError::undefined_var(namespace.as_str()));
                },
            };
            let qualified = cat3(namespace.as_str(), ".", name.as_str());
            let found = find_entry(&ns.functions, name.as_str());
            match found {
                None => Err(MdsError::undefined_fn(qualified.as_str())),
                Some(f) => {
                    if args.len() != f.params.len() {
                        return Err(MdsError::arity(qualified.as_str(), f.params.len(), args.len()));
                    }
                    validate_var_args(args, scope)
                },
            }
        },
    }
}

fn validate_nodes(nodes: &Vec<Node>, scope: &Scope) -> (r: Result<(), MdsError>)
    requires
        scope.wf(),
    ensures
        r is Ok <==> nodes_problem(nodes@, *scope) is None,
        r matches Err(e) ==> problem_of(e) == nodes_problem(nodes@, *scope),
    decreases nodes,
{
    let mut i: usize = 0;
    assert(nodes@.subrange(0, nodes@.len() as int) =~= nodes@);
    while i < nodes.len()
        invariant
            scope.wf(),
            i <= nodes@.len(),
            nodes_problem(nodes@, *scope) == nodes_problem(nodes@.subrange(i as int, nodes@.len() as int), *scope),
        decreases nodes@.len() - i,
    {
        let ghost rest = nodes@.subrange(i as int, nodes@.len() as int);
        assert(rest[0] == nodes@[i as int]);
        assert(rest.drop_first() =~= nodes@.subrange(i + 1, nodes@.len() as int));
        validate_node(&nodes[i], scope)?;
        i = i + 1;
    }
    Ok(())
}

fn validate_branches(bs: &Vec<(String, std::sync::Arc<Vec<Node>>)>, scope: &Scope) -> (r: Result<(), MdsError>)
    requires
        scope.wf(),
    ensures
        r is Ok <==> branches_problem(bs@, *scope) is None,
        r matches Err(e) ==> problem_of(e) == branches_problem(bs@, *scope),
    decreases bs,
{
    let mut i: usize = 0;
    assert(bs@.subrange(0, bs@.len() as int) =~= bs@);
    while i < bs.len()
        invariant
            scope.wf(),
            i <= bs@.len(),
            branches_problem(bs@, *scope) == branches_problem(bs@.subrange(i as int, bs@.len() as int), *scope),
        decreases bs@.len() - i,
    {
        let ghost rest = bs@.subrange(i as int, bs@.len() as int);
        assert(rest[0] == bs@[i as int]);
        assert(rest.drop_first() =~= bs@.subrange(i + 1, bs@.len() as int));
        let (cond, body) = &bs[i];
        if scope.get_var(cond.as_str()).is_none() {
            return Err(MdsError::undefined_var(cond.as_str()));
        }
        assert(decreases_to!(bs => bs[i as int]));
        validate_nodes(body, scope)?;
        i = i + 1;
    }
    Ok(())
}

/// Check one node (and, for conditionals, messages and blocks, its bodies).
fn validate_node(node: &Node, scope: &Scope) -> (r: Result<(), MdsError>)
    requires
        scope.wf(),
    ensures
        r is Ok <==> node_problem(*node, *scope) is None,
        r matches Err(e) ==> problem_of(e) == node_problem(*node, *scope),
    decreases node,
{
    match node {
        Node::Text(_) | Node::EscapedBrace => Ok(()),
        Node::Interpolation(interp) => validate_expr(&interp.expr, scope),
        Node::If(block) => {
            // The condition must be a defined variable; its truthiness is
            // decided at evaluation time.
            if scope.get_var(block.condition.as_str()).is_none() {
                return Err(MdsError::undefined_var(block.condition.as_str()));
            }
            validate_nodes(&block.then_body, scope)?;
            validate_branches(&block.elseif_branches, scope)?;
            match &block.else_body {
                Some(else_body) => validate_nodes(else_body, scope),
                None => Ok(()),
            }
        },
        Node::For(block) => {
            // The iterable must be defined; the loop variable is block-scoped
            // and checked at evaluation time.
            if scope.get_var(block.iterable.as_str()).is_none() {
                return Err(MdsError::undefined_var(block.iterable.as_str()));
            }
            Ok(())
        },
        Node::Define(_) => {
            // Function bodies are validated when called.
            Ok(())
        },
        Node::Import(_) | Node::Export(_) => {
            // Handled by the resolver.
            Ok(())
        },
        Node::Include(inc) => {
            // The referenced namespace must have been imported.
            if scope.get_namespace(inc.alias.as_str()).is_none() {
                return Err(MdsError::undefined_var(inc.alias.as_str()));
            }
            Ok(())
        },
        Node::Message(m) => validate_nodes(&m.body, scope),
        Node::Block(b) => validate_nodes(&b.body, scope),
    }
}

/// Validate the semantic correctness of a module body against `scope`:
/// variable references, function existence and arity, and imported
/// namespaces. The first problem in document order is reported.
pub fn validate(nodes: &[Node], scope: &Scope) -> (r: Result<(), MdsError>)
    requires
        scope.wf(),
    ensures
        r is Ok <==> nodes_problem(nodes@, *scope) is None,
        r matches Err(e) ==> problem_of(e) == nodes_problem(nodes@, *scope),
{
    let mut i: usize = 0;
    assert(nodes@.subrange(0, nodes@.len() as int) =~= nodes@);
    while i < nodes.len()
        invariant
            scope.wf(),
            i <= nodes@.len(),
            nodes_problem(nodes@, *scope) == nodes_problem(nodes@.subrange(i as int, nodes@.len() as int), *scope),
        decreases nodes@.len() - i,
    {
        let ghost rest = nodes@.subrange(i as int, nodes@.len() as int);
        assert(rest[0] == nodes@[i as int]);
        assert(rest.drop_first() =~= nodes@.subrange(i + 1, nodes@.len() as int));
        validate_node(&nodes[i], scope)?;
        i = i + 1;
    }
    Ok(())
}

} // verus!
