//! The syntax tree of a template module.

use std::sync::Arc;
use vstd::prelude::*;

verus! {

/// Literal text.
#[derive(Debug)]
pub struct TextNode {
    pub text: String,
}

/// An argument of a call: a variable or a string literal.
#[derive(Debug)]
pub enum Arg {
    Var(String),
    Str(String),
}

/// The expression inside `{ ... }`.
#[derive(Debug)]
pub enum Expr {
    Var(String),
    Call { name: String, args: Arc<Vec<Arg>> },
    QualifiedCall { namespace: String, name: String, args: Arc<Vec<Arg>> },
}

/// `{expr}` at a character offset of the source.
#[derive(Debug)]
pub struct Interpolation {
    pub expr: Expr,
    pub offset: usize,
}

/// `@if cond:` with optional `@elseif` branches and an `@else` body.
#[derive(Debug)]
pub struct IfBlock {
    pub condition: String,
    pub then_body: Arc<Vec<Node>>,
    pub elseif_branches: Arc<Vec<(String, Arc<Vec<Node>>)>>,
    pub else_body: Option<Arc<Vec<Node>>>,
    pub offset: usize,
}

/// `@for var in iterable:`.
#[derive(Debug)]
pub struct ForBlock {
    pub var: String,
    pub iterable: String,
    pub body: Arc<Vec<Node>>,
    pub offset: usize,
}

/// `@define name(params):`.
#[derive(Debug)]
pub struct DefineBlock {
    pub name: String,
    pub params: Arc<Vec<String>>,
    pub body: Arc<Vec<Node>>,
    pub offset: usize,
}

/// The three forms of `@import`.
#[derive(Debug)]
pub enum ImportDirective {
    Alias { path: String, alias: String, offset: usize },
    Merge { path: String, offset: usize },
    Selective { names: Arc<Vec<String>>, path: String, offset: usize },
}

/// The three forms of `@export`.
#[derive(Debug)]
pub enum ExportDirective {
    Named { name: String },
    ReExport { name: String, path: String },
    Wildcard { path: String },
}

/// `@include alias`: the prompt body of an aliased import.
#[derive(Debug)]
pub struct IncludeNode {
    pub alias: String,
    pub offset: usize,
}

/// `@message role:`.
#[derive(Debug)]
pub struct MessageBlock {
    pub role: String,
    pub body: Arc<Vec<Node>>,
    pub offset: usize,
}

/// `@block name:`: a named placeholder with its default body.
#[derive(Debug)]
pub struct BlockNode {
    pub name: String,
    pub body: Arc<Vec<Node>>,
    pub offset: usize,
}

/// A node of a template body.
#[derive(Debug)]
pub enum Node {
    Text(TextNode),
    EscapedBrace,
    Interpolation(Interpolation),
    If(IfBlock),
    For(ForBlock),
    Define(DefineBlock),
    Import(ImportDirective),
    Export(ExportDirective),
    Include(IncludeNode),
    Message(MessageBlock),
    Block(BlockNode),
}

/// The raw YAML between the `---` fences.
#[derive(Debug)]
pub struct Frontmatter {
    pub raw: String,
}

/// `@extends "path"`.
#[derive(Debug)]
pub struct ExtendsDirective {
    pub path: String,
    pub offset: usize,
}

/// A parsed module.
#[derive(Debug)]
pub struct Module {
    pub frontmatter: Option<Frontmatter>,
    pub extends: Option<ExtendsDirective>,
    pub body: Vec<Node>,
}

/// Calls `Arc::clone`: the result points to the same value.
#[verifier::external_body]
pub fn share<T>(a: &Arc<T>) -> (r: Arc<T>)
    ensures
        r == *a,
{
    Arc::clone(a)
}

impl Arg {
    pub fn copy(&self) -> (r: Arg)
        ensures
            r == *self,
    {
        match self {
            Arg::Var(s) => Arg::Var(s.clone()),
            Arg::Str(s) => Arg::Str(s.clone()),
        }
    }
}

impl Expr {
    pub fn copy(&self) -> (r: Expr)
        ensures
            r == *self,
    {
        match self {
            Expr::Var(s) => Expr::Var(s.clone()),
            Expr::Call { name, args } => Expr::Call { name: name.clone(), args: share(args) },
            Expr::QualifiedCall { namespace, name, args } => Expr::QualifiedCall {
                namespace: namespace.clone(),
                name: name.clone(),
                args: share(args),
            },
        }
    }
}

impl BlockNode {
    pub fn copy(&self) -> (r: BlockNode)
        ensures
            r == *self,
    {
        BlockNode { name: self.name.clone(), body: share(&self.body), offset: self.offset }
    }
}

impl DefineBlock {
    pub fn copy(&self) -> (r: DefineBlock)
        ensures
            r == *self,
    {
        DefineBlock {
            name: self.name.clone(),
            params: share(&self.params),
            body: share(&self.body),
            offset: self.offset,
        }
    }
}

impl Node {
    pub fn copy(&self) -> (r: Node)
        ensures
            r == *self,
    {
        match self {
            Node::Text(t) => Node::Text(TextNode { text: t.text.clone() }),
            Node::EscapedBrace => Node::EscapedBrace,
            Node::Interpolation(i) => Node::Interpolation(Interpolation { expr: i.expr.copy(), offset: i.offset }),
            Node::If(b) => {
                let else_body = match &b.else_body {
                    Some(e) => Some(share(e)),
                    None => None,
                };
                Node::If(IfBlock {
                    condition: b.condition.clone(),
                    then_body: share(&b.then_body),
                    elseif_branches: share(&b.elseif_branches),
                    else_body,
                    offset: b.offset,
                })
            },
            Node::For(b) => Node::For(ForBlock {
                var: b.var.clone(),
                iterable: b.iterable.clone(),
                body: share(&b.body),
                offset: b.offset,
            }),
            Node::Define(d) => Node::Define(d.copy()),
            Node::Import(i) => Node::Import(match i {
                ImportDirective::Alias { path, alias, offset } => ImportDirective::Alias {
                    path: path.clone(),
                    alias: alias.clone(),
                    offset: *offset,
                },
                ImportDirective::Merge { path, offset } => ImportDirective::Merge { path: path.clone(), offset: *offset },
                ImportDirective::Selective { names, path, offset } => ImportDirective::Selective {
                    names: share(names),
                    path: path.clone(),
                    offset: *offset,
                },
            }),
            Node::Export(e) => Node::Export(match e {
                ExportDirective::Named { name } => ExportDirective::Named { name: name.clone() },
                ExportDirective::ReExport { name, path } => ExportDirective::ReExport { name: name.clone(), path: path.clone() },
                ExportDirective::Wildcard { path } => ExportDirective::Wildcard { path: path.clone() },
            }),
            Node::Include(i) => Node::Include(IncludeNode { alias: i.alias.clone(), offset: i.offset }),
            Node::Message(m) => Node::Message(MessageBlock {
                role: m.role.clone(),
                body: share(&m.body),
                offset: m.offset,
            }),
            Node::Block(b) => Node::Block(b.copy()),
        }
    }
}

} // verus!
