//! Name resolution environments: variables, functions and import namespaces.

use std::sync::Arc;
use vstd::prelude::*;
use crate::ast::{share, Node};
use crate::table::Table;
use crate::value::TemplateValue;

verus! {

/// A `@define` function: its parameters and body, with the scope captured
/// where it was defined (lexical closure).
#[derive(Debug)]
pub struct FunctionDef {
    pub name: String,
    pub params: Arc<Vec<String>>,
    pub body: Arc<Vec<Node>>,
    pub captured: Arc<CapturedScope>,
}

/// What a function sees of its defining module.
#[derive(Debug)]
pub struct CapturedScope {
    pub namespaces: Table<Arc<NamespaceScope>>,
    pub functions: Vec<(String, Arc<FunctionDef>)>,
    pub vars: Table<TemplateValue>,
}

/// What an aliased import makes visible: the exported functions and, when
/// exported, the prompt body.
#[derive(Debug)]
pub struct NamespaceScope {
    pub functions: Vec<(String, Arc<FunctionDef>)>,
    pub prompt_body: Option<String>,
}

/// The scope a module body is validated and evaluated in.
#[derive(Debug)]
pub struct Scope {
    pub vars: Table<TemplateValue>,
    pub functions: Table<Arc<FunctionDef>>,
    pub namespaces: Table<Arc<NamespaceScope>>,
}

impl CapturedScope {
    /// Each of the captured tables holds a name at most once.
    pub open spec fn wf(&self) -> bool {
        self.namespaces.wf() && (Table { entries: self.functions }).wf() && self.vars.wf()
    }
}

/// A copy of a table of shared values.
pub fn share_all<T>(t: &Table<Arc<T>>) -> (r: Table<Arc<T>>)
    ensures
        r.entries@ == t.entries@,
        t.wf() ==> r.wf(),
{
    let mut out: Vec<(String, Arc<T>)> = Vec::new();
    let mut i: usize = 0;
    while i < t.entries.len()
        invariant
            i <= t.entries@.len(),
            out@ == t.entries@.subrange(0, i as int),
        decreases t.entries@.len() - i,
    {
        let (k, v) = &t.entries[i];
        out.push((k.clone(), share(v)));
        assert(out@ =~= t.entries@.subrange(0, i + 1));
        i = i + 1;
    }
    assert(out@ =~= t.entries@);
    Table { entries: out }
}

/// A copy of a table of values.
pub fn copy_values(t: &Table<TemplateValue>) -> (r: Table<TemplateValue>)
    ensures
        r.entries@ == t.entries@,
        t.wf() ==> r.wf(),
{
    let mut out: Vec<(String, TemplateValue)> = Vec::new();
    let mut i: usize = 0;
    while i < t.entries.len()
        invariant
            i <= t.entries@.len(),
            out@ == t.entries@.subrange(0, i as int),
        decreases t.entries@.len() - i,
    {
        let (k, v) = &t.entries[i];
        out.push((k.clone(), v.copy()));
        assert(out@ =~= t.entries@.subrange(0, i + 1));
        i = i + 1;
    }
    assert(out@ =~= t.entries@);
    Table { entries: out }
}

impl Scope {
    pub open spec fn wf(&self) -> bool {
        self.vars.wf() && self.functions.wf() && self.namespaces.wf()
    }

    pub fn new() -> (s: Scope)
        ensures
            s.wf(),
            s.vars.entries@.len() == 0,
            s.functions.entries@.len() == 0,
            s.namespaces.entries@.len() == 0,
    {
        Scope { vars: Table::new(), functions: Table::new(), namespaces: Table::new() }
    }

    pub fn get_var(&self, name: &str) -> (r: Option<&TemplateValue>)
        requires
            self.wf(),
        ensures
            r matches Some(v) ==> self.vars.lookup(name@) == Some(*v),
            r is None ==> !self.vars.has(name@),
    {
        self.vars.get(name)
    }

    pub fn set_var(&mut self, name: &str, value: TemplateValue)
        requires
            old(self).wf(),
        ensures
            final(self).wf(),
            final(self).functions == old(self).functions,
            final(self).namespaces == old(self).namespaces,
            final(self).vars.lookup(name@) == Some(value),
            forall|q: Seq<char>| q != name@ ==> final(self).vars.lookup(q) == old(self).vars.lookup(q),
            forall|q: Seq<char>| final(self).vars.has(q) <==> (old(self).vars.has(q) || q == name@),
    {
        self.vars.insert(name.to_owned(), value);
    }

    pub fn get_function(&self, name: &str) -> (r: Option<&Arc<FunctionDef>>)
        requires
            self.wf(),
        ensures
            r matches Some(f) ==> self.functions.lookup(name@) == Some(*f),
            r is None ==> !self.functions.has(name@),
    {
        self.functions.get(name)
    }

    pub fn set_function(&mut self, name: &str, f: Arc<FunctionDef>)
        requires
            old(self).wf(),
        ensures
            final(self).wf(),
            final(self).vars == old(self).vars,
            final(self).namespaces == old(self).namespaces,
            final(self).functions.lookup(name@) == Some(f),
            forall|q: Seq<char>| q != name@ ==> final(self).functions.lookup(q) == old(self).functions.lookup(q),
            forall|q: Seq<char>| final(self).functions.has(q) <==> (old(self).functions.has(q) || q == name@),
    {
        self.functions.insert(name.to_owned(), f);
    }

    pub fn get_namespace(&self, name: &str) -> (r: Option<&Arc<NamespaceScope>>)
        requires
            self.wf(),
        ensures
            r matches Some(n) ==> self.namespaces.lookup(name@) == Some(*n),
            r is None ==> !self.namespaces.has(name@),
    {
        self.namespaces.get(name)
    }

    pub fn set_namespace(&mut self, name: &str, ns: NamespaceScope)
        requires
            old(self).wf(),
        ensures
            final(self).wf(),
            final(self).vars == old(self).vars,
            final(self).functions == old(self).functions,
            final(self).namespaces.lookup(name@) == Some(Arc::new(ns)),
            forall|q: Seq<char>| q != name@ ==> final(self).namespaces.lookup(q) == old(self).namespaces.lookup(q),
            forall|q: Seq<char>| final(self).namespaces.has(q) <==> (old(self).namespaces.has(q) || q == name@),
    {
        self.namespaces.insert(name.to_owned(), Arc::new(ns));
    }

    /// The scope a function defined here captures.
    pub fn capture(&self) -> (c: CapturedScope)
        requires
            self.wf(),
        ensures
            c.wf(),
            c.vars.entries@ == self.vars.entries@,
            c.functions@ == self.functions.entries@,
            c.namespaces.entries@ == self.namespaces.entries@,
    {
        CapturedScope {
            namespaces: share_all(&self.namespaces),
            functions: share_all(&self.functions).entries,
            vars: copy_values(&self.vars),
        }
    }
}

} // verus!
