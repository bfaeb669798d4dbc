//! The options object of the JavaScript interface, read from its JSON form:
//! the entry's file name, extra in-memory modules and runtime variables.

use std::sync::Arc;
use vstd::prelude::*;
use crate::error::MdsError;
use crate::table::Table;
use crate::text::{cat2, cat3, trim};
use crate::value::TemplateValue;

verus! {

broadcast use {vstd::std_specs::vec::group_vec_axioms, vstd::seq::group_seq_axioms};

/// A JSON value. Numbers keep their text; object members keep their order.
#[derive(Debug)]
pub enum Json {
    Null,
    Bool(bool),
    Number(String),
    String(String),
    Array(Vec<Json>),
    Object(Vec<(String, Json)>),
}

/// The name of a JSON value's type, as error messages give it.
pub open spec fn json_type(v: Json) -> Seq<char> {
    match v {
        Json::Null => "null"@,
        Json::Bool(_) => "boolean"@,
        Json::Number(_) => "number"@,
        Json::String(_) => "string"@,
        Json::Array(_) => "array"@,
        Json::Object(_) => "object"@,
    }
}

/// A human-readable name of a JSON value's type, for diagnostics.
pub fn json_type_name(v: &Json) -> (r: &'static str)
    ensures
        r@ == json_type(*v),
{
    match v {
        Json::Null => "null",
        Json::Bool(_) => "boolean",
        Json::Number(_) => "number",
        Json::String(_) => "string",
        Json::Array(_) => "array",
        Json::Object(_) => "object",
    }
}

/// The value of the first member named `k`.
pub open spec fn member(es: Seq<(String, Json)>, k: Seq<char>) -> Option<Json> {
    if exists|i: int| 0 <= i < es.len() && es[i].0@ == k {
        Some(es[choose|i: int| 0 <= i < es.len() && es[i].0@ == k && forall|j: int| 0 <= j < i ==> es[j].0@ != k].1)
    } else {
        None
    }
}

fn get_member<'a>(es: &'a Vec<(String, Json)>, k: &str) -> (r: Option<&'a Json>)
    ensures
        r matches Some(v) ==> member(es@, k@) == Some(*v),
        r is None ==> member(es@, k@) is None,
{
    let key = k.to_owned();
    let mut i: usize = 0;
    while i < es.len()
        invariant
            key@ == k@,
            i <= es@.len(),
            forall|j: int| 0 <= j < i ==> es@[j].0@ != k@,
        decreases es@.len() - i,
    {
        if es[i].0 == key {
            proof {
                let c = choose|c: int| 0 <= c < es@.len() && es@[c].0@ == k@ && forall|j: int| 0 <= j < c ==> es@[j].0@ != k@;
                assert(es@[i as int].0@ == k@);
                if c < i {
                } else if c > i {
                }
            }
            return Some(&es[i].1);
        }
        i = i + 1;
    }
    None
}

/// `v` is the template value of the JSON value `j`: scalars one to one,
/// arrays item by item, objects member by member.
pub open spec fn json_converts(j: Json, v: TemplateValue) -> bool
    decreases j,
{
    match j {
        Json::Null => v == TemplateValue::Null,
        Json::Bool(b) => v == TemplateValue::Bool(b),
        Json::Number(n) => v matches TemplateValue::Number(t) && t@ == n@,
        Json::String(s) => v matches TemplateValue::String(t) && t@ == s@,
        Json::Array(items) => v matches TemplateValue::List(l) && l@.len() == items@.len()
            && forall|i: int| 0 <= i < items@.len() ==> json_converts(#[trigger] items@[i], l@[i]),
        Json::Object(es) => v matches TemplateValue::Object(m) && m@.len() == es@.len()
            && forall|i: int| 0 <= i < es@.len() ==> (m@[i].0@ == (#[trigger] es@[i]).0@ && json_converts(es@[i].1, m@[i].1)),
    }
}


impl TemplateValue {
    /// Convert a JSON value: scalars one to one, arrays to lists, objects to
    /// maps in member order.
    #[verifier::loop_isolation(false)]
    pub fn from_json(v: &Json) -> (r: Result<TemplateValue, MdsError>)
        ensures
            r matches Ok(t) && json_converts(*v, t),
        decreases v,
    {
        match v {
            Json::Null => Ok(TemplateValue::Null),
            Json::Bool(b) => Ok(TemplateValue::Bool(*b)),
            Json::Number(n) => Ok(TemplateValue::Number(n.clone())),
            Json::String(s) => Ok(TemplateValue::String(s.clone())),
            Json::Array(items) => {
                let mut out: Vec<TemplateValue> = Vec::new();
                let mut i: usize = 0;
                while i < items.len()
                    invariant
                        i <= items@.len(),
                        out@.len() == i,
                        forall|j: int| 0 <= j < i ==> json_converts(#[trigger] items@[j], out@[j]),
                    decreases items@.len() - i,
                {
                    assert(decreases_to!(items@ => items@[i as int]));
                    let x = TemplateValue::from_json(&items[i])?;
                    out.push(x);
                    i = i + 1;
                }
                Ok(TemplateValue::List(Arc::new(out)))
            },
            Json::Object(es) => {
                let mut out: Vec<(String, TemplateValue)> = Vec::new();
                let mut i: usize = 0;
                while i < es.len()
                    invariant
                        i <= es@.len(),
                        out@.len() == i,
                        forall|j: int| 0 <= j < i ==> (out@[j].0@ == (#[trigger] es@[j]).0@ && json_converts(es@[j].1, out@[j].1)),
                    decreases es@.len() - i,
                {
                    assert(decreases_to!(es@ => es@[i as int]));
                    let x = TemplateValue::from_json(&es[i].1)?;
                    out.push((es[i].0.clone(), x));
                    i = i + 1;
                }
                Ok(TemplateValue::Object(Arc::new(out)))
            },
        }
    }
}

/// The options of a compilation: the entry's file name, extra modules by
/// key, and the runtime variables when given.
#[derive(Debug)]
pub struct ParsedOptions {
    pub filename: String,
    pub extra_modules: Table<String>,
    pub vars: Option<Table<TemplateValue>>,
}

/// Why the options were refused: a malformed options object, or a runtime
/// variable that does not convert.
#[derive(Debug)]
pub enum OptionsError {
    Invalid(String),
    Value(MdsError),
}

/// The file name an options object gives, or why it gives none.
pub open spec fn filename_option(es: Seq<(String, Json)>) -> Result<Seq<char>, Seq<char>> {
    match member(es, "filename"@) {
        None => Ok("input.mds"@),
        Some(Json::String(s)) => if trim(s@).len() == 0 {
            Err("options.filename must be a non-empty string"@)
        } else {
            Ok(s@)
        },
        Some(other) => Err("options.filename must be a string, got "@ + json_type(other)),
    }
}

/// The problem with an `options.modules` object: its first member that is
/// not a string.
pub open spec fn modules_problem(es: Seq<(String, Json)>) -> Option<Seq<char>> {
    if exists|i: int| 0 <= i < es.len() && !(es[i].1 is String) {
        let i = choose|i: int| 0 <= i < es.len() && !(es[i].1 is String) && forall|j: int| 0 <= j < i ==> es[j].1 is String;
        Some("options.modules[\""@ + es[i].0@ + "\"] must be a string, got "@ + json_type(es[i].1))
    } else {
        None
    }
}

/// The value of the last member of `es` named `q`.
pub open spec fn last_member(es: Seq<(String, Json)>, q: Seq<char>) -> Option<Json>
    decreases es.len(),
{
    if es.len() == 0 {
        None
    } else if es.last().0@ == q {
        Some(es.last().1)
    } else {
        last_member(es.drop_last(), q)
    }
}

/// Each module of `t` holds the text of its name's last member in `es`.
pub open spec fn modules_from(t: Table<String>, es: Seq<(String, Json)>) -> bool {
    forall|q: Seq<char>| #[trigger] t.lookup(q) matches Some(v) ==> (last_member(es, q) matches Some(Json::String(s)) && v@ == s@)
}

/// Each variable of `t` holds the value of its name's last member in `es`.
pub open spec fn vars_from(t: Table<TemplateValue>, es: Seq<(String, Json)>) -> bool {
    forall|q: Seq<char>| #[trigger] t.lookup(q) matches Some(v) ==> (last_member(es, q) matches Some(j) && json_converts(j, v))
}

fn invalid(m: String) -> (e: OptionsError)
    ensures
        e matches OptionsError::Invalid(t) && t@ == m@,
{
    OptionsError::Invalid(m)
}

/// Read the modules of an `options.modules` object.
fn parse_modules(es: &Vec<(String, Json)>) -> (r: Result<Table<String>, OptionsError>)
    ensures
        modules_problem(es@) matches Some(m) ==> (r matches Err(OptionsError::Invalid(t)) && t@ == m),
        modules_problem(es@) is None ==> (r matches Ok(t) && t.wf()
            && forall|q: Seq<char>| t.has(q) <==> exists|i: int| 0 <= i < es@.len() && #[trigger] es@[i].0@ == q),
        r matches Ok(t) ==> modules_from(t, es@),
{
    let mut t: Table<String> = Table::new();
    let mut i: usize = 0;
    while i < es.len()
        invariant
            t.wf(),
            i <= es@.len(),
            forall|j: int| 0 <= j < i ==> es@[j].1 is String,
            forall|q: Seq<char>| t.has(q) <==> exists|j: int| 0 <= j < i && #[trigger] es@[j].0@ == q,
            modules_from(t, es@.subrange(0, i as int)),
        decreases es@.len() - i,
    {
        proof {
            assert(es@.subrange(0, i + 1).drop_last() =~= es@.subrange(0, i as int));
        }
        match &es[i].1 {
            Json::String(s) => {
                t.insert(es[i].0.clone(), s.clone());
            },
            other => {
                proof {
                    let c = choose|c: int| 0 <= c < es@.len() && !(es@[c].1 is String) && forall|j: int| 0 <= j < c ==> es@[j].1 is String;
                    assert(!(es@[i as int].1 is String));
                    if c < i {
                    } else if c > i {
                    }
                }
                let head = cat3("options.modules[\"", es[i].0.as_str(), "\"] must be a string, got ");
                let m = cat2(head.as_str(), json_type_name(other));
                return Err(invalid(m));
            },
        }
        i = i + 1;
    }
    assert(es@.subrange(0, es@.len() as int) =~= es@);
    Ok(t)
}

/// Read the runtime variables of an `options.vars` object.
fn parse_vars(es: &Vec<(String, Json)>) -> (r: Result<Table<TemplateValue>, OptionsError>)
    ensures
        r is Ok,
        r matches Ok(t) ==> t.wf() && forall|q: Seq<char>| t.has(q) <==> exists|i: int| 0 <= i < es@.len() && #[trigger] es@[i].0@ == q,
        r matches Ok(t) ==> vars_from(t, es@),
{
    let mut t: Table<TemplateValue> = Table::new();
    let mut i: usize = 0;
    while i < es.len()
        invariant
            t.wf(),
            i <= es@.len(),
            forall|q: Seq<char>| t.has(q) <==> exists|j: int| 0 <= j < i && #[trigger] es@[j].0@ == q,
            vars_from(t, es@.subrange(0, i as int)),
        decreases es@.len() - i,
    {
        proof {
            assert(es@.subrange(0, i + 1).drop_last() =~= es@.subrange(0, i as int));
        }
        let v = match TemplateValue::from_json(&es[i].1) {
            Ok(v) => v,
            Err(e) => {
                return Err(OptionsError::Value(e));
            },
        };
        t.insert(es[i].0.clone(), v);
        i = i + 1;
    }
    assert(es@.subrange(0, es@.len() as int) =~= es@);
    Ok(t)
}

/// Read the options object; `None` (a JavaScript `null` or `undefined`)
/// gives the defaults: file name `input.mds`, no extra modules, no
/// variables. Otherwise the options must be an object whose `filename`, if
/// present, is a non-blank string, whose `modules`, if present, is an object
/// of strings, and whose `vars`, if present, is an object.
pub fn parse_options(options: Option<Json>) -> (r: Result<ParsedOptions, OptionsError>)
    ensures
        options is None ==> (r matches Ok(p) && p.filename@ == "input.mds"@ && p.extra_modules.entries@.len() == 0
            && p.vars is None),
        (options matches Some(j) && !(j is Object)) ==> (r matches Err(OptionsError::Invalid(m))
            && m@ == "options must be a plain object"@),
        options matches Some(Json::Object(es)) ==> {
            &&& filename_option(es@) matches Err(msg) ==> (r matches Err(OptionsError::Invalid(m)) && m@ == msg)
            &&& r matches Ok(p) ==> filename_option(es@) == Ok::<Seq<char>, Seq<char>>(p.filename@)
            &&& filename_option(es@) is Ok ==> match member(es@, "modules"@) {
                Some(Json::Object(mods)) => {
                    &&& modules_problem(mods@) matches Some(msg) ==> (r matches Err(OptionsError::Invalid(m)) && m@ == msg)
                    &&& r matches Ok(p) ==> p.extra_modules.wf() && forall|q: Seq<char>| p.extra_modules.has(q)
                        <==> exists|i: int| 0 <= i < mods@.len() && #[trigger] mods@[i].0@ == q
                    &&& r matches Ok(p) ==> modules_from(p.extra_modules, mods@)
                },
                None => r matches Ok(p) ==> p.extra_modules.entries@.len() == 0,
                Some(other) => r matches Err(OptionsError::Invalid(m))
                    && m@ == "options.modules must be a plain object, got "@ + json_type(other),
            }
            &&& (filename_option(es@) is Ok && (member(es@, "modules"@) is None
                || (member(es@, "modules"@) matches Some(Json::Object(mods)) && modules_problem(mods@) is None)))
                ==> match member(es@, "vars"@) {
                Some(Json::Object(vs)) => r matches Ok(p) && (p.vars matches Some(t) && t.wf()
                    && forall|q: Seq<char>| t.has(q) <==> exists|i: int| 0 <= i < vs@.len() && #[trigger] vs@[i].0@ == q)
                    && (p.vars matches Some(t) && vars_from(t, vs@)),
                None => r matches Ok(p) && p.vars is None,
                Some(other) => r matches Err(OptionsError::Invalid(m))
                    && m@ == "options.vars must be a plain object, got "@ + json_type(other),
            }
        },
{
    let j = match options {
        None => {
            return Ok(ParsedOptions { filename: "input.mds".to_owned(), extra_modules: Table::new(), vars: None });
        },
        Some(j) => j,
    };
    let es = match &j {
        Json::Object(es) => es,
        _ => {
            return Err(invalid("options must be a plain object".to_owned()));
        },
    };
    let filename = match get_member(es, "filename") {
        Some(Json::String(s)) => s.clone(),
        None => "input.mds".to_owned(),
        Some(other) => {
            let m = cat2("options.filename must be a string, got ", json_type_name(other));
            return Err(invalid(m));
        },
    };
    let blank = crate::evaluator::trimmed(filename.as_str());
    if blank.as_str().unicode_len() == 0 {
        proof {
            reveal_strlit("input.mds");
        }
        return Err(invalid("options.filename must be a non-empty string".to_owned()));
    }
    proof {
        reveal_strlit("input.mds");
        assert(trim("input.mds"@).len() > 0 || member(es@, "filename"@) is Some);
    }
    let extra_modules = match get_member(es, "modules") {
        Some(Json::Object(mods)) => parse_modules(mods)?,
        None => Table::new(),
        Some(other) => {
            let m = cat2("options.modules must be a plain object, got ", json_type_name(other));
            return Err(invalid(m));
        },
    };
    let vars = match get_member(es, "vars") {
        Some(Json::Object(vs)) => Some(parse_vars(vs)?),
        None => None,
        Some(other) => {
            let m = cat2("options.vars must be a plain object, got ", json_type_name(other));
            return Err(invalid(m));
        },
    };
    Ok(ParsedOptions { filename, extra_modules, vars })
}

/// The message of a file name that `options.modules` also holds.
pub open spec fn collision_message(filename: Seq<char>) -> Seq<char> {
    "options.modules already contains key \""@ + filename
        + "\"; this would shadow the source \u{2014} use a different filename"@
}

/// The in-memory file system of a compilation: the extra modules with the
/// source under `filename`, which the extra modules may not already hold.
pub fn build_modules(source: String, filename: &str, extra_modules: Table<String>) -> (r: Result<Table<String>, String>)
    ensures
        extra_modules.has(filename@) ==> (r matches Err(m) && m@ == collision_message(filename@)),
        !extra_modules.has(filename@) ==> (r matches Ok(t) && t.lookup(filename@) == Some(source)
            && forall|q: Seq<char>| q != filename@ ==> #[trigger] t.lookup(q) == extra_modules.lookup(q)
            && (extra_modules.wf() ==> t.wf())),
{
    if extra_modules.contains(filename) {
        let m = cat3(
            "options.modules already contains key \"",
            filename,
            "\"; this would shadow the source \u{2014} use a different filename",
        );
        return Err(m);
    }
    let mut modules = extra_modules;
    modules.insert(filename.to_owned(), source);
    Ok(modules)
}

} // verus!
