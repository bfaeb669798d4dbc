//! Template values: what variables hold and what interpolation renders.

use std::sync::Arc;
use vstd::prelude::*;
use crate::ast::share;
use crate::error::MdsError;
use crate::yaml::Yaml;

verus! {

broadcast use {vstd::std_specs::vec::group_vec_axioms, vstd::seq::group_seq_axioms};

/// A value a template variable can hold. Numbers keep their text.
#[derive(Debug, Clone)]
pub enum TemplateValue {
    Null,
    Bool(bool),
    Number(String),
    String(String),
    List(Arc<Vec<TemplateValue>>),
    Object(Arc<Vec<(String, TemplateValue)>>),
}

/// YAML that converts to a value: no tags, and string keys in mappings.
pub open spec fn convertible(y: Yaml) -> bool
    decreases y,
{
    match y {
        Yaml::Tagged(..) => false,
        Yaml::Sequence(items) => forall|i: int| 0 <= i < items@.len() ==> convertible(#[trigger] items@[i]),
        Yaml::Mapping(entries) => forall|i: int|
            0 <= i < entries@.len() ==> (#[trigger] entries@[i]).0 is String && convertible(entries@[i].1),
        _ => true,
    }
}

/// `v` is the template value of the YAML node `y`: scalars one to one,
/// sequences item by item, mappings (with string keys) entry by entry.
pub open spec fn converts(y: Yaml, v: TemplateValue) -> bool
    decreases y,
{
    match y {
        Yaml::Null => v == TemplateValue::Null,
        Yaml::Bool(b) => v == TemplateValue::Bool(b),
        Yaml::Number(n) => v matches TemplateValue::Number(t) && t@ == n@,
        Yaml::String(s) => v matches TemplateValue::String(t) && t@ == s@,
        Yaml::Sequence(items) => v matches TemplateValue::List(l) && l@.len() == items@.len()
            && forall|i: int| 0 <= i < items@.len() ==> converts(#[trigger] items@[i], l@[i]),
        Yaml::Mapping(entries) => v matches TemplateValue::Object(m) && m@.len() == entries@.len()
            && forall|i: int| 0 <= i < entries@.len() ==> ((#[trigger] entries@[i]).0 matches Yaml::String(k)
                && m@[i].0@ == k@ && converts(entries@[i].1, m@[i].1)),
        Yaml::Tagged(..) => false,
    }
}

impl TemplateValue {
    pub fn copy(&self) -> (r: TemplateValue)
        ensures
            r == *self,
    {
        match self {
            TemplateValue::Null => TemplateValue::Null,
            TemplateValue::Bool(b) => TemplateValue::Bool(*b),
            TemplateValue::Number(n) => TemplateValue::Number(n.clone()),
            TemplateValue::String(s) => TemplateValue::String(s.clone()),
            TemplateValue::List(l) => TemplateValue::List(share(l)),
            TemplateValue::Object(m) => TemplateValue::Object(share(m)),
        }
    }

    /// Convert a YAML node: scalars map one to one, sequences to lists,
    /// mappings (with string keys) to maps; tags are refused.
    #[verifier::loop_isolation(false)]
    pub fn from_yaml(y: &Yaml) -> (r: Result<TemplateValue, MdsError>)
        ensures
            r is Ok <==> convertible(*y),
            r is Err ==> r->Err_0 is YamlError,
            *y == Yaml::Null ==> r == Ok::<TemplateValue, MdsError>(TemplateValue::Null),
            y matches Yaml::Bool(b) ==> r == Ok::<TemplateValue, MdsError>(TemplateValue::Bool(*b)),
            y matches Yaml::String(s) ==> (r matches Ok(TemplateValue::String(t)) && t@ == s@),
            y matches Yaml::Number(s) ==> (r matches Ok(TemplateValue::Number(t)) && t@ == s@),
            r matches Ok(v) ==> converts(*y, v),
        decreases y,
    {
        match y {
            Yaml::Null => Ok(TemplateValue::Null),
            Yaml::Bool(b) => Ok(TemplateValue::Bool(*b)),
            Yaml::Number(n) => Ok(TemplateValue::Number(n.clone())),
            Yaml::String(s) => Ok(TemplateValue::String(s.clone())),
            Yaml::Sequence(items) => {
                let mut out: Vec<TemplateValue> = Vec::new();
                let mut i: usize = 0;
                while i < items.len()
                    invariant
                        i <= items@.len(),
                        out@.len() == i,
                        forall|j: int| 0 <= j < i ==> convertible(#[trigger] items@[j]),
                        forall|j: int| 0 <= j < i ==> converts(#[trigger] items@[j], out@[j]),
                    decreases items@.len() - i,
                {
                    assert(decreases_to!(items => items[i as int]));
                    match TemplateValue::from_yaml(&items[i]) {
                        Ok(v) => out.push(v),
                        Err(e) => {
                            assert(!convertible(items@[i as int]));
                            return Err(e);
                        },
                    }
                    i = i + 1;
                }
                Ok(TemplateValue::List(Arc::new(out)))
            },
            Yaml::Mapping(entries) => {
                let mut out: Vec<(String, TemplateValue)> = Vec::new();
                let mut i: usize = 0;
                while i < entries.len()
                    invariant
                        i <= entries@.len(),
                        out@.len() == i,
                        forall|j: int| 0 <= j < i ==> (#[trigger] entries@[j]).0 is String && convertible(entries@[j].1),
                        forall|j: int| 0 <= j < i ==> ((#[trigger] entries@[j]).0 matches Yaml::String(k)
                            && out@[j].0@ == k@ && converts(entries@[j].1, out@[j].1)),
                    decreases entries@.len() - i,
                {
                    let (k, v) = &entries[i];
                    let key = match k {
                        Yaml::String(s) => s.clone(),
                        _ => {
                            assert(!(entries@[i as int].0 is String));
                            return Err(MdsError::yaml_error("mapping keys must be strings"));
                        },
                    };
                    assert(decreases_to!(entries => entries[i as int]));
                    match TemplateValue::from_yaml(v) {
                        Ok(val) => out.push((key, val)),
                        Err(e) => {
                            assert(!convertible(entries@[i as int].1));
                            return Err(e);
                        },
                    }
                    i = i + 1;
                }
                Ok(TemplateValue::Object(Arc::new(out)))
            },
            Yaml::Tagged(..) => Err(MdsError::yaml_error("tagged values are not supported")),
        }
    }

    /// How a value counts as a condition: null, `false`, empty text, the
    /// number `0` and empty collections are false.
    pub open spec fn truthy(&self) -> bool {
        match self {
            TemplateValue::Null => false,
            TemplateValue::Bool(b) => *b,
            TemplateValue::Number(n) => n@ != "0"@,
            TemplateValue::String(s) => s@.len() > 0,
            TemplateValue::List(l) => l@.len() > 0,
            TemplateValue::Object(m) => m@.len() > 0,
        }
    }

    pub fn is_truthy(&self) -> (b: bool)
        ensures
            b == self.truthy(),
    {
        match self {
            TemplateValue::Null => false,
            TemplateValue::Bool(b) => *b,
            TemplateValue::Number(n) => {
                proof {
                    reveal_strlit("0");
                }
                !(*n == "0".to_owned())
            },
            TemplateValue::String(s) => s.as_str().unicode_len() > 0,
            TemplateValue::List(l) => l.len() > 0,
            TemplateValue::Object(m) => m.len() > 0,
        }
    }
}

/// The text `items` render to: each rendered, separated by `, `.
pub open spec fn rendered_items(items: Seq<TemplateValue>) -> Seq<char>
    decreases items,
{
    if items.len() == 0 {
        Seq::empty()
    } else if items.len() == 1 {
        rendered(items[0])
    } else {
        rendered_items(items.drop_last()) + ", "@ + rendered(items.last())
    }
}

/// The text map entries render to: `key: value`, separated by `, `.
pub open spec fn rendered_entries(entries: Seq<(String, TemplateValue)>) -> Seq<char>
    decreases entries,
{
    if entries.len() == 0 {
        Seq::empty()
    } else if entries.len() == 1 {
        entries[0].0@ + ": "@ + rendered(entries[0].1)
    } else {
        rendered_entries(entries.drop_last()) + ", "@ + entries.last().0@ + ": "@ + rendered(entries.last().1)
    }
}

/// The text a value renders to when interpolated.
pub open spec fn rendered(v: TemplateValue) -> Seq<char>
    decreases v,
{
    match v {
        TemplateValue::Null => Seq::empty(),
        TemplateValue::Bool(b) => if b { "true"@ } else { "false"@ },
        TemplateValue::Number(n) => n@,
        TemplateValue::String(s) => s@,
        TemplateValue::List(l) => rendered_items(l@),
        TemplateValue::Object(m) => rendered_entries(m@),
    }
}

/// The text the value of the YAML node `y` renders to: see [`rendered`].
pub open spec fn yaml_text(y: Yaml) -> Seq<char>
    decreases y,
{
    match y {
        Yaml::Null => Seq::empty(),
        Yaml::Bool(b) => if b { "true"@ } else { "false"@ },
        Yaml::Number(n) => n@,
        Yaml::String(s) => s@,
        Yaml::Sequence(items) => yaml_items_text(items@),
        Yaml::Mapping(entries) => yaml_entries_text(entries@),
        Yaml::Tagged(..) => Seq::empty(),
    }
}

/// The text of YAML items: each as [`yaml_text`], separated by `, `.
pub open spec fn yaml_items_text(items: Seq<Yaml>) -> Seq<char>
    decreases items,
{
    if items.len() == 0 {
        Seq::empty()
    } else if items.len() == 1 {
        yaml_text(items[0])
    } else {
        yaml_items_text(items.drop_last()) + ", "@ + yaml_text(items.last())
    }
}

/// The text of YAML mapping entries: `key: value`, separated by `, `.
pub open spec fn yaml_entries_text(entries: Seq<(Yaml, Yaml)>) -> Seq<char>
    decreases entries,
{
    if entries.len() == 0 {
        Seq::empty()
    } else if entries.len() == 1 {
        yaml_text(entries[0].0) + ": "@ + yaml_text(entries[0].1)
    } else {
        yaml_entries_text(entries.drop_last()) + ", "@ + yaml_text(entries.last().0) + ": "@ + yaml_text(entries.last().1)
    }
}

/// A converted YAML node renders as [`yaml_text`] says.
pub proof fn lemma_converts_text(y: Yaml, v: TemplateValue)
    requires
        converts(y, v),
    ensures
        rendered(v) == yaml_text(y),
    decreases y,
{
    match y {
        Yaml::Sequence(items) => {
            let l = v->List_0;
            lemma_items_text(items@, l@, items@.len() as int);
            assert(items@.subrange(0, items@.len() as int) =~= items@);
            assert(l@.subrange(0, l@.len() as int) =~= l@);
        },
        Yaml::Mapping(entries) => {
            let m = v->Object_0;
            lemma_entries_text(entries@, m@, entries@.len() as int);
            assert(entries@.subrange(0, entries@.len() as int) =~= entries@);
            assert(m@.subrange(0, m@.len() as int) =~= m@);
        },
        _ => {},
    }
}

proof fn lemma_items_text(items: Seq<Yaml>, l: Seq<TemplateValue>, n: int)
    requires
        0 <= n <= items.len(),
        l.len() == items.len(),
        forall|i: int| 0 <= i < items.len() ==> converts(#[trigger] items[i], l[i]),
    ensures
        rendered_items(l.subrange(0, n)) == yaml_items_text(items.subrange(0, n)),
    decreases items, n,
{
    if n > 0 {
        lemma_items_text(items, l, n - 1);
        assert(items.subrange(0, n).drop_last() =~= items.subrange(0, n - 1));
        assert(l.subrange(0, n).drop_last() =~= l.subrange(0, n - 1));
        lemma_converts_text(items[n - 1], l[n - 1]);
        if n == 1 {
            assert(items.subrange(0, n)[0] == items[0]);
            assert(l.subrange(0, n)[0] == l[0]);
        } else {
            assert(items.subrange(0, n).last() == items[n - 1]);
            assert(l.subrange(0, n).last() == l[n - 1]);
        }
    }
}

proof fn lemma_entries_text(entries: Seq<(Yaml, Yaml)>, m: Seq<(String, TemplateValue)>, n: int)
    requires
        0 <= n <= entries.len(),
        m.len() == entries.len(),
        forall|i: int| 0 <= i < entries.len() ==> ((#[trigger] entries[i]).0 matches Yaml::String(k)
            && m[i].0@ == k@ && converts(entries[i].1, m[i].1)),
    ensures
        rendered_entries(m.subrange(0, n)) == yaml_entries_text(entries.subrange(0, n)),
    decreases entries, n,
{
    if n > 0 {
        lemma_entries_text(entries, m, n - 1);
        assert(entries.subrange(0, n).drop_last() =~= entries.subrange(0, n - 1));
        assert(m.subrange(0, n).drop_last() =~= m.subrange(0, n - 1));
        assert(entries[n - 1].0 matches Yaml::String(k) && m[n - 1].0@ == k@);
        assert(yaml_text(entries[n - 1].0) == m[n - 1].0@);
        lemma_converts_text(entries[n - 1].1, m[n - 1].1);
        if n == 1 {
            assert(entries.subrange(0, n)[0] == entries[0]);
            assert(m.subrange(0, n)[0] == m[0]);
        } else {
            assert(entries.subrange(0, n).last() == entries[n - 1]);
            assert(m.subrange(0, n).last() == m[n - 1]);
        }
    }
}

/// Render a value as interpolation shows it.
#[verifier::loop_isolation(false)]
pub fn render(v: &TemplateValue) -> (s: String)
    ensures
        s@ == rendered(*v),
    decreases v,
{
    match v {
        TemplateValue::Null => String::new(),
        TemplateValue::Bool(b) => if *b { "true".to_owned() } else { "false".to_owned() },
        TemplateValue::Number(n) => n.clone(),
        TemplateValue::String(s) => s.clone(),
        TemplateValue::List(l) => {
            let mut out = String::new();
            let mut i: usize = 0;
            while i < l.len()
                invariant
                    i <= l@.len(),
                    out@ == rendered_items(l@.subrange(0, i as int)),
                decreases l@.len() - i,
            {
                assert(decreases_to!(l@ => l@[i as int]));
                let r = render(&l[i]);
                let ghost pre = l@.subrange(0, i as int);
                let ghost nxt = l@.subrange(0, i + 1);
                assert(nxt.drop_last() =~= pre);
                if i > 0 {
                    out.append(", ");
                }
                out.append(r.as_str());
                proof {
                    if i == 0 {
                        assert(out@ =~= rendered_items(nxt));
                    } else {
                        assert(out@ =~= rendered_items(nxt));
                    }
                }
                i = i + 1;
            }
            assert(l@.subrange(0, l@.len() as int) =~= l@);
            out
        },
        TemplateValue::Object(m) => {
            let mut out = String::new();
            let mut i: usize = 0;
            while i < m.len()
                invariant
                    i <= m@.len(),
                    out@ == rendered_entries(m@.subrange(0, i as int)),
                decreases m@.len() - i,
            {
                assert(decreases_to!(m@ => m@[i as int]));
                let r = render(&m[i].1);
                let ghost pre = m@.subrange(0, i as int);
                let ghost nxt = m@.subrange(0, i + 1);
                assert(nxt.drop_last() =~= pre);
                if i > 0 {
                    out.append(", ");
                }
                out.append(m[i].0.as_str());
                out.append(": ");
                out.append(r.as_str());
                proof {
                    assert(out@ =~= rendered_entries(nxt));
                }
                i = i + 1;
            }
            assert(m@.subrange(0, m@.len() as int) =~= m@);
            out
        },
    }
}

} // verus!
