//! The YAML data the compiler reads from frontmatter, held as plain values.
//! Parsing itself is done by `serde_yaml_ng`.

use vstd::prelude::*;

verus! {

/// A YAML document node. Numbers keep their canonical text; mapping entries
/// keep their document order.
#[derive(Debug)]
pub enum Yaml {
    Null,
    Bool(bool),
    Number(String),
    String(String),
    Sequence(Vec<Yaml>),
    Mapping(Vec<(Yaml, Yaml)>),
    Tagged(String, Box<Yaml>),
}

#[verifier::external_type_specification]
#[verifier::external_body]
pub struct ExYamlValue(serde_yaml_ng::Value);

/// The document that `serde_yaml_ng::from_str` reads from `raw`, or the text
/// of its error.
pub uninterp spec fn yaml_document(raw: Seq<char>) -> Result<Yaml, Seq<char>>;

/// Calls `serde_yaml_ng::from_str::<serde_yaml_ng::Value>` on `raw` and
/// returns the document as a [`Yaml`] (its error as text). The contract names
/// the result: it is a function of `raw` alone.
#[verifier::external_body]
pub fn parse_yaml(raw: &str) -> (r: Result<Yaml, String>)
    ensures
        yaml_document(raw@) == match r {
            Ok(y) => Ok::<Yaml, Seq<char>>(y),
            Err(e) => Err::<Yaml, Seq<char>>(e@),
        },
{
    serde_yaml_ng::from_str::<serde_yaml_ng::Value>(raw).map(yaml_from_value).map_err(|e| e.to_string())
}

/// Converts a `serde_yaml_ng::Value` variant by variant into a [`Yaml`]:
/// numbers and tags by their `Display` text, children in order.
#[verifier::external_body]
fn yaml_from_value(v: serde_yaml_ng::Value) -> Yaml {
    match v {
        serde_yaml_ng::Value::Null => Yaml::Null,
        serde_yaml_ng::Value::Bool(b) => Yaml::Bool(b),
        serde_yaml_ng::Value::Number(n) => Yaml::Number(n.to_string()),
        serde_yaml_ng::Value::String(s) => Yaml::String(s),
        serde_yaml_ng::Value::Sequence(s) => Yaml::Sequence(s.into_iter().map(yaml_from_value).collect()),
        serde_yaml_ng::Value::Mapping(m) => Yaml::Mapping(
            m.into_iter().map(|(k, v)| (yaml_from_value(k), yaml_from_value(v))).collect(),
        ),
        serde_yaml_ng::Value::Tagged(t) => Yaml::Tagged(t.tag.to_string(), Box::new(yaml_from_value(t.value))),
    }
}

impl Yaml {
    /// The text of a string node.
    pub open spec fn str_of(&self) -> Option<Seq<char>> {
        match self {
            Yaml::String(s) => Some(s@),
            _ => None,
        }
    }

    /// The value of the entry keyed by the string `k` in a mapping node's
    /// entries (the first such entry).
    pub open spec fn entry(entries: Seq<(Yaml, Yaml)>, k: Seq<char>) -> Option<Yaml> {
        if exists|i: int| 0 <= i < entries.len() && entries[i].0.str_of() == Some(k) {
            let i = choose|i: int|
                0 <= i < entries.len() && entries[i].0.str_of() == Some(k)
                    && forall|j: int| 0 <= j < i ==> entries[j].0.str_of() != Some(k);
            Some(entries[i].1)
        } else {
            None
        }
    }
}

/// The first entry of `entries` whose key is the string `k`.
pub fn mapping_get<'a>(entries: &'a Vec<(Yaml, Yaml)>, k: &str) -> (r: Option<&'a Yaml>)
    ensures
        r matches Some(v) ==> Yaml::entry(entries@, k@) == Some(*v),
        r is None ==> Yaml::entry(entries@, k@) is None,
{
    let ks = k.to_owned();
    let mut i: usize = 0;
    while i < entries.len()
        invariant
            ks@ == k@,
            i <= entries@.len(),
            forall|j: int| 0 <= j < i ==> entries@[j].0.str_of() != Some(k@),
        decreases entries@.len() - i,
    {
        match &entries[i].0 {
            Yaml::String(s) => {
                if *s == ks {
                    proof {
                        assert(entries@[i as int].0.str_of() == Some(k@));
                        let c = choose|c: int|
                            0 <= c < entries@.len() && entries@[c].0.str_of() == Some(k@)
                                && forall|j: int| 0 <= j < c ==> entries@[j].0.str_of() != Some(k@);
                        if c < i {
                        } else if c > i {
                            assert(entries@[i as int].0.str_of() != Some(k@));
                        }
                    }
                    return Some(&entries[i].1);
                }
            },
            _ => {},
        }
        i = i + 1;
    }
    None
}

} // verus!
