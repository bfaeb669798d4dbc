//! Import declarations written in YAML frontmatter under the `imports` key.

use vstd::prelude::*;
use crate::error::MdsError;
use crate::paths::{import_path_error, validate_import_path};
use crate::text::{cat2, cat3, cat5, decimal, decimal_string, is_identifier, is_valid_identifier};
use crate::yaml::{mapping_get, parse_yaml, yaml_document, Yaml};

verus! {

/// Most entries a frontmatter `imports` sequence may hold.
pub const MAX_FRONTMATTER_IMPORTS: usize = 64;

/// A single import declaration from YAML frontmatter, in one of the three
/// forms of the body `@import` directive.
#[derive(Debug, PartialEq, Eq)]
pub enum FrontmatterImport {
    /// `{ path: "./lib.mds", as: lib }`: imported under a namespace alias.
    Alias { path: String, alias: String },
    /// `{ path: "./lib.mds" }`: all exports merged into the current scope.
    Merge { path: String },
    /// `{ path: "./lib.mds", names: [greet, farewell] }`: named exports only.
    Selective { path: String, names: Vec<String> },
}

/// A frontmatter import as plain text.
pub enum ImportDecl {
    Alias(Seq<char>, Seq<char>),
    Merge(Seq<char>),
    Selective(Seq<char>, Seq<Seq<char>>),
}

impl FrontmatterImport {
    pub open spec fn decl(&self) -> ImportDecl {
        match self {
            FrontmatterImport::Alias { path, alias } => ImportDecl::Alias(path@, alias@),
            FrontmatterImport::Merge { path } => ImportDecl::Merge(path@),
            FrontmatterImport::Selective { path, names } => ImportDecl::Selective(
                path@,
                names@.map_values(|n: String| n@),
            ),
        }
    }

    /// The path every form carries.
    pub fn path(&self) -> (p: &str)
        ensures
            p@ == match self.decl() {
                ImportDecl::Alias(p, _) => p,
                ImportDecl::Merge(p) => p,
                ImportDecl::Selective(p, _) => p,
            },
    {
        match self {
            FrontmatterImport::Alias { path, .. } => path.as_str(),
            FrontmatterImport::Merge { path } => path.as_str(),
            FrontmatterImport::Selective { path, .. } => path.as_str(),
        }
    }
}

/// The message of an entry's error, with its index and origin.
pub open spec fn entry_error(index: int, msg: Seq<char>) -> Seq<char> {
    "imports["@ + decimal(index as nat) + "]: "@ + msg + " (in frontmatter)"@
}

/// What is wrong with a key of an entry, if anything: it must be one of the
/// strings `path`, `as` and `names`.
pub open spec fn key_problem(k: Yaml) -> Option<Seq<char>> {
    match k {
        Yaml::String(s) => if s@ == "path"@ || s@ == "as"@ || s@ == "names"@ {
            None
        } else {
            Some("unknown key '"@ + s@ + "'"@)
        },
        _ => Some("keys must be strings"@),
    }
}

/// The problem of the first bad key of an entry, in document order.
pub open spec fn first_key_problem(entries: Seq<(Yaml, Yaml)>) -> Option<Seq<char>>
    decreases entries.len(),
{
    if entries.len() == 0 {
        None
    } else if key_problem(entries[0].0) is Some {
        key_problem(entries[0].0)
    } else {
        first_key_problem(entries.drop_first())
    }
}

/// The text of the identifier rule, as error messages quote it.
pub open spec fn identifier_rule() -> Seq<char> {
    "must start with a letter or '_' and contain only alphanumeric characters or '_'"@
}

/// The names of a `names` sequence, or the problem with the first bad one:
/// each must be a string, an identifier (or `prompt`), and new.
pub open spec fn names_result(names: Seq<Yaml>) -> Result<Seq<Seq<char>>, Seq<char>>
    decreases names.len(),
{
    if names.len() == 0 {
        Ok(seq![])
    } else {
        match names_result(names.drop_last()) {
            Err(e) => Err(e),
            Ok(prev) => match names.last() {
                Yaml::String(n) => if n@ != "prompt"@ && !is_identifier(n@) {
                    Err("invalid identifier '"@ + n@ + "' in 'names': "@ + identifier_rule())
                } else if prev.contains(n@) {
                    Err("duplicate name '"@ + n@ + "' in 'names'"@)
                } else {
                    Ok(prev.push(n@))
                },
                _ => Err("each name in 'names' must be a string"@),
            },
        }
    }
}

/// The declaration one entry stands for, or the problem with it.
pub open spec fn entry_result(entry: Yaml) -> Result<ImportDecl, Seq<char>> {
    match entry {
        Yaml::Mapping(m) => if first_key_problem(m@) is Some {
            Err(first_key_problem(m@)->0)
        } else {
            match Yaml::entry(m@, "path"@) {
                None => Err("missing required key 'path'"@),
                Some(Yaml::String(p)) => if import_path_error(p@) is Some {
                    Err("invalid path \""@ + p@ + "\": must start with './' or '../'"@)
                } else {
                    match (Yaml::entry(m@, "as"@), Yaml::entry(m@, "names"@)) {
                        (Some(_), Some(_)) => Err("'as' and 'names' are mutually exclusive"@),
                        (Some(Yaml::String(a)), None) => if is_identifier(a@) {
                            Ok(ImportDecl::Alias(p@, a@))
                        } else {
                            Err("invalid identifier '"@ + a@ + "' for 'as': "@ + identifier_rule())
                        },
                        (Some(_), None) => Err("'as' must be a string"@),
                        (None, Some(Yaml::Sequence(ns))) => if ns@.len() == 0 {
                            Err("names cannot be empty"@)
                        } else {
                            match names_result(ns@) {
                                Ok(names) => Ok(ImportDecl::Selective(p@, names)),
                                Err(e) => Err(e),
                            }
                        },
                        (None, Some(_)) => Err("'names' must be a sequence"@),
                        (None, None) => Ok(ImportDecl::Merge(p@)),
                    }
                },
                Some(_) => Err("'path' must be a string"@),
            }
        },
        _ => Err("each entry must be a mapping"@),
    }
}

fn entry_err(index: usize, msg: &str) -> (e: MdsError)
    ensures
        e matches MdsError::ImportError { message, span: None } && message@ == entry_error(index as int, msg@),
{
    let i = decimal_string(index);
    let m = cat5("imports[", i.as_str(), "]: ", msg, " (in frontmatter)");
    MdsError::import_error(m.as_str())
}

fn check_keys(entries: &Vec<(Yaml, Yaml)>) -> (r: Option<String>)
    ensures
        r matches Some(m) ==> first_key_problem(entries@) == Some(m@),
        r is None ==> first_key_problem(entries@) is None,
{
    proof {
        reveal_strlit("path");
        reveal_strlit("as");
        reveal_strlit("names");
    }
    let path = "path".to_owned();
    let as_ = "as".to_owned();
    let names = "names".to_owned();
    let mut i: usize = 0;
    assert(entries@.subrange(0, entries@.len() as int) =~= entries@);
    while i < entries.len()
        invariant
            path@ == "path"@,
            as_@ == "as"@,
            names@ == "names"@,
            i <= entries@.len(),
            first_key_problem(entries@) == first_key_problem(entries@.subrange(i as int, entries@.len() as int)),
        decreases entries@.len() - i,
    {
        let ghost rest = entries@.subrange(i as int, entries@.len() as int);
        assert(rest[0] == entries@[i as int]);
        assert(rest.drop_first() =~= entries@.subrange(i + 1, entries@.len() as int));
        match &entries[i].0 {
            Yaml::String(s) => {
                if !(*s == path || *s == as_ || *s == names) {
                    return Some(cat3("unknown key '", s.as_str(), "'"));
                }
            },
            _ => {
                return Some("keys must be strings".to_owned());
            },
        }
        i = i + 1;
    }
    None
}

fn parse_names(ns: &Vec<Yaml>) -> (r: Result<Vec<String>, String>)
    ensures
        r matches Ok(v) ==> names_result(ns@) == Ok::<Seq<Seq<char>>, Seq<char>>(v@.map_values(|n: String| n@)),
        r matches Err(m) ==> names_result(ns@) == Err::<Seq<Seq<char>>, Seq<char>>(m@),
{
    proof {
        reveal_strlit("prompt");
    }
    let prompt = "prompt".to_owned();
    let mut out: Vec<String> = Vec::new();
    let mut i: usize = 0;
    assert(ns@.subrange(0, 0) =~= Seq::<Yaml>::empty());
    assert(out@.map_values(|n: String| n@) =~= Seq::<Seq<char>>::empty());
    while i < ns.len()
        invariant
            prompt@ == "prompt"@,
            i <= ns@.len(),
            names_result(ns@.subrange(0, i as int)) == Ok::<Seq<Seq<char>>, Seq<char>>(out@.map_values(|n: String| n@)),
        decreases ns@.len() - i,
    {
        let ghost pre = ns@.subrange(0, i as int);
        let ghost nxt = ns@.subrange(0, i + 1);
        assert(nxt.drop_last() =~= pre);
        assert(nxt.last() == ns@[i as int]);
        let ghost prev = out@.map_values(|n: String| n@);
        match &ns[i] {
            Yaml::String(n) => {
                if !(*n == prompt) && !is_valid_identifier(n.as_str()) {
                    let m = cat3("invalid identifier '", n.as_str(),
                        "' in 'names': must start with a letter or '_' and contain only alphanumeric characters or '_'");
                    proof {
                        reveal_strlit("' in 'names': ");
                        reveal_strlit("must start with a letter or '_' and contain only alphanumeric characters or '_'");
                        reveal_strlit("' in 'names': must start with a letter or '_' and contain only alphanumeric characters or '_'");
                        assert("invalid identifier '"@ + n@ + "' in 'names': "@ + identifier_rule() =~= m@);
                        assert(names_result(nxt) == Err::<Seq<Seq<char>>, Seq<char>>(m@));
                        lemma_names_prefix_err(ns@, i + 1, m@);
                    }
                    return Err(m);
                }
                let mut j: usize = 0;
                let mut dup = false;
                while j < out.len()
                    invariant
                        j <= out@.len(),
                        prev == out@.map_values(|n: String| n@),
                        !dup ==> forall|k: int| 0 <= k < j ==> prev[k] != n@,
                        dup ==> prev.contains(n@),
                    decreases out@.len() - j,
                {
                    if out[j] == *n {
                        dup = true;
                        assert(prev[j as int] == n@);
                    }
                    j = j + 1;
                }
                if dup {
                    let m = cat3("duplicate name '", n.as_str(), "' in 'names'");
                    proof {
                        lemma_names_prefix_err(ns@, i + 1, m@);
                    }
                    return Err(m);
                }
                out.push(n.clone());
                assert(out@.map_values(|n: String| n@) =~= prev.push(n@));
            },
            _ => {
                let m = "each name in 'names' must be a string".to_owned();
                proof {
                    lemma_names_prefix_err(ns@, i + 1, m@);
                }
                return Err(m);
            },
        }
        i = i + 1;
    }
    assert(ns@.subrange(0, ns@.len() as int) =~= ns@);
    Ok(out)
}

/// Once a prefix of `names` fails, the whole sequence fails the same way.
proof fn lemma_names_prefix_err(names: Seq<Yaml>, k: int, m: Seq<char>)
    requires
        0 <= k <= names.len(),
        names_result(names.subrange(0, k)) == Err::<Seq<Seq<char>>, Seq<char>>(m),
    ensures
        names_result(names) == Err::<Seq<Seq<char>>, Seq<char>>(m),
    decreases names.len() - k,
{
    if k < names.len() {
        let nxt = names.subrange(0, k + 1);
        assert(nxt.drop_last() =~= names.subrange(0, k));
        lemma_names_prefix_err(names, k + 1, m);
    } else {
        assert(names.subrange(0, k) =~= names);
    }
}

fn parse_alias_entry(as_v: &Yaml, path: String, index: usize) -> (r: Result<FrontmatterImport, MdsError>)
    ensures
        as_v matches Yaml::String(a) ==> (is_identifier(a@) <==> r is Ok),
        r matches Ok(fi) ==> as_v matches Yaml::String(a) && fi.decl() == ImportDecl::Alias(path@, a@),
        r matches Err(e) ==> e matches MdsError::ImportError { message, span: None } && message@ == entry_error(
            index as int,
            match as_v {
                Yaml::String(a) => "invalid identifier '"@ + a@ + "' for 'as': "@ + identifier_rule(),
                _ => "'as' must be a string"@,
            },
        ),
{
    match as_v {
        Yaml::String(alias) => {
            if !is_valid_identifier(alias.as_str()) {
                let m = cat3("invalid identifier '", alias.as_str(),
                    "' for 'as': must start with a letter or '_' and contain only alphanumeric characters or '_'");
                proof {
                    reveal_strlit("' for 'as': ");
                    reveal_strlit("must start with a letter or '_' and contain only alphanumeric characters or '_'");
                    reveal_strlit("' for 'as': must start with a letter or '_' and contain only alphanumeric characters or '_'");
                    assert("invalid identifier '"@ + alias@ + "' for 'as': "@ + identifier_rule() =~= m@);
                }
                return Err(entry_err(index, m.as_str()));
            }
            Ok(FrontmatterImport::Alias { path, alias: alias.clone() })
        },
        _ => Err(entry_err(index, "'as' must be a string")),
    }
}

fn parse_selective_entry(names_v: &Yaml, path: String, index: usize) -> (r: Result<FrontmatterImport, MdsError>)
    ensures
        r matches Ok(fi) ==> (names_v matches Yaml::Sequence(ns) && ns@.len() > 0
            && (names_result(ns@) matches Ok(names) && fi.decl() == ImportDecl::Selective(path@, names))),
        r is Err ==> (names_v matches Yaml::Sequence(ns) ==> ns@.len() == 0 || names_result(ns@) is Err),
        r matches Err(e) ==> e matches MdsError::ImportError { message, span: None } && message@ == entry_error(
            index as int,
            match names_v {
                Yaml::Sequence(ns) => if ns@.len() == 0 {
                    "names cannot be empty"@
                } else {
                    names_result(ns@)->Err_0
                },
                _ => "'names' must be a sequence"@,
            },
        ),
{
    match names_v {
        Yaml::Sequence(ns) => {
            if ns.len() == 0 {
                return Err(entry_err(index, "names cannot be empty"));
            }
            match parse_names(ns) {
                Ok(names) => Ok(FrontmatterImport::Selective { path, names }),
                Err(m) => Err(entry_err(index, m.as_str())),
            }
        },
        _ => Err(entry_err(index, "'names' must be a sequence")),
    }
}

/// Parse one entry of the `imports` sequence; `index` is used in messages.
fn parse_single_import_entry(entry: &Yaml, index: usize) -> (r: Result<FrontmatterImport, MdsError>)
    ensures
        r matches Ok(fi) ==> entry_result(*entry) == Ok::<ImportDecl, Seq<char>>(fi.decl()),
        r matches Err(e) ==> entry_result(*entry) is Err,
        r matches Err(e) ==> (e matches MdsError::ImportError { message, span: None }
            && message@ == entry_error(index as int, entry_result(*entry)->Err_0)),
{
    proof {
        reveal_strlit("path");
        reveal_strlit("as");
        reveal_strlit("names");
    }
    let map = match entry {
        Yaml::Mapping(m) => m,
        _ => {
            return Err(entry_err(index, "each entry must be a mapping"));
        },
    };
    if let Some(m) = check_keys(map) {
        return Err(entry_err(index, m.as_str()));
    }
    let path_val = match mapping_get(map, "path") {
        Some(v) => v,
        None => {
            return Err(entry_err(index, "missing required key 'path'"));
        },
    };
    let path = match path_val {
        Yaml::String(p) => p.clone(),
        _ => {
            return Err(entry_err(index, "'path' must be a string"));
        },
    };
    if validate_import_path(path.as_str()).is_err() {
        let m = cat3("invalid path \"", path.as_str(), "\": must start with './' or '../'");
        return Err(entry_err(index, m.as_str()));
    }
    match (mapping_get(map, "as"), mapping_get(map, "names")) {
        (Some(_), Some(_)) => Err(entry_err(index, "'as' and 'names' are mutually exclusive")),
        (Some(as_v), None) => parse_alias_entry(as_v, path, index),
        (None, Some(names_v)) => parse_selective_entry(names_v, path, index),
        (None, None) => Ok(FrontmatterImport::Merge { path }),
    }
}

/// Parse the `imports` value of the frontmatter: a sequence of at most
/// [`MAX_FRONTMATTER_IMPORTS`] entries, each a mapping with a required
/// relative `path` and at most one of `as` (alias) and `names` (selective).
pub fn parse_frontmatter_imports_from_yaml(imports_val: &Yaml) -> (r: Result<Vec<FrontmatterImport>, MdsError>)
    ensures
        !(imports_val is Sequence) ==> (r matches Err(MdsError::ImportError { message, span: None })
            && message@ == "imports must be a YAML sequence (in frontmatter)"@),
        imports_val matches Yaml::Sequence(seq) ==> {
            &&& seq@.len() > MAX_FRONTMATTER_IMPORTS ==> (r matches Err(MdsError::ResourceLimit { message })
                && message@ == "imports exceeds maximum of 64 entries (in frontmatter)"@)
            &&& seq@.len() <= MAX_FRONTMATTER_IMPORTS ==> {
                &&& r is Ok <==> forall|i: int| 0 <= i < seq@.len() ==> entry_result(#[trigger] seq@[i]) is Ok
                &&& r matches Ok(v) ==> v@.len() == seq@.len() && forall|i: int| 0 <= i < seq@.len()
                    ==> entry_result(#[trigger] seq@[i]) == Ok::<ImportDecl, Seq<char>>(v@[i].decl())
                &&& r matches Err(e) ==> exists|i: int| 0 <= i < seq@.len()
                    && (forall|j: int| 0 <= j < i ==> entry_result(#[trigger] seq@[j]) is Ok)
                    && entry_result(seq@[i]) is Err
                    && (e matches MdsError::ImportError { message, span: None }
                    && message@ == entry_error(i, entry_result(seq@[i])->Err_0))
            }
        },
{
    let seq = match imports_val {
        Yaml::Sequence(s) => s,
        _ => {
            return Err(MdsError::import_error("imports must be a YAML sequence (in frontmatter)"));
        },
    };
    if seq.len() > MAX_FRONTMATTER_IMPORTS {
        return Err(MdsError::resource_limit("imports exceeds maximum of 64 entries (in frontmatter)"));
    }
    let mut out: Vec<FrontmatterImport> = Vec::new();
    let mut i: usize = 0;
    while i < seq.len()
        invariant
            imports_val matches Yaml::Sequence(s2) && s2@ == seq@,
            seq@.len() <= MAX_FRONTMATTER_IMPORTS,
            i <= seq@.len(),
            out@.len() == i,
            forall|j: int| 0 <= j < i ==> entry_result(#[trigger] seq@[j]) == Ok::<ImportDecl, Seq<char>>(out@[j].decl()),
        decreases seq@.len() - i,
    {
        match parse_single_import_entry(&seq[i], i) {
            Ok(fi) => out.push(fi),
            Err(e) => {
                assert(forall|j: int| 0 <= j < i ==> entry_result(#[trigger] seq@[j]) is Ok);
                assert(entry_result(seq@[i as int]) is Err);
                return Err(e);
            },
        }
        i = i + 1;
    }
    Ok(out)
}

/// Parse the frontmatter imports of raw frontmatter text: none when the text
/// is not a mapping or has no `imports` key.
pub fn parse_frontmatter_imports(raw: &str) -> (r: Result<Vec<FrontmatterImport>, MdsError>)
    ensures
        yaml_document(raw@) is Err ==> (r matches Err(MdsError::YamlError { message })
            && Err::<Yaml, Seq<char>>(message@) == yaml_document(raw@)),
        (yaml_document(raw@) matches Ok(y) && !(y is Mapping)) ==> (r matches Ok(v) && v@.len() == 0),
        (yaml_document(raw@) matches Ok(Yaml::Mapping(m)) && Yaml::entry(m@, "imports"@) is None)
            ==> (r matches Ok(v) && v@.len() == 0),
{
    let yaml = match parse_yaml(raw) {
        Ok(y) => y,
        Err(m) => {
            return Err(MdsError::yaml_error(m.as_str()));
        },
    };
    match &yaml {
        Yaml::Mapping(map) => match mapping_get(map, "imports") {
            Some(v) => parse_frontmatter_imports_from_yaml(v),
            None => Ok(Vec::new()),
        },
        _ => Ok(Vec::new()),
    }
}

} // verus!
