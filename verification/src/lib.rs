//! Module resolution, template inheritance and semantic validation for the
//! MDS prompt-template language.

pub mod ast;
pub mod collections;
pub mod error;
pub mod evaluator;
pub mod fs;
pub mod imports;
pub mod options;
pub mod parser;
pub mod paths;
pub mod resolver;
pub mod scope;
pub mod table;
pub mod text;
pub mod validator;
pub mod value;
pub mod yaml;

use std::collections::HashMap;
use vstd::prelude::*;

pub use error::{MdsError, SerializedError, SerializedSpan, Span};
pub use fs::{FileSystem, VirtualFs};
pub use imports::{parse_frontmatter_imports, parse_frontmatter_imports_from_yaml, FrontmatterImport};
pub use resolver::{ModuleCache, ResolvedModule};
pub use text::{chars_of, is_valid_identifier};
pub use validator::validate;
pub use value::TemplateValue;
pub use yaml::{parse_yaml, Yaml};

use crate::collections::value_entries;
use crate::table::Table;

verus! {

/// The result of a compilation: the rendered prompt, the warnings, and the
/// keys of the modules it depended on (the entry excluded), in
/// first-resolution order.
#[derive(Debug)]
pub struct CompileOutput {
    pub output: String,
    pub warnings: Vec<String>,
    pub dependencies: Vec<String>,
}

/// What a plain-text module compiles to: nothing when it is blank, else
/// its source as written.
pub open spec fn plain_output(source: Seq<char>) -> Seq<char> {
    if crate::text::trim(source).len() == 0 {
        Seq::empty()
    } else {
        source
    }
}

/// The module `entry` of `modules` is a `.mds` file whose source is plain
/// text, and no runtime variable is named `imports`.
pub open spec fn plain_entry(
    modules: Map<String, String>,
    entry: Seq<char>,
    vars: Option<HashMap<String, TemplateValue>>,
) -> bool {
    &&& crate::paths::extension(entry) == Some("mds"@)
    &&& exists|k: String| modules.contains_key(k) && k@ == entry && crate::parser::plain_source(#[trigger] modules[k]@)
    &&& vars matches Some(m) ==> resolver::no_imports_key(m@)
}

/// The runtime variables as a lookup by name.
pub open spec fn map_vars(vars: Option<HashMap<String, TemplateValue>>) -> spec_fn(Seq<char>) -> Option<TemplateValue> {
    |q: Seq<char>| match vars {
        None => None,
        Some(m) => if exists|k: String| m@.contains_key(k) && #[trigger] k@ == q {
            Some(m@[choose|k: String| m@.contains_key(k) && #[trigger] k@ == q])
        } else {
            None
        },
    }
}

/// The source of the module named `entry` in `modules`, if there is one.
pub open spec fn source_of(modules: Map<String, String>, entry: Seq<char>) -> Option<Seq<char>> {
    if exists|k: String| modules.contains_key(k) && #[trigger] k@ == entry {
        Some(modules[choose|k: String| modules.contains_key(k) && #[trigger] k@ == entry]@)
    } else {
        None
    }
}

/// What the module `entry` of `modules` compiles to with the runtime
/// variables `vars`, when it is a `.mds` file of an optional frontmatter
/// mapping (binding without error or imports), then text lines (text,
/// escaped braces and `{name}` interpolations) and `@block` sections, that
/// renders with those variables and the frontmatter's: the rendered text,
/// empty when it is blank. `None` for any other module.
pub open spec fn template_output(
    modules: Map<String, String>,
    entry: Seq<char>,
    vars: Option<HashMap<String, TemplateValue>>,
) -> Option<Seq<char>> {
    if crate::paths::extension(entry) == Some("mds"@) && (vars matches Some(m) ==> resolver::no_imports_key(m@)) {
        match source_of(modules, entry) {
            Some(src) => match resolver::items_text(src, crate::parser::texts_of(map_vars(vars)), false) {
                Some(t) => Some(plain_output(t)),
                None => None,
            },
            None => None,
        }
    } else {
        None
    }
}

/// The source of the module `entry` of `modules`.
pub open spec fn entry_source(modules: Map<String, String>, entry: Seq<char>) -> Seq<char> {
    let k = choose|k: String| modules.contains_key(k) && k@ == entry && crate::parser::plain_source(#[trigger] modules[k]@);
    modules[k]@
}

/// The index of the last `.` of a name, from a `.` with none after it.
proof fn lemma_last_dot(f: Seq<char>, i: int)
    requires
        0 <= i < f.len(),
        f[i] == '.',
        forall|j: int| i < j < f.len() ==> f[j] != '.',
    ensures
        crate::paths::last_dot(f) == i,
    decreases f.len(),
{
    if f.last() != '.' {
        lemma_last_dot(f.drop_last(), i);
    }
}

/// A `.mds` key does not name a Markdown file.
proof fn lemma_mds_not_md(key: Seq<char>)
    requires
        crate::paths::extension(key) == Some("mds"@),
    ensures
        !crate::fs::is_markdown_key(key),
{
    reveal_strlit("mds");
    reveal_strlit("md");
    assert("mds"@.len() != "md"@.len());
}

/// The module [`compile_str`] compiles is a `.mds` file.
proof fn lemma_input_key()
    ensures
        crate::paths::extension("input.mds"@) == Some("mds"@),
{
    reveal_strlit("input.mds");
    reveal_strlit("mds");
    let s = "input.mds"@;
    crate::paths::lemma_last_component(s);
    let c = crate::paths::last_component_start(s);
    if c > 0 {
        assert(crate::paths::is_sep(s[c - 1]));
    }
    assert(crate::paths::display_name(s) =~= s);
    lemma_last_dot(s, 5);
    assert(s[5] == '.');
    assert(s.subrange(6, 9) =~= "mds"@);
}

/// `keys` without `entry`, in order.
pub open spec fn keys_without(keys: Seq<Seq<char>>, entry: Seq<char>) -> Seq<Seq<char>>
    decreases keys.len(),
{
    if keys.len() == 0 {
        Seq::empty()
    } else if keys.last() == entry {
        keys_without(keys.drop_last(), entry)
    } else {
        keys_without(keys.drop_last(), entry).push(keys.last())
    }
}

proof fn lemma_keys_without(keys: Seq<Seq<char>>, entry: Seq<char>)
    ensures
        forall|i: int| 0 <= i < keys_without(keys, entry).len() ==> #[trigger] keys_without(keys, entry)[i] != entry,
    decreases keys.len(),
{
    if keys.len() > 0 {
        lemma_keys_without(keys.drop_last(), entry);
        let p = keys_without(keys.drop_last(), entry);
        if keys.last() != entry {
            assert forall|i: int| 0 <= i < p.push(keys.last()).len() implies #[trigger] p.push(keys.last())[i] != entry by {
                if i < p.len() {
                    assert(p.push(keys.last())[i] == p[i]);
                }
            }
        }
    }
}

/// The runtime variables as entries, each name once.
fn runtime_entries(vars: &Option<HashMap<String, TemplateValue>>) -> (r: Vec<(String, TemplateValue)>)
    ensures
        resolver::distinct_names(r@),
        vars is None ==> r@.len() == 0,
        vars matches Some(m) ==> forall|i: int| 0 <= i < r@.len() ==> m@.contains_key(#[trigger] r@[i].0)
            && m@[r@[i].0] == r@[i].1,
        vars matches Some(m) ==> forall|k: String| m@.contains_key(k) ==> exists|i: int| 0 <= i < r@.len()
            && #[trigger] r@[i].0 == k,
        vars matches Some(m) ==> forall|i: int, k: String| #![trigger r@[i], m@.contains_key(k)] 0 <= i < r@.len()
            && m@.contains_key(k) && k@ == r@[i].0@ ==> k == r@[i].0,
{
    match vars {
        Some(m) => value_entries(m),
        None => Vec::new(),
    }
}

/// Compile the module `entry` of the in-memory file system `modules` with
/// the runtime variables `vars`: the rendered prompt (empty when it is
/// blank), and the modules it depends on.
#[verifier::spinoff_prover]
#[verifier::rlimit(60)]
pub fn compile_virtual_with_deps(
    modules: HashMap<String, String>,
    entry: &str,
    vars: Option<HashMap<String, TemplateValue>>,
) -> (r: Result<CompileOutput, MdsError>)
    ensures
        r matches Ok(out) ==> out.warnings@.len() == 0,
        r matches Ok(out) ==> forall|i: int| 0 <= i < out.dependencies@.len() ==> (#[trigger] out.dependencies@[i])@ != entry@,
        plain_entry(modules@, entry@, vars) ==> (r matches Ok(out) && out.output@ == plain_output(entry_source(modules@, entry@))),
        template_output(modules@, entry@, vars) matches Some(t) ==> (r matches Ok(out) && out.output@ == t),
{
    let rv = runtime_entries(&vars);
    proof {
        assert forall|q: Seq<char>| #[trigger] resolver::rv_vars(rv@)(q) == map_vars(vars)(q) by {
            match &vars {
                Some(m) => {
                    if exists|i: int| 0 <= i < rv@.len() && #[trigger] rv@[i].0@ == q {
                        let i = choose|i: int| 0 <= i < rv@.len() && #[trigger] rv@[i].0@ == q;
                        assert(m@.contains_key(rv@[i].0));
                        let k = choose|k: String| m@.contains_key(k) && #[trigger] k@ == q;
                        assert(k == rv@[i].0);
                    } else {
                        if exists|k: String| m@.contains_key(k) && #[trigger] k@ == q {
                            let k = choose|k: String| m@.contains_key(k) && #[trigger] k@ == q;
                            let i = choose|i: int| 0 <= i < rv@.len() && #[trigger] rv@[i].0 == k;
                            assert(rv@[i].0@ == q);
                        }
                    }
                },
                None => {},
            }
        }
        assert(resolver::rv_vars(rv@) =~= map_vars(vars));
    }
    let ghost mods = modules@;
    let mut cache = ModuleCache::virtual_fs(modules);
    proof {
        cache.lemma_wf_inv();
        if template_output(mods, entry@, vars) is Some {
            lemma_mds_not_md(entry@);
            let k = choose|k: String| mods.contains_key(k) && #[trigger] k@ == entry@;
            assert(cache.file_system().files.lookup(k@) == Some(mods[k]));
            match &vars {
                Some(m) => {
                    assert forall|i: int| 0 <= i < rv@.len() implies #[trigger] rv@[i].0@ != "imports"@ by {
                        assert(m@.contains_key(rv@[i].0));
                    }
                },
                None => {},
            }
        }
        if plain_entry(mods, entry@, vars) {
            let k = choose|k: String| mods.contains_key(k) && k@ == entry@ && crate::parser::plain_source(#[trigger] mods[k]@);
            assert(cache.file_system().files.lookup(k@) == Some(mods[k]));
            match vars {
                Some(m) => {
                    assert forall|i: int| 0 <= i < rv@.len() implies #[trigger] rv@[i].0@ != "imports"@ by {
                        assert(m@.contains_key(rv@[i].0));
                    }
                },
                None => {},
            }
        }
    }
    let m = cache.resolve_by_key(entry, &rv)?;
    let output = match &m.prompt_body {
        Some(p) => p.clone(),
        None => String::new(),
    };
    let all = cache.dependencies();
    let mut dependencies: Vec<String> = Vec::new();
    let mut i: usize = 0;
    while i < all.len()
        invariant
            i <= all@.len(),
            dependencies@.map_values(|k: String| k@) == keys_without(all@.map_values(|k: String| k@).subrange(0, i as int), entry@),
        decreases all@.len() - i,
    {
        let ghost pre = all@.map_values(|k: String| k@).subrange(0, i as int);
        let ghost nxt = all@.map_values(|k: String| k@).subrange(0, i + 1);
        assert(nxt.drop_last() =~= pre);
        assert(nxt.last() == all@[i as int]@);
        if !same_text(all[i].as_str(), entry) {
            let ghost before = dependencies@;
            dependencies.push(all[i].clone());
            assert(dependencies@.map_values(|k: String| k@) =~= before.map_values(|k: String| k@).push(all@[i as int]@));
        }
        i = i + 1;
    }
    proof {
        let ks = all@.map_values(|k: String| k@);
        assert(ks.subrange(0, all@.len() as int) =~= ks);
        lemma_keys_without(ks, entry@);
        assert forall|i: int| 0 <= i < dependencies@.len() implies (#[trigger] dependencies@[i])@ != entry@ by {
            assert(dependencies@.map_values(|k: String| k@)[i] == dependencies@[i]@);
        }
    }
    Ok(CompileOutput { output, warnings: Vec::new(), dependencies })
}

/// The two texts are the same.
fn same_text(a: &str, b: &str) -> (r: bool)
    ensures
        r == (a@ == b@),
{
    let x = a.to_owned();
    let y = b.to_owned();
    x == y
}

/// Compile the module `entry` of the in-memory file system `modules`: the
/// rendered prompt, empty when it is blank.
pub fn compile_virtual(
    modules: HashMap<String, String>,
    entry: &str,
    vars: Option<HashMap<String, TemplateValue>>,
) -> (r: Result<String, MdsError>)
    ensures
        plain_entry(modules@, entry@, vars) ==> (r matches Ok(out) && out@ == plain_output(entry_source(modules@, entry@))),
        template_output(modules@, entry@, vars) matches Some(t) ==> (r matches Ok(out) && out@ == t),
{
    let out = compile_virtual_with_deps(modules, entry, vars)?;
    Ok(out.output)
}

/// Check the module `entry` of the in-memory file system `modules`: every
/// error a compilation reports, without its output.
pub fn check_virtual(
    modules: HashMap<String, String>,
    entry: &str,
    vars: Option<HashMap<String, TemplateValue>>,
) -> (r: Result<(), MdsError>)
    ensures
        plain_entry(modules@, entry@, vars) ==> r is Ok,
        template_output(modules@, entry@, vars) is Some ==> r is Ok,
{
    compile_virtual_with_deps(modules, entry, vars)?;
    Ok(())
}

/// [`check_virtual`], with the warnings of the check.
pub fn check_virtual_collecting_warnings(
    modules: HashMap<String, String>,
    entry: &str,
    vars: Option<HashMap<String, TemplateValue>>,
) -> (r: Result<((), Vec<String>), MdsError>)
    ensures
        r matches Ok((_, w)) ==> w@.len() == 0,
        plain_entry(modules@, entry@, vars) ==> r is Ok,
        template_output(modules@, entry@, vars) is Some ==> r is Ok,
{
    let out = compile_virtual_with_deps(modules, entry, vars)?;
    Ok(((), out.warnings))
}

/// Compile one source on its own, as the module `input.mds` of an
/// otherwise empty file system: the rendered prompt, empty when blank.
pub fn compile_str(source: &str) -> (r: Result<String, MdsError>)
    ensures
        crate::parser::plain_source(source@) ==> (r matches Ok(out) && out@ == plain_output(source@)),
        resolver::items_text(source@, crate::parser::texts_of(map_vars(None)), false) matches Some(t) ==> (r matches Ok(out) && out@ == plain_output(t)),
{
    let mut files: Table<String> = Table::new();
    files.insert("input.mds".to_owned(), source.to_owned());
    let mut cache = ModuleCache::with_fs(VirtualFs::new(files));
    proof {
        cache.lemma_wf_inv();
        lemma_input_key();
        lemma_mds_not_md("input.mds"@);
    }
    proof {
        assert(resolver::rv_vars(Seq::<(String, TemplateValue)>::empty()) =~= map_vars(None));
    }
    let rv: Vec<(String, TemplateValue)> = Vec::new();
    let m = cache.resolve_by_key("input.mds", &rv)?;
    match &m.prompt_body {
        Some(p) => Ok(p.clone()),
        None => Ok(String::new()),
    }
}

} // verus!
