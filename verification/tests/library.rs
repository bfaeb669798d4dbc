use std::collections::HashMap;

use mds::options::{build_modules, json_type_name, parse_options, Json, OptionsError};
use mds::{FileSystem, MdsError, ModuleCache, TemplateValue};

fn files(list: &[(&str, &str)]) -> HashMap<String, String> {
    list.iter().map(|(k, v)| (k.to_string(), v.to_string())).collect()
}

#[test]
fn compile_renders_frontmatter_variables() {
    let out = mds::compile_str("---\nname: World\n---\nHello {name}!\n").expect("compiles");
    assert_eq!(out, "Hello World!\n");
}

#[test]
fn compile_blank_body_is_empty() {
    let out = mds::compile_str("\n  \n").expect("compiles");
    assert_eq!(out, "");
}

#[test]
fn compile_escaped_brace() {
    let out = mds::compile_str("a \\{b} c\n").expect("compiles");
    assert_eq!(out, "a {b} c\n");
}

#[test]
fn runtime_vars_override_frontmatter() {
    let mut vars = HashMap::new();
    vars.insert("name".to_string(), TemplateValue::String("Runtime".to_string()));
    let out = mds::compile_virtual(
        files(&[("input.mds", "---\nname: Frontmatter\n---\nHi {name}\n")]),
        "input.mds",
        Some(vars),
    )
    .expect("compiles");
    assert_eq!(out, "Hi Runtime\n");
}

#[test]
fn runtime_imports_var_is_reserved() {
    let mut vars = HashMap::new();
    vars.insert("imports".to_string(), TemplateValue::Null);
    let err = mds::compile_virtual(files(&[("input.mds", "Hi\n")]), "input.mds", Some(vars)).unwrap_err();
    assert_eq!(err.serialize().code, "mds::import");
}

#[test]
fn undefined_variable_is_reported() {
    let err = mds::compile_str("Hello {who}\n").unwrap_err();
    assert_eq!(err.serialize().code, "mds::undefined_var");
    assert_eq!(err.to_string(), "undefined variable 'who'");
}

#[test]
fn function_call_renders_body_without_trailing_newline() {
    let out = mds::compile_str("@define greet(n):\nHello, {n}!\n@end\n[{greet(\"Ann\")}]\n").expect("compiles");
    assert_eq!(out, "[Hello, Ann!]\n");
}

#[test]
fn arity_mismatch_is_reported() {
    let err = mds::compile_str("@define f(a, b):\nx\n@end\n{f(\"1\")}\n").unwrap_err();
    assert_eq!(err.serialize().code, "mds::arity");
}

#[test]
fn conditional_and_loop() {
    let src = "---\nshow: true\nitems: [a, b]\n---\n@if show:\nyes\n@else:\nno\n@end\n@for x in items:\n- {x}\n@end\n";
    let out = mds::compile_str(src).expect("compiles");
    assert!(out.contains("yes"), "{out}");
    assert!(!out.contains("no"), "{out}");
    assert!(out.contains("- a") && out.contains("- b"), "{out}");
}

#[test]
fn alias_import_and_include() {
    let lib = "@define hi():\nhi there\n@end\nLib prompt.\n";
    let main = "@import \"./lib.mds\" as lib\n{lib.hi()}\n@include lib\n";
    let out = mds::compile_virtual(files(&[("lib.mds", lib), ("main.mds", main)]), "main.mds", None).expect("compiles");
    assert!(out.contains("hi there"), "{out}");
    assert!(out.contains("Lib prompt."), "{out}");
}

#[test]
fn explicit_exports_hide_other_functions() {
    let lib = "@define a():\nA\n@end\n@define b():\nB\n@end\n@export a\n";
    let main = "@import b from \"./lib.mds\"\n{b()}\n";
    let err = mds::compile_virtual(files(&[("lib.mds", lib), ("main.mds", main)]), "main.mds", None).unwrap_err();
    assert_eq!(err.serialize().code, "mds::import");
    assert!(err.to_string().contains("'b' is not exported from './lib.mds'"), "{}", err.to_string());
}

#[test]
fn export_of_undefined_name_is_refused() {
    let err = mds::compile_str("@export nothing\n").unwrap_err();
    assert_eq!(err.serialize().code, "mds::export");
    assert_eq!(err.to_string(), "export error: cannot export 'nothing': not defined in this module");
}

#[test]
fn circular_import_names_the_chain() {
    let a = "@import \"./b.mds\"\n";
    let b = "@import \"./a.mds\"\n";
    let err = mds::compile_virtual(files(&[("a.mds", a), ("b.mds", b)]), "a.mds", None).unwrap_err();
    assert_eq!(err.serialize().code, "mds::circular_import");
    assert!(err.to_string().contains("a.mds \u{2192} b.mds \u{2192} a.mds"), "{}", err.to_string());
    assert!(err.serialize().span.is_some());
}

#[test]
fn missing_import_underlines_directive() {
    let err = mds::compile_virtual(files(&[("a.mds", "x\n@import \"./gone.mds\"\n")]), "a.mds", None).unwrap_err();
    let s = err.serialize();
    assert_eq!(s.code, "mds::file_not_found");
    let span = s.span.expect("span");
    assert_eq!(span.offset, 2);
    assert_eq!(span.length, 20);
    assert_eq!(span.line, Some(2));
}

#[test]
fn frontmatter_import_error_names_index() {
    let main = "---\nimports:\n  - path: ./gone.mds\n---\nx\n";
    let err = mds::compile_virtual(files(&[("main.mds", main)]), "main.mds", None).unwrap_err();
    assert_eq!(err.serialize().code, "mds::import");
    assert!(err.to_string().contains("(in frontmatter imports[0])"), "{}", err.to_string());
}

#[test]
fn non_relative_import_is_refused() {
    let err = mds::compile_str("@import \"lib.mds\"\n").unwrap_err();
    assert_eq!(err.serialize().code, "mds::import");
}

#[test]
fn not_mds_file_is_refused() {
    let err = mds::compile_virtual(files(&[("notes.txt", "x\n")]), "notes.txt", None).unwrap_err();
    assert_eq!(err.serialize().code, "mds::not_mds_file");
}

#[test]
fn md_file_with_type_mds_is_accepted() {
    let out = mds::compile_virtual(files(&[("a.md", "---\ntype: mds\n---\nok\n")]), "a.md", None).expect("compiles");
    assert_eq!(out, "ok\n");
}

#[test]
fn cache_hit_returns_same_module() {
    let mut cache = ModuleCache::virtual_fs(files(&[("a.mds", "A\n")]));
    let mut w = Vec::new();
    let first = cache.resolve_key("a.mds", &HashMap::new(), &mut w).expect("first");
    let second = cache.resolve_key("a.mds", &HashMap::new(), &mut w).expect("second");
    assert!(std::sync::Arc::ptr_eq(&first, &second));
    assert_eq!(cache.dependencies(), vec!["a.mds".to_string()]);
    assert!(w.is_empty());
}

#[test]
fn cache_keeps_first_resolution_order() {
    let a = "@import \"./b.mds\"\n@import \"./c.mds\"\nA\n";
    let mut cache = ModuleCache::virtual_fs(files(&[("a.mds", a), ("b.mds", "B\n"), ("c.mds", "C\n")]));
    let mut w = Vec::new();
    cache.resolve_key("a.mds", &HashMap::new(), &mut w).expect("resolves");
    assert_eq!(cache.dependencies(), vec!["b.mds".to_string(), "c.mds".to_string(), "a.mds".to_string()]);
}

#[test]
fn dependencies_exclude_entry() {
    let out = mds::compile_virtual_with_deps(
        files(&[("a.mds", "@import \"./b.mds\"\nA\n"), ("b.mds", "B\n")]),
        "a.mds",
        None,
    )
    .expect("compiles");
    assert_eq!(out.dependencies, vec!["b.mds".to_string()]);
    assert!(out.warnings.is_empty());
}

#[test]
fn messages_mode_collects_messages() {
    let src = "@message system:\nBe brief.\n@end\n@message user:\n  Hi {name}  \n@end\n";
    let mut cache = ModuleCache::virtual_fs(files(&[("m.mds", src)]));
    let mut vars = HashMap::new();
    vars.insert("name".to_string(), TemplateValue::String("Bo".to_string()));
    let mut w = Vec::new();
    let msgs = cache.resolve_key_messages("m.mds", &vars, &mut w).expect("messages");
    assert_eq!(msgs.len(), 2);
    assert_eq!(msgs[0].role, "system");
    assert_eq!(msgs[0].content, "Be brief.");
    assert_eq!(msgs[1].role, "user");
    assert_eq!(msgs[1].content, "Hi Bo");
}

#[test]
fn messages_mode_requires_a_message() {
    let mut cache = ModuleCache::virtual_fs(files(&[("m.mds", "plain\n")]));
    let mut w = Vec::new();
    let err = cache.resolve_key_messages("m.mds", &HashMap::new(), &mut w).unwrap_err();
    assert_eq!(err.serialize().code, "mds::syntax");
}

#[test]
fn resolve_source_resolves_imports_from_base_dir() {
    let mut cache = ModuleCache::virtual_fs(files(&[("dir/lib.mds", "@define f():\nF\n@end\n")]));
    let mut w = Vec::new();
    let m = cache
        .resolve_source("@import \"./lib.mds\"\n{f()}\n", "dir", &HashMap::new(), &mut w)
        .expect("resolves");
    assert_eq!(m.prompt_body.as_deref(), Some("F\n"));
    let m = cache.resolve_source("x\n", "dir", &HashMap::new(), &mut w).expect("resolves");
    assert_eq!(m.get_prompt_value().map(|v| matches!(v, TemplateValue::String(_))), Some(true));
}

#[test]
fn get_export_and_get_all_exports_agree() {
    let lib = "@define a():\nA\n@end\n@define b():\nB\n@end\n@export a\n";
    let mut cache = ModuleCache::virtual_fs(files(&[("lib.mds", lib)]));
    let mut w = Vec::new();
    let m = cache.resolve_key("lib.mds", &HashMap::new(), &mut w).expect("resolves");
    assert!(m.get_export("a").is_some());
    assert!(m.get_export("b").is_none());
    let names: Vec<String> = m.get_all_exports().into_iter().map(|(n, _)| n).collect();
    assert_eq!(names, vec!["a".to_string()]);
    assert!(m.get_prompt_value().is_none());
}

#[test]
fn most_derived_override_wins_on_two_levels() {
    let a = "@block x:\nA\n@end\n@block y:\nYA\n@end\n";
    let b = "@extends \"./a.mds\"\n@block y:\nYB\n@end\n";
    let c = "@extends \"./b.mds\"\n@block x:\nXC\n@end\n";
    let out = mds::compile_virtual(files(&[("a.mds", a), ("b.mds", b), ("c.mds", c)]), "c.mds", None).expect("compiles");
    assert_eq!(out, "XC\nYB\n");
}

#[test]
fn json_type_names() {
    assert_eq!(json_type_name(&Json::Null), "null");
    assert_eq!(json_type_name(&Json::Bool(true)), "boolean");
    assert_eq!(json_type_name(&Json::Number("1".into())), "number");
    assert_eq!(json_type_name(&Json::String("s".into())), "string");
    assert_eq!(json_type_name(&Json::Array(vec![])), "array");
    assert_eq!(json_type_name(&Json::Object(vec![])), "object");
}

#[test]
fn options_default_when_absent() {
    let p = parse_options(None).expect("defaults");
    assert_eq!(p.filename, "input.mds");
    assert!(p.extra_modules.entries.is_empty());
    assert!(p.vars.is_none());
}

#[test]
fn options_must_be_object() {
    match parse_options(Some(Json::Bool(true))) {
        Err(OptionsError::Invalid(m)) => assert_eq!(m, "options must be a plain object"),
        other => panic!("unexpected: {other:?}"),
    }
}

#[test]
fn options_filename_type_and_blank() {
    match parse_options(Some(Json::Object(vec![("filename".into(), Json::Number("3".into()))]))) {
        Err(OptionsError::Invalid(m)) => assert_eq!(m, "options.filename must be a string, got number"),
        other => panic!("unexpected: {other:?}"),
    }
    match parse_options(Some(Json::Object(vec![("filename".into(), Json::String("  ".into()))]))) {
        Err(OptionsError::Invalid(m)) => assert_eq!(m, "options.filename must be a non-empty string"),
        other => panic!("unexpected: {other:?}"),
    }
}

#[test]
fn options_modules_and_vars() {
    let opts = Json::Object(vec![
        ("filename".into(), Json::String("main.mds".into())),
        ("modules".into(), Json::Object(vec![("lib.mds".into(), Json::String("L".into()))])),
        ("vars".into(), Json::Object(vec![("n".into(), Json::Number("2".into()))])),
    ]);
    let p = parse_options(Some(opts)).expect("parses");
    assert_eq!(p.filename, "main.mds");
    assert_eq!(p.extra_modules.entries.len(), 1);
    assert_eq!(p.extra_modules.entries[0].0, "lib.mds");
    let vars = p.vars.expect("vars");
    assert_eq!(vars.entries.len(), 1);
    assert!(matches!(&vars.entries[0].1, TemplateValue::Number(n) if n == "2"));
}

#[test]
fn options_bad_module_value() {
    let opts = Json::Object(vec![("modules".into(), Json::Object(vec![("x.mds".into(), Json::Null)]))]);
    match parse_options(Some(opts)) {
        Err(OptionsError::Invalid(m)) => assert_eq!(m, "options.modules[\"x.mds\"] must be a string, got null"),
        other => panic!("unexpected: {other:?}"),
    }
    let opts = Json::Object(vec![("vars".into(), Json::Array(vec![]))]);
    match parse_options(Some(opts)) {
        Err(OptionsError::Invalid(m)) => assert_eq!(m, "options.vars must be a plain object, got array"),
        other => panic!("unexpected: {other:?}"),
    }
}

#[test]
fn build_modules_refuses_collision() {
    let p = parse_options(Some(Json::Object(vec![(
        "modules".into(),
        Json::Object(vec![("input.mds".into(), Json::String("other".into()))]),
    )])))
    .expect("parses");
    let err = build_modules("src".into(), "input.mds", p.extra_modules).unwrap_err();
    assert!(err.contains("already contains key \"input.mds\""), "{err}");
    let p = parse_options(None).expect("defaults");
    let t = build_modules("src".into(), "input.mds", p.extra_modules).expect("builds");
    assert_eq!(t.entries.len(), 1);
    assert_eq!(t.entries[0].1, "src");
}

#[test]
fn error_codes_and_messages() {
    let e = MdsError::arity("f", 2, 1);
    assert_eq!(e.code(), "mds::arity");
    assert_eq!(e.to_string(), "function 'f' expects 2 argument(s), got 1");
    let e = MdsError::syntax_at("bad", "ab\ncd", 3, 2);
    let s = e.serialize();
    assert_eq!(s.code, "mds::syntax");
    let span = s.span.expect("span");
    assert_eq!((span.offset, span.length, span.line, span.column), (3, 2, Some(2), Some(1)));
}

#[test]
fn validate_reports_first_problem() {
    let module = mds::parser::parse_module("{a}{b}\n", "x.mds").expect("parses");
    let scope = mds::scope::Scope::new();
    let err = mds::validate(&module.body, &scope).unwrap_err();
    assert_eq!(err.to_string(), "undefined variable 'a'");
}

#[test]
fn identifiers() {
    assert!(mds::is_valid_identifier("_a1"));
    assert!(!mds::is_valid_identifier("1a"));
    assert!(!mds::is_valid_identifier(""));
}

#[test]
fn key_display_name_is_last_component() {
    assert_eq!(mds::paths::key_display_name("a/b\\c.mds"), "c.mds");
    assert_eq!(mds::paths::key_display_name("plain"), "plain");
}

#[test]
fn virtual_fs_normalizes_relative_paths() {
    let fs = mds::VirtualFs::new(mds::table::Table { entries: vec![] });
    assert_eq!(fs.normalize("dir/a.mds", "./b.mds").unwrap(), "dir/b.mds");
    assert_eq!(fs.normalize("dir/sub/a.mds", "../b.mds").unwrap(), "dir/b.mds");
    assert!(fs.normalize("a.mds", "../b.mds").is_err());
}

#[test]
fn yaml_values_convert() {
    let y = mds::parse_yaml("a: 1\nb: [x, true]\nc: null\n").expect("parses");
    match y {
        mds::Yaml::Mapping(entries) => {
            assert_eq!(entries.len(), 3);
            assert!(matches!(&entries[0].1, mds::Yaml::Number(n) if n == "1"));
        }
        other => panic!("unexpected: {other:?}"),
    }
    assert!(mds::parse_yaml("a: [").is_err());
}

#[test]
fn resolve_path_normalizes_then_resolves() {
    let mut cache = ModuleCache::virtual_fs(files(&[("dir/a.mds", "A\n")]));
    let mut w = Vec::new();
    let m = cache.resolve_path("./dir/./a.mds", &HashMap::new(), &mut w).expect("resolves");
    assert_eq!(m.prompt_body.as_deref(), Some("A\n"));
    assert_eq!(cache.dependencies(), vec!["dir/a.mds".to_string()]);
    let err = cache.resolve_path("../a.mds", &HashMap::new(), &mut w).unwrap_err();
    assert_eq!(err.serialize().code, "mds::import");
}

#[test]
fn resolve_source_messages_collects_messages() {
    let mut cache = ModuleCache::virtual_fs(files(&[]));
    let mut w = Vec::new();
    let msgs = cache
        .resolve_source_messages("@message user:\nhello\n@end\n", "dir", &HashMap::new(), &mut w)
        .expect("messages");
    assert_eq!(msgs.len(), 1);
    assert_eq!(msgs[0].role, "user");
    assert_eq!(msgs[0].content, "hello");
}

#[test]
fn resolution_stack_is_restored_after_an_error() {
    let a = "@import \"./b.mds\"\nA\n";
    let b = "@import \"./a.mds\"\nB\n";
    let c = "@import \"./d.mds\"\nC {x}\n";
    let d = "@define f():\nD\n@end\n";
    let mut cache = ModuleCache::virtual_fs(files(&[("a.mds", a), ("b.mds", b), ("c.mds", c), ("d.mds", d)]));
    let mut w = Vec::new();
    let err = cache.resolve_key("a.mds", &HashMap::new(), &mut w).unwrap_err();
    assert_eq!(err.serialize().code, "mds::circular_import");
    let err = cache.resolve_key("c.mds", &HashMap::new(), &mut w).unwrap_err();
    assert_eq!(err.serialize().code, "mds::undefined_var");
    let mut vars = HashMap::new();
    vars.insert("x".to_string(), TemplateValue::Bool(true));
    let m = cache.resolve_key("c.mds", &vars, &mut w).expect("no stale state from earlier failures");
    assert_eq!(m.prompt_body.as_deref(), Some("C true\n"));
    assert_eq!(cache.dependencies(), vec!["d.mds".to_string(), "c.mds".to_string()]);
}

#[test]
fn depth_limit_on_import_chains() {
    let mut list: Vec<(String, String)> = Vec::new();
    for i in 0..70usize {
        list.push((format!("m{i}.mds"), format!("@import \"./m{}.mds\"\nx\n", i + 1)));
    }
    list.push(("m70.mds".to_string(), "end\n".to_string()));
    let map: HashMap<String, String> = list.into_iter().collect();
    let err = mds::compile_virtual(map, "m0.mds", None).unwrap_err();
    assert_eq!(err.serialize().code, "mds::import");
    assert!(err.to_string().contains("import depth exceeds maximum of 64"), "{}", err.to_string());
}

#[test]
fn plain_text_compiles_to_itself() {
    let src = "First line\n  second, with spaces  \nthird";
    let out = mds::compile_str(src).expect("compiles");
    assert_eq!(out, src);
}

#[test]
fn plain_entry_compiles_and_checks() {
    let modules = files(&[("main.mds", "Just text.\n")]);
    let out = mds::compile_virtual(modules.clone(), "main.mds", None).expect("compiles");
    assert_eq!(out, "Just text.\n");
    assert!(mds::check_virtual(modules.clone(), "main.mds", None).is_ok());
    let (_, warnings) = mds::check_virtual_collecting_warnings(modules, "main.mds", None).expect("checks");
    assert!(warnings.is_empty());
}

#[test]
fn plain_module_has_no_messages() {
    let mut cache = ModuleCache::virtual_fs(files(&[("chat.mds", "No messages here.\n")]));
    let mut warnings = Vec::new();
    let err = cache.resolve_key_messages("chat.mds", &HashMap::new(), &mut warnings).unwrap_err();
    match err {
        MdsError::Syntax { message, .. } => assert!(message.contains("at least one @message block")),
        other => panic!("unexpected error: {:?}", other),
    }
}

#[test]
fn messages_are_collected_with_trimmed_content() {
    let mut cache = ModuleCache::virtual_fs(files(&[("chat.mds", "@message system:\n  Be brief.  \n@end\n@message user:\nHi\n@end\n")]));
    let mut warnings = Vec::new();
    let msgs = cache.resolve_key_messages("chat.mds", &HashMap::new(), &mut warnings).expect("messages");
    assert_eq!(msgs.len(), 2);
    assert_eq!(msgs[0].role, "system");
    assert_eq!(msgs[0].content, "Be brief.");
    assert_eq!(msgs[1].role, "user");
    assert_eq!(msgs[1].content, "Hi");
}

#[test]
fn spans_count_bytes() {
    // "é" and "ç" take two bytes each: "çd" starts at byte 3 and is 3 bytes long.
    let e = MdsError::syntax_at("bad", "é\nçd", 2, 2);
    let span = e.serialize().span.expect("span");
    assert_eq!((span.offset, span.length, span.line, span.column), (3, 3, Some(2), Some(1)));
}

#[test]
fn options_repeated_member_keeps_last_value() {
    let opts = Json::Object(vec![(
        "modules".into(),
        Json::Object(vec![("a.mds".into(), Json::String("first".into())), ("a.mds".into(), Json::String("second".into()))]),
    )]);
    let p = parse_options(Some(opts)).expect("parses");
    assert_eq!(p.extra_modules.get("a.mds").map(|s| s.as_str()), Some("second"));
}

#[test]
fn template_renders_runtime_variables() {
    let mut vars = HashMap::new();
    vars.insert("name".to_string(), TemplateValue::String("World".to_string()));
    let modules = files(&[("main.mds", "Hello {name}!\nA literal \\{brace}.\n")]);
    let out = mds::compile_virtual(modules, "main.mds", Some(vars)).expect("compiles");
    assert_eq!(out, "Hello World!\nA literal {brace}.\n");
}

#[test]
fn template_with_missing_variable_fails() {
    let modules = files(&[("main.mds", "Hello {name}!\n")]);
    let err = mds::compile_virtual(modules, "main.mds", None).unwrap_err();
    assert_eq!(err.serialize().code, "mds::undefined_var");
}

#[test]
fn adding_definitions_keeps_a_body_valid() {
    let module = mds::parser::parse_module("Hi {a}\n", "t.mds").expect("parses");
    let mut scope = mds::scope::Scope::new();
    scope.set_var("a", TemplateValue::Null);
    assert!(mds::validate(module.body.as_slice(), &scope).is_ok());
    scope.set_var("b", TemplateValue::Bool(true));
    assert!(mds::validate(module.body.as_slice(), &scope).is_ok());
}

#[test]
fn runtime_variable_overrides_frontmatter() {
    let mut vars = HashMap::new();
    vars.insert("name".to_string(), TemplateValue::String("Runtime".to_string()));
    let modules = files(&[("main.mds", "---\nname: Front\ncount: 3\n---\nHello {name}, {count}!\n")]);
    let out = mds::compile_virtual(modules, "main.mds", Some(vars)).expect("compiles");
    assert_eq!(out, "Hello Runtime, 3!\n");
}

#[test]
fn unicode_whitespace_is_whitespace() {
    // A file name of only a no-break space is blank.
    let opts = Json::Object(vec![("filename".into(), Json::String("\u{a0}".into()))]);
    assert!(matches!(parse_options(Some(opts)), Err(OptionsError::Invalid(_))));
    // `type:` followed by a no-break space and `mds` marks a Markdown module.
    assert!(mds::paths::has_type_mds_frontmatter("---\ntype:\u{a0}mds\n---\nbody\n"));
    // A body that renders to a no-break space only is blank.
    assert_eq!(mds::compile_str("\u{a0}\n").expect("compiles"), "");
}

#[test]
fn root_template_with_blocks_renders_its_defaults() {
    let modules = files(&[("base.mds", "---\nrole: general\n---\nYou are a {role} assistant.\n@block instructions:\nHelp the user.\n@end\n")]);
    let out = mds::compile_virtual(modules, "base.mds", None).expect("compiles");
    assert_eq!(out, "You are a general assistant.\nHelp the user.\n");
}

#[test]
fn message_template_gives_its_messages() {
    let mut vars = HashMap::new();
    vars.insert("topic".to_string(), TemplateValue::String("tides".to_string()));
    let mut cache = ModuleCache::virtual_fs(files(&[("chat.mds", "@message system:\nBe brief.\n@end\n@message user:\nExplain {topic}.\n@end\n")]));
    let mut warnings = Vec::new();
    let msgs = cache.resolve_key_messages("chat.mds", &vars, &mut warnings).expect("messages");
    assert_eq!(msgs.len(), 2);
    assert_eq!(msgs[1].role, "user");
    assert_eq!(msgs[1].content, "Explain tides.");
}
