use std::collections::HashMap;
use std::sync::Arc;

use mds::{MdsError, ModuleCache, VirtualFs};

fn files_map(files: &[(&str, &str)]) -> HashMap<String, String> {
    files.iter().map(|(k, v)| (k.to_string(), v.to_string())).collect()
}

fn virtual_cache(files: &[(&str, &str)]) -> ModuleCache<VirtualFs> {
    ModuleCache::virtual_fs(files_map(files))
}

fn compile_virtual(files: &[(&str, &str)], entry: &str) -> Result<String, MdsError> {
    mds::compile_virtual(files_map(files), entry, None)
}

fn check_virtual(files: &[(&str, &str)], entry: &str) -> Result<(), MdsError> {
    mds::check_virtual(files_map(files), entry, None)
}

#[test]
fn block_duplicate_name_collision() {
    let src = "@block foo:\nbody1\n@end\n@block foo:\nbody2\n@end\n";
    let result = mds::compile_str(src);
    assert!(result.is_err(), "duplicate @block name must fail");
    let msg = result.unwrap_err().to_string();
    assert!(msg.contains("'foo'") || msg.contains("foo"), "error should mention the colliding name: {msg}");
}

#[test]
fn block_vs_define_name_collision() {
    let src = "@define foo():\ncontent\n@end\n@block foo:\nbody\n@end\n";
    let result = mds::compile_str(src);
    assert!(result.is_err(), "@block vs @define collision must fail");
    let msg = result.unwrap_err().to_string();
    assert!(msg.contains("'foo'") || msg.contains("foo"), "error should mention the colliding name: {msg}");
}

#[test]
fn define_vs_block_name_collision() {
    let src = "@block foo:\nbody\n@end\n@define foo():\ncontent\n@end\n";
    let result = mds::compile_str(src);
    assert!(result.is_err(), "@define vs @block collision must fail");
    let msg = result.unwrap_err().to_string();
    assert!(msg.contains("'foo'") || msg.contains("foo"), "error should mention the colliding name: {msg}");
}

#[test]
fn block_max_per_module_cap() {
    let mut src = String::new();
    for i in 0..=256usize {
        src.push_str(&format!("@block blk{i}:\nbody\n@end\n"));
    }
    let result = mds::compile_str(&src);
    assert!(result.is_err(), "exceeding MAX_BLOCKS_PER_MODULE should fail with resource_limit");
    let msg = result.unwrap_err().to_string();
    assert!(
        msg.contains("resource limit") || msg.contains("256") || msg.contains("block"),
        "error should mention resource limit or block count: {msg}"
    );
}

#[test]
fn block_exactly_at_max_allowed() {
    let mut src = String::new();
    for i in 0..256usize {
        src.push_str(&format!("@block blk{i}:\nbody\n@end\n"));
    }
    let result = mds::compile_str(&src);
    assert!(result.is_ok(), "exactly 256 @blocks should succeed, got: {result:?}");
}

#[test]
fn f1_worked_example_byte_exact() {
    let base = "You are a {role} assistant.\n\n@block instructions:\nAnalyze data carefully.\n@end\n@block tools:\n@end\n@block output_format:\nRespond in plain text.\n@end\n";
    let child = "---\nrole: data analysis\n---\n@extends \"./base.mds\"\n@block instructions:\nPerform statistical analysis.\n@end\n@block tools:\nYou have access to: Python, R\n@end\n";
    let files = [("base.mds", base), ("child.mds", child)];
    let result = compile_virtual(&files, "child.mds");
    assert!(result.is_ok(), "F1 compile failed: {:?}", result.err());
    let output = result.unwrap();
    assert!(output.contains("You are a data analysis assistant."), "F1: base skeleton text not rendered: {output}");
    assert!(output.contains("Perform statistical analysis."), "F1: child instructions block not rendered: {output}");
    assert!(output.contains("You have access to: Python, R"), "F1: child tools block not rendered: {output}");
    assert!(output.contains("Respond in plain text."), "F1: base default output_format block not rendered: {output}");
}

#[test]
fn f2_standalone_base_compiles_with_defaults() {
    let base = "---\nrole: general\n---\nYou are a {role} assistant.\n@block instructions:\nHelp the user.\n@end\n";
    let child = "---\nrole: specialist\n---\n@extends \"./base.mds\"\n@block instructions:\nProvide expert advice.\n@end\n";
    let files = [("base.mds", base), ("child.mds", child)];
    let base_out = compile_virtual(&files, "base.mds");
    assert!(base_out.is_ok(), "F2: standalone base compile failed: {:?}", base_out.err());
    let base_str = base_out.unwrap();
    assert!(base_str.contains("Help the user."), "F2: base default not rendered standalone: {base_str}");
    assert!(base_str.contains("You are a general assistant."), "F2: base standalone role not rendered: {base_str}");
    let child_out = compile_virtual(&files, "child.mds");
    assert!(child_out.is_ok(), "F2: child compile failed: {:?}", child_out.err());
    let child_str = child_out.unwrap();
    assert!(child_str.contains("Provide expert advice."), "F2: child override not rendered: {child_str}");
    assert!(child_str.contains("You are a specialist assistant."), "F2: child role not rendered: {child_str}");
}

#[test]
fn f2_cache_nonpoisoning_base_then_child() {
    let base = "You are a {role} assistant.\n@block instructions:\nDefault.\n@end\n";
    let child = "---\nrole: expert\n---\n@extends \"./base.mds\"\n@block instructions:\nExpert advice.\n@end\n";
    let files = [("base.mds", base), ("child.mds", child)];
    let mut cache = virtual_cache(&files);
    let mut warnings = vec![];
    let child_result = cache.resolve_key("child.mds", &Default::default(), &mut warnings);
    assert!(child_result.is_ok(), "cache non-poison: child should compile: {:?}", child_result.err());

    let base_with_fm = "---\nrole: default\n---\nYou are a {role}.\n@block b:\nBody.\n@end\n";
    let child2 = "---\nrole: override\n---\n@extends \"./base2.mds\"\n@block b:\nOverride.\n@end\n";
    let files2 = [("base2.mds", base_with_fm), ("child2.mds", child2)];
    let mut cache2 = virtual_cache(&files2);
    let mut w = vec![];
    let base_out = cache2.resolve_key("base2.mds", &Default::default(), &mut w);
    assert!(base_out.is_ok(), "cache2: standalone base should succeed: {:?}", base_out.err());
    let child_out = cache2.resolve_key("child2.mds", &Default::default(), &mut w);
    assert!(child_out.is_ok(), "cache2: child after cached base should succeed: {:?}", child_out.err());
    let child_mod = child_out.unwrap();
    assert!(
        child_mod.prompt_body.as_deref().unwrap_or("").contains("Override."),
        "cache2: child should use override block"
    );
}

#[test]
fn f3_multilevel_most_derived_wins() {
    let a = "@block content:\nFrom A.\n@end\n@block footer:\nFooter A.\n@end\n";
    let b = "@extends \"./a.mds\"\n@block content:\nFrom B.\n@end\n";
    let c = "@extends \"./b.mds\"\n@block content:\nFrom C.\n@end\n";
    let files = [("a.mds", a), ("b.mds", b), ("c.mds", c)];
    let c_out = compile_virtual(&files, "c.mds").expect("F3: C should compile");
    assert!(c_out.contains("From C."), "F3: C content should be most-derived: {c_out}");
    assert!(c_out.contains("Footer A."), "F3: footer should fall through to A default: {c_out}");
    assert!(!c_out.contains("From A.") && !c_out.contains("From B."), "F3: C should override B which overrode A: {c_out}");
    let b_out = compile_virtual(&files, "b.mds").expect("F3: B should compile");
    assert!(b_out.contains("From B."), "F3: B content should beat A's default: {b_out}");
    assert!(b_out.contains("Footer A."), "F3: B footer should fall through to A default: {b_out}");
    let a_out = compile_virtual(&files, "a.mds").expect("F3: A should compile");
    assert!(a_out.contains("From A.") && a_out.contains("Footer A."), "F3: A standalone should render own defaults: {a_out}");
}

#[test]
fn f5_diamond_inheritance_cache_not_polluted() {
    let a = "@block shared_block:\nFrom A.\n@end\n";
    let b = "@extends \"./a.mds\"\n@block shared_block:\nFrom B.\n@end\n";
    let c = "@extends \"./a.mds\"\n";
    let files = [("a.mds", a), ("b.mds", b), ("c.mds", c)];
    let mut cache = virtual_cache(&files);
    let mut warnings = vec![];
    let b_resolved = cache.resolve_key("b.mds", &Default::default(), &mut warnings);
    assert!(b_resolved.is_ok(), "F5: B should compile: {:?}", b_resolved.err());
    let b_body = b_resolved.unwrap().prompt_body.clone().unwrap_or_default();
    assert!(b_body.contains("From B."), "F5: B should contain its override: {b_body}");
    let c_resolved = cache.resolve_key("c.mds", &Default::default(), &mut warnings);
    assert!(c_resolved.is_ok(), "F5: C should compile: {:?}", c_resolved.err());
    let c_body = c_resolved.unwrap().prompt_body.clone().unwrap_or_default();
    assert!(c_body.contains("From A."), "F5: C should use A's default (not B's override): {c_body}");
    assert!(!c_body.contains("From B."), "F5: C must NOT have B's override (cache poisoning): {c_body}");
}

#[test]
fn f12_base_define_resolves_in_child() {
    let base = "@define greet(name):\nHello, {name}!\n@end\n@block content:\n{greet(\"World\")}\n@end\n";
    let child = "@extends \"./base.mds\"\n";
    let files = [("base.mds", base), ("child.mds", child)];
    let result = compile_virtual(&files, "child.mds");
    assert!(result.is_ok(), "F12: child compile failed: {:?}", result.err());
    let output = result.unwrap();
    assert!(output.contains("Hello, World!"), "F12: base @define should resolve in child: {output}");
}

#[test]
fn e3_stray_child_content_error() {
    let base = "@block b:\nDefault.\n@end\n";
    let child = "@extends \"./base.mds\"\nThis is stray text!\n@block b:\nOverride.\n@end\n";
    let files = [("base.mds", base), ("child.mds", child)];
    let err = compile_virtual(&files, "child.mds").expect_err("E3: stray text should produce an error");
    let serialized = err.serialize();
    assert_eq!(serialized.code, "mds::extends", "E3: error code should be mds::extends: {serialized:?}");
    assert!(serialized.message.contains("only @block overrides"), "E3: message should mention @block overrides: {}", serialized.message);
    let check_err = check_virtual(&files, "child.mds").expect_err("E3 A5: check must also reject stray text");
    assert_eq!(check_err.serialize().code, "mds::extends", "E3 A5: check error code should be mds::extends");
}

#[test]
fn e4_unknown_override_error() {
    let base = "@block known:\nDefault.\n@end\n";
    let child = "@extends \"./base.mds\"\n@block known:\nOK.\n@end\n@block unknown_block:\nBad.\n@end\n";
    let files = [("base.mds", base), ("child.mds", child)];
    let err = compile_virtual(&files, "child.mds").expect_err("E4: unknown override should produce an error");
    let serialized = err.serialize();
    assert_eq!(serialized.code, "mds::extends", "E4: error code should be mds::extends: {serialized:?}");
    assert!(serialized.message.contains("only the root template may declare"), "E4: message should mention root template: {}", serialized.message);
    let check_err = check_virtual(&files, "child.mds").expect_err("E4 A5: check must also reject unknown override");
    assert_eq!(check_err.serialize().code, "mds::extends", "E4 A5: check error code should be mds::extends");
}

#[test]
fn e5_circular_inheritance_a_to_b_to_a() {
    let a2 = "@extends \"./b2.mds\"\n";
    let b2 = "@extends \"./a2.mds\"\n";
    let files2 = [("a2.mds", a2), ("b2.mds", b2)];
    let err = compile_virtual(&files2, "a2.mds").expect_err("E5: circular @extends should produce an error");
    let serialized = err.serialize();
    assert_eq!(serialized.code, "mds::circular_import", "E5: should surface as mds::circular_import: {serialized:?}");
    let self_ext = "@extends \"./self.mds\"\n";
    let files_self = [("self.mds", self_ext)];
    let err_self = compile_virtual(&files_self, "self.mds").expect_err("E5: self-extension should produce circular_import");
    let serialized_self = err_self.serialize();
    assert_eq!(serialized_self.code, "mds::circular_import", "E5: self-extension should surface as mds::circular_import: {serialized_self:?}");
}

#[test]
fn e5_circular_two_hop() {
    let a = "@extends \"./b.mds\"\n";
    let b = "@extends \"./a.mds\"\n@block blk:\nB.\n@end\n";
    let files = [("a.mds", a), ("b.mds", b)];
    let err = compile_virtual(&files, "a.mds").expect_err("E5: two-hop cycle should error");
    let code = err.serialize().code;
    assert_eq!(code, "mds::circular_import", "E5: two-hop cycle should be circular_import: {code}");
}

#[test]
fn e6_depth_limit_exceeded() {
    let depth = 66usize;
    let mut files: Vec<(String, String)> = Vec::new();
    files.push((format!("file{depth}.mds"), "@block content:\nRoot.\n@end\n".to_string()));
    for i in (0..depth).rev() {
        files.push((format!("file{i}.mds"), format!("@extends \"./file{}.mds\"\n", i + 1)));
    }
    let file_refs: Vec<(&str, &str)> = files.iter().map(|(k, v)| (k.as_str(), v.as_str())).collect();
    let err = compile_virtual(&file_refs, "file0.mds").expect_err("E6: depth > 64 should produce an error");
    let code = err.serialize().code;
    assert!(
        code == "mds::import" || code == "mds::resource_limit" || code == "mds::circular_import",
        "E6: depth-exceeded error should be import/resource_limit/circular_import: {code}"
    );
}

#[test]
fn e10_missing_base_file_not_found() {
    let child = "@extends \"./missing.mds\"\n";
    let files = [("child.mds", child)];
    let err = compile_virtual(&files, "child.mds").expect_err("E10: missing base should produce file-not-found");
    let serialized = err.serialize();
    assert_eq!(serialized.code, "mds::file_not_found", "E10: should be file_not_found: {serialized:?}");
}

#[test]
fn e11_parse_error_in_base_propagates() {
    let base = "@block b:\n@if :\nbad\n@end\n@end\n";
    let child = "@extends \"./base.mds\"\n@block b:\nOK.\n@end\n";
    let files = [("base.mds", base), ("child.mds", child)];
    let err = compile_virtual(&files, "child.mds").expect_err("E11: parse error in base should propagate");
    let code = err.serialize().code;
    assert!(code == "mds::syntax" || code == "mds::extends", "E11: parse error should be syntax or extends: {code}");
}

#[test]
fn e12_base_default_undefined_var_caught_at_leaf() {
    let base = "@block content:\n{undefined_var}\n@end\n";
    let child = "@extends \"./base.mds\"\n";
    let files = [("base.mds", base), ("child.mds", child)];
    let err = compile_virtual(&files, "child.mds").expect_err("E12: undefined var in base default should error at leaf");
    let serialized = err.serialize();
    assert!(
        serialized.code == "mds::undefined_var" || serialized.code == "mds::syntax",
        "E12: should be undefined_var (or syntax): {serialized:?}"
    );
    let check_err = check_virtual(&files, "child.mds").expect_err("E12 A5: check must also reject undefined var in base default");
    assert!(
        check_err.serialize().code == "mds::undefined_var" || check_err.serialize().code == "mds::syntax",
        "E12 A5: check should be undefined_var/syntax: {:?}",
        check_err.serialize()
    );
}

#[test]
fn a2_dependency_ordering_base_first() {
    let base = "@block b:\nBase.\n@end\n";
    let lib = "@define helper():\nHelper.\n@end\n";
    let child = "@extends \"./base.mds\"\n@block b:\n@end\n";
    let files: HashMap<String, String> = [
        ("base.mds".to_string(), base.to_string()),
        ("lib.mds".to_string(), lib.to_string()),
        ("child.mds".to_string(), child.to_string()),
    ]
    .into_iter()
    .collect();
    let result = mds::compile_virtual_with_deps(files, "child.mds", None);
    assert!(result.is_ok(), "A2: should compile: {:?}", result.err());
    let output = result.unwrap();
    assert!(output.dependencies.contains(&"base.mds".to_string()), "A2: base.mds should be in dependencies: {:?}", output.dependencies);
    if let Some(base_idx) = output.dependencies.iter().position(|d| d == "base.mds") {
        assert!(base_idx == 0, "A2: base.mds should be first dependency: {:?}", output.dependencies);
    }
}

#[test]
fn p1_effective_skeleton_is_arc_shared() {
    let base = "@block b:\nBase.\n@end\n";
    let child = "@extends \"./base.mds\"\n@block b:\nChild.\n@end\n";
    let files = [("base.mds", base), ("child.mds", child)];
    let mut cache = virtual_cache(&files);
    let mut warnings = vec![];
    let child_resolved = cache.resolve_key("child.mds", &Default::default(), &mut warnings).expect("P1: child should compile");
    let base_resolved = cache.resolve_key("base.mds", &Default::default(), &mut warnings).expect("P1: base should compile");
    let child_skeleton = &child_resolved.effective_skeleton;
    let base_skeleton = &base_resolved.effective_skeleton;
    assert!(Arc::ptr_eq(child_skeleton, base_skeleton), "P1: child and base must share the same skeleton (ptr_eq)");
}

#[test]
fn extends_error_serialize_code() {
    let err = MdsError::extends_error_at("test message", "child.mds", "source", 0, 5);
    let serialized = err.serialize();
    assert_eq!(serialized.code, "mds::extends", "extends error code: {serialized:?}");
    assert!(serialized.span.is_some(), "extends error should have a span");
}
