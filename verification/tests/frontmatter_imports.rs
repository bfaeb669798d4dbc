use mds::{parse_frontmatter_imports, parse_frontmatter_imports_from_yaml, parse_yaml, FrontmatterImport, Yaml};

fn yaml(s: &str) -> Yaml {
    parse_yaml(s).expect("valid yaml in test")
}

#[test]
fn parse_fm_import_alias() {
    let v = yaml("- path: ./lib.mds\n  as: lib\n");
    let result = parse_frontmatter_imports_from_yaml(&v).expect("should parse");
    assert_eq!(
        result,
        vec![FrontmatterImport::Alias { path: "./lib.mds".into(), alias: "lib".into() }]
    );
}

#[test]
fn parse_fm_import_merge() {
    let v = yaml("- path: ./lib.mds\n");
    let result = parse_frontmatter_imports_from_yaml(&v).expect("should parse");
    assert_eq!(result, vec![FrontmatterImport::Merge { path: "./lib.mds".into() }]);
}

#[test]
fn parse_fm_import_selective() {
    let v = yaml("- path: ./lib.mds\n  names: [greet, farewell]\n");
    let result = parse_frontmatter_imports_from_yaml(&v).expect("should parse");
    assert_eq!(
        result,
        vec![FrontmatterImport::Selective {
            path: "./lib.mds".into(),
            names: vec!["greet".into(), "farewell".into()],
        }]
    );
}

#[test]
fn parse_fm_import_multiple() {
    let v = yaml("- path: ./a.mds\n  as: a\n- path: ./b.mds\n- path: ./c.mds\n  names: [f]\n");
    let result = parse_frontmatter_imports_from_yaml(&v).expect("should parse");
    assert_eq!(result.len(), 3);
    assert!(matches!(result[0], FrontmatterImport::Alias { .. }));
    assert!(matches!(result[1], FrontmatterImport::Merge { .. }));
    assert!(matches!(result[2], FrontmatterImport::Selective { .. }));
}

#[test]
fn parse_fm_import_empty_array() {
    let v = yaml("[]");
    let result = parse_frontmatter_imports_from_yaml(&v).expect("empty array is ok");
    assert!(result.is_empty());
}

#[test]
fn parse_fm_no_imports_key() {
    let result = parse_frontmatter_imports("name: Alice\ngreeting: hello\n").expect("no imports key");
    assert!(result.is_empty());
}

#[test]
fn parse_fm_err_missing_path() {
    let v = yaml("- as: lib\n");
    let err = parse_frontmatter_imports_from_yaml(&v).expect_err("missing path should fail");
    let msg = err.to_string();
    assert!(msg.contains("missing required key 'path'") && msg.contains("in frontmatter"), "got: {msg}");
}

#[test]
fn parse_fm_err_path_not_string() {
    let v = yaml("- path: 42\n");
    let err = parse_frontmatter_imports_from_yaml(&v).expect_err("non-string path should fail");
    let msg = err.to_string();
    assert!(msg.contains("'path' must be a string"), "got: {msg}");
}

#[test]
fn parse_fm_err_invalid_as_id() {
    let v = yaml("- path: ./lib.mds\n  as: 123bad\n");
    let err = parse_frontmatter_imports_from_yaml(&v).expect_err("invalid identifier should fail");
    let msg = err.to_string();
    assert!(msg.contains("invalid identifier") && msg.contains("in frontmatter"), "got: {msg}");
}

#[test]
fn parse_fm_err_as_and_names() {
    let v = yaml("- path: ./lib.mds\n  as: lib\n  names: [f]\n");
    let err = parse_frontmatter_imports_from_yaml(&v).expect_err("mutually exclusive");
    let msg = err.to_string();
    assert!(msg.contains("mutually exclusive") && msg.contains("in frontmatter"), "got: {msg}");
}

#[test]
fn parse_fm_err_unknown_key() {
    let v = yaml("- path: ./lib.mds\n  foo: bar\n");
    let err = parse_frontmatter_imports_from_yaml(&v).expect_err("unknown key should fail");
    let msg = err.to_string();
    assert!(msg.contains("unknown key 'foo'") && msg.contains("in frontmatter"), "got: {msg}");
}

#[test]
fn parse_fm_err_not_array() {
    let v = yaml("path: ./lib.mds\n");
    let err = parse_frontmatter_imports_from_yaml(&v).expect_err("not array should fail");
    let msg = err.to_string();
    assert!(msg.contains("must be a YAML sequence") && msg.contains("in frontmatter"), "got: {msg}");
}

#[test]
fn parse_fm_err_empty_names() {
    let v = yaml("- path: ./lib.mds\n  names: []\n");
    let err = parse_frontmatter_imports_from_yaml(&v).expect_err("empty names should fail");
    let msg = err.to_string();
    assert!(msg.contains("names cannot be empty") && msg.contains("in frontmatter"), "got: {msg}");
}

#[test]
fn parse_fm_err_absolute_path() {
    let v = yaml("- path: /absolute/path.mds\n");
    let err = parse_frontmatter_imports_from_yaml(&v).expect_err("absolute path should fail");
    let msg = err.to_string();
    assert!(msg.contains("in frontmatter"), "got: {msg}");
}

#[test]
fn parse_fm_err_exceeds_limit() {
    let entry = "- path: ./lib.mds\n";
    let many = entry.repeat(mds::imports::MAX_FRONTMATTER_IMPORTS + 1);
    let v = yaml(&many);
    let err = parse_frontmatter_imports_from_yaml(&v).expect_err("should exceed limit");
    let msg = err.to_string();
    assert!(msg.contains("exceeds maximum"), "got: {msg}");
}

#[test]
fn parse_fm_prompt_name_in_selective() {
    let v = yaml("- path: ./lib.mds\n  names: [prompt]\n");
    let result = parse_frontmatter_imports_from_yaml(&v).expect("prompt is allowed");
    assert_eq!(
        result,
        vec![FrontmatterImport::Selective { path: "./lib.mds".into(), names: vec!["prompt".into()] }]
    );
}

#[test]
fn parse_fm_err_duplicate_names() {
    let v = yaml("- path: ./lib.mds\n  names: [greet, greet]\n");
    let err = parse_frontmatter_imports_from_yaml(&v).expect_err("duplicate names should fail");
    let msg = err.to_string();
    assert!(msg.contains("duplicate name 'greet'") && msg.contains("in frontmatter"), "got: {msg}");
}

#[test]
fn parse_fm_err_non_string_key() {
    let map = Yaml::Mapping(vec![
        (Yaml::String("path".into()), Yaml::String("./lib.mds".into())),
        (Yaml::Number("42".into()), Yaml::String("something".into())),
    ]);
    let seq = Yaml::Sequence(vec![map]);
    let err = parse_frontmatter_imports_from_yaml(&seq).expect_err("non-string key should fail");
    let msg = err.to_string();
    assert!(msg.contains("keys must be strings") && msg.contains("in frontmatter"), "got: {msg}");
}

#[test]
fn has_type_mds_frontmatter_raw_ignores_indented() {
    assert!(
        !mds::paths::has_type_mds_frontmatter_raw("config:\n  type: mds\n  key: val\n"),
        "indented type:mds should not trigger detection"
    );
    assert!(
        mds::paths::has_type_mds_frontmatter_raw("type: mds\nconfig:\n  type: other\n"),
        "top-level type:mds should trigger detection"
    );
}

#[test]
fn has_type_mds_frontmatter_ignores_indented() {
    assert!(
        !mds::paths::has_type_mds_frontmatter("---\nconfig:\n  type: mds\n---\nbody\n"),
        "indented type:mds should not trigger detection in full-source variant"
    );
    assert!(
        mds::paths::has_type_mds_frontmatter("---\ntype: mds\nconfig:\n  type: other\n---\nbody\n"),
        "top-level type:mds should trigger detection in full-source variant"
    );
}
