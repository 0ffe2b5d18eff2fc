//! The native grammars, end to end: extraction, checks, scaffolds and merges.

use btt::check::{self, Expected, Finding};
use btt::commands::{pack_line, scaffold_file};
use btt::config::{CheckConfig, Level};
use btt::extract::{self, ActualKind};
use btt::mapping::{Case, Mapping, NameRule, RootMapping};
use btt::error::Error;
use btt::pack::{
    grammar_for, load_dir, parse_grammar_source, Compat, Detect, Extract, FileRead, GrammarConfig, Manifest,
    NameSyntax, NativeGrammar, Grammar, Origin, Pack, PackMeta, PackSource, Scaffold,
};
use btt::runner::{self, Reported};
use btt::{scaffold, tree};

const RUST_QUERY: &str = r#"
; Blocks: any module. Modules containing no tests are pruned by the core.
(mod_item
  name: (identifier) @block.name) @block

; Markers: #[test], #[tokio::test], #[test_case(...)], #[rstest] etc.
(attribute_item
  (attribute
    [(identifier) @_attr
     (scoped_identifier) @_attr]
    (#match? @_attr "test"))) @test.marker

; Tests: any function — only counted when preceded by a marker.
(function_item
  name: (identifier) @test.name) @test
"#;

const RUST_TEMPLATE: &str = r#"{% set base = "" if in_tests_dir else "    " -%}
{% if not in_tests_dir -%}
#[cfg(test)]
mod tests {
    use super::*;

{% endif -%}
{% for ev in events -%}
{% if ev.kind == "open" -%}
{{ base }}{{ ev.indent }}mod {{ ev.name }} {
{{ base }}{{ ev.indent }}    use super::*;

{% elif ev.kind == "close" -%}
{{ base }}{{ ev.indent }}}

{% elif ev.kind == "test" -%}
{{ base }}{{ ev.indent }}#[test]
{{ base }}{{ ev.indent }}fn {{ ev.name }}() {
{{ base }}{{ ev.indent }}    // btt:todo — {{ ev.text | line_safe }}
{{ base }}{{ ev.indent }}    todo!("{{ ev.text | rust_string }}");
{{ base }}{{ ev.indent }}}

{% endif -%}
{% endfor -%}
{% if not in_tests_dir -%}
}
{% endif -%}
"#;

const TS_QUERY: &str = r#"
(call_expression
  function: [
    (identifier) @_fn
    (member_expression
      object: (identifier) @_fn
      property: (property_identifier) @_mod)
  ]
  arguments: (arguments . (string) @block.name)
  (#any-of? @_fn "{describe}" "{suite}")
  (#any-of? @_mod "only" "skip" "todo")) @block

(call_expression
  function: (member_expression
    object: (identifier) @_fn
    property: (property_identifier) @_mod)
  arguments: (arguments . (string) @block.name)
  (#any-of? @_fn "{it}" "{test}")
  (#eq? @_mod "describe")) @block

(call_expression
  function: [
    (identifier) @_fn
    (member_expression
      object: (identifier) @_fn
      property: (property_identifier) @_mod)
  ]
  arguments: (arguments . (string) @test.name)
  (#any-of? @_fn "{it}" "{test}")
  (#any-of? @_mod "only" "skip" "todo")) @test

(call_expression
  function: (call_expression
    function: (member_expression
      object: (identifier) @_fn
      property: (property_identifier) @_mod))
  (#any-of? @_fn "{it}" "{test}" "{describe}")
  (#eq? @_mod "each")) @unsupported
"#;

const TS_ALIASES: &str = r#"
; What a module binds to another name, at its top level.
(program
  [
    (_
      (variable_declarator
        name: (identifier) @alias.name
        value: [
          (identifier) @alias.value
          (ternary_expression consequence: (identifier) @alias.value)
        ]))
    (export_statement
      declaration: (_
        (variable_declarator
          name: (identifier) @alias.name
          value: [
            (identifier) @alias.value
            (ternary_expression consequence: (identifier) @alias.value)
          ])))
  ])
"#;

const TS_TEMPLATE: &str = r#"{% for ev in events -%}
{% if ev.kind == "open" -%}
{{ ev.indent }}describe("{{ ev.name | js_string }}", () => {
{% elif ev.kind == "close" -%}
{{ ev.indent }}});

{% elif ev.kind == "test" -%}
{{ ev.indent }}it("{{ ev.name | js_string }}", () => {
{{ ev.indent }}  // btt:todo — {{ ev.text | line_safe }}
{{ ev.indent }}});

{% endif -%}
{% endfor -%}
"#;

fn texts(items: &[&str]) -> Vec<String> {
    items.iter().map(|t| t.to_string()).collect()
}

fn rust_mapping() -> Mapping {
    Mapping {
        root: RootMapping::File,
        block: NameRule { strip_prefix: None, add_prefix: None, case: Case::Snake },
        test: NameRule {
            strip_prefix: Some("it ".to_string()),
            add_prefix: None,
            case: Case::Snake,
        },
        wrappers: texts(&["tests"]),
    }
}

fn ts_mapping() -> Mapping {
    Mapping {
        root: RootMapping::Block,
        block: NameRule::default(),
        test: NameRule {
            strip_prefix: Some("it ".to_string()),
            add_prefix: None,
            case: Case::Verbatim,
        },
        wrappers: vec![],
    }
}

fn rust_manifest(grammar: &str) -> Manifest {
    Manifest {
        format: 1,
        pack: PackMeta {
            name: "rust".to_string(),
            version: "0.1.0".to_string(),
            description: "Rust tests".to_string(),
        },
        compat: Compat { btt: ">=0.2.0".to_string() },
        detect: Detect { extensions: texts(&["rs"]), targets: texts(&["{stem}.rs"]) },
        grammar: GrammarConfig { source: parse_grammar_source(grammar).unwrap(), symbol: None },
        extract: Extract {
            query: Some("queries/tests.scm".to_string()),
            test_requires_marker: true,
            name_syntax: NameSyntax::Raw,
            aliases: vec![],
            alias_query: None,
        },
        mapping: rust_mapping(),
        scaffold: Scaffold {
            template: "templates/test.jinja".to_string(),
            output: "{stem}.rs".to_string(),
            indent: "    ".to_string(),
        },
        lexical: None,
    }
}

fn ts_manifest(grammar: &str) -> Manifest {
    Manifest {
        format: 1,
        pack: PackMeta {
            name: "typescript".to_string(),
            version: "0.1.0".to_string(),
            description: "TypeScript tests".to_string(),
        },
        compat: Compat { btt: ">=0.2.0".to_string() },
        detect: Detect {
            extensions: texts(&["ts", "tsx"]),
            targets: texts(&["{stem}.test.ts", "{stem}.spec.ts"]),
        },
        grammar: GrammarConfig { source: parse_grammar_source(grammar).unwrap(), symbol: None },
        extract: Extract {
            query: Some("queries/tests.scm".to_string()),
            test_requires_marker: false,
            name_syntax: NameSyntax::JsString,
            aliases: texts(&["describe", "suite", "it", "test"]),
            alias_query: Some(TS_ALIASES.to_string()),
        },
        mapping: ts_mapping(),
        scaffold: Scaffold {
            template: "templates/test.jinja".to_string(),
            output: "{stem}.test.ts".to_string(),
            indent: "  ".to_string(),
        },
        lexical: None,
    }
}

fn found(manifest: Manifest, query: &str, template: &str, wasm: Option<Vec<u8>>) -> PackSource {
    let read = |place: &str, text: &str| FileRead::Text {
        place: place.to_string(),
        text: text.to_string(),
    };
    PackSource {
        origin: Origin::Project("/packs/p".to_string()),
        root: "/packs/p".to_string(),
        manifest,
        query: read("/packs/p/queries/tests.scm", query),
        template: read("/packs/p/templates/test.jinja", template),
        wasm_grammar: wasm.map(|bytes| ("/packs/p/grammar.wasm".to_string(), bytes)),
    }
}

fn rust_pack() -> Pack {
    let source = found(rust_manifest("builtin:rust"), RUST_QUERY, RUST_TEMPLATE, None);
    load_dir("/packs/p", source, "0.2.0").unwrap()
}

fn ts_pack() -> Pack {
    let source = found(ts_manifest("builtin:typescript"), TS_QUERY, TS_TEMPLATE, None);
    load_dir("/packs/p", source, "0.2.0").unwrap()
}

const TODO_MARKER: &str = "btt:todo";

const SPEC: &str = "\
HashMap
├── when the key is present
│   └── it returns the value
└── when the key is absent
    └── it returns none
";

fn check_source(source: &str, cfg: CheckConfig) -> Vec<Reported> {
    runner::check_file(
        &ts_pack(),
        "map.tree",
        &Ok("Map\n└── it works\n".to_string()),
        "map.test.ts",
        &Ok(source.to_string()),
        &cfg,
    )
    .unwrap()
}

fn ts_findings(source: &str) -> Vec<Finding> {
    let p = ts_pack();
    let trees = tree::parse(SPEC).unwrap();
    let expected = check::expected_from_spec(&trees, &p.manifest.mapping);
    let actual = extract::extract(&p, "map.test.ts", source).unwrap();
    let actual = check::unwrap_wrappers(actual, &p.manifest.mapping.wrappers);
    check::diff(&expected, &actual)
}

fn expected(pack: &Pack, spec: &str) -> Vec<Expected> {
    check::expected_from_spec(&tree::parse(spec).unwrap(), &pack.manifest.mapping)
}

#[test]
fn packs_reports_no_findings() {
    let source = r#"
import { describe, it } from "vitest";
describe("HashMap", () => {
  describe("when the key is present", () => {
    it("returns the value", () => {});
  });
  describe("when the key is absent", () => {
    it.skip("returns none", () => {});
  });
});
"#;
    let findings = ts_findings(source);
    assert!(findings.is_empty(), "{findings:?}");
}

#[test]
fn reports_the_missing_and_extra_test() {
    let source = r#"
describe("HashMap", () => {
  describe("when the key is present", () => {
    it("returns the value", () => {});
  });
  describe("when the key is absent", () => {
    it("returns undefined", () => {});
  });
});
"#;
    let findings = ts_findings(source);
    let missing = findings
        .iter()
        .any(|f| matches!(f, Finding::Missing { kind: ActualKind::Test, .. }));
    let extra = findings
        .iter()
        .any(|f| matches!(f, Finding::Extra { kind: ActualKind::Test, .. }));
    assert!(missing && extra, "{findings:?}");
}

#[test]
fn treats_test_describe_as_a_block() {
    let source = r#"
import { test } from "@playwright/test";
test.describe("HashMap", () => {
  test.describe("when the key is present", () => {
    test("returns the value", () => {});
  });
  test.describe("when the key is absent", () => {
    test("returns none", () => {});
  });
});
"#;
    let findings = ts_findings(source);
    assert!(findings.is_empty(), "{findings:?}");
}

#[test]
fn reports_supported_forms_and_ignores_unrelated_each_calls() {
    let source = "test.each(cases)(\"case %s\", fn);\n\
it.each`value | expected`(\"case $value\", fn);\n\
describe.each(cases)(\"group %s\", fn);\n\
myArray.each(fn);\n\
holder.test.each(cases)(\"not supported syntax\", fn);\n";
    let result = extract::extract_with_findings(&ts_pack(), "map.test.ts", source).unwrap();
    let lines: Vec<usize> = result.unsupported.iter().map(|finding| finding.line).collect();
    assert_eq!(lines, [1, 2, 3]);
    assert!(result.nodes.is_empty(), "{:?}", result.nodes);
}

#[test]
fn renders_rust_modules_and_test_functions() {
    let p = rust_pack();
    let out = scaffold::render(&p, &expected(&p, SPEC), "map", false).unwrap();
    assert!(out.contains("mod when_the_key_is_present {"), "{out}");
    assert!(out.contains("fn returns_the_value()"), "{out}");
    assert!(out.contains("#[test]"), "{out}");
    assert!(out.contains(TODO_MARKER), "{out}");
}

#[test]
fn renders_nested_describe_blocks() {
    let p = ts_pack();
    let out = scaffold::render(&p, &expected(&p, SPEC), "map", false).unwrap();
    assert!(out.contains(r#"describe("HashMap", () => {"#), "{out}");
    assert!(
        out.contains(r#"  describe("when the key is absent", () => {"#),
        "{out}"
    );
    assert!(out.contains(r#"it("returns none", () => {"#), "{out}");
    assert!(out.contains(TODO_MARKER), "{out}");
}

#[test]
fn inserts_rust_leaves_and_blocks_without_changing_existing_bytes() {
    let pack = rust_pack();
    let spec = "Map\n├── when present\n│   ├── it keeps body\n│   └── it adds leaf\n└── when absent\n    └── it adds block leaf\n";
    let source = "mod when_present {\n    use super::*;\n\n    #[test]\n    fn keeps_body() {\n        assert_eq!(2 + 2, 4); // precious body\n    }\n}\n";
    let merged =
        scaffold::merge(&pack, &expected(&pack, spec), "tests/map.rs", source, "map", true).unwrap();
    assert!(merged.contains("        // btt:todo"), "{merged}");
    assert!(
        merged.contains("    #[test]\n    fn adds_leaf()"),
        "{merged}"
    );
    assert!(merged.contains("mod when_absent {"), "{merged}");
    assert!(
        merged.contains("assert_eq!(2 + 2, 4); // precious body"),
        "{merged}"
    );
    let actual = extract::extract(&pack, "tests/map.rs", &merged).unwrap();
    let findings = check::diff(&expected(&pack, spec), &actual);
    assert!(findings.is_empty(), "{findings:?}\n{merged}");
}

#[test]
fn inserts_typescript_leaves_in_sibling_order_and_is_idempotent() {
    let pack = ts_pack();
    let spec = "Map\n├── it first\n├── it middle\n└── it last\n";
    let source = "describe(\"Map\", () => {\n  it(\"first\", () => { expect(1).toBe(1); });\n  // keep this comment exactly here\n  it(\"last\", () => { expect(3).toBe(3); });\n});\n";
    let once =
        scaffold::merge(&pack, &expected(&pack, spec), "map.test.ts", source, "map", false).unwrap();
    let twice =
        scaffold::merge(&pack, &expected(&pack, spec), "map.test.ts", &once, "map", false).unwrap();
    assert_eq!(once, twice);
    let first = once.find("first").unwrap();
    let middle = once.find("middle").unwrap();
    let last = once.find("last").unwrap();
    assert!(first < middle && middle < last, "{once}");
    assert!(once.contains("  // btt:todo — it middle"), "{once}");
    assert!(
        once.contains("  // keep this comment exactly here"),
        "{once}"
    );
}

#[test]
fn fails_closed_on_ambiguous_duplicates() {
    let pack = ts_pack();
    let spec = "Map\n├── it same\n└── it new\n";
    let source = "describe(\"Map\", () => {\n  it(\"same\", () => {});\n  it(\"same\", () => {});\n});\n";
    let error = scaffold::merge(&pack, &expected(&pack, spec), "map.test.ts", source, "map", false)
        .unwrap_err();
    assert!(error.to_string().contains("merge manually"), "{error:?}");
}

#[test]
fn fails_closed_on_syntax_errors() {
    let pack = ts_pack();
    let spec = "Map\n├── it existing\n└── it new\n";
    let malformed = "describe(\"Map\", () => {\n  it(\"existing\", () => {});\n";
    let error =
        scaffold::merge(&pack, &expected(&pack, spec), "map.test.ts", malformed, "map", false)
            .unwrap_err();
    assert!(error.to_string().contains("syntax errors"), "{error:?}");
    assert!(error.to_string().contains("merge manually"), "{error:?}");
}

#[test]
fn merges_rust_and_typescript_siblings_after_a_non_newline_eof() {
    let rust = rust_pack();
    let rust_spec = "Map\n├── it existing\n└── it added\n";
    let rust_source = "#[test]\nfn existing() {}";
    let rust_merged = scaffold::merge(
        &rust,
        &expected(&rust, rust_spec),
        "tests/map.rs",
        rust_source,
        "map",
        true,
    )
    .unwrap();
    assert!(
        rust_merged.contains("{}\n#[test]\nfn added()"),
        "{rust_merged}"
    );
    let actual = extract::extract(&rust, "tests/map.rs", &rust_merged).unwrap();
    assert!(check::diff(&expected(&rust, rust_spec), &actual).is_empty());

    let ts = ts_pack();
    let ts_spec = "First\n└── it existing\n\nSecond\n└── it added\n";
    let ts_source = "describe(\"First\", () => { it(\"existing\", () => {}); });";
    let ts_merged =
        scaffold::merge(&ts, &expected(&ts, ts_spec), "map.test.ts", ts_source, "map", false)
            .unwrap();
    assert!(ts_merged.contains(");\ndescribe(\"Second\""), "{ts_merged}");
    let actual = extract::extract(&ts, "map.test.ts", &ts_merged).unwrap();
    assert!(check::diff(&expected(&ts, ts_spec), &actual).is_empty());
}

#[test]
fn preserves_crlf_and_refuses_mixed_newlines() {
    let pack = ts_pack();
    let spec = "Map\n├── it existing\n└── it added\n";
    let crlf = "describe(\"Map\", () => {\r\n  it(\"existing\", () => {});\r\n});\r\n";
    let merged =
        scaffold::merge(&pack, &expected(&pack, spec), "map.test.ts", crlf, "map", false).unwrap();
    assert!(merged.contains("\r\n  it(\"added\""), "{merged:?}");
    assert!(!merged.replace("\r\n", "").contains('\n'), "{merged:?}");

    let mixed = "describe(\"Map\", () => {\r\n  it(\"existing\", () => {});\n});\r\n";
    let error = scaffold::merge(&pack, &expected(&pack, spec), "map.test.ts", mixed, "map", false)
        .unwrap_err();
    assert!(error.to_string().contains("mixed CRLF and LF"), "{error:?}");
    assert!(error.to_string().contains("merge manually"), "{error:?}");
}

#[test]
fn leaves_a_complete_file_as_it_is() {
    let pack = ts_pack();
    let source = "describe(\"Map\", () => {\n  it(\"works\", () => {});\n});\n\n\n";
    let spec = "Map\n└── it works\n";
    let merged =
        scaffold::merge(&pack, &expected(&pack, spec), "map.test.ts", source, "map", false).unwrap();
    assert_eq!(merged, source);
}

fn two_tests() -> String {
    let marker = TODO_MARKER;
    format!(
        "describe(\"Map\", () => {{\n  it(\"works\", () => {{\n    // {marker}\n  }});\n}});\n"
    )
}

#[test]
fn reports_each_marker_at_its_source_line_with_the_default_severity() {
    let findings = check_source(&two_tests(), CheckConfig::default());
    assert!(matches!(
        findings.as_slice(),
        [Reported {
            finding: Finding::Todo {
                target_line: 3,
                test_line: Some(2),
                ..
            },
            level: Level::Warn
        }]
    ));
}

#[test]
fn clears_a_finding_when_its_marker_is_removed() {
    let source = two_tests().replace(TODO_MARKER, "body filled");
    assert!(check_source(&source, CheckConfig::default()).is_empty());
}

#[test]
fn ignores_the_marker_inside_a_string_literal() {
    let source = format!(
        "describe(\"Map\", () => {{ it(\"works\", () => {{ expect(\"{TODO_MARKER}\").toBeTruthy(); }}); }});\n"
    );
    assert!(check_source(&source, CheckConfig::default()).is_empty());
}

#[test]
fn reports_a_marker_outside_a_test_span() {
    let source =
        format!("// {TODO_MARKER}\ndescribe(\"Map\", () => {{ it(\"works\", () => {{}}); }});\n");
    let findings = check_source(&source, CheckConfig::default());
    assert!(matches!(
        findings.as_slice(),
        [Reported {
            finding: Finding::Todo {
                target_line: 1,
                test_line: None,
                ..
            },
            ..
        }]
    ));
}

#[test]
fn reports_missing_nodes_whatever_the_config_says() {
    let quiet = CheckConfig {
        extra: Level::Ignore,
        order: Level::Ignore,
        unsupported: Level::Ignore,
        todo: Level::Ignore,
        uncovered: Level::Ignore,
    };
    let source = "describe(\"Map\", () => { it(\"else\", () => {}); });\n";
    let findings = check_source(source, quiet);
    assert_eq!(findings.len(), 1);
    assert!(matches!(findings[0].finding, Finding::Missing { .. }));
    assert_eq!(findings[0].level, Level::Error);
}

#[test]
fn escapes_quotes_and_format_braces() {
    let spec = "HashMap\n└── it returns \"yes\" for {braced} input\n";
    let ts = ts_pack();
    let out = scaffold::render(&ts, &expected(&ts, spec), "map", false).unwrap();
    assert!(
        out.contains(r#"it("returns \"yes\" for {braced} input""#),
        "{out}"
    );

    let rust = rust_pack();
    let out = scaffold::render(&rust, &expected(&rust, spec), "map", false).unwrap();
    assert!(
        out.contains(r#"todo!("it returns \"yes\" for {{braced}} input")"#),
        "{out}"
    );
}

// Whatever escaping the template applies, extraction must undo. U+2028 is a JS
// line terminator; quotes and backslashes exercise escaping.
#[test]
fn packs_reports_no_findings_for_hostile_titles() {
    let spec = "HashMap\n└── it returns \"yes\" \\ {ok}\u{2028}more\n";
    for (p, target) in [(ts_pack(), "map.test.ts"), (rust_pack(), "map.rs")] {
        let expected = expected(&p, spec);
        let out = scaffold::render(&p, &expected, "map", false).unwrap();
        let actual = extract::extract(&p, target, &out).unwrap();
        let actual = check::unwrap_wrappers(actual, &p.manifest.mapping.wrappers);
        let findings = check::diff(&expected, &actual);
        assert!(findings.is_empty(), "{target}: {findings:?}\n---\n{out}");
    }
}

#[test]
fn shapes_a_scaffold_by_its_place() {
    let p = rust_pack();
    let beside = scaffold::render(&p, &expected(&p, SPEC), "map", false).unwrap();
    let apart = scaffold::render(&p, &expected(&p, SPEC), "map", true).unwrap();
    assert!(beside.starts_with("#[cfg(test)]\nmod tests {\n"), "{beside}");
    assert!(apart.starts_with("mod when_the_key_is_present {\n"), "{apart}");
    assert!(beside.ends_with("}\n") && !beside.ends_with("\n\n"), "{beside:?}");
}

#[test]
fn counts_only_marked_functions() {
    let source = "fn helper() {}\n#[test]\n// a note\n#[ignore]\nfn real_one() {}\nfn after() {}\n";
    let actual = extract::extract(&rust_pack(), "map.rs", source).unwrap();
    let names: Vec<&str> = actual.iter().map(|n| n.name.as_str()).collect();
    assert_eq!(names, ["real_one"]);
    assert_eq!(actual[0].line, 5);
}

#[test]
fn parses_tsx_targets() {
    let source = "describe(\"x\", () => { it(\"renders\", () => { render(<App flag />); }); });\n";
    let actual = extract::extract(&ts_pack(), "map.test.tsx", source).unwrap();
    assert_eq!(actual[0].children[0].name, "renders");
}

#[test]
fn says_what_a_query_lacks() {
    let load = |query: &str| {
        let source = found(rust_manifest("builtin:rust"), query, RUST_TEMPLATE, None);
        load_dir("/packs/p", source, "0.2.0").unwrap()
    };
    let error = extract::extract(&load("(mod_item) @block"), "map.rs", "").unwrap_err();
    assert!(error.to_string().contains("query must define"), "{error:?}");
    let full = "(mod_item name: (identifier) @block.name) @block\n(function_item name: (identifier) @test.name) @test";
    let error = extract::extract(&load(full), "map.rs", "").unwrap_err();
    assert!(error.to_string().contains("@test.marker"), "{error:?}");
    let error = extract::extract(&load("(nonsense"), "map.rs", "").unwrap_err();
    assert!(matches!(error, btt::error::Error::Query { .. }), "{error:?}");
}

#[test]
fn says_what_a_template_lacks() {
    let source = found(rust_manifest("builtin:rust"), RUST_QUERY, "{% for %}", None);
    let p = load_dir("/packs/p", source, "0.2.0").unwrap();
    let error = scaffold::render(&p, &expected(&p, SPEC), "map", false).unwrap_err();
    assert!(matches!(error, btt::error::Error::Template { .. }), "{error:?}");
}

#[test]
fn refuses_grammars_that_are_not_there() {
    let load = |grammar: &str| {
        let source = found(rust_manifest(grammar), RUST_QUERY, RUST_TEMPLATE, None);
        load_dir("/packs/p", source, "0.2.0").unwrap()
    };
    let error = extract::extract(&load("builtin:cobol"), "map.rs", "").unwrap_err();
    assert!(error.to_string().contains("unknown builtin grammar"), "{error:?}");
    let error = extract::extract(&load("wasm:grammar.wasm"), "map.rs", "").unwrap_err();
    assert!(error.to_string().contains("wasm"), "{error:?}");
}

#[test]
fn scaffolds_a_spec_file() {
    let pack = ts_pack();
    let spec = "map\n├── it reads\n└── it writes\n";
    let (text, tests) = scaffold_file(&pack, "src/map.tree", spec, "src/map.test.ts", None).unwrap();
    assert_eq!(tests, 2);
    let findings = runner::check_file(
        &pack,
        "src/map.tree",
        &Ok(spec.to_string()),
        "src/map.test.ts",
        &Ok(text.clone()),
        &CheckConfig { todo: Level::Ignore, ..CheckConfig::default() },
    );
    assert!(findings.unwrap().is_empty());
    let merged =
        scaffold_file(&pack, "src/map.tree", spec, "src/map.test.ts", Some(text.as_str())).unwrap();
    assert_eq!(merged, (text, 2));
    assert!(matches!(
        scaffold_file(&pack, "src/map.tree", "└── it floats\n", "src/map.test.ts", None),
        Err(Error::Parse { path, .. }) if path == "src/map.tree"
    ));
}

#[test]
fn picks_the_grammar_of_a_target() {
    assert!(matches!(
        grammar_for(&ts_pack(), "src/a.test.tsx"),
        Ok(Grammar::Native(NativeGrammar::Tsx))
    ));
    assert!(matches!(
        grammar_for(&ts_pack(), "src/a.test.ts"),
        Ok(Grammar::Native(NativeGrammar::TypeScript))
    ));
    assert!(matches!(grammar_for(&rust_pack(), "a.rs"), Ok(Grammar::Native(NativeGrammar::Rust))));
    assert!(rust_pack().matches_extension("rs"));
    assert!(!rust_pack().matches_extension("ts"));
}

#[test]
fn lists_a_pack_on_one_line() {
    let pack = rust_pack();
    let version = pack.manifest.pack.version.clone();
    let description = pack.manifest.pack.description.clone();
    assert_eq!(
        pack_line("rust", &Origin::Builtin, &Ok(pack)),
        format!("rust  v{version}  [builtin]  {description}")
    );
    let broken = Err(Error::SourceParse { path: "a.rs".to_string() });
    let line = pack_line("lua", &Origin::Project("/p".to_string()), &broken);
    assert!(line.starts_with("lua  [project]  (broken: ") && line.ends_with(")"));
}

#[test]
fn reports_each_through_a_test_alias() {
    let source = "const t = test;\nt.each(cases)(\"case\", fn);\n";
    let result = extract::extract_with_findings(&ts_pack(), "map.test.ts", source).unwrap();
    assert_eq!(
        result.unsupported.iter().map(|finding| finding.line).collect::<Vec<_>>(),
        [2]
    );
}

#[test]
fn resolves_direct_conditional_and_transitive_aliases() {
    let source = r#"
const d = flag ? describe : describe.skip;
const d2 = d;
const t = it;
d2("HashMap", () => {
  d("when the key is present", () => { t("returns the value", () => {}); });
  describe("when the key is absent", () => { it("returns none", () => {}); });
});
"#;
    assert!(ts_findings(source).is_empty());
}

#[test]
fn bounds_a_ten_thousand_link_chain() {
    let mut source = String::new();
    for i in 0..10_000 {
        source.push_str(&format!("const a{i} = a{};\n", i + 1));
    }
    source.push_str("const a10000 = describe;\na0(\"HashMap\", () => { it(\"unresolved\", f); });");
    let actual = extract::extract(&ts_pack(), "map.test.ts", &source).unwrap();
    assert!(actual.iter().all(|node| node.kind != ActualKind::Block));
}

#[test]
fn ignores_aliases_outside_module_scope() {
    let source =
        "function bind() { const d = describe; }\nd(\"HashMap\", () => { it(\"ghost\", f); });";
    let actual = extract::extract(&ts_pack(), "map.test.ts", source).unwrap();
    assert!(actual.iter().all(|node| node.kind != ActualKind::Block), "{actual:?}");
}

#[test]
fn resolves_let_aliases() {
    let source = "let d = describe;\nexport let t = it;\nd(\"a\", () => { t(\"b\", f); });";
    let actual = extract::extract(&ts_pack(), "map.test.ts", source).unwrap();
    assert_eq!(actual.len(), 1);
    assert_eq!(actual[0].name, "a");
    assert_eq!(actual[0].children[0].name, "b");
}

#[test]
fn shows_templates_the_words_for_events() {
    let pack = ts_pack();
    let events = scaffold::events_for(&expected(&pack, "A\n└── when b\n    └── it c\n"), "  ");
    let rows = scaffold::rows_for(&events);
    let shown: Vec<(&str, &str, usize, &str)> = rows
        .iter()
        .map(|r| (r.kind.as_str(), r.name.as_str(), r.depth, r.indent.as_str()))
        .collect();
    assert_eq!(
        shown,
        [
            ("open", "A", 0, ""),
            ("open", "when b", 1, "  "),
            ("test", "c", 2, "    "),
            ("close", "when b", 1, "  "),
            ("close", "A", 0, ""),
        ]
    );
    assert_eq!(rows[2].text, "it c");
}
