//! Loading packs, routing, and the scan for files that no tree covers.

use btt::checking::{
    collect_run, keep_governed, needs_scan, nothing_found, scanned_paths, sort_outcomes,
    SubtreeRun,
};
use btt::config::{CheckConfig, Level};
use btt::error::Error;
use btt::mapping::{Case, Mapping, NameRule, RootMapping};
use btt::pack::{
    active_names, available, load, load_builtin, load_dir, parse_grammar_source, Compat, Detect, Extract, FileRead, GrammarConfig, Manifest,
    NameSyntax, Origin, Pack, PackMeta, PackSource, Scaffold,
    search_places, stays_inside, validate, validate_set,
};
use btt::report::render_human;
use btt::machine::render_json;
use btt::runner::{
    check_all, covered_paths, find_tree_files, find_uncovered, resolve_target, stem_for, uncovered_candidates,
    Searched, Target, TreeInput, UncoveredScan,
};

const RUST_QUERY: &str = r#"
; Blocks: any module. Modules containing no tests are pruned by the core.
(mod_item
  name: (identifier) @block.name) @block

; Markers: #[test], #[tokio::test], #[test_case(...)], #[rstest] etc.
(attribute_item
  (attribute
    [(identifier) @_attr
     (scoped_identifier) @_attr]
    (#match? @_attr "test"))) @test.marker

; Tests: any function — only counted when preceded by a marker.
(function_item
  name: (identifier) @test.name) @test
"#;

const RUST_TEMPLATE: &str = r#"{% set base = "" if in_tests_dir else "    " -%}
{% if not in_tests_dir -%}
#[cfg(test)]
mod tests {
    use super::*;

{% endif -%}
{% for ev in events -%}
{% if ev.kind == "open" -%}
{{ base }}{{ ev.indent }}mod {{ ev.name }} {
{{ base }}{{ ev.indent }}    use super::*;

{% elif ev.kind == "close" -%}
{{ base }}{{ ev.indent }}}

{% elif ev.kind == "test" -%}
{{ base }}{{ ev.indent }}#[test]
{{ base }}{{ ev.indent }}fn {{ ev.name }}() {
{{ base }}{{ ev.indent }}    // btt:todo — {{ ev.text | line_safe }}
{{ base }}{{ ev.indent }}    todo!("{{ ev.text | rust_string }}");
{{ base }}{{ ev.indent }}}

{% endif -%}
{% endfor -%}
{% if not in_tests_dir -%}
}
{% endif -%}
"#;

const TS_QUERY: &str = r#"
(call_expression
  function: [
    (identifier) @_fn
    (member_expression
      object: (identifier) @_fn
      property: (property_identifier) @_mod)
  ]
  arguments: (arguments . (string) @block.name)
  (#any-of? @_fn "{describe}" "{suite}")
  (#any-of? @_mod "only" "skip" "todo")) @block

(call_expression
  function: (member_expression
    object: (identifier) @_fn
    property: (property_identifier) @_mod)
  arguments: (arguments . (string) @block.name)
  (#any-of? @_fn "{it}" "{test}")
  (#eq? @_mod "describe")) @block

(call_expression
  function: [
    (identifier) @_fn
    (member_expression
      object: (identifier) @_fn
      property: (property_identifier) @_mod)
  ]
  arguments: (arguments . (string) @test.name)
  (#any-of? @_fn "{it}" "{test}")
  (#any-of? @_mod "only" "skip" "todo")) @test

(call_expression
  function: (call_expression
    function: (member_expression
      object: (identifier) @_fn
      property: (property_identifier) @_mod))
  (#any-of? @_fn "{it}" "{test}" "{describe}")
  (#eq? @_mod "each")) @unsupported
"#;

const TS_ALIASES: &str = r#"
; What a module binds to another name, at its top level.
(program
  [
    (_
      (variable_declarator
        name: (identifier) @alias.name
        value: [
          (identifier) @alias.value
          (ternary_expression consequence: (identifier) @alias.value)
        ]))
    (export_statement
      declaration: (_
        (variable_declarator
          name: (identifier) @alias.name
          value: [
            (identifier) @alias.value
            (ternary_expression consequence: (identifier) @alias.value)
          ])))
  ])
"#;

const TS_TEMPLATE: &str = r#"{% for ev in events -%}
{% if ev.kind == "open" -%}
{{ ev.indent }}describe("{{ ev.name | js_string }}", () => {
{% elif ev.kind == "close" -%}
{{ ev.indent }}});

{% elif ev.kind == "test" -%}
{{ ev.indent }}it("{{ ev.name | js_string }}", () => {
{{ ev.indent }}  // btt:todo — {{ ev.text | line_safe }}
{{ ev.indent }}});

{% endif -%}
{% endfor -%}
"#;

fn texts(items: &[&str]) -> Vec<String> {
    items.iter().map(|t| t.to_string()).collect()
}

fn rust_mapping() -> Mapping {
    Mapping {
        root: RootMapping::File,
        block: NameRule { strip_prefix: None, add_prefix: None, case: Case::Snake },
        test: NameRule {
            strip_prefix: Some("it ".to_string()),
            add_prefix: None,
            case: Case::Snake,
        },
        wrappers: texts(&["tests"]),
    }
}

fn ts_mapping() -> Mapping {
    Mapping {
        root: RootMapping::Block,
        block: NameRule::default(),
        test: NameRule {
            strip_prefix: Some("it ".to_string()),
            add_prefix: None,
            case: Case::Verbatim,
        },
        wrappers: vec![],
    }
}

fn rust_manifest(grammar: &str) -> Manifest {
    Manifest {
        format: 1,
        pack: PackMeta {
            name: "rust".to_string(),
            version: "0.1.0".to_string(),
            description: "Rust tests".to_string(),
        },
        compat: Compat { btt: ">=0.2.0".to_string() },
        detect: Detect { extensions: texts(&["rs"]), targets: texts(&["{stem}.rs"]) },
        grammar: GrammarConfig { source: parse_grammar_source(grammar).unwrap(), symbol: None },
        extract: Extract {
            query: Some("queries/tests.scm".to_string()),
            test_requires_marker: true,
            name_syntax: NameSyntax::Raw,
            aliases: vec![],
            alias_query: None,
        },
        mapping: rust_mapping(),
        scaffold: Scaffold {
            template: "templates/test.jinja".to_string(),
            output: "{stem}.rs".to_string(),
            indent: "    ".to_string(),
        },
        lexical: None,
    }
}

fn ts_manifest(grammar: &str) -> Manifest {
    Manifest {
        format: 1,
        pack: PackMeta {
            name: "typescript".to_string(),
            version: "0.1.0".to_string(),
            description: "TypeScript tests".to_string(),
        },
        compat: Compat { btt: ">=0.2.0".to_string() },
        detect: Detect {
            extensions: texts(&["ts", "tsx"]),
            targets: texts(&["{stem}.test.ts", "{stem}.spec.ts"]),
        },
        grammar: GrammarConfig { source: parse_grammar_source(grammar).unwrap(), symbol: None },
        extract: Extract {
            query: Some("queries/tests.scm".to_string()),
            test_requires_marker: false,
            name_syntax: NameSyntax::JsString,
            aliases: texts(&["describe", "suite", "it", "test"]),
            alias_query: Some(TS_ALIASES.to_string()),
        },
        mapping: ts_mapping(),
        scaffold: Scaffold {
            template: "templates/test.jinja".to_string(),
            output: "{stem}.test.ts".to_string(),
            indent: "  ".to_string(),
        },
        lexical: None,
    }
}

fn found(manifest: Manifest, query: &str, template: &str, wasm: Option<Vec<u8>>) -> PackSource {
    let read = |place: &str, text: &str| FileRead::Text {
        place: place.to_string(),
        text: text.to_string(),
    };
    PackSource {
        origin: Origin::Project("/packs/p".to_string()),
        root: "/packs/p".to_string(),
        manifest,
        query: read("/packs/p/queries/tests.scm", query),
        template: read("/packs/p/templates/test.jinja", template),
        wasm_grammar: wasm.map(|bytes| ("/packs/p/grammar.wasm".to_string(), bytes)),
    }
}

fn rust_pack() -> Pack {
    let source = found(rust_manifest("builtin:rust"), RUST_QUERY, RUST_TEMPLATE, None);
    load_dir("/packs/p", source, "0.2.0").unwrap()
}

fn ts_pack() -> Pack {
    let source = found(ts_manifest("builtin:typescript"), TS_QUERY, TS_TEMPLATE, None);
    load_dir("/packs/p", source, "0.2.0").unwrap()
}

fn fixture(change: impl Fn(&mut Manifest)) -> Result<Pack, Error> {
    let mut manifest = rust_manifest("builtin:rust");
    change(&mut manifest);
    load_dir("/packs/p", found(manifest, "", "", None), "0.2.0")
}

#[test]
fn hardening_refuses_to_load() {
    for (field, escaped) in [
        ("query", "../../outside.scm"),
        ("template", "/etc/hostname"),
        ("output", "../{stem}.rs"),
    ] {
        let err = fixture(|m| match field {
            "query" => m.extract.query = Some(escaped.to_string()),
            "template" => m.scaffold.template = escaped.to_string(),
            _ => m.scaffold.output = escaped.to_string(),
        })
        .unwrap_err();
        assert!(matches!(err, Error::UnsafePath { .. }), "{field} -> {escaped}: {err:?}");
    }
    assert!(stays_inside("queries/./tests.scm"));
    assert!(!stays_inside("a/../../b"));
}

// The manifest's paths are checked as text; links are the way around that, so
// what was read must really lie in the pack.
#[test]
fn hardening_refuses_to_load_a_link_out_of_the_pack() {
    let mut source = found(rust_manifest("builtin:rust"), "", "", None);
    source.template = FileRead::Text {
        place: "/packs/outside.jinja".to_string(),
        text: "leaked".to_string(),
    };
    let err = load_dir("/packs/p", source, "0.2.0").unwrap_err();
    assert!(matches!(err, Error::UnsafePath { .. }), "{err:?}");
}

#[test]
fn hardening_refuses_to_load_unsafe_names() {
    for name in ["../evil", "a/b", "/abs", ".."] {
        let err = load(name, vec![], "0.2.0").unwrap_err();
        assert!(matches!(err, Error::UnsafePath { .. }), "{name}: {err:?}");
        let err = search_places(name, "/project", None, None).unwrap_err();
        assert!(matches!(err, Error::UnsafePath { .. }), "{name}: {err:?}");
    }
}

#[test]
fn refuses_files_that_cannot_be_read() {
    let mut source = found(rust_manifest("builtin:rust"), "", "", None);
    source.query = FileRead::Failed { message: "no such file".to_string() };
    assert!(load_dir("/packs/p", source, "0.2.0").is_err());
}

#[test]
fn judges_formats_and_versions() {
    let err = fixture(|m| m.format = 2).unwrap_err();
    assert!(matches!(err, Error::UnsupportedPackFormat { .. }), "{err:?}");
    let err = fixture(|m| m.compat.btt = ">=9.0.0".to_string()).unwrap_err();
    assert!(matches!(err, Error::IncompatibleBtt { .. }), "{err:?}");
    assert!(fixture(|m| m.pack.version = "not a version".to_string()).is_err());
    assert!(fixture(|m| m.compat.btt = "not a requirement".to_string()).is_err());
    let err = fixture(|m| m.detect.targets = texts(&["a/{stem}.rs"])).unwrap_err();
    assert!(matches!(err, Error::InvalidTargetPattern { .. }), "{err:?}");
    let err = fixture(|m| m.detect.targets = texts(&["{stem}{stem}.rs"])).unwrap_err();
    assert!(err.to_string().contains("exactly one {stem}"), "{err:?}");
    assert!(fixture(|m| m.extract.query = None).is_err());
    validate(&rust_manifest("builtin:rust"), "0.2.0").unwrap();
}

#[test]
fn takes_the_first_place_that_has_the_pack() {
    let places = search_places("rust", "/project", Some("/config"), Some("/home")).unwrap();
    assert_eq!(
        places,
        [
            Origin::Project("/project/.btt/packs/rust".to_string()),
            Origin::User("/config/btt/packs/rust".to_string()),
            Origin::User("/home/.btt/packs/rust".to_string()),
            Origin::Builtin,
        ]
    );
    let source = || found(rust_manifest("builtin:rust"), "first", "", None);
    let other = || found(rust_manifest("builtin:rust"), "second", "", None);
    let pack = load("rust", vec![None, Some(source()), Some(other())], "0.2.0").unwrap();
    assert_eq!(pack.query, "first");
    let err = load("lua", vec![None, None], "0.2.0").unwrap_err();
    assert_eq!(
        err.to_string(),
        "pack `lua` not found (searched .btt/packs, $XDG_CONFIG_HOME/btt/packs, ~/.btt/packs, and builtins: rust, typescript)"
    );
    assert!(load_builtin("lua", None, "0.2.0").is_err());
}

#[test]
fn activates_named_packs_alone() {
    assert_eq!(active_names(&texts(&["lua"])), ["lua"]);
    assert_eq!(active_names(&vec![]), ["rust", "typescript"]);
}

#[test]
fn lists_packs_with_the_origin_that_wins() {
    let listed = available(vec![
        Origin::Project("/p/.btt/packs/rust".to_string()),
        Origin::User("/u/btt/packs/lua".to_string()),
    ]);
    let shown: Vec<String> =
        listed.iter().map(|(name, origin)| format!("{name} {}", origin.to_string())).collect();
    assert_eq!(shown, ["lua user", "rust project", "typescript builtin"]);
}

#[test]
fn reports_a_collision_instead_of_reusing_the_wrong_grammar() {
    let wasm = |name: &str, symbol: Option<&str>, bytes: Vec<u8>| {
        let mut manifest = rust_manifest("wasm:grammar.wasm");
        manifest.pack.name = name.to_string();
        manifest.grammar.symbol = symbol.map(String::from);
        load_dir("/packs/p", found(manifest, "", "", Some(bytes)), "0.2.0").unwrap()
    };
    let err = validate_set(&vec![
        wasm("typescript", None, vec![1, 2]),
        wasm("rust", Some("typescript"), vec![3]),
    ])
    .unwrap_err();
    assert!(err.to_string().contains("distinct symbol"), "{err:?}");

    // Same symbol, same bytes is not a collision.
    validate_set(&vec![
        wasm("typescript", None, vec![1, 2]),
        wasm("typescript", None, vec![1, 2]),
    ])
    .unwrap();
}

const TESTED_RS: &str = "
mod tests {
    #[test]
    fn works() {}

    #[test]
    fn also_works() {}
}
";

const TESTED_TS: &str = r#"
describe("map", () => {
  it("works", () => {});
});
"#;

fn scan(pack: Pack, files: &[(&str, Result<&str, &str>)], covered: &[&str]) -> UncoveredScan {
    let packs = vec![pack];
    let paths: Vec<String> = files.iter().map(|(p, _)| p.to_string()).collect();
    let candidates = uncovered_candidates(&packs, &paths, &texts(covered));
    let read: Vec<Result<String, String>> = candidates
        .iter()
        .map(|c| {
            let (_, text) = files.iter().find(|(p, _)| *p == c.path).unwrap();
            match text {
                Ok(text) => Ok(text.to_string()),
                Err(e) => Err(e.to_string()),
            }
        })
        .collect();
    find_uncovered(&packs, vec![], &candidates, &read)
}

#[test]
fn is_reported_with_its_test_count() {
    let scan = scan(rust_pack(), &[("dir/map.rs", Ok(TESTED_RS))], &[]);
    assert!(scan.failed.is_empty(), "{:?}", scan.failed);
    assert_eq!(scan.uncovered.len(), 1, "{:?}", scan.uncovered);
    assert_eq!(scan.uncovered[0].path, "dir/map.rs");
    assert_eq!(scan.uncovered[0].tests, 2);
}

#[test]
fn uncovered_is_not_reported() {
    let files = [("dir/map.rs", Ok(TESTED_RS)), ("dir/map.tree", Ok("map\n└── it works\n"))];
    let scan = scan(rust_pack(), &files, &["dir/map.rs"]);
    assert!(scan.uncovered.is_empty(), "{:?}", scan.uncovered);
    assert!(scan.failed.is_empty(), "{:?}", scan.failed);
}

#[test]
fn uncovered_is_not_reported_without_tests() {
    let scan = scan(rust_pack(), &[("dir/lib.rs", Ok("pub fn helper() {}\n"))], &[]);
    assert!(scan.uncovered.is_empty(), "{:?}", scan.uncovered);
    assert!(scan.failed.is_empty(), "{:?}", scan.failed);
}

// Coverage is routing-exact: the tree routes to map.test.ts (first matching
// target pattern), so a test-bearing map.spec.ts must still be reported.
#[test]
fn reports_the_unrouted_candidate() {
    let packs = vec![ts_pack()];
    let present = texts(&["dir/map.test.ts", "dir/map.spec.ts"]);
    let routed = match resolve_target("dir/map.tree", &packs, &present) {
        Target::Found { path, .. } => path,
        Target::NotFound { candidates } => panic!("{candidates:?}"),
    };
    assert_eq!(routed, "dir/map.test.ts");
    let files = [
        ("dir/map.tree", Ok("map\n└── it works\n")),
        ("dir/map.test.ts", Ok(TESTED_TS)),
        ("dir/map.spec.ts", Ok(TESTED_TS)),
    ];
    let scan = scan(ts_pack(), &files, &[&routed]);
    assert!(scan.failed.is_empty(), "{:?}", scan.failed);
    let paths: Vec<&str> = scan.uncovered.iter().map(|u| u.path.as_str()).collect();
    assert_eq!(paths, ["dir/map.spec.ts"], "{:?}", scan.uncovered);
}

// Unverifiable coverage must surface as a failure, not vanish.
#[test]
fn is_reported_as_failed() {
    let scan = scan(ts_pack(), &[("dir/map.test.ts", Err("stream did not contain valid UTF-8"))], &[]);
    assert!(scan.uncovered.is_empty(), "{:?}", scan.uncovered);
    assert_eq!(scan.failed.len(), 1, "{:?}", scan.failed);
    assert_eq!(scan.failed[0].0, "dir/map.test.ts");
}

#[test]
fn is_reported_as_failed_by_the_uncovered_scan() {
    let missing = "/definitely/not/a/real/path".to_string();
    let failure = Error::Io { path: missing.clone(), message: "not found".to_string() };
    let scan = find_uncovered(&vec![rust_pack()], vec![(missing, failure)], &vec![], &vec![]);
    assert!(!scan.failed.is_empty());
}

#[test]
fn finds_tree_files_in_path_order() {
    let found = find_tree_files(&vec![
        Searched::Directory(texts(&["src/z.tree", "src/a.rs", "src/a.tree"])),
        Searched::File("b/one.txt".to_string()),
        Searched::File("src/a.tree".to_string()),
    ]);
    assert_eq!(found, ["b/one.txt", "src/a.tree", "src/z.tree"]);
}

#[test]
fn routes_in_both_directions() {
    assert_eq!(stem_for("{stem}.test.ts", "map.test.ts"), Some("map".to_string()));
    assert_eq!(stem_for("{stem}.test.ts", ".test.ts"), None);
    assert_eq!(stem_for("{stem}.test.ts", "map.spec.ts"), None);
    match resolve_target("src/map.tree", &vec![ts_pack(), rust_pack()], &vec![]) {
        Target::NotFound { candidates } => assert_eq!(
            candidates,
            ["src/map.test.ts", "src/map.spec.ts", "src/map.rs"]
        ),
        Target::Found { path, .. } => panic!("{path}"),
    }
}

fn input(tree: &str, spec: Result<&str, &str>, present: &[&str], source: &str) -> TreeInput {
    TreeInput {
        tree_path: tree.to_string(),
        spec: match spec {
            Ok(text) => Ok(text.to_string()),
            Err(e) => Err(e.to_string()),
        },
        present: texts(present),
        source: Ok(source.to_string()),
    }
}

#[test]
fn reports_a_run_in_both_formats() {
    let packs = vec![ts_pack()];
    let inputs = vec![
        input("/r/z.tree", Ok("z\n└── it works\n"), &[], ""),
        input("/r/m.tree", Err("denied"), &["/r/m.test.ts"], ""),
        input("/r/a.tree", Ok("a\n└── it works\n"), &["/r/a.test.ts"], "describe(\"a\", () => { it(\"works\", f); });\n"),
        input("/r/b.tree", Ok("b\n└── it works\n"), &["/r/b.test.ts"], "describe(\"b\", () => { it(\"plays\", f); });\n"),
    ];
    let outcomes = sort_outcomes(check_all(&packs, &inputs, CheckConfig::default()));
    let order: Vec<&str> = outcomes.iter().map(|o| o.tree_path.as_str()).collect();
    assert_eq!(order, ["/r/a.tree", "/r/b.tree", "/r/m.tree", "/r/z.tree"]);

    let (lines, code) = render_human(4, &outcomes, &vec![], "/r");
    assert_eq!(code, 2);
    assert_eq!(lines[0], "✓ a.tree (a.test.ts)");
    assert_eq!(lines[1], "✗ b.tree → /r/b.test.ts");
    assert_eq!(lines[2], "    error missing test  `b > works` (b.tree:2)");
    assert_eq!(lines[3], "    warn  extra   test  `b > plays` (/r/b.test.ts:1)");
    assert_eq!(lines.last().unwrap(), "\n4 tree file(s), 3 error(s), 1 warning(s)");

    let (report, code) = render_json(4, &outcomes, &vec![], "/r");
    assert_eq!(code, 2);
    assert_eq!(report.summary.errors, 3);
    assert_eq!(report.summary.warnings, 1);
    assert_eq!(report.results.len(), 4);
}

#[test]
fn speaks_for_the_files_of_one_subtree() {
    let files = [("web/a.test.ts", Ok(TESTED_TS)), ("core/b.test.ts", Ok(TESTED_TS))];
    let all = scan(ts_pack(), &files, &[]);
    assert_eq!(scanned_paths(&all), ["core/b.test.ts", "web/a.test.ts"]);
    let kept = keep_governed(all, &texts(&["web/a.test.ts"]));
    assert_eq!(kept.uncovered.len(), 1);
    assert_eq!(kept.uncovered[0].path, "web/a.test.ts");
    assert!(needs_scan(Level::Ignore, Level::Error));
    assert!(!needs_scan(Level::Ignore, Level::Ignore));
    assert!(nothing_found(0, &vec![(Level::Warn, Level::Warn, UncoveredScan::default())]));
    assert!(!nothing_found(0, &vec![(Level::Warn, Level::Warn, kept)]));
    assert!(!nothing_found(1, &vec![]));
}

#[test]
fn puts_a_run_together_from_its_subtrees() {
    let packs = vec![ts_pack()];
    let checked = |tree: &str| {
        let stem = tree.trim_end_matches(".tree");
        let target = format!("{stem}.test.ts");
        let name = stem.rsplit('/').next().unwrap();
        let source = format!("describe(\"{name}\", () => {{ it(\"works\", f); }});\n");
        let spec = format!("{name}\n└── it works\n");
        check_all(&packs, &vec![input(tree, Ok(&spec), &[&target], &source)], CheckConfig::default())
    };
    let quiet = CheckConfig {
        uncovered: Level::Ignore,
        unsupported: Level::Ignore,
        ..CheckConfig::default()
    };
    let strict = CheckConfig { uncovered: Level::Error, ..CheckConfig::default() };
    let found = scan(ts_pack(), &[("web/a.test.ts", Ok(TESTED_TS)), ("core/b.test.ts", Ok(TESTED_TS))], &[]);
    let (outcomes, scans) = collect_run(vec![
        SubtreeRun {
            check: strict,
            outcomes: checked("/r/z.tree"),
            scan: found,
            governed: texts(&["web/a.test.ts"]),
        },
        SubtreeRun {
            check: quiet,
            outcomes: checked("/r/a.tree"),
            scan: UncoveredScan::default(),
            governed: vec![],
        },
    ]);
    let order: Vec<&str> = outcomes.iter().map(|o| o.tree_path.as_str()).collect();
    assert_eq!(order, ["/r/a.tree", "/r/z.tree"]);
    assert_eq!(scans.len(), 1);
    assert_eq!(scans[0].2.uncovered.len(), 1);

    // Clean trees alone succeed; one uncovered file at the severity of an error
    // fails the run.
    assert_eq!(render_human(2, &outcomes, &vec![], "/r").1, 0);
    let (lines, code) = render_human(2, &outcomes, &scans, "/r");
    assert_eq!(code, 1);
    assert_eq!(lines.last().unwrap(), "\n2 tree file(s), 1 uncovered, 1 error(s), 0 warning(s)");
    assert_eq!(render_json(2, &outcomes, &scans, "/r").1, 1);
}

#[test]
fn lists_what_trees_cover() {
    let trees = texts(&["src/a.tree", "src/b.tree", "src/c.tree"]);
    let present = texts(&["src/c.spec.ts", "src/a.spec.ts", "src/a.test.ts", "src/d.test.ts"]);
    assert_eq!(
        covered_paths(&trees, &vec![ts_pack()], &present),
        ["src/a.test.ts", "src/c.spec.ts"]
    );
}
