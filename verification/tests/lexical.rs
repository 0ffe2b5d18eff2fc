//! The lexical backend: for realistic test files, extraction through a lexical
//! profile gives exactly what the native grammar gives.

use btt::aliases::{expand, resolve_aliases, Dialect, MAX_LINKS};
use btt::error::Error;
use btt::lexical::{blank_comments, mask, match_brackets, State};
use btt::mapping::{Case, Mapping, NameRule, RootMapping};
use btt::pack::{
    load_dir, parse_grammar_source, Compat, Detect, Extract, FileRead, GrammarConfig, Lexical,
    Manifest, NameSyntax, Opener, Origin, Pack, PackMeta, PackSource, Scaffold, StringRule,
};
use btt::{check, extract, scaffold, tree};

const RUST_QUERY: &str = r#"
; Blocks: any module. Modules containing no tests are pruned by the core.
(mod_item
  name: (identifier) @block.name) @block

; Markers: #[test], #[tokio::test], #[test_case(...)], #[rstest] etc.
(attribute_item
  (attribute
    [(identifier) @_attr
     (scoped_identifier) @_attr]
    (#match? @_attr "test"))) @test.marker

; Tests: any function — only counted when preceded by a marker.
(function_item
  name: (identifier) @test.name) @test
"#;

const RUST_TEMPLATE: &str = r#"{% set base = "" if in_tests_dir else "    " -%}
{% if not in_tests_dir -%}
#[cfg(test)]
mod tests {
    use super::*;

{% endif -%}
{% for ev in events -%}
{% if ev.kind == "open" -%}
{{ base }}{{ ev.indent }}mod {{ ev.name }} {
{{ base }}{{ ev.indent }}    use super::*;

{% elif ev.kind == "close" -%}
{{ base }}{{ ev.indent }}}

{% elif ev.kind == "test" -%}
{{ base }}{{ ev.indent }}#[test]
{{ base }}{{ ev.indent }}fn {{ ev.name }}() {
{{ base }}{{ ev.indent }}    // btt:todo — {{ ev.text | line_safe }}
{{ base }}{{ ev.indent }}    todo!("{{ ev.text | rust_string }}");
{{ base }}{{ ev.indent }}}

{% endif -%}
{% endfor -%}
{% if not in_tests_dir -%}
}
{% endif -%}
"#;

const TS_QUERY: &str = r#"
(call_expression
  function: [
    (identifier) @_fn
    (member_expression
      object: (identifier) @_fn
      property: (property_identifier) @_mod)
  ]
  arguments: (arguments . (string) @block.name)
  (#any-of? @_fn "{describe}" "{suite}")
  (#any-of? @_mod "only" "skip" "todo")) @block

(call_expression
  function: (member_expression
    object: (identifier) @_fn
    property: (property_identifier) @_mod)
  arguments: (arguments . (string) @block.name)
  (#any-of? @_fn "{it}" "{test}")
  (#eq? @_mod "describe")) @block

(call_expression
  function: [
    (identifier) @_fn
    (member_expression
      object: (identifier) @_fn
      property: (property_identifier) @_mod)
  ]
  arguments: (arguments . (string) @test.name)
  (#any-of? @_fn "{it}" "{test}")
  (#any-of? @_mod "only" "skip" "todo")) @test

(call_expression
  function: (call_expression
    function: (member_expression
      object: (identifier) @_fn
      property: (property_identifier) @_mod))
  (#any-of? @_fn "{it}" "{test}" "{describe}")
  (#eq? @_mod "each")) @unsupported
"#;

const TS_ALIASES: &str = r#"
; What a module binds to another name, at its top level.
(program
  [
    (_
      (variable_declarator
        name: (identifier) @alias.name
        value: [
          (identifier) @alias.value
          (ternary_expression consequence: (identifier) @alias.value)
        ]))
    (export_statement
      declaration: (_
        (variable_declarator
          name: (identifier) @alias.name
          value: [
            (identifier) @alias.value
            (ternary_expression consequence: (identifier) @alias.value)
          ])))
  ])
"#;

const TS_TEMPLATE: &str = r#"{% for ev in events -%}
{% if ev.kind == "open" -%}
{{ ev.indent }}describe("{{ ev.name | js_string }}", () => {
{% elif ev.kind == "close" -%}
{{ ev.indent }}});

{% elif ev.kind == "test" -%}
{{ ev.indent }}it("{{ ev.name | js_string }}", () => {
{{ ev.indent }}  // btt:todo — {{ ev.text | line_safe }}
{{ ev.indent }}});

{% endif -%}
{% endfor -%}
"#;

fn texts(items: &[&str]) -> Vec<String> {
    items.iter().map(|t| t.to_string()).collect()
}

fn rust_mapping() -> Mapping {
    Mapping {
        root: RootMapping::File,
        block: NameRule { strip_prefix: None, add_prefix: None, case: Case::Snake },
        test: NameRule {
            strip_prefix: Some("it ".to_string()),
            add_prefix: None,
            case: Case::Snake,
        },
        wrappers: texts(&["tests"]),
    }
}

fn ts_mapping() -> Mapping {
    Mapping {
        root: RootMapping::Block,
        block: NameRule::default(),
        test: NameRule {
            strip_prefix: Some("it ".to_string()),
            add_prefix: None,
            case: Case::Verbatim,
        },
        wrappers: vec![],
    }
}

fn rust_manifest(grammar: &str) -> Manifest {
    Manifest {
        format: 1,
        pack: PackMeta {
            name: "rust".to_string(),
            version: "0.1.0".to_string(),
            description: "Rust tests".to_string(),
        },
        compat: Compat { btt: ">=0.2.0".to_string() },
        detect: Detect { extensions: texts(&["rs"]), targets: texts(&["{stem}.rs"]) },
        grammar: GrammarConfig { source: parse_grammar_source(grammar).unwrap(), symbol: None },
        extract: Extract {
            query: Some("queries/tests.scm".to_string()),
            test_requires_marker: true,
            name_syntax: NameSyntax::Raw,
            aliases: vec![],
            alias_query: None,
        },
        mapping: rust_mapping(),
        scaffold: Scaffold {
            template: "templates/test.jinja".to_string(),
            output: "{stem}.rs".to_string(),
            indent: "    ".to_string(),
        },
        lexical: None,
    }
}

fn ts_manifest(grammar: &str) -> Manifest {
    Manifest {
        format: 1,
        pack: PackMeta {
            name: "typescript".to_string(),
            version: "0.1.0".to_string(),
            description: "TypeScript tests".to_string(),
        },
        compat: Compat { btt: ">=0.2.0".to_string() },
        detect: Detect {
            extensions: texts(&["ts", "tsx"]),
            targets: texts(&["{stem}.test.ts", "{stem}.spec.ts"]),
        },
        grammar: GrammarConfig { source: parse_grammar_source(grammar).unwrap(), symbol: None },
        extract: Extract {
            query: Some("queries/tests.scm".to_string()),
            test_requires_marker: false,
            name_syntax: NameSyntax::JsString,
            aliases: texts(&["describe", "suite", "it", "test"]),
            alias_query: Some(TS_ALIASES.to_string()),
        },
        mapping: ts_mapping(),
        scaffold: Scaffold {
            template: "templates/test.jinja".to_string(),
            output: "{stem}.test.ts".to_string(),
            indent: "  ".to_string(),
        },
        lexical: None,
    }
}

fn found(manifest: Manifest, query: &str, template: &str, wasm: Option<Vec<u8>>) -> PackSource {
    let read = |place: &str, text: &str| FileRead::Text {
        place: place.to_string(),
        text: text.to_string(),
    };
    PackSource {
        origin: Origin::Project("/packs/p".to_string()),
        root: "/packs/p".to_string(),
        manifest,
        query: read("/packs/p/queries/tests.scm", query),
        template: read("/packs/p/templates/test.jinja", template),
        wasm_grammar: wasm.map(|bytes| ("/packs/p/grammar.wasm".to_string(), bytes)),
    }
}

fn rust_pack() -> Pack {
    let source = found(rust_manifest("builtin:rust"), RUST_QUERY, RUST_TEMPLATE, None);
    load_dir("/packs/p", source, "0.2.0").unwrap()
}

fn ts_pack() -> Pack {
    let source = found(ts_manifest("builtin:typescript"), TS_QUERY, TS_TEMPLATE, None);
    load_dir("/packs/p", source, "0.2.0").unwrap()
}

const TITLE: &str = r#"(?<name>"(?:[^"\\]|\\.)*"|'(?:[^'\\]|\\.)*')"#;

fn string(delim: &str) -> StringRule {
    StringRule { delim: delim.to_string(), escape: Some("\\".to_string()) }
}

fn pair(open: &str, close: &str) -> (String, String) {
    (open.to_string(), close.to_string())
}

fn ts_profile() -> Lexical {
    Lexical {
        line_comment: Some("//".to_string()),
        block_comment: Some(pair("/*", "*/")),
        strings: vec![string("\""), string("'"), string("`")],
        nest: vec![pair("(", ")"), pair("{", "}")],
        block: Opener {
            open: [
                r"(?:^|[^0-9A-Za-z_$.])(?<kw>(?:{describe}|{suite})(?:\.(?:only|skip|todo))?|(?:{it}|{test})\.describe)\s*\(\s*",
                TITLE,
                r"\s*[,)]",
            ]
            .concat(),
        },
        test: Opener {
            open: [
                r"(?:^|[^0-9A-Za-z_$.])(?<kw>(?:{it}|{test})(?:\.(?:only|skip|todo))?)\s*\(\s*",
                TITLE,
                r"\s*[,)]",
            ]
            .concat(),
        },
        unsupported: Some(Opener {
            open: r"(?:^|[^0-9A-Za-z_$.])(?:{it}|{test}|{describe})\.each\s*[(`]".to_string(),
        }),
        alias: Some(Opener {
            open: r"\b(?:const|let|var)\s+(?<name>[A-Za-z_$][0-9A-Za-z_$]*)(?:\s*:[^=;\n]+)?\s*=\s*(?:[^;\n?]*\?\s*)?(?<value>[A-Za-z_$][0-9A-Za-z_$]*)\s*(?:[;:\n]|$)"
                .to_string(),
        }),
    }
}

fn rust_profile() -> Lexical {
    Lexical {
        line_comment: Some("//".to_string()),
        block_comment: Some(pair("/*", "*/")),
        strings: vec![string("\"")],
        nest: vec![pair("(", ")"), pair("{", "}")],
        block: Opener { open: r"(?:^|[^\w])(?<kw>mod)\s+(?<name>\w+)\s*\{".to_string() },
        test: Opener {
            open: r"#\[[\w:]*test[\w:]*\](?:\s*#\[[^\]]*\])*\s*(?:pub\s+)?(?:async\s+)?(?<kw>fn)\s+(?<name>\w+)\s*\("
                .to_string(),
        },
        unsupported: None,
        alias: None,
    }
}

fn with_profile(mut manifest: Manifest, profile: Lexical) -> Manifest {
    manifest.extract.query = None;
    manifest.extract.test_requires_marker = false;
    manifest.lexical = Some(profile);
    manifest
}

fn try_lexical(profile: Lexical) -> Result<Pack, Error> {
    let manifest = with_profile(ts_manifest("lexical"), profile);
    load_dir("/packs/p", found(manifest, "", TS_TEMPLATE, None), "0.2.0")
}

fn lexical_pack() -> Pack {
    try_lexical(ts_profile()).unwrap()
}

fn rust_lexical_pack() -> Pack {
    let manifest = with_profile(rust_manifest("lexical"), rust_profile());
    load_dir("/packs/p", found(manifest, "", RUST_TEMPLATE, None), "0.2.0").unwrap()
}

/// Extract with both backends; panic with the source on any divergence.
fn assert_equivalent(source: &str) {
    let native = extract::extract_with_findings(&ts_pack(), "map.test.ts", source)
        .unwrap_or_else(|e| panic!("native extraction failed: {e:?}\n---\n{source}"));
    let lexical = extract::extract_with_findings(&lexical_pack(), "map.test.ts", source)
        .unwrap_or_else(|e| panic!("lexical extraction failed: {e:?}\n---\n{source}"));
    assert_eq!(native.nodes, lexical.nodes, "backends diverged\n---\n{source}");
    assert_eq!(native.unsupported, lexical.unsupported, "backends diverged\n---\n{source}");
}

#[test]
fn lexical_matches_the_native_extraction() {
    assert_equivalent(
        r#"
import { describe, it, suite, test } from "vitest";
const helper = () => {};
describe("HashMap", () => {
  describe.only("when the key is present", () => {
    it("returns the value", () => {});
    it.skip("skips this one", () => {});
  });
  suite("when the key is absent", () => {
    test.todo("returns none");
  });
});
test.describe("playwright style", () => {
  test("works", async ({ page }) => {});
});
it.describe("also a block", () => {
  it('single quoted "title"', () => {});
  it("escaped \"quotes\" and \\ slashes", () => {});
});
describe/* legal trivia */("comments between tokens", () => {
  it/* here too */("still matches", () => {});
  it("and after the title" /* trailing */, () => {});
});
"#,
    );
}

#[test]
fn reports_parameterized_tests_identically() {
    assert_equivalent(
        r#"
describe("parameterized", () => {
  test.each([[1], [2]])("curried %s", value => {});
  it.each`value | expected
    ${1}  | ${2}
  `("tagged $value", ({ value, expected }) => {});
  describe.each(cases)("nested %s", value => {});
  myArray.each(value => consume(value));
  holder.test.each(cases)("not a recognized receiver", () => {});
  const text = "test.each(cases)(\"decoy\", fn)";
  // test.each(cases)("comment decoy", fn);
});
"#,
    );
}

#[test]
fn lexical_matches_the_native_extraction_around_decoys() {
    assert_equivalent(
        r#"
// it("not a test", () => {});
/* describe("not a block", () => {
     it("still not a test", () => {});
   */
const s = "it(\"nope\", () => {";
const braces = "}}}{{(";
const q = 'describe("inner quotes", () => {})';
describe("real", () => {
  if (true) { helper(); }
  it("counts", () => {
    expect("it(\"fake\", f)").toBe(s);
  });
});
"#,
    );
}

#[test]
fn lexical_matches_the_native_extraction_of_rust() {
    for source in [
        r#"
pub fn lookup() {}

#[cfg(test)]
mod tests {
    use super::*;
    fn helper() {}

    mod when_the_key_is_present {
        use super::*;

        #[test]
        fn returns_the_value() {
            assert_eq!(lookup("{key}"), "value");
        }

        mod when_the_value_was_overwritten {
            #[tokio::test]
            async fn returns_the_latest_value() {
                todo!("it returns the latest {{value}}");
            }
        }
    }

    mod when_the_key_is_absent {
        #[test]
        #[ignore]
        fn returns_none() {}
    }

    mod helpers_without_tests {
        fn not_a_test() {}
    }
}
"#,
        r#"
// #[test] fn decoy_in_comment() {}
/* mod decoy_block { #[test] fn nope() {} */
const DECOY: &str = "mod fake { #[test] fn also_fake() {{{ }";

mod when_running_flat {
    #[test]
    fn works() {}
}

#[test]
fn top_level_test() {}
"#,
    ] {
        let native = extract::extract(&rust_pack(), "map.rs", source)
            .unwrap_or_else(|e| panic!("native failed: {e:?}\n---\n{source}"));
        let lexical = extract::extract(&rust_lexical_pack(), "map.rs", source)
            .unwrap_or_else(|e| panic!("lexical failed: {e:?}\n---\n{source}"));
        assert!(!native.is_empty());
        assert_eq!(native, lexical, "backends diverged\n---\n{source}");
    }
}

/// Deterministic, so that failures reproduce.
struct Rng(u64);

impl Rng {
    fn next(&mut self) -> u64 {
        self.0 = self
            .0
            .wrapping_mul(6_364_136_223_846_793_005)
            .wrapping_add(1_442_695_040_888_963_407);
        self.0 >> 33
    }

    fn below(&mut self, n: usize) -> usize {
        usize::try_from(self.next() % n as u64).unwrap()
    }

    fn pick<'a>(&mut self, items: &'a [&'a str]) -> &'a str {
        items[self.below(items.len())]
    }
}

const WORDS: &[&str] = &[
    "when", "the", "key", "value", "present", "absent", "returns", "latest", "none", "over",
];

fn ident(rng: &mut Rng) -> String {
    let n = 1 + rng.below(3);
    let parts: Vec<&str> = (0..n).map(|_| rng.pick(WORDS)).collect();
    format!("{}_{}", parts.join("_"), rng.below(100))
}

fn gen_items(rng: &mut Rng, depth: usize, out: &mut String) {
    let indent = "    ".repeat(depth + 1);
    for _ in 0..=rng.below(3) {
        match rng.below(if depth < 3 { 6 } else { 4 }) {
            0 => {
                let marker = rng.pick(&["#[test]", "#[tokio::test]"]);
                let extra = rng.pick(&["", "#[ignore]\n"]);
                let extra = extra.replace('\n', &format!("\n{indent}"));
                out.push_str(&format!(
                    "{indent}{marker}\n{indent}{extra}fn {}() {{\n{indent}    todo!(\"it {{braced}} \\\"quoted\\\"\");\n{indent}}}\n",
                    ident(rng)
                ));
            }
            1 => out.push_str(&format!("{indent}fn {}() {{}}\n", ident(rng))),
            2 => out.push_str(&format!("{indent}// #[test] fn {}() {{ decoy\n", ident(rng))),
            3 => out.push_str(&format!(
                "{indent}const S{}: &str = \"mod fake {{ #[test] fn f() {{{{( \";\n",
                rng.below(1000)
            )),
            _ => {
                out.push_str(&format!(
                    "{indent}mod {} {{\n{indent}    use super::*;\n",
                    ident(rng)
                ));
                gen_items(rng, depth + 1, out);
                out.push_str(&format!("{indent}}}\n"));
            }
        }
    }
}

fn gen_file(rng: &mut Rng) -> String {
    let mut out = String::from("pub fn code() {}\n\n");
    if rng.below(2) == 0 {
        out.push_str("#[cfg(test)]\nmod tests {\n    use super::*;\n");
        gen_items(rng, 0, &mut out);
        out.push_str("}\n");
    } else {
        let mut inner = String::new();
        gen_items(rng, 0, &mut inner);
        // Flat, tests/-style file: strip one indent level.
        for line in inner.lines() {
            out.push_str(&format!("{}\n", line.strip_prefix("    ").unwrap_or(line)));
        }
    }
    out
}

#[test]
fn lexical_never_diverges_from_the_native_extraction() {
    let (native_p, lexical_p) = (rust_pack(), rust_lexical_pack());
    for seed in 0..100u64 {
        let mut rng = Rng(seed.wrapping_mul(0x9E37_79B9_7F4A_7C15) | 1);
        let source = gen_file(&mut rng);
        let native = extract::extract(&native_p, "map.rs", &source)
            .unwrap_or_else(|e| panic!("seed {seed}: native failed: {e:?}\n---\n{source}"));
        let lexical = extract::extract(&lexical_p, "map.rs", &source)
            .unwrap_or_else(|e| panic!("seed {seed}: lexical failed: {e:?}\n---\n{source}"));
        assert_eq!(native, lexical, "seed {seed} diverged\n---\n{source}");
    }
}

#[test]
fn nests_tests_by_bracket_spans() {
    let profile = Lexical {
        line_comment: Some("//".to_string()),
        block_comment: Some(pair("/*", "*/")),
        strings: vec![string("\"")],
        nest: vec![pair("(", ")"), pair("{", "}")],
        block: Opener {
            open: r"(?:^|[^\w$])(?<kw>contract)\s+(?<name>\w+)[^{]*\{".to_string(),
        },
        test: Opener {
            open: r"(?:^|[^\w$])(?<kw>function)\s+(?<name>test\w*)\s*\(".to_string(),
        },
        unsupported: None,
        alias: None,
    };
    let mut manifest = with_profile(rust_manifest("lexical"), profile);
    manifest.pack.name = "solidity-lex".to_string();
    manifest.detect.targets = texts(&["{stem}.t.sol"]);
    let p = load_dir("/packs/p", found(manifest, "", "", None), "0.2.0").unwrap();
    let source = r#"
// SPDX-License-Identifier: MIT
contract MapTest is Test {
    function setUp() public {}
    function test_present() public {
        assert(lookup("key") != 0);
    }
    function test_absent() public {}
}
"#;
    let actual = extract::extract(&p, "map.t.sol", source).unwrap();
    assert_eq!(actual.len(), 1, "{actual:#?}");
    assert_eq!(actual[0].name, "MapTest");
    let tests: Vec<&str> = actual[0].children.iter().map(|c| c.name.as_str()).collect();
    assert_eq!(tests, ["test_present", "test_absent"], "{actual:#?}");
}

// Same round-trip contract the grammar-backed packs honor: whatever
// the template escapes, lexical extraction must decode back.
#[test]
fn lexical_reports_no_findings_for_hostile_titles() {
    let spec = "HashMap\n└── it returns \"yes\" \\ {ok}\u{2028}more\n";
    let trees = tree::parse(spec).unwrap();
    let p = lexical_pack();
    let expected = check::expected_from_spec(&trees, &p.manifest.mapping);
    let out = scaffold::render(&p, &expected, "map", false).unwrap();
    let actual = extract::extract(&p, "map.test.ts", &out).unwrap();
    let actual = check::unwrap_wrappers(actual, &p.manifest.mapping.wrappers);
    let findings = check::diff(&expected, &actual);
    assert!(findings.is_empty(), "{findings:?}\n---\n{out}");
}

// A malformed profile fails the pack load with a clear error — it must never
// reach extraction.
#[test]
fn lexical_refuses_to_load() {
    let mut empty_delim = ts_profile();
    empty_delim.strings[0].delim = String::new();
    let mut empty_nest = ts_profile();
    empty_nest.nest = vec![];
    let mut wide_bracket = ts_profile();
    wide_bracket.nest = vec![pair("((", "))")];
    let mut no_name = ts_profile();
    no_name.block.open = no_name.block.open.replace("(?<name>", "(?<title>");
    let mut invalid = ts_profile();
    invalid.test.open = invalid.test.open.replace("(?<kw>", "(?<kw>[");
    for profile in [empty_delim, empty_nest, wide_bracket, no_name, invalid] {
        let shown = format!("{profile:?}");
        let err = try_lexical(profile).unwrap_err();
        assert!(matches!(err, Error::Lexical { .. }), "{shown}: {err:?}");
    }
}

// Syntax the profile cannot balance or terminate must be a loud tool error,
// never a silent partial extraction that mis-nests or drops tests.
#[test]
fn fails_closed() {
    for source in [
        "describe(\"unclosed\", () => {\n",
        "const stray = 1; }\n",
        "it(\"kept\", () => {});\nconst broken = \"unterminated\n",
        "it(\"kept\", () => {});\n/* never closed\n",
    ] {
        let err = extract::extract(&lexical_pack(), "map.test.ts", source).expect_err(source);
        assert!(matches!(err, Error::Lexical { .. }), "{source}: {err:?}");
    }
}

#[test]
fn tells_where_the_scan_stopped() {
    let err = extract::extract(&lexical_pack(), "a.test.ts", "\n\nf(\n").unwrap_err();
    assert!(err.to_string().contains("unclosed delimiter, expected `)` (line 3)"), "{err:?}");
    let err = extract::extract(&lexical_pack(), "a.test.ts", "\n\"x").unwrap_err();
    assert!(err.to_string().contains("(line 2)"), "{err:?}");
}

#[test]
fn tells_code_from_comments_and_strings() {
    let profile = ts_profile();
    let states = mask(b"a//b\n\"c\"", &profile).unwrap();
    assert_eq!(states[0], State::Code);
    assert_ne!(states[1], State::Code);
    assert_ne!(states[3], State::Code);
    assert_eq!(states[4], State::Code);
    assert_ne!(states[6], State::Code);
    let blanked = blank_comments("a//b\n\"c\"", &states);
    assert_eq!(blanked, "a   \n\"c\"");
}

#[test]
fn matches_brackets() {
    let source = b"(a{b})";
    let states = mask(source, &rust_profile()).unwrap();
    let pairs = [(b'(', b')'), (b'{', b'}')].to_vec();
    let closers = match_brackets(source, &states, &pairs).unwrap();
    assert_eq!(closers[0], Some(5));
    assert_eq!(closers[2], Some(4));
    assert_eq!(closers[1], None);
    assert!(match_brackets(b"(a}", &mask(b"(a}", &rust_profile()).unwrap(), &pairs).is_err());
}

#[test]
fn lexical_matches_the_native_extraction_through_aliases() {
    assert_equivalent(
        r#"
const d = flag ? describe : describe.skip;
const d2 = d;
const t = it;
d2("suite", () => { d("nested", () => { t("works", f); }); });
"#,
    );
}

#[test]
fn reports_aliased_each_identically() {
    let source = "const t = test;\nt.each(cases)(\"case\", fn);\n";
    assert_equivalent(source);
    let found = extract::extract_with_findings(&lexical_pack(), "map.test.ts", source).unwrap();
    assert_eq!(found.unsupported.len(), 1);
    assert_eq!(found.unsupported[0].line, 2);
}

#[test]
fn resolves_module_var_and_exported_aliases_identically() {
    let source =
        "var d = describe;\nexport const t = test;\nd(\"suite\", () => { t(\"works\", f); });";
    assert_equivalent(source);
    let actual = extract::extract(&lexical_pack(), "map.test.ts", source).unwrap();
    assert_eq!(actual.first().map(|node| node.name.as_str()), Some("suite"));
}

#[test]
fn ignores_for_header_aliases_identically() {
    let source =
        "for (const d = describe; ready; step()) {}\nd(\"ghost\", () => { it(\"nope\", f); });";
    assert_equivalent(source);
    let actual = extract::extract(&lexical_pack(), "map.test.ts", source).unwrap();
    assert!(actual.iter().all(|node| node.kind != extract::ActualKind::Block));
}

#[test]
fn bounds_a_ten_thousand_link_chain_identically() {
    let mut source = String::new();
    for i in 0..10_000 {
        source.push_str(&format!("const a{i} = a{};\n", i + 1));
    }
    source.push_str("const a10000 = describe;\na0(\"suite\", () => { it(\"works\", f); });");
    assert_equivalent(&source);
    let actual = extract::extract(&lexical_pack(), "map.test.ts", &source).unwrap();
    assert!(actual.iter().all(|node| node.kind != extract::ActualKind::Block));
}

#[test]
fn drops_source_derived_patterns_between_files() {
    let pack = lexical_pack();
    for i in 0..100 {
        let source = format!(
            "const alias{i} = describe;\nalias{i}(\"suite {i}\", () => {{ it(\"works\", f); }});"
        );
        let actual = extract::extract(&pack, "map.test.ts", &source).unwrap();
        let expected = format!("suite {i}");
        assert_eq!(actual.first().map(|node| node.name.as_str()), Some(expected.as_str()));
    }
}

#[test]
fn ignores_non_module_aliases_identically() {
    let source =
        "function bind() { const d = describe; }\nd(\"ghost\", () => { it(\"nope\", f); });";
    assert_equivalent(source);
    let actual = extract::extract(&lexical_pack(), "map.test.ts", source).unwrap();
    assert!(actual.iter().all(|node| node.kind != extract::ActualKind::Block));
}

fn bindings(pairs: &[(&str, &str)]) -> Vec<(String, String)> {
    pairs.iter().map(|(name, value)| pair(name, value)).collect()
}

#[test]
fn resolves_names_to_the_functions_they_lead_to() {
    let known = texts(&["describe", "it"]);
    let found = resolve_aliases(
        &bindings(&[("b", "a"), ("a", "describe"), ("x", "y"), ("a", "it"), ("t", "it")]),
        &known,
    );
    assert_eq!(found, bindings(&[("b", "describe"), ("a", "describe"), ("t", "it")]));
    assert!(resolve_aliases(&bindings(&[("a", "b"), ("b", "a")]), &known).is_empty());
    assert!(resolve_aliases(&bindings(&[("a", "it")]), &vec![]).is_empty());

    // One link more than the bound is one too many.
    let mut chain: Vec<(String, String)> =
        (0..=MAX_LINKS).map(|i| (format!("a{i}"), format!("a{}", i + 1))).collect();
    chain.push(pair(&format!("a{}", MAX_LINKS + 1), "it"));
    let found = resolve_aliases(&chain, &known);
    assert!(found.iter().all(|(name, _)| name != "a0"));
    assert_eq!(found[0], pair("a1", "it"));
    assert_eq!(found.len(), MAX_LINKS + 1);
}

#[test]
fn writes_the_names_of_functions_in() {
    let known = texts(&["it", "describe"]);
    let aliases = bindings(&[("t$", "it"), ("d", "describe"), ("a\"b", "it")]);
    assert_eq!(
        expand(Dialect::Query, "(#any-of? @f \"{it}\" \"{describe}\")", &known, &aliases),
        "(#any-of? @f \"it\" \"t$\" \"describe\" \"d\")"
    );
    assert_eq!(expand(Dialect::Pattern, "(?:{it}|x)", &known, &aliases), "(?:it|t\\$|x)");
    assert_eq!(expand(Dialect::Pattern, "{it}{none}", &known, &vec![]), "it{none}");
}

#[test]
fn lexical_refuses_to_load_alias_patterns() {
    for pattern in [r"const (?<name>\w+)", r"(?<value>\w+)", r"(?<name>[)(?<value>x)"] {
        let mut profile = ts_profile();
        profile.alias = Some(Opener { open: pattern.to_string() });
        let err = try_lexical(profile).unwrap_err();
        assert!(err.to_string().contains("[lexical.alias]"), "{err:?}");
    }
}

const TITLE_POOL: &[char] = &[
    'a', 'B', '3', ' ', '_', '"', '\'', '\\', '{', '}', '(', ')', '.', '$', 'é', '\u{2028}',
];

fn title(rng: &mut Rng) -> String {
    (0..rng.below(12)).map(|_| TITLE_POOL[rng.below(TITLE_POOL.len())]).collect()
}

/// A title as a JS string literal, randomly single- or double-quoted.
fn title_literal(rng: &mut Rng, t: &str) -> String {
    if rng.below(4) == 0 {
        let escaped = t
            .replace('\\', "\\\\")
            .replace('\'', "\\'")
            .replace('\u{2028}', "\\u2028");
        format!("'{escaped}'")
    } else {
        let escaped = t
            .replace('\\', "\\\\")
            .replace('"', "\\\"")
            .replace('\u{2028}', "\\u2028");
        format!("\"{escaped}\"")
    }
}

/// Comment trivia legally allowed between an opener's tokens.
fn trivia(rng: &mut Rng) -> &'static str {
    ["", "", "", "/* trivia */"][rng.below(4)]
}

struct Receivers {
    tests: Vec<String>,
    blocks: Vec<String>,
    each: Vec<String>,
}

fn one_of(rng: &mut Rng, items: &[String]) -> String {
    items[rng.below(items.len())].clone()
}

fn ts_items(rng: &mut Rng, depth: usize, receivers: &Receivers, out: &mut String) {
    let indent = "  ".repeat(depth + 1);
    for _ in 0..=rng.below(3) {
        match rng.below(if depth < 3 { 10 } else { 8 }) {
            0 => {
                let m = rng.pick(&["", ".only", ".skip", ".todo"]);
                let (tr, name) = (trivia(rng), title(rng));
                let receiver = one_of(rng, &receivers.tests);
                let text = title_literal(rng, &name);
                out.push_str(&format!(
                    "{indent}{receiver}{m}{tr}({text}, () => {{ expect(1).toBe(1); }});\n"
                ));
            }
            1 => {
                let (tr, name) = (trivia(rng), title(rng));
                let receiver = one_of(rng, &receivers.tests);
                let text = title_literal(rng, &name);
                out.push_str(&format!("{indent}{receiver}{tr}({text}, () => {{}});\n"));
            }
            2 => {
                let name = title(rng);
                let text = title_literal(rng, &name);
                out.push_str(&format!("{indent}// it({text}, () => {{ decoy\n"));
            }
            3 => out.push_str(&format!(
                "{indent}const s{} = \"describe(\\\"decoy\\\", () => {{{{\";\n",
                rng.below(1000)
            )),
            4 => {
                let receiver = one_of(rng, &receivers.each);
                let name = title(rng);
                let tagged = rng.below(2) != 0;
                let text = title_literal(rng, &name);
                if tagged {
                    out.push_str(&format!(
                        "{indent}{receiver}.each`value | expected\n1 | 1`({text}, () => {{}});\n"
                    ));
                } else {
                    out.push_str(&format!(
                        "{indent}{receiver}.each([[1], [2]])({text}, () => {{}});\n"
                    ));
                }
            }
            5 => {
                let alias = format!("local_alias_{}", rng.below(1000));
                let target = rng.pick(&["it", "test", "describe"]);
                out.push_str(&format!(
                    "{indent}function bind_{alias}() {{ const {alias} = {target}; {alias}(\"ignored\", () => {{}}); }}\n"
                ));
            }
            6 => {
                let alias = format!("loop_alias_{}", rng.below(1000));
                let target = rng.pick(&["it", "test", "describe"]);
                out.push_str(&format!(
                    "{indent}for (const {alias} = {target}; false;) {{ {alias}(\"ignored\", () => {{}}); }}\n"
                ));
            }
            _ => {
                let f = one_of(rng, &receivers.blocks);
                let (tr, name) = (trivia(rng), title(rng));
                let text = title_literal(rng, &name);
                out.push_str(&format!("{indent}{f}{tr}({text}, () => {{\n"));
                ts_items(rng, depth + 1, receivers, out);
                out.push_str(&format!("{indent}}});\n"));
            }
        }
    }
}

fn ts_file(rng: &mut Rng) -> String {
    let mut out = String::from("import { describe, it } from \"vitest\";\n");
    let mut receivers = Receivers {
        tests: texts(&["it", "test"]),
        blocks: texts(&["describe", "suite", "describe.only", "test.describe"]),
        each: texts(&["it", "test", "describe"]),
    };
    for group in 0..rng.below(3) {
        let base = rng.pick(&["it", "test", "describe"]);
        let chain_len = 1 + rng.below(3);
        let mut value = base.to_string();
        for link in 0..chain_len {
            let alias = format!("alias_{group}_{link}");
            let export = if rng.below(4) == 0 { "export " } else { "" };
            let binding = rng.pick(&["const", "let", "var"]);
            out.push_str(&format!("{export}{binding} {alias} = {value};\n"));
            value = alias;
        }
        receivers.each.push(value.clone());
        if matches!(base, "it" | "test") {
            receivers.tests.push(value);
        } else {
            receivers.blocks.push(value);
        }
    }
    for _ in 0..=rng.below(2) {
        let name = title(rng);
        let text = title_literal(rng, &name);
        out.push_str(&format!("describe({text}, () => {{\n"));
        ts_items(rng, 0, &receivers, &mut out);
        out.push_str("});\n");
    }
    out
}

#[test]
fn emits_aliases_and_parameterized_tests() {
    let mut alias_files: usize = 0;
    let mut curried_each_files: usize = 0;
    let mut tagged_each_files: usize = 0;
    let mut aliased_each_files: usize = 0;
    for seed in 0..64u64 {
        let mut rng = Rng(seed.wrapping_mul(0x9E37_79B9_7F4A_7C15) | 1);
        let source = ts_file(&mut rng);
        alias_files += usize::from(source.lines().any(|line| {
            !line.starts_with(' ')
                && line.split_ascii_whitespace().any(|word| word.starts_with("alias_"))
        }));
        curried_each_files += usize::from(source.contains(".each([["));
        tagged_each_files += usize::from(source.contains(".each`"));
        aliased_each_files += usize::from(
            source
                .lines()
                .any(|line| line.trim_start().starts_with("alias_") && line.contains(".each")),
        );
    }
    assert!(alias_files > 0, "generator emitted no alias declarations");
    assert!(curried_each_files > 0, "generator emitted no curried .each calls");
    assert!(tagged_each_files > 0, "generator emitted no tagged .each calls");
    assert!(aliased_each_files > 0, "generator emitted no aliased .each calls");
}

/// Extract the generated files of some seeds with both backends; panic with the
/// source on any divergence. Each file costs a compilation of the native
/// queries, so the seeds from 0 to 120 are shared out among several tests.
fn assert_no_divergence(seeds: std::ops::Range<u64>) {
    let (native_p, lexical_p) = (ts_pack(), lexical_pack());
    for seed in seeds {
        let mut rng = Rng(seed.wrapping_mul(0x9E37_79B9_7F4A_7C15) | 1);
        let source = ts_file(&mut rng);
        let native = extract::extract_with_findings(&native_p, "map.test.ts", &source)
            .unwrap_or_else(|e| panic!("seed {seed}: native failed: {e:?}\n---\n{source}"));
        let lexical = extract::extract_with_findings(&lexical_p, "map.test.ts", &source)
            .unwrap_or_else(|e| panic!("seed {seed}: lexical failed: {e:?}\n---\n{source}"));
        assert_eq!(native.nodes, lexical.nodes, "seed {seed} diverged\n---\n{source}");
        assert_eq!(native.unsupported, lexical.unsupported, "seed {seed} diverged\n---\n{source}");
    }
}

#[test]
fn never_diverges_from_the_native_extraction() {
    assert_no_divergence(0..15);
}

#[test]
fn never_diverges_in_the_second_share_of_files() {
    assert_no_divergence(15..30);
}

#[test]
fn never_diverges_in_the_third_share_of_files() {
    assert_no_divergence(30..45);
}

#[test]
fn never_diverges_in_the_fourth_share_of_files() {
    assert_no_divergence(45..60);
}

#[test]
fn never_diverges_in_the_fifth_share_of_files() {
    assert_no_divergence(60..75);
}

#[test]
fn never_diverges_in_the_sixth_share_of_files() {
    assert_no_divergence(75..90);
}

#[test]
fn never_diverges_in_the_seventh_share_of_files() {
    assert_no_divergence(90..105);
}

#[test]
fn never_diverges_in_the_eighth_share_of_files() {
    assert_no_divergence(105..120);
}
