//! The decisions of the command line, and small text helpers.

use btt::commands::{
    choose_pack, default_config, governed, inactive_note, is_in_tests, plan_init, refuse_overwrite,
    scaffold_note, scaffold_path, scaffold_stem, subtree_roots, PackChoice,
};
use btt::literal::{decode_js_string, js_string, line_safe, rust_string};
use btt::pack::Origin;
use btt::paths::{comes_before, file_stem, join_path, ordered_paths, parent, relative};
use btt::todo::marks_todo;

fn texts(items: &[&str]) -> Vec<String> {
    items.iter().map(|t| t.to_string()).collect()
}

#[test]
fn chooses_the_pack_of_a_scaffold() {
    let builtins = texts(&["rust", "typescript"]);
    assert!(matches!(choose_pack(Some("x"), &vec![], &builtins), Ok(PackChoice::Resolved(n)) if n == "x"));
    assert!(matches!(choose_pack(None, &texts(&["lua"]), &builtins), Ok(PackChoice::Resolved(n)) if n == "lua"));
    assert_eq!(
        choose_pack(None, &vec![], &builtins).unwrap_err(),
        "multiple packs available (rust, typescript); pick one with --pack"
    );
    assert_eq!(
        choose_pack(None, &texts(&["a", "b"]), &builtins).unwrap_err(),
        "multiple packs configured (a, b); pick one with --pack"
    );
}

#[test]
fn places_a_scaffold() {
    assert_eq!(scaffold_stem("src/map.tree"), "map");
    assert_eq!(scaffold_path("src/map.tree", None, "{stem}.test.ts"), "src/map.test.ts");
    assert_eq!(scaffold_path("src/map.tree", Some("x.ts"), "{stem}.test.ts"), "x.ts");
    assert!(is_in_tests("a/tests/map.rs"));
    assert!(!is_in_tests("a/mytests/map.rs"));
    assert_eq!(
        scaffold_note(true, "a.rs", 2, "a.tree"),
        "merged a.rs (2 tests) from a.tree"
    );
}

#[test]
fn never_overwrites_unasked() {
    assert!(refuse_overwrite("a.rs", true, false, false).unwrap().contains("--force"));
    assert_eq!(refuse_overwrite("a.rs", true, true, false), None);
    assert_eq!(refuse_overwrite("a.rs", true, false, true), None);
    assert_eq!(refuse_overwrite("a.rs", false, false, false), None);
    let plan = plan_init(true, Some(("skill.md", true)));
    assert!(!plan.write_config && !plan.write_skill);
    let plan = plan_init(false, Some(("skill.md", false)));
    assert!(plan.write_config && plan.write_skill);
    assert_eq!(plan.lines[1], "wrote skill.md");
}

#[test]
fn notes_packs_that_are_not_named() {
    let entries = vec![
        ("lua".to_string(), Origin::Project("/p".to_string())),
        ("rust".to_string(), Origin::Builtin),
    ];
    assert_eq!(
        inactive_note(&entries).unwrap(),
        "note: ignoring lua [project] — packs are only active when btt.toml names them (packs = [...])"
    );
    assert_eq!(inactive_note(&vec![("rust".to_string(), Origin::Builtin)]), None);
}

#[test]
fn covers_every_config_in_the_project() {
    let roots = subtree_roots(
        &texts(&["/r"]),
        &texts(&["/r/web"]),
        &texts(&["/r/a", "/elsewhere", "/r"]),
        "/r",
    );
    assert_eq!(roots, ["/r", "/r/a", "/r/web"]);
    assert!(default_config().contains("packs = [\"rust\"]"));
}

#[test]
fn recognizes_markers_at_the_start_of_a_comment() {
    for line in ["// btt:todo", "  #btt:todo x", "-- btt:todo", ";btt:todo"] {
        assert!(marks_todo(line), "{line}");
    }
    for line in ["x // btt:todo", "// not btt:todo", "\"btt:todo\"", "/// btt:todo"] {
        assert!(!marks_todo(line), "{line}");
    }
}

#[test]
fn escapes_and_decodes_strings() {
    assert_eq!(js_string("a\"\\\u{2028}"), "a\\\"\\\\\\u2028");
    assert_eq!(decode_js_string("\"a\\\"\\\\\\u2028\""), "a\"\\\u{2028}");
    assert_eq!(decode_js_string("'\\x41\\u{42}\\n'"), "AB\n");
    // A sign is no digit: a malformed escape stays as it is.
    assert_eq!(decode_js_string("'\\x+f\\u+fff\\u{+f}\\u{}'"), "\\x+f\\u+fff\\u{+f}\\u{}");
    assert_eq!(line_safe("a\r\nb\u{2029}"), "a  b\\u2029");
    assert_eq!(rust_string("{\"\\}"), "{{\\\"\\\\}}");
    for text in ["", "plain", "q\"q", "b\\b", "\u{2028}\u{2029}", "tab\tnew"] {
        assert_eq!(decode_js_string(&format!("\"{}\"", js_string(text))), text);
    }
}

#[test]
fn takes_paths_apart() {
    assert_eq!(parent("a/b/c"), Some("a/b".to_string()));
    assert_eq!(parent("a"), Some(String::new()));
    assert_eq!(parent("/"), None);
    assert_eq!(file_stem("a/map.test.ts"), Some("map.test".to_string()));
    assert_eq!(join_path("a", "b"), "a/b");
    assert_eq!(join_path("a", "/b"), "/b");
    assert_eq!(relative("/r/a/b", "/r"), "a/b");
    assert_eq!(relative("/x/a", "/r"), "/x/a");
    assert!(comes_before("a/b", "a.b"));
    assert_eq!(ordered_paths(&texts(&["b", "a/c", "b", "a"])), ["a", "a/c", "b"]);
}

#[test]
fn gives_each_tree_to_its_root() {
    let trees = vec![
        ("/r/a.tree".to_string(), "/r".to_string()),
        ("/r/web/b.tree".to_string(), "/r/web".to_string()),
        ("/r/c.tree".to_string(), "/r/".to_string()),
    ];
    assert_eq!(governed(&trees, "/r"), ["/r/a.tree", "/r/c.tree"]);
    assert_eq!(governed(&trees, "/r/web"), ["/r/web/b.tree"]);
}
