//! Adding a pack to a project.

use btt::mapping::Mapping;
use btt::pack::{
    default_indent, load_dir, parse_grammar_source, Compat, Detect, Extract, FileRead,
    GrammarConfig, Manifest, NameSyntax, Origin, Pack, PackMeta, PackSource, Scaffold,
};
use btt::pack_add::{
    acquire, added_lines, check_inside, check_pack_dir, check_pack_file, check_source_pack,
    check_staged_pack, ensure_missing, is_confined_relative_path, is_repo_component, pack_dir,
    parse_git_source, referenced_files, staged_by, staging_pid, staging_prefix, unique_dir_name,
    Acquired,
};

fn pack(name: &str, grammar: &str) -> Pack {
    let manifest = Manifest {
        format: 1,
        pack: PackMeta {
            name: name.to_string(),
            version: "1.2.3".to_string(),
            description: "test pack".to_string(),
        },
        compat: Compat { btt: ">=0.2.0".to_string() },
        detect: Detect { extensions: vec![], targets: vec!["{stem}.rs".to_string()] },
        grammar: GrammarConfig { source: parse_grammar_source(grammar).unwrap(), symbol: None },
        extract: Extract {
            query: Some("queries/tests.scm".to_string()),
            test_requires_marker: false,
            name_syntax: NameSyntax::Raw,
            aliases: vec![],
            alias_query: None,
        },
        mapping: Mapping::default(),
        scaffold: Scaffold {
            template: "templates/test.jinja".to_string(),
            output: "{stem}.rs".to_string(),
            indent: default_indent(),
        },
        lexical: None,
    };
    let read = |place: &str, text: &str| FileRead::Text {
        place: place.to_string(),
        text: text.to_string(),
    };
    let source = PackSource {
        origin: Origin::Builtin,
        root: "/source".to_string(),
        manifest,
        query: read("/source/queries/tests.scm", "(function_item) @test"),
        template: read("/source/templates/test.jinja", "{{ events }}"),
        wasm_grammar: None,
    };
    load_dir("/source", source, "0.2.0").unwrap()
}

#[test]
fn pack_add_copies_only_the_manifest_closure() {
    let demo = pack("demo", "builtin:rust");
    assert_eq!(
        referenced_files(&demo.manifest),
        ["pack.toml", "queries/tests.scm", "templates/test.jinja"]
    );
    let added = check_staged_pack(&demo, "demo", "/project/.btt/packs/demo").unwrap();
    assert_eq!(added.name, "demo");
    assert_eq!(added.version, "1.2.3");
    assert_eq!(added.path, "/project/.btt/packs/demo");
    assert_eq!(
        added_lines(&added),
        [
            "added demo v1.2.3 to /project/.btt/packs/demo",
            "activate it by adding \"demo\" to [project].packs in btt.toml"
        ]
    );
}

#[test]
fn refuses_to_replace_an_existing_pack() {
    let error = ensure_missing("/project/.btt/packs/demo", true).unwrap_err();
    assert!(error.contains("already exists"), "{error}");
    ensure_missing("/project/.btt/packs/demo", false).unwrap();
}

#[test]
fn sweeps_staging_left_by_interrupted_runs() {
    assert_eq!(staged_by(".pack-add-old-4294967295-0"), Some(u32::MAX));
    assert_eq!(staged_by("pack-add-old-1-0"), None);
    assert_eq!(staging_pid("nothing"), None);
    assert_eq!(staging_pid("a-4294967296-0"), None);
    assert_eq!(staging_pid("a-+7-0"), Some(7));
    assert_eq!(staging_pid("a-x7-0"), None);
    let name = unique_dir_name(&staging_prefix("my-pack"), 4321, 17);
    assert_eq!(name, ".pack-add-my-pack-4321-17");
    assert_eq!(staged_by(&name), Some(4321));
}

#[test]
fn refuses_to_write_outside_the_packs_directory() {
    let error = check_source_pack(&pack("../escape", "builtin:rust")).unwrap_err();
    assert!(error.contains("one non-hidden"), "{error}");
    assert_eq!(check_source_pack(&pack("demo", "builtin:rust")).unwrap(), "demo");
}

#[test]
fn refuses_a_pack_whose_grammar_file_is_missing() {
    let error = check_source_pack(&pack("demo", "wasm:grammar.wasm")).unwrap_err();
    assert!(error.contains("missing or unreadable"), "{error}");
    let error = check_staged_pack(&pack("demo", "wasm:grammar.wasm"), "demo", "/t").unwrap_err();
    assert!(error.contains("missing or unreadable"), "{error}");
    let error = check_staged_pack(&pack("demo", "builtin:rust"), "other", "/t").unwrap_err();
    assert!(error.contains("changed while"), "{error}");
}

#[test]
fn rejects_paths_outside_the_source() {
    let error = pack_dir("/source", Some("../outside")).unwrap_err();
    assert!(error.contains("--dir"), "{error}");
    for bad in ["", ".", "/abs", "a/../b", "a\\b"] {
        assert!(!is_confined_relative_path(bad), "{bad}");
    }
    assert_eq!(pack_dir("/source", Some("packs/python")).unwrap(), "/source/packs/python");
    assert_eq!(pack_dir("/source", None).unwrap(), "/source");
    assert!(check_pack_dir("/else", "/source", true).unwrap_err().contains("outside the source"));
    assert!(check_pack_dir("/source/a", "/source", false).unwrap_err().contains("not a directory"));
    check_pack_dir("/source/a", "/source", true).unwrap();
}

#[test]
fn refuses_to_write_outside_the_project() {
    let error = check_inside("/outside", "/project", "/project/.btt/packs").unwrap_err();
    assert!(error.contains("outside the project"), "{error}");
    check_inside("/project/.btt/packs", "/project", "x").unwrap();
}

#[test]
fn copies_regular_files_of_the_pack_alone() {
    let error = check_pack_file("/s/f", false, "/s/f", "/s").unwrap_err();
    assert!(error.contains("not a regular file"), "{error}");
    let error = check_pack_file("/s/f", true, "/else/f", "/s").unwrap_err();
    assert!(error.contains("resolves outside"), "{error}");
    check_pack_file("/s/f", true, "/s/f", "/s").unwrap();
}

#[test]
fn refuses_a_local_path_when_git_is_forced() {
    let error = acquire("/tmp/source", true, true).unwrap_err();
    assert!(error.contains("does not exist"), "{error}");
    assert!(matches!(acquire("/tmp/source", true, false), Ok(Acquired::Local(p)) if p == "/tmp/source"));
    assert!(matches!(acquire("a/b", true, true), Ok(Acquired::Clone(u)) if u == "https://github.com/a/b.git"));
}

#[test]
fn expands_a_github_shorthand() {
    assert_eq!(
        parse_git_source("example/btt-packs").unwrap(),
        "https://github.com/example/btt-packs.git"
    );
}

#[test]
fn keeps_an_existing_git_suffix() {
    assert_eq!(
        parse_git_source("example/btt-packs.git").unwrap(),
        "https://github.com/example/btt-packs.git"
    );
}

#[test]
fn rejects_an_unknown_source() {
    let error = parse_git_source("not-a-path-or-url").unwrap_err();
    assert!(error.contains("does not exist"), "{error}");
}

#[test]
fn passes_urls_through() {
    for url in ["https://h/r", "ssh://h/r", "git://h/r", "file:///r", "git@host:path"] {
        assert_eq!(parse_git_source(url).unwrap(), url);
    }
    for bad in ["host:path", "@:", "a/b/c", "./x", "../x", "a/", "http://h/r"] {
        assert!(parse_git_source(bad).is_err(), "{bad}");
    }
    assert!(is_repo_component("a-b_c.d"));
    assert!(!is_repo_component("a b"));
}
