//! What an install copies, records, replaces and removes.

use btt::dates::rfc3339_utc;
use btt::error::Error;
use btt::index::{generate_index, index_candidates, index_text, IndexSource};
use btt::install::{
    check_bytes, check_place, check_size, clone_args, closure, commit, descends, discover,
    file_digests, hex, is_leftover, is_staging_suffix, remove, sha256_hex, source_manifest, stage,
    staging_dir, verify_curated, write_receipt, Checkout, CommitPlan, IndexEntry, Installed,
    Provenance, SourceRead, Staged, MAX_TEXT_BYTES, MAX_WASM_BYTES, RECEIPT_FILE,
};
use btt::mapping::Mapping;
use btt::pack::{
    default_indent, load_dir, parse_grammar_source, Compat, Detect, Extract, FileRead,
    GrammarConfig, GrammarSource, Lexical, Manifest, NameSyntax, Opener, Origin, Pack, PackMeta,
    PackSource, Scaffold,
};

const VERSION: &str = "0.2.0";

fn manifest(name: &str, grammar: &str) -> Manifest {
    let source = parse_grammar_source(grammar).unwrap();
    let lexical = matches!(source, GrammarSource::Lexical);
    Manifest {
        format: 1,
        pack: PackMeta {
            name: name.to_string(),
            version: "0.0.1".to_string(),
            description: "test fixture pack".to_string(),
        },
        compat: Compat { btt: ">=0.2.0".to_string() },
        detect: Detect { extensions: vec![], targets: vec!["{stem}.rs".to_string()] },
        grammar: GrammarConfig { source, symbol: None },
        extract: Extract {
            query: if lexical { None } else { Some("queries/tests.scm".to_string()) },
            test_requires_marker: false,
            name_syntax: NameSyntax::Raw,
            aliases: vec![],
            alias_query: None,
        },
        mapping: Mapping::default(),
        scaffold: Scaffold {
            template: "templates/test.jinja".to_string(),
            output: "{stem}.rs".to_string(),
            indent: default_indent(),
        },
        lexical: if lexical {
            Some(Lexical {
                line_comment: None,
                block_comment: None,
                strings: vec![],
                nest: vec![("(".to_string(), ")".to_string())],
                block: Opener { open: r"(?<kw>x)(?<name>y)\(".to_string() },
                test: Opener { open: r"(?<kw>y)(?<name>z)\(".to_string() },
                unsupported: None,
                alias: None,
            })
        } else {
            None
        },
    }
}

fn text(place: &str, text: &str) -> FileRead {
    FileRead::Text { place: place.to_string(), text: text.to_string() }
}

fn loaded(name: &str, grammar: &str, blob: usize) -> Pack {
    let root = "/packs/staged";
    let source = PackSource {
        origin: Origin::Builtin,
        root: root.to_string(),
        manifest: manifest(name, grammar),
        query: text("/packs/staged/queries/tests.scm", "; query\n"),
        template: text("/packs/staged/templates/test.jinja", "// template\n"),
        wasm_grammar: if blob > 0 {
            Some(("/packs/staged/grammar.wasm".to_string(), vec![0u8; blob]))
        } else {
            None
        },
    };
    load_dir(root, source, VERSION).unwrap()
}

fn contents() -> Vec<Vec<u8>> {
    vec![b"manifest".to_vec(), b"; query\n".to_vec(), b"// template\n".to_vec()]
}

fn staged() -> Staged {
    stage("/packs", "12-0", loaded("fixture", "builtin:rust", 0), &contents()).unwrap()
}

fn provenance() -> Provenance {
    Provenance { source: "path".to_string(), url: None, reference: None, commit: None }
}

fn rels(staged: &Staged) -> Vec<&str> {
    staged.files.iter().map(|f| f.rel.as_str()).collect()
}

#[test]
fn renders_the_unix_epoch() {
    assert_eq!(rfc3339_utc(0), "1970-01-01T00:00:00Z");
}

#[test]
fn renders_a_modern_date_with_time_of_day() {
    // 2026-08-23 12:34:56 UTC
    assert_eq!(rfc3339_utc(1_787_488_496), "2026-08-23T12:34:56Z");
}

#[test]
fn renders_a_leap_day() {
    // 2024-02-29 00:00:00 UTC
    assert_eq!(rfc3339_utc(1_709_164_800), "2024-02-29T00:00:00Z");
}

#[test]
fn renders_the_ends_of_years() {
    assert_eq!(rfc3339_utc(946_684_799), "1999-12-31T23:59:59Z");
    assert_eq!(rfc3339_utc(946_684_800), "2000-01-01T00:00:00Z");
    assert_eq!(rfc3339_utc(4_107_542_399), "2100-02-28T23:59:59Z");
    assert_eq!(rfc3339_utc(4_107_542_400), "2100-03-01T00:00:00Z");
    assert_eq!(rfc3339_utc(u64::MAX), "1970-01-01T00:00:00Z");
}

#[test]
fn lists_the_manifest_query_and_template() {
    let files: Vec<String> = closure(&manifest("fixture", "builtin:rust"))
        .into_iter()
        .map(|(rel, _)| rel)
        .collect();
    assert_eq!(files, ["pack.toml", "queries/tests.scm", "templates/test.jinja"]);
}

#[test]
fn includes_a_wasm_grammar_file() {
    let files = closure(&manifest("fixture", "wasm:grammar.wasm"));
    assert_eq!(files.last().unwrap().0, "grammar.wasm");
    assert_eq!(files.last().unwrap().1, MAX_WASM_BYTES);
}

#[test]
fn omits_the_query_for_a_lexical_pack() {
    let files: Vec<String> = closure(&manifest("fixture", "lexical"))
        .into_iter()
        .map(|(rel, _)| rel)
        .collect();
    assert_eq!(files, ["pack.toml", "templates/test.jinja"]);
}

#[test]
fn accepts_a_pid_seq_tag() {
    assert!(is_staging_suffix("12345-0"));
    assert!(is_staging_suffix("1-999"));
}

#[test]
fn rejects_a_dotted_pack_name_tail() {
    // `bar.7-1` is the tail of a concurrent `foo.bar` staging dir
    // seen through the `foo.` prefix — must not be swept.
    assert!(!is_staging_suffix("bar.7-1"));
    assert!(!is_staging_suffix("7"));
    assert!(!is_staging_suffix("-1"));
    assert!(!is_staging_suffix("1-"));
    assert!(!is_staging_suffix("7-1-2"));
}

#[test]
fn sweeps_leftovers_of_the_same_pack_alone() {
    assert!(is_leftover("foo.7-1", "foo"));
    assert!(!is_leftover("foo.bar.7-1", "foo"));
    assert!(is_leftover("foo.bar.7-1", "foo.bar"));
    assert!(!is_leftover("foo", "foo"));
}

#[test]
fn install_copies_only_the_manifest_closure() {
    assert_eq!(
        rels(&staged()),
        ["pack.toml", "queries/tests.scm", "templates/test.jinja"]
    );
}

#[test]
fn names_the_staging_dir_after_the_manifest_name() {
    let staged = staged();
    assert_eq!(staged.dir(), "/packs/.staging/fixture.12-0");
    assert_eq!(staging_dir("/packs", "fixture", "12-0"), staged.dir());
}

#[test]
fn validates_the_staged_copy_with_the_loader() {
    let staged = staged();
    assert_eq!(staged.pack.name(), "fixture");
    assert_eq!(staged.name(), "fixture");
    assert_eq!(staged.pack.query, "; query\n");
}

#[test]
fn install_refuses_the_install() {
    // A link, and a link to a directory on the way, are refused.
    let path = "/src/templates/test.jinja";
    for (regular, place) in [(false, path), (true, "/outside/test.jinja")] {
        let err = check_place(path, regular, place, "/src").unwrap_err();
        assert!(matches!(err, Error::InstallUnsafeFile { .. }), "{err:?}");
    }
    check_place(path, true, path, "/src").unwrap();
}

#[test]
fn install_refuses_the_install_of_a_large_file() {
    let path = "/src/templates/test.jinja";
    let err = check_size(path, true, MAX_TEXT_BYTES + 1, MAX_TEXT_BYTES).unwrap_err();
    assert!(matches!(err, Error::InstallTooLarge { .. }), "{err:?}");
    check_size(path, true, MAX_TEXT_BYTES, MAX_TEXT_BYTES).unwrap();
    let err = check_size(path, false, 0, MAX_TEXT_BYTES).unwrap_err();
    assert!(matches!(err, Error::InstallUnsafeFile { .. }), "{err:?}");
    let err = check_bytes(path, vec![0; 5], 4).unwrap_err();
    assert!(matches!(err, Error::InstallTooLarge { size: 5, limit: 4, .. }), "{err:?}");
    assert_eq!(check_bytes(path, vec![7; 4], 4).unwrap(), vec![7; 4]);
}

#[test]
fn install_refuses_the_install_of_an_unsafe_name() {
    for name in ["a/b", "../evil", ".", ".staging", ".trash"] {
        let read = SourceRead::Parsed(manifest(name, "builtin:rust"));
        let err = source_manifest("/src", read, VERSION).unwrap_err();
        assert!(matches!(err, Error::UnsafePath { .. }), "{name}: {err:?}");
    }
    let read = SourceRead::Parsed(manifest("fixture", "builtin:rust"));
    assert_eq!(source_manifest("/src", read, VERSION).unwrap().pack.name, "fixture");
}

#[test]
fn refuses_a_source_without_a_manifest() {
    let err = source_manifest("/src", SourceRead::NotText, VERSION).unwrap_err();
    assert!(matches!(err, Error::PackFile { .. }), "{err:?}");
    let read = SourceRead::Malformed("expected a table".to_string());
    let err = source_manifest("/src", read, VERSION).unwrap_err();
    assert!(err.to_string().contains("expected a table"), "{err:?}");
    let mut old = manifest("fixture", "builtin:rust");
    old.format = 9;
    assert!(source_manifest("/src", SourceRead::Parsed(old), VERSION).is_err());
}

#[test]
fn installs_under_the_manifest_name() {
    match commit(&staged(), false, false, "12-1").unwrap() {
        CommitPlan::Move { from, to } => {
            assert_eq!(from, "/packs/.staging/fixture.12-0");
            assert_eq!(to, "/packs/fixture");
        }
        plan => panic!("{plan:?}"),
    }
}

#[test]
fn writes_a_receipt_with_file_digests() {
    let staged = staged();
    let receipt = write_receipt(&staged, &provenance(), 0, VERSION);
    assert_eq!(RECEIPT_FILE, "receipt.toml");
    assert_eq!(receipt.install.source, "path");
    assert_eq!(receipt.install.installed_by, "btt 0.2.0");
    assert_eq!(receipt.install.date, "1970-01-01T00:00:00Z");
    let digests = file_digests(&staged.pack.manifest, &contents()).unwrap();
    assert_eq!(receipt.files.len(), digests.len());
    for (file, digest) in digests.iter().zip(&receipt.files) {
        assert_eq!(digest.0, file.rel);
        assert_eq!(digest.1, format!("sha256:{}", file.sha256));
    }
}

#[test]
fn hashes_with_sha_256() {
    assert_eq!(
        sha256_hex(b"abc"),
        "ba7816bf8f01cfea414140de5dae2223b00361a396177a9cb410ff61f20015ad"
    );
    assert_eq!(
        sha256_hex(b""),
        "e3b0c44298fc1c149afbf4c8996fb92427ae41e4649b934ca495991b7852b855"
    );
    assert_eq!(hex(&[0, 15, 16, 255]), "000f10ff");
}

#[test]
fn refuses_without_force() {
    let err = commit(&staged(), true, false, "12-1").unwrap_err();
    assert!(matches!(err, Error::AlreadyInstalled { .. }), "{err:?}");
}

#[test]
fn swaps_atomically_with_force() {
    match commit(&staged(), true, true, "12-1").unwrap() {
        CommitPlan::Swap { from, to, trash } => {
            assert_eq!(from, "/packs/.staging/fixture.12-0");
            assert_eq!(to, "/packs/fixture");
            assert_eq!(trash, "/packs/.trash/fixture.12-1");
        }
        plan => panic!("{plan:?}"),
    }
}

fn entry_for(staged: &Staged) -> IndexEntry {
    IndexEntry {
        name: staged.name().to_string(),
        kind: "builtin".to_string(),
        description: String::new(),
        dir: "packs-extra/fixture".to_string(),
        files: staged
            .files
            .iter()
            .map(|f| (f.rel.clone(), format!("sha256:{}", f.sha256)))
            .collect(),
    }
}

#[test]
fn accepts_matching_digests() {
    let staged = staged();
    verify_curated(&staged, &entry_for(&staged)).unwrap();
}

#[test]
fn rejects_a_tampered_file() {
    let staged = staged();
    let mut entry = entry_for(&staged);
    entry.files[1].1 = "sha256:doctored".to_string();
    match verify_curated(&staged, &entry).unwrap_err() {
        Error::DigestMismatch { name, file } => {
            assert_eq!(name, "fixture");
            assert_eq!(file, "queries/tests.scm");
        }
        err => panic!("{err:?}"),
    }
}

#[test]
fn rejects_missing_and_additional_files() {
    let staged = staged();
    let mut entry = entry_for(&staged);
    entry.files.pop();
    match verify_curated(&staged, &entry).unwrap_err() {
        Error::DigestMismatch { file, .. } => assert_eq!(file, "templates/test.jinja"),
        err => panic!("{err:?}"),
    }
    let mut entry = entry_for(&staged);
    entry.files.push(("zzz".to_string(), "sha256:00".to_string()));
    match verify_curated(&staged, &entry).unwrap_err() {
        Error::DigestMismatch { file, .. } => assert_eq!(file, "zzz"),
        err => panic!("{err:?}"),
    }
}

#[test]
fn still_verifies() {
    // A receipt is no part of the closure that is verified.
    let staged = staged();
    let _receipt = write_receipt(&staged, &provenance(), 1, VERSION);
    verify_curated(&staged, &entry_for(&staged)).unwrap();
}

#[test]
fn clones_resolves_and_stages_the_pack() {
    assert_eq!(
        clone_args("file:///repo", None, "/tmp/x"),
        ["clone", "--quiet", "--depth", "1", "--", "file:///repo", "/tmp/x"]
    );
    assert_eq!(
        clone_args("u", Some("v1"), "d"),
        ["clone", "--quiet", "--depth", "1", "--branch", "v1", "--", "u", "d"]
    );
    let checkout = Checkout { dir: "/tmp/x".to_string(), commit: "c".to_string() };
    let files: Vec<String> = ["/tmp/x/mypack/pack.toml", "/tmp/x/README.md", "/tmp/x/a/pack.toml"]
        .iter()
        .map(|f| f.to_string())
        .collect();
    assert_eq!(checkout.dir(), "/tmp/x");
    assert_eq!(discover(&files), ["/tmp/x/a", "/tmp/x/mypack"]);
    assert!(descends(0, ".hidden"));
    assert!(!descends(1, ".git"));
    assert!(descends(1, "packs"));
}

fn directory(place: &str, root: &str) -> Installed {
    Installed::Directory { place: Ok(place.to_string()), root: Ok(root.to_string()) }
}

#[test]
fn deletes_the_pack_directory() {
    let found = directory("/real/packs/fixture", "/real/packs");
    assert_eq!(remove("/packs", "fixture", &found).unwrap(), "/packs/fixture");
}

#[test]
fn refuses_a_name_with_path_separators() {
    for name in ["../fixture", "a/b", "/abs", ".."] {
        let err = remove("/packs", name, &directory("/packs/x", "/packs")).unwrap_err();
        assert!(matches!(err, Error::UnsafePath { .. }), "{name}: {err:?}");
    }
}

#[test]
fn refuses_a_symlinked_entry() {
    let err = remove("/packs", "linked", &Installed::Symlink).unwrap_err();
    assert!(matches!(err, Error::NotRemovable { .. }), "{err:?}");
}

#[test]
fn refuses_a_missing_pack() {
    let err = remove("/packs", "no-such-pack", &Installed::Missing).unwrap_err();
    assert!(matches!(err, Error::NotRemovable { .. }), "{err:?}");
    assert!(err.to_string().contains("not installed here"), "{err:?}");
}

#[test]
fn refuses_to_remove_anything_else() {
    let err = remove("/packs", "file", &Installed::Other).unwrap_err();
    assert!(err.to_string().contains("not a directory"), "{err:?}");
    let err = remove("/packs", "x", &directory("/elsewhere/x", "/packs")).unwrap_err();
    assert!(err.to_string().contains("outside the packs directory"), "{err:?}");
    let found = Installed::Directory { place: Err("gone".to_string()), root: Ok("/p".to_string()) };
    assert!(matches!(remove("/packs", "x", &found).unwrap_err(), Error::Io { .. }));
}

fn index_source(name: &str, grammar: &str) -> IndexSource {
    let manifest = manifest(name, grammar);
    let blobs: Vec<Vec<u8>> = closure(&manifest).iter().map(|(f, _)| f.clone().into_bytes()).collect();
    let digests = file_digests(&manifest, &blobs).unwrap();
    IndexSource { manifest: Ok(manifest), digests: Ok(digests) }
}

fn paths(items: &[&str]) -> Vec<String> {
    items.iter().map(|p| p.to_string()).collect()
}

#[test]
fn skips_packs_whose_closure_is_not_fully_tracked() {
    let versioned = paths(&[
        "packs/rust/pack.toml",
        "packs-lexical/rust/pack.toml",
        "packs-lexical/rust/templates/test.jinja",
        "packs-wasm/rust/pack.toml",
        "packs-wasm/rust/queries/tests.scm",
        "packs-wasm/rust/templates/test.jinja",
        "pack.toml",
        "a/b/c/pack.toml",
    ]);
    assert_eq!(
        index_candidates(&versioned),
        ["packs-lexical/rust/pack.toml", "packs-wasm/rust/pack.toml"]
    );
    let sources = vec![index_source("lex", "lexical"), index_source("rust", "wasm:grammar.wasm")];
    let (index, skipped) = generate_index(&versioned, &sources, "test-tag").unwrap();
    assert_eq!(index.tag, "test-tag");
    assert_eq!(index.packs.len(), 1);
    assert_eq!(index.packs[0].name, "lex");
    assert_eq!(index.packs[0].kind, "lexical");
    assert_eq!(index.packs[0].dir, "packs-lexical/rust");
    assert_eq!(index.packs[0].files[0].0, "pack.toml");
    assert_eq!(
        skipped,
        ["packs-wasm/rust: closure not fully tracked by git (grammar.wasm)"]
    );
    assert!(index_text("tag = 1\n").ends_with("\n\ntag = 1\n"));
}

#[test]
fn refuses_two_curated_packs_of_one_name() {
    let versioned = paths(&[
        "a/x/pack.toml",
        "a/x/templates/test.jinja",
        "a/y/pack.toml",
        "a/y/templates/test.jinja",
        "a/z/pack.toml",
    ]);
    let broken = IndexSource {
        manifest: Err(Error::PackNotFound { name: "q".to_string(), builtins: vec![] }),
        digests: Ok(vec![]),
    };
    let sources = vec![index_source("same", "lexical"), index_source("same", "lexical"), broken];
    match generate_index(&versioned, &sources, "t").unwrap_err() {
        Error::DigestMismatch { name, file } => {
            assert_eq!(name, "same");
            assert_eq!(file, "duplicate curated name (also a/x)");
        }
        err => panic!("{err:?}"),
    }
}

#[test]
fn stages_a_grammar_blob_larger_than_the_text_cap() {
    let blob = usize::try_from(MAX_TEXT_BYTES).unwrap() + 4096;
    let pack = loaded("wasmpack", "wasm:grammar.wasm", blob);
    let mut contents = contents();
    contents.push(vec![0u8; blob]);
    let staged = stage("/packs", "1-1", pack, &contents).unwrap();
    let file = staged.files.iter().find(|f| f.rel == "grammar.wasm").unwrap();
    assert_eq!(file.size, blob as u64);
}

#[test]
fn stages_only_the_manifest_and_template() {
    let contents = vec![b"m".to_vec(), b"t".to_vec()];
    let staged = stage("/packs", "1-1", loaded("lex", "lexical", 0), &contents).unwrap();
    assert_eq!(rels(&staged), ["pack.toml", "templates/test.jinja"]);
}

#[test]
fn stages_nothing_with_a_file_too_few() {
    assert!(stage("/packs", "1-1", loaded("lex", "lexical", 0), &vec![b"m".to_vec()]).is_none());
}
