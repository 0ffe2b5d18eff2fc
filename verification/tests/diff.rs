//! Comparing two versions of the specs.

use btt::diff::{compare, Rename};
use btt::revisions::{
    compare_sides, diff_exit, is_discovered_tree, parse_range, render_diff_human, summarize,
    DiffStatus,
};
use btt::tree;

#[test]
fn computes_a_structural_full_path_set_diff() {
    let old = tree::parse("suite\n└── it old\n").unwrap();
    let new = tree::parse("suite\n├── it old\n└── it added\n").unwrap();
    let changes = compare(&old, &new);
    assert_eq!(changes.added, ["suite > it added"]);
    assert!(changes.removed.is_empty());
}

#[test]
fn recognizes_only_unambiguous_same_position_sibling_renames() {
    let old = tree::parse("suite\n└── it old\n").unwrap();
    let new = tree::parse("suite\n└── it new\n").unwrap();
    let changes = compare(&old, &new);
    assert_eq!(
        changes.renamed,
        [Rename {
            from: "suite > it old".into(),
            to: "suite > it new".into()
        }]
    );

    let ambiguous_old = tree::parse("suite\n├── it one\n└── it two\n").unwrap();
    let ambiguous_new = tree::parse("suite\n├── it three\n└── it four\n").unwrap();
    assert!(compare(&ambiguous_old, &ambiguous_new).renamed.is_empty());
}

#[test]
fn keeps_additions_and_removals_separated_by_file() {
    let parsed = tree::parse("suite\n└── it behavior\n").unwrap();
    let added = compare(&[], &parsed);
    let removed = compare(&parsed, &[]);
    assert_eq!(added.added, ["suite > it behavior"]);
    assert!(added.removed.is_empty());
    assert_eq!(removed.removed, ["suite > it behavior"]);
    assert!(removed.added.is_empty());
}

fn side(files: &[(&str, &str)]) -> Vec<(String, String)> {
    files.iter().map(|(p, t)| (p.to_string(), t.to_string())).collect()
}

fn seeded() -> Vec<(String, String)> {
    side(&[
        ("deleted.tree", "deleted\n└── it gone\n"),
        ("one.tree", "suite\n└── it old\n"),
    ])
}

fn shown(old: &[(&str, &str)], new: &[(&str, &str)]) -> String {
    let results = compare_sides(&side(old), &side(new)).unwrap();
    let summary = summarize(&results);
    render_diff_human(&results, summary).join("\n")
}

#[test]
fn reports_added_removed_and_conservatively_renamed_behaviors() {
    let stdout = shown(
        &[("one.tree", "suite\n└── when context\n    └── it old\n")],
        &[("one.tree", "suite\n├── when context\n│   └── it renamed\n└── it added\n")],
    );
    assert!(
        stdout.contains("~ suite > when context > it old -> suite > when context > it renamed"),
        "{stdout}"
    );
    assert!(stdout.contains("+ suite > it added"), "{stdout}");
}

#[test]
fn reports_whole_file_additions_and_deletions() {
    let new = side(&[
        ("added.tree", "added\n└── it new\n"),
        ("one.tree", "suite\n└── it old\n"),
    ]);
    let results = compare_sides(&seeded(), &new).unwrap();
    let summary = summarize(&results);
    let stdout = render_diff_human(&results, summary).join("\n");
    assert!(
        stdout.contains("ADDED added.tree\n  + added > it new"),
        "{stdout}"
    );
    assert!(
        stdout.contains("REMOVED deleted.tree\n  - deleted > it gone"),
        "{stdout}"
    );
    assert_eq!(results[0].status, DiffStatus::Added);
    assert_eq!(results[1].status, DiffStatus::Removed);
}

fn revised() -> Vec<(String, String)> {
    side(&[
        ("deleted.tree", "deleted\n└── it gone\n"),
        ("one.tree", "suite\n└── it new\n"),
    ])
}

#[test]
fn reports_a_renamed_behavior() {
    let results = compare_sides(&seeded(), &revised()).unwrap();
    assert_eq!(summarize(&results).renamed, 1);
    assert_eq!(results[0].status, DiffStatus::Changed);
    assert_eq!(results[0].changes.renamed[0].from, "suite > it old");
}

#[test]
fn returns_one_with_exit_code_when_differences_exist() {
    let results = compare_sides(&seeded(), &revised()).unwrap();
    assert_eq!(diff_exit(true, &results), 1);
    assert_eq!(diff_exit(false, &results), 0);
}

#[test]
fn returns_zero_for_identical_revisions() {
    let results = compare_sides(&revised(), &revised()).unwrap();
    assert_eq!(diff_exit(true, &results), 0);
    let summary = summarize(&results);
    assert!(render_diff_human(&results, summary)
        .join("\n")
        .contains("0 tree file(s) changed"));
}

#[test]
fn names_the_side_that_does_not_parse() {
    let good = side(&[("a.tree", "a\n└── it works\n")]);
    let bad = side(&[("a.tree", "a\n└── nonsense\n")]);
    let error = compare_sides(&good, &bad).unwrap_err();
    assert!(error.contains("parsing a.tree on new side"), "{error}");
}

#[test]
fn reads_revision_ranges() {
    assert_eq!(parse_range("main"), Ok(("main".to_string(), None)));
    assert_eq!(parse_range("a..b"), Ok(("a".to_string(), Some("b".to_string()))));
    for bad in ["a..", "..b", "a..b..c", ""] {
        assert!(parse_range(bad).is_err(), "{bad}");
    }
}

#[test]
fn looks_for_trees_outside_of_build_directories() {
    assert!(is_discovered_tree("src/map.tree"));
    assert!(!is_discovered_tree("src/map.rs"));
    for dir in [".git", "target", "node_modules"] {
        assert!(!is_discovered_tree(&format!("a/{dir}/map.tree")));
    }
}

#[test]
fn mirrors_when_compared_backwards() {
    let a = tree::parse("s\n├── it one\n└── it two\n").unwrap();
    let b = tree::parse("s\n├── it one\n└── when x\n    └── it three\n").unwrap();
    let there = compare(&a, &b);
    let back = compare(&b, &a);
    assert_eq!(there.added, back.removed);
    assert_eq!(there.removed, back.added);
}
