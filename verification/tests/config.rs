//! Which config governs what.

use btt::config::{
    find_project_root, governing_root, nearest_config_dir, tree_dir, CheckConfig, Level,
};

fn list(dirs: &[&str]) -> Vec<String> {
    dirs.iter().map(|d| d.to_string()).collect()
}

#[test]
fn finds_a_config_beside_the_tree_file() {
    assert_eq!(
        nearest_config_dir("/beside/web", "/beside", &list(&["/beside/web"])),
        Some("/beside/web".to_string())
    );
}

#[test]
fn walks_up_to_an_ancestor_within_the_root() {
    assert_eq!(
        nearest_config_dir("/ancestor/web/src/deep", "/ancestor", &list(&["/ancestor/web"])),
        Some("/ancestor/web".to_string())
    );
}

#[test]
fn stops_at_the_invocation_root() {
    assert_eq!(nearest_config_dir("/stops/repo/src", "/stops/repo", &list(&["/stops"])), None);
}

#[test]
fn returns_none_without_any_config() {
    assert_eq!(nearest_config_dir("/none/src", "/none", &list(&[])), None);
}

#[test]
fn uses_the_nearest_config_for_a_tree_file() {
    let dir = tree_dir("/governs/web/map.tree");
    assert_eq!(governing_root(&dir, "/governs", &list(&["/governs/web"])), "/governs/web");
}

#[test]
fn falls_back_to_the_invocation_root() {
    let dir = tree_dir("/fallback/src/map.tree");
    assert_eq!(governing_root(&dir, "/fallback", &list(&[])), "/fallback");
}

#[test]
fn prefers_a_config_to_a_repository_as_the_project_root() {
    let configs = list(&["/a/b"]);
    let repositories = list(&["/a/b/c", "/a"]);
    assert_eq!(find_project_root("/a/b/c/d", &configs, &repositories), "/a/b");
    assert_eq!(find_project_root("/a/x", &list(&[]), &repositories), "/a");
    assert_eq!(find_project_root("/q", &list(&[]), &list(&[])), "/q");
}

#[test]
fn warns_by_default_and_fails_on_what_it_cannot_represent() {
    let cfg = CheckConfig::default();
    assert_eq!(cfg.extra, Level::Warn);
    assert_eq!(cfg.order, Level::Warn);
    assert_eq!(cfg.todo, Level::Warn);
    assert_eq!(cfg.uncovered, Level::Warn);
    assert_eq!(cfg.unsupported, Level::Error);
}
