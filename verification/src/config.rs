//! Project configuration (`btt.toml`) and project-root discovery.

use vstd::prelude::*;
use crate::check::is_among;
use crate::paths::{parent, starts_with_path};
use crate::text::owned;

verus! {

use crate::paths::{is_within, lemma_parent_shorter, parent_of};
use crate::text::{opt_view, views};

broadcast use vstd::string::group_string_axioms;

/// Severity assigned to a category of finding.
#[derive(Debug, Clone, Copy, PartialEq, Eq, Structural)]
pub enum Level {
    /// Fail the check.
    Error,
    /// Report, but do not fail the check.
    Warn,
    /// Do not report at all.
    Ignore,
}

/// Severities for the configurable finding categories.
#[derive(Debug, Clone, Copy)]
pub struct CheckConfig {
    /// Severity of tests/blocks present in the file but absent from the tree.
    pub extra: Level,
    /// Severity of sibling order differing between tree and file.
    pub order: Level,
    /// Severity of recognized constructs that no tree can represent.
    pub unsupported: Level,
    /// Severity of scaffold markers left in test bodies.
    pub todo: Level,
    /// Severity of test-bearing source files that no `.tree` spec covers.
    pub uncovered: Level,
}

impl Default for CheckConfig {
    fn default() -> (out: Self)
        ensures
            out == (CheckConfig {
                extra: Level::Warn,
                order: Level::Warn,
                unsupported: Level::Error,
                todo: Level::Warn,
                uncovered: Level::Warn,
            }),
    {
        CheckConfig {
            extra: Level::Warn,
            order: Level::Warn,
            unsupported: Level::Error,
            todo: Level::Warn,
            uncovered: Level::Warn,
        }
    }
}

/// A parsed `btt.toml`.
#[derive(Debug)]
pub struct ProjectConfig {
    /// The `[project]` section.
    pub project: ProjectSection,
    /// The `[check]` section.
    pub check: CheckConfig,
}

impl Default for ProjectConfig {
    fn default() -> (out: Self)
        ensures
            out.project.packs@.len() == 0,
            out.check == (CheckConfig {
                extra: Level::Warn,
                order: Level::Warn,
                unsupported: Level::Error,
                todo: Level::Warn,
                uncovered: Level::Warn,
            }),
    {
        ProjectConfig { project: ProjectSection::default(), check: CheckConfig::default() }
    }
}

/// The `[project]` section of `btt.toml`.
#[derive(Debug)]
pub struct ProjectSection {
    /// Packs this project uses, in routing-priority order.
    pub packs: Vec<String>,
}

impl Default for ProjectSection {
    fn default() -> (out: Self)
        ensures
            out.packs@.len() == 0,
    {
        ProjectSection { packs: Vec::new() }
    }
}

/// A path and the directories above it, nearest first.
pub open spec fn ancestors_of(path: Seq<char>) -> Seq<Seq<char>>
    decreases path.len(),
{
    match parent_of(path) {
        Some(above) => if above.len() < path.len() {
            seq![path] + ancestors_of(above)
        } else {
            seq![path]
        },
        None => seq![path],
    }
}

/// A path and the directories above it, nearest first.
pub fn ancestors(path: &str) -> (out: Vec<String>)
    ensures
        views(out@) == ancestors_of(path@),
{
    let mut out: Vec<String> = Vec::new();
    let mut at = owned(path);
    assert(views(out@) + ancestors_of(path@) =~= ancestors_of(path@));
    loop
        invariant
            ancestors_of(path@) == views(out@) + ancestors_of(at@),
        decreases at@.len(),
    {
        let ghost before = views(out@);
        let ghost here = at@;
        proof {
            lemma_parent_shorter(here);
        }
        let above = parent(at.as_str());
        out.push(at);
        assert(views(out@) =~= before.push(here));
        match above {
            Some(above) => {
                assert(before + (seq![here] + ancestors_of(above@)) =~= views(out@)
                    + ancestors_of(above@));
                at = above;
            },
            None => {
                assert(before + seq![here] =~= views(out@));
                return out;
            },
        }
    }
}

/// The first directory that is among the given ones.
pub open spec fn first_among(dirs: Seq<Seq<char>>, present: Seq<Seq<char>>) -> Option<Seq<char>>
    decreases dirs.len(),
{
    if dirs.len() == 0 {
        None
    } else if present.contains(dirs[0]) {
        Some(dirs[0])
    } else {
        first_among(dirs.drop_first(), present)
    }
}

fn find_first_among(dirs: &Vec<String>, present: &[String]) -> (out: Option<String>)
    ensures
        opt_view(out) == first_among(views(dirs@), views(present@)),
{
    let ghost all = views(dirs@);
    let mut i: usize = 0;
    assert(all.skip(0) =~= all);
    while i < dirs.len()
        invariant
            i <= dirs@.len(),
            all == views(dirs@),
            first_among(all.skip(i as int), views(present@)) == first_among(all, views(present@)),
        decreases dirs@.len() - i,
    {
        assert(all.skip(i as int)[0] == dirs@[i as int]@);
        assert(all.skip(i as int).drop_first() =~= all.skip(i + 1));
        if is_among(present, dirs[i].as_str()) {
            return Some(dirs[i].clone());
        }
        i += 1;
    }
    assert(all.skip(i as int).len() == 0);
    None
}

/// The root of the project that `start` belongs to: the nearest directory at
/// or above it with a config, else the nearest with a repository, else
/// `start` itself.
pub open spec fn project_root(
    start: Seq<char>,
    configs: Seq<Seq<char>>,
    repositories: Seq<Seq<char>>,
) -> Seq<char> {
    match first_among(ancestors_of(start), configs) {
        Some(dir) => dir,
        None => match first_among(ancestors_of(start), repositories) {
            Some(dir) => dir,
            None => start,
        },
    }
}

/// Walk up from `start` looking for a `btt.toml` (preferred) or `.git`.
/// `configs` and `repositories` are the directories at or above `start` that
/// hold the one and the other.
#[must_use]
pub fn find_project_root(start: &str, configs: &[String], repositories: &[String]) -> (out: String)
    ensures
        out@ == project_root(start@, views(configs@), views(repositories@)),
{
    let dirs = ancestors(start);
    if let Some(dir) = find_first_among(&dirs, configs) {
        return dir;
    }
    if let Some(dir) = find_first_among(&dirs, repositories) {
        return dir;
    }
    owned(start)
}

/// The first directory that is among the given ones, of those before the
/// first one that does not lie in `root`.
pub open spec fn nearest_within(
    dirs: Seq<Seq<char>>,
    root: Seq<char>,
    present: Seq<Seq<char>>,
) -> Option<Seq<char>>
    decreases dirs.len(),
{
    if dirs.len() == 0 || !is_within(dirs[0], root) {
        None
    } else if present.contains(dirs[0]) {
        Some(dirs[0])
    } else {
        nearest_within(dirs.drop_first(), root, present)
    }
}

/// Find the nearest directory at or above `dir` — without escaping `root` —
/// that contains a `btt.toml`. `configs` are the directories at or above
/// `dir` that do.
///
/// `dir` must share `root`'s form (both absolute, typically) for the
/// containment check to work.
#[must_use]
pub fn nearest_config_dir(dir: &str, root: &str, configs: &[String]) -> (out: Option<String>)
    ensures
        opt_view(out) == nearest_within(ancestors_of(dir@), root@, views(configs@)),
{
    let dirs = ancestors(dir);
    let ghost all = views(dirs@);
    let mut i: usize = 0;
    assert(all.skip(0) =~= all);
    while i < dirs.len()
        invariant
            i <= dirs@.len(),
            all == views(dirs@),
            all == ancestors_of(dir@),
            nearest_within(all.skip(i as int), root@, views(configs@)) == nearest_within(
                all,
                root@,
                views(configs@),
            ),
        decreases dirs@.len() - i,
    {
        assert(all.skip(i as int)[0] == dirs@[i as int]@);
        assert(all.skip(i as int).drop_first() =~= all.skip(i + 1));
        if !starts_with_path(dirs[i].as_str(), root) {
            return None;
        }
        if is_among(configs, dirs[i].as_str()) {
            return Some(dirs[i].clone());
        }
        i += 1;
    }
    assert(all.skip(i as int).len() == 0);
    None
}

/// The directory that a tree file is in.
pub open spec fn tree_dir_of(tree_path: Seq<char>) -> Seq<char> {
    match parent_of(tree_path) {
        Some(dir) => dir,
        None => "."@,
    }
}

/// The directory that a tree file is in.
pub fn tree_dir(tree_path: &str) -> (out: String)
    ensures
        out@ == tree_dir_of(tree_path@),
{
    match parent(tree_path) {
        Some(dir) => dir,
        None => owned("."),
    }
}

/// The directory whose config governs what is in a directory.
pub open spec fn governor(dir: Seq<char>, root: Seq<char>, configs: Seq<Seq<char>>) -> Seq<char> {
    match nearest_within(ancestors_of(dir), root, configs) {
        Some(found) => found,
        None => root,
    }
}

/// The directory whose `btt.toml` governs the tree files in `dir`, an
/// absolute path: the nearest config at or above it within `root`, or `root`
/// itself when none exists.
#[must_use]
pub fn governing_root(dir: &str, root: &str, configs: &[String]) -> (out: String)
    ensures
        out@ == governor(dir@, root@, views(configs@)),
{
    match nearest_config_dir(dir, root, configs) {
        Some(found) => found,
        None => owned(root),
    }
}

/// The governing directory never escapes the root, and is the root unless a
/// config was found in it.
pub proof fn law_governing_root_stays_inside(
    dir: Seq<char>,
    root: Seq<char>,
    configs: Seq<Seq<char>>,
)
    ensures
        is_within(governor(dir, root, configs), root),
        governor(dir, root, configs) == root || configs.contains(governor(dir, root, configs)),
{
    lemma_nearest_within(ancestors_of(dir), root, configs);
}

proof fn lemma_nearest_within(dirs: Seq<Seq<char>>, root: Seq<char>, present: Seq<Seq<char>>)
    ensures
        nearest_within(dirs, root, present) matches Some(found) ==> is_within(found, root)
            && present.contains(found) && dirs.contains(found),
    decreases dirs.len(),
{
    if dirs.len() > 0 {
        assert(dirs.contains(dirs[0]));
        let rest = dirs.drop_first();
        lemma_nearest_within(rest, root, present);
        if let Some(found) = nearest_within(rest, root, present) {
            let k = choose|k: int| 0 <= k < rest.len() && rest[k] == found;
            assert(dirs[k + 1] == found);
        }
    }
}

/// The directories above a path are the path itself and then those above its
/// parent.
pub proof fn law_ancestors_go_up_parent_by_parent(path: Seq<char>, above: Seq<char>)
    ensures
        parent_of(path) == Some(above) ==> ancestors_of(path) == seq![path] + ancestors_of(above),
        parent_of(path) is None ==> ancestors_of(path) == seq![path],
{
    lemma_parent_shorter(path);
}

proof fn lemma_first_among(dirs: Seq<Seq<char>>, present: Seq<Seq<char>>, k: int)
    requires
        0 <= k <= dirs.len(),
        forall|j: int| 0 <= j < k ==> !present.contains(#[trigger] dirs[j]),
    ensures
        k < dirs.len() && present.contains(dirs[k]) ==> first_among(dirs, present) == Some(dirs[k]),
        k == dirs.len() ==> first_among(dirs, present) is None,
    decreases dirs.len(),
{
    if dirs.len() > 0 && k > 0 {
        let rest = dirs.drop_first();
        assert(!present.contains(dirs[0]));
        assert forall|j: int| 0 <= j < k - 1 implies !present.contains(#[trigger] rest[j]) by {
            assert(rest[j] == dirs[j + 1]);
        }
        lemma_first_among(rest, present, k - 1);
        if k < dirs.len() {
            assert(rest[k - 1] == dirs[k]);
        }
    }
}

/// The root of a project is the nearest directory with a config, going up from
/// where a run starts; without one, the nearest repository; without one, where
/// the run starts.
pub proof fn law_the_nearest_config_is_the_root(
    start: Seq<char>,
    configs: Seq<Seq<char>>,
    repositories: Seq<Seq<char>>,
    k: int,
)
    requires
        0 <= k <= ancestors_of(start).len(),
    ensures
        ({
            let dirs = ancestors_of(start);
            let root = project_root(start, configs, repositories);
            &&& k < dirs.len() && configs.contains(dirs[k]) && (forall|j: int|
                0 <= j < k ==> !configs.contains(#[trigger] dirs[j])) ==> root == dirs[k]
            &&& (forall|j: int|
                0 <= j < dirs.len() ==> !configs.contains(#[trigger] dirs[j])) && k < dirs.len()
                && repositories.contains(dirs[k]) && (forall|j: int|
                0 <= j < k ==> !repositories.contains(#[trigger] dirs[j])) ==> root == dirs[k]
            &&& (forall|j: int|
                0 <= j < dirs.len() ==> !configs.contains(#[trigger] dirs[j])) && (forall|j: int|
                0 <= j < dirs.len() ==> !repositories.contains(#[trigger] dirs[j])) ==> root
                == start
        }),
{
    let dirs = ancestors_of(start);
    if forall|j: int| 0 <= j < k ==> !configs.contains(#[trigger] dirs[j]) {
        lemma_first_among(dirs, configs, k);
    }
    if forall|j: int| 0 <= j < dirs.len() ==> !configs.contains(#[trigger] dirs[j]) {
        lemma_first_among(dirs, configs, dirs.len() as int);
        if forall|j: int| 0 <= j < k ==> !repositories.contains(#[trigger] dirs[j]) {
            lemma_first_among(dirs, repositories, k);
        }
        if forall|j: int| 0 <= j < dirs.len() ==> !repositories.contains(#[trigger] dirs[j]) {
            lemma_first_among(dirs, repositories, dirs.len() as int);
        }
    }
}

proof fn lemma_nearest(dirs: Seq<Seq<char>>, root: Seq<char>, present: Seq<Seq<char>>, k: int)
    requires
        0 <= k <= dirs.len(),
        forall|j: int| 0 <= j < k ==> !present.contains(#[trigger] dirs[j]),
        forall|j: int| 0 <= j < k ==> is_within(#[trigger] dirs[j], root),
    ensures
        k < dirs.len() && is_within(dirs[k], root) && present.contains(dirs[k]) ==> nearest_within(
            dirs,
            root,
            present,
        ) == Some(dirs[k]),
        k == dirs.len() || !is_within(dirs[k], root) ==> nearest_within(dirs, root, present)
            is None,
    decreases dirs.len(),
{
    if dirs.len() > 0 && k > 0 {
        let rest = dirs.drop_first();
        assert(!present.contains(dirs[0]));
        assert(is_within(dirs[0], root));
        assert forall|j: int| 0 <= j < k - 1 implies !present.contains(#[trigger] rest[j]) by {
            assert(rest[j] == dirs[j + 1]);
        }
        assert forall|j: int| 0 <= j < k - 1 implies is_within(#[trigger] rest[j], root) by {
            assert(rest[j] == dirs[j + 1]);
        }
        lemma_nearest(rest, root, present, k - 1);
        if k < dirs.len() {
            assert(rest[k - 1] == dirs[k]);
        }
    }
}

/// A directory is governed by the nearest config at or above it, as far up as
/// the root goes; where there is none, by the root.
pub proof fn law_the_nearest_config_governs(
    dir: Seq<char>,
    root: Seq<char>,
    configs: Seq<Seq<char>>,
    k: int,
)
    requires
        0 <= k <= ancestors_of(dir).len(),
        forall|j: int| 0 <= j < k ==> !configs.contains(#[trigger] ancestors_of(dir)[j]),
        forall|j: int| 0 <= j < k ==> is_within(#[trigger] ancestors_of(dir)[j], root),
    ensures
        k < ancestors_of(dir).len() && is_within(ancestors_of(dir)[k], root) && configs.contains(
            ancestors_of(dir)[k],
        ) ==> governor(dir, root, configs) == ancestors_of(dir)[k],
        k == ancestors_of(dir).len() || !is_within(ancestors_of(dir)[k], root) ==> governor(
            dir,
            root,
            configs,
        ) == root,
{
    lemma_nearest(ancestors_of(dir), root, configs, k);
}

/// The directory of a tree is its parent; a bare name lies in the current one.
pub proof fn law_trees_lie_in_their_parent(tree_path: Seq<char>, dir: Seq<char>)
    ensures
        parent_of(tree_path) == Some(dir) ==> tree_dir_of(tree_path) == dir,
        parent_of(tree_path) is None ==> tree_dir_of(tree_path) == "."@,
{
}

} // verus!
