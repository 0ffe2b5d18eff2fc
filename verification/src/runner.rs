//! High-level check pipeline: what is routed where, what is reported at which
//! severity, and which test-bearing files no tree covers.

use vstd::prelude::*;
use crate::check::{diff, expected_from_spec, is_among, unwrap_wrappers, Expected, Finding};
use crate::config::{tree_dir, CheckConfig, Level};
use crate::error::Error;
use crate::extract::{extract_with_findings, ActualKind, ActualNode, Unsupported};
use crate::pack::Pack;
use crate::paths::{comes_before, extension, file_name, file_stem, join_path, same_path};
use crate::text::{owned, replace, same, split_once, strip_prefix, strip_suffix};
use crate::todo::find_todos;
use crate::tree::parse;

verus! {

use crate::check::{expected_of, expected_view, findings_of, unwrapped, FindingView};
use crate::config::tree_dir_of;
use crate::error::ErrorView;
use crate::extract::{actual_view, extracted, tests_of, ActualView, UnsupportedView};
use crate::pack::{is_target_pattern, PackView};
use crate::paths::{
    components_of, extension_of, file_name_of, file_stem_of, joined_path, path_less,
};
use crate::scaffold::test_count;
use crate::text::{
    cut_once, first_from, has_part, lemma_first_from, occurs_at, opt_view, replaced, views,
};
use crate::todo::todos_of;
use crate::tree::parsed;

broadcast use {
    crate::check::lemma_expected_children,
    crate::extract::lemma_actual_children,
    vstd::string::group_string_axioms,
};

/// Whether a walk leaves a directory of this name out.
pub open spec fn is_skipped(name: Seq<char>) -> bool {
    name == ".git"@ || name == "target"@ || name == "node_modules"@
}

/// Whether a walk leaves a directory of this name out.
pub fn skips_directory(name: &str) -> (yes: bool)
    ensures
        yes == is_skipped(name@),
{
    same(name, ".git") || same(name, "target") || same(name, "node_modules")
}

/// Whether a path is that of a `.tree` file.
pub open spec fn is_tree_path(path: Seq<char>) -> bool {
    extension_of(path) == Some("tree"@)
}

/// Whether a path is that of a `.tree` file.
pub fn is_tree_file(path: &str) -> (yes: bool)
    ensures
        yes == is_tree_path(path@),
{
    match extension(path) {
        Some(ext) => same(ext.as_str(), "tree"),
        None => false,
    }
}

/// What was found at a search path.
#[derive(Debug)]
pub enum Searched {
    /// The path is a file, which passes through as it is.
    File(String),
    /// The files below the path.
    Directory(Vec<String>),
}

/// The model of what was found at a search path.
pub enum SearchedView {
    File(Seq<char>),
    Directory(Seq<Seq<char>>),
}

impl View for Searched {
    type V = SearchedView;

    open spec fn view(&self) -> SearchedView {
        match *self {
            Searched::File(path) => SearchedView::File(path@),
            Searched::Directory(files) => SearchedView::Directory(views(files@)),
        }
    }
}

/// The tree files among paths.
pub open spec fn only_trees(paths: Seq<Seq<char>>) -> Seq<Seq<char>>
    decreases paths.len(),
{
    if paths.len() == 0 {
        Seq::empty()
    } else {
        let before = only_trees(paths.drop_last());
        if is_tree_path(paths.last()) {
            before.push(paths.last())
        } else {
            before
        }
    }
}

/// The tree files that a search finds, in the order of the search.
pub open spec fn trees_found(searched: Seq<SearchedView>) -> Seq<Seq<char>>
    decreases searched.len(),
{
    if searched.len() == 0 {
        Seq::empty()
    } else {
        trees_found(searched.drop_last()) + match searched.last() {
            SearchedView::File(path) => seq![path],
            SearchedView::Directory(files) => only_trees(files),
        }
    }
}

fn keep_trees(files: &Vec<String>, out: &mut Vec<String>)
    ensures
        views(final(out)@) == views(old(out)@) + only_trees(views(files@)),
{
    let ghost all = views(files@);
    let ghost start = views(out@);
    let mut i: usize = 0;
    assert(all.take(0) =~= Seq::empty());
    assert(start + Seq::<Seq<char>>::empty() =~= start);
    while i < files.len()
        invariant
            i <= files@.len(),
            all == views(files@),
            views(out@) == start + only_trees(all.take(i as int)),
        decreases files@.len() - i,
    {
        let ghost before = views(out@);
        assert(all.take(i + 1).drop_last() =~= all.take(i as int));
        assert(all.take(i + 1).last() == files@[i as int]@);
        if is_tree_file(files[i].as_str()) {
            out.push(files[i].clone());
            assert(views(out@) =~= before.push(files@[i as int]@));
            assert(views(out@) =~= start + only_trees(all.take(i + 1)));
        }
        i += 1;
    }
    assert(all.take(i as int) =~= all);
}

/// All `.tree` files that a search found, in path order, each once (files pass
/// through as they are).
pub fn find_tree_files(searched: &Vec<Searched>) -> (out: Vec<String>)
    ensures
        views(out@) == crate::paths::path_set(trees_found(views(searched@))),
{
    let ghost all = views(searched@);
    let mut found: Vec<String> = Vec::new();
    let mut i: usize = 0;
    assert(all.take(0) =~= Seq::empty());
    assert(views(found@) =~= Seq::empty());
    while i < searched.len()
        invariant
            i <= searched@.len(),
            all == views(searched@),
            views(found@) == trees_found(all.take(i as int)),
        decreases searched@.len() - i,
    {
        let ghost before = views(found@);
        assert(all.take(i + 1).drop_last() =~= all.take(i as int));
        assert(all.take(i + 1).last() == searched@[i as int]@);
        match &searched[i] {
            Searched::File(path) => {
                found.push(path.clone());
                assert(views(found@) =~= before + seq![path@]);
            },
            Searched::Directory(files) => {
                keep_trees(files, &mut found);
            },
        }
        i += 1;
    }
    assert(all.take(i as int) =~= all);
    crate::paths::ordered_paths(found.as_slice())
}

/// The `{stem}` that a file name needs for a pattern to produce it.
pub open spec fn stem_of(pattern: Seq<char>, name: Seq<char>) -> Option<Seq<char>> {
    match cut_once(pattern, "{stem}"@) {
        None => None,
        Some((prefix, suffix)) => {
            let rest = name.skip(prefix.len() as int);
            let stem = rest.take(rest.len() - suffix.len());
            if prefix.is_prefix_of(name) && suffix.is_suffix_of(rest) && stem.len() > 0 {
                Some(stem)
            } else {
                None
            }
        },
    }
}

/// Derive the `{stem}` a file name would need for `pattern` to produce it,
/// if it matches at all (`map.test.ts` against `{stem}.test.ts` → `map`).
pub fn stem_for(pattern: &str, name: &str) -> (out: Option<String>)
    ensures
        opt_view(out) == stem_of(pattern@, name@),
{
    match split_once(pattern, "{stem}") {
        None => None,
        Some((prefix, suffix)) => match strip_prefix(name, prefix.as_str()) {
            None => None,
            Some(rest) => match strip_suffix(rest.as_str(), suffix.as_str()) {
                None => None,
                Some(stem) => if stem.as_str().is_empty() {
                    None
                } else {
                    Some(stem)
                },
            },
        },
    }
}

/// The file name that a pattern produces for a stem.
pub open spec fn name_from(pattern: Seq<char>, stem: Seq<char>) -> Seq<char> {
    replaced(pattern, "{stem}"@, stem)
}

proof fn lemma_replaced_nothing(s: Seq<char>, from: Seq<char>, to: Seq<char>)
    requires
        !has_part(s, from),
    ensures
        replaced(s, from, to) == s,
    decreases s.len(),
{
    if s.len() > 0 && from.len() > 0 {
        if from.is_prefix_of(s) {
            assert(s.subrange(0, from.len() as int) =~= from);
            assert(occurs_at(s, from, 0));
        }
        let rest = s.drop_first();
        assert forall|at: int| !occurs_at(rest, from, at) by {
            if occurs_at(rest, from, at) {
                assert(s.subrange(at + 1, at + 1 + from.len()) =~= rest.subrange(
                    at,
                    at + from.len(),
                ));
                assert(occurs_at(s, from, at + 1));
            }
        }
        lemma_replaced_nothing(rest, from, to);
        assert(s =~= seq![s[0]] + rest);
    }
}

proof fn lemma_replaced_once(s: Seq<char>, from: Seq<char>, to: Seq<char>, at: int)
    requires
        from.len() > 0,
        occurs_at(s, from, at),
        forall|j: int| 0 <= j < at ==> !occurs_at(s, from, j),
    ensures
        replaced(s, from, to) == s.take(at) + to + replaced(s.skip(at + from.len()), from, to),
    decreases s.len(),
{
    if at == 0 {
        assert(from.is_prefix_of(s)) by {
            assert(s.subrange(0, from.len() as int) =~= from);
        }
        assert(s.take(0) + to =~= to);
    } else {
        assert(!occurs_at(s, from, 0));
        if from.is_prefix_of(s) {
            assert(s.subrange(0, from.len() as int) =~= from);
        }
        let rest = s.drop_first();
        assert(rest.subrange(at - 1, at - 1 + from.len()) =~= s.subrange(at, at + from.len()));
        assert forall|j: int| 0 <= j < at - 1 implies !occurs_at(rest, from, j) by {
            if occurs_at(rest, from, j) {
                assert(s.subrange(j + 1, j + 1 + from.len()) =~= rest.subrange(
                    j,
                    j + from.len(),
                ));
                assert(occurs_at(s, from, j + 1));
            }
        }
        lemma_replaced_once(rest, from, to, at - 1);
        assert(rest.skip(at - 1 + from.len()) =~= s.skip(at + from.len()));
        assert(seq![s[0]] + (rest.take(at - 1) + to + replaced(
            s.skip(at + from.len()),
            from,
            to,
        )) =~= s.take(at) + to + replaced(s.skip(at + from.len()), from, to));
    }
}

/// Forward and reverse routing agree: what a target pattern makes of a stem
/// leads back to the stem, and the stem of a file name leads to the name.
pub proof fn law_routing_is_reversible(pattern: Seq<char>, stem: Seq<char>, name: Seq<char>)
    requires
        is_target_pattern(pattern),
        stem.len() > 0,
    ensures
        stem_of(pattern, name_from(pattern, stem)) == Some(stem),
        stem_of(pattern, name) == Some(stem) ==> name_from(pattern, stem) == name,
{
    let mark = "{stem}"@;
    reveal_strlit("{stem}");
    lemma_first_from(pattern, mark, 0);
    let at = first_from(pattern, mark, 0)->0;
    let prefix = pattern.take(at);
    let suffix = pattern.skip(at + mark.len());
    lemma_replaced_once(pattern, mark, stem, at);
    lemma_replaced_nothing(suffix, mark, stem);
    let made = name_from(pattern, stem);
    assert(made == prefix + stem + suffix);
    assert(made.skip(prefix.len() as int) =~= stem + suffix);
    assert((stem + suffix).take((stem + suffix).len() - suffix.len()) =~= stem);
    assert((stem + suffix).skip((stem + suffix).len() - suffix.len()) =~= suffix);
    if stem_of(pattern, name) == Some(stem) {
        let rest = name.skip(prefix.len() as int);
        assert(rest =~= stem + suffix) by {
            assert(rest =~= rest.take(rest.len() - suffix.len()) + rest.skip(
                rest.len() - suffix.len(),
            ));
        }
        assert(name =~= prefix + rest);
        assert(name =~= made);
    }
}

/// A number, or the largest that a machine counts where it is larger.
pub open spec fn capped(n: nat) -> nat {
    if n < usize::MAX {
        n
    } else {
        usize::MAX as nat
    }
}

/// The sum of two numbers, or the largest number where it is larger.
pub fn add_capped(a: usize, b: usize) -> (out: usize)
    ensures
        out == capped((a + b) as nat),
{
    if a > usize::MAX - b {
        usize::MAX
    } else {
        a + b
    }
}

/// How many tests nodes hold.
pub open spec fn actual_tests(nodes: Seq<ActualView>) -> nat
    decreases nodes,
{
    if nodes.len() == 0 {
        0
    } else {
        actual_tests(nodes.drop_last()) + match nodes.last().kind {
            ActualKind::Test => 1nat,
            ActualKind::Block => actual_tests(nodes.last().children),
        }
    }
}

fn count_actual_tests(nodes: &[ActualNode]) -> (out: usize)
    ensures
        out == capped(actual_tests(views(nodes@))),
    decreases nodes@,
{
    let ghost all = views(nodes@);
    let mut total: usize = 0;
    let mut i: usize = 0;
    assert(all.take(0) =~= Seq::empty());
    while i < nodes.len()
        invariant
            i <= nodes@.len(),
            all == views(nodes@),
            total == capped(actual_tests(all.take(i as int))),
        decreases nodes@.len() - i,
    {
        let node = &nodes[i];
        proof {
            assert(all.take(i + 1).drop_last() =~= all.take(i as int));
            assert(all.take(i + 1).last() == node@);
            assert(node@ == actual_view(*node));
        }
        let n: usize = match node.kind {
            ActualKind::Test => 1,
            ActualKind::Block => count_actual_tests(node.children.as_slice()),
        };
        total = add_capped(total, n);
        i += 1;
    }
    assert(all.take(i as int) =~= all);
    total
}

/// Count the number of expected tests in a spec (for summary output).
#[must_use]
pub fn count_tests(expected: &[Expected]) -> (out: usize)
    ensures
        out == capped(test_count(views(expected@))),
    decreases expected@,
{
    let ghost all = views(expected@);
    let mut total: usize = 0;
    let mut i: usize = 0;
    assert(all.take(0) =~= Seq::empty());
    while i < expected.len()
        invariant
            i <= expected@.len(),
            all == views(expected@),
            total == capped(test_count(all.take(i as int))),
        decreases expected@.len() - i,
    {
        let node = &expected[i];
        proof {
            assert(all.take(i + 1).drop_last() =~= all.take(i as int));
            assert(all.take(i + 1).last() == node@);
            assert(node@ == expected_view(*node));
        }
        let n: usize = match node.kind {
            ActualKind::Test => 1,
            ActualKind::Block => count_tests(node.children.as_slice()),
        };
        total = add_capped(total, n);
        i += 1;
    }
    assert(all.take(i as int) =~= all);
    total
}

/// The files that target patterns name next to a tree file.
pub open spec fn named_by(dir: Seq<char>, stem: Seq<char>, patterns: Seq<Seq<char>>) -> Seq<Seq<char>> {
    patterns.map_values(|pattern: Seq<char>| joined_path(dir, name_from(pattern, stem)))
}

/// The directory and the stem of a tree file.
pub open spec fn stem_in(tree_path: Seq<char>) -> Seq<char> {
    match file_stem_of(tree_path) {
        Some(stem) => stem,
        None => Seq::empty(),
    }
}

/// The test files that a tree file may describe, in routing order: for each
/// pack in priority order its target patterns, next to the tree file. Each
/// comes with the place of its pack.
pub open spec fn candidates_of(tree_path: Seq<char>, packs: Seq<PackView>) -> Seq<(Seq<char>, int)>
    decreases packs.len(),
{
    if packs.len() == 0 {
        Seq::empty()
    } else {
        candidates_of(tree_path, packs.drop_last()) + named_by(
            tree_dir_of(tree_path),
            stem_in(tree_path),
            packs.last().manifest.targets,
        ).map_values(|path: Seq<char>| (path, packs.len() - 1))
    }
}

/// A test file that a tree file may describe.
#[derive(Debug)]
pub struct Candidate {
    /// The file.
    pub path: String,
    /// The place of the pack whose pattern names it.
    pub pack: usize,
}

/// Candidates by their models.
pub open spec fn candidate_views(candidates: Seq<Candidate>) -> Seq<(Seq<char>, int)> {
    candidates.map_values(|c: Candidate| (c.path@, c.pack as int))
}

/// The test files that a tree file may describe, in routing order.
pub fn candidates(tree_path: &str, packs: &Vec<Pack>) -> (out: Vec<Candidate>)
    ensures
        candidate_views(out@) == candidates_of(tree_path@, views(packs@)),
        forall|i: int| 0 <= i < out@.len() ==> (#[trigger] out@[i]).pack < packs@.len(),
{
    let dir = tree_dir(tree_path);
    let stem = match file_stem(tree_path) {
        Some(stem) => stem,
        None => String::new(),
    };
    assert(stem@ =~= stem_in(tree_path@));
    let ghost all = views(packs@);
    let mut out: Vec<Candidate> = Vec::new();
    let mut i: usize = 0;
    assert(all.take(0) =~= Seq::empty());
    assert(candidate_views(out@) =~= Seq::empty());
    while i < packs.len()
        invariant
            i <= packs@.len(),
            all == views(packs@),
            dir@ == tree_dir_of(tree_path@),
            stem@ == stem_in(tree_path@),
            candidate_views(out@) == candidates_of(tree_path@, all.take(i as int)),
            forall|k: int| 0 <= k < out@.len() ==> (#[trigger] out@[k]).pack < packs@.len(),
        decreases packs@.len() - i,
    {
        let ghost start = candidate_views(out@);
        let targets = &packs[i].manifest.detect.targets;
        let ghost patterns = views(targets@);
        let ghost named = named_by(dir@, stem@, patterns);
        proof {
            assert(all.take(i + 1).drop_last() =~= all.take(i as int));
            assert(all.take(i + 1).last() == packs@[i as int]@);
            assert(patterns == all.take(i + 1).last().manifest.targets);
            reveal_strlit("{stem}");
        }
        let mut k: usize = 0;
        assert(candidate_views(out@) =~= start + named.take(0).map_values(
            |path: Seq<char>| (path, i as int),
        ));
        while k < targets.len()
            invariant
                k <= targets@.len(),
                i < packs@.len(),
                patterns == views(targets@),
                named == named_by(dir@, stem@, patterns),
                "{stem}"@.len() > 0,
                candidate_views(out@) == start + named.take(k as int).map_values(
                    |path: Seq<char>| (path, i as int),
                ),
                forall|j: int| 0 <= j < out@.len() ==> (#[trigger] out@[j]).pack < packs@.len(),
            decreases targets@.len() - k,
        {
            let ghost before = candidate_views(out@);
            let name = replace(targets[k].as_str(), "{stem}", stem.as_str());
            let candidate = Candidate {
                path: join_path(dir.as_str(), name.as_str()),
                pack: i,
            };
            let ghost entry = (candidate.path@, i as int);
            out.push(candidate);
            proof {
                assert(candidate_views(out@) =~= before.push(entry));
                assert(patterns[k as int] == targets@[k as int]@);
                assert(named[k as int] == candidate.path@);
                assert(candidate_views(out@) =~= start + named.take(k + 1).map_values(
                    |path: Seq<char>| (path, i as int),
                ));
            }
            k += 1;
        }
        assert(named.take(k as int) =~= named);
        i += 1;
    }
    assert(all.take(i as int) =~= all);
    out
}

/// Result of routing a `.tree` file to its test file.
pub enum Target<'a> {
    /// A test file exists; check against it with this pack.
    Found {
        /// The pack whose target pattern matched.
        pack: &'a Pack,
        /// The matched test file.
        path: String,
    },
    /// No candidate file exists; carries the candidates that were tried.
    NotFound {
        /// Every candidate path that was tried, in order.
        candidates: Vec<String>,
    },
}

/// The model of a [`Target`].
pub enum TargetView {
    Found { pack: PackView, path: Seq<char> },
    NotFound { candidates: Seq<Seq<char>> },
}

impl<'a> View for Target<'a> {
    type V = TargetView;

    open spec fn view(&self) -> TargetView {
        match *self {
            Target::Found { pack, path } => TargetView::Found { pack: pack@, path: path@ },
            Target::NotFound { candidates } => TargetView::NotFound {
                candidates: views(candidates@),
            },
        }
    }
}

/// The first candidate that exists.
pub open spec fn first_present(candidates: Seq<(Seq<char>, int)>, present: Seq<Seq<char>>) -> Option<
    (Seq<char>, int),
>
    decreases candidates.len(),
{
    if candidates.len() == 0 {
        None
    } else if present.contains(candidates[0].0) {
        Some(candidates[0])
    } else {
        first_present(candidates.drop_first(), present)
    }
}

/// The test file that a tree file describes: the first candidate that exists.
pub open spec fn target_of(
    tree_path: Seq<char>,
    packs: Seq<PackView>,
    present: Seq<Seq<char>>,
) -> TargetView {
    let candidates = candidates_of(tree_path, packs);
    match first_present(candidates, present) {
        Some((path, pack)) => TargetView::Found { pack: packs[pack], path },
        None => TargetView::NotFound {
            candidates: candidates.map_values(|c: (Seq<char>, int)| c.0),
        },
    }
}

/// Locate the test file a `.tree` file describes: for each pack in priority
/// order, try its target patterns next to the tree file. `present` are the
/// candidates that are files.
#[must_use]
pub fn resolve_target<'a>(tree_path: &str, packs: &'a Vec<Pack>, present: &[String]) -> (out: Target<
    'a,
>)
    ensures
        out@ == target_of(tree_path@, views(packs@), views(present@)),
{
    let tried = candidates(tree_path, packs);
    let ghost all = candidate_views(tried@);
    let mut paths: Vec<String> = Vec::new();
    let mut i: usize = 0;
    assert(all.skip(0) =~= all);
    while i < tried.len()
        invariant
            i <= tried@.len(),
            all == candidate_views(tried@),
            all == candidates_of(tree_path@, views(packs@)),
            forall|k: int| 0 <= k < tried@.len() ==> (#[trigger] tried@[k]).pack < packs@.len(),
            first_present(all.skip(i as int), views(present@)) == first_present(
                all,
                views(present@),
            ),
            views(paths@) == all.take(i as int).map_values(|c: (Seq<char>, int)| c.0),
        decreases tried@.len() - i,
    {
        let candidate = &tried[i];
        let ghost before = views(paths@);
        proof {
            assert(all.skip(i as int)[0] == (candidate.path@, candidate.pack as int));
            assert(all.skip(i as int).drop_first() =~= all.skip(i + 1));
        }
        if is_among(present, candidate.path.as_str()) {
            let pack = &packs[candidate.pack];
            assert(views(packs@)[candidate.pack as int] == pack@);
            return Target::Found { pack, path: candidate.path.clone() };
        }
        paths.push(candidate.path.clone());
        proof {
            assert(views(paths@) =~= before.push(candidate.path@));
            assert(views(paths@) =~= all.take(i + 1).map_values(|c: (Seq<char>, int)| c.0));
        }
        i += 1;
    }
    assert(all.skip(i as int).len() == 0);
    assert(all.take(i as int) =~= all);
    Target::NotFound { candidates: paths }
}

/// A finding with its configured severity resolved.
#[derive(Debug)]
pub struct Reported {
    /// The underlying finding.
    pub finding: Finding,
    /// Its severity under the project's check config (never [`Level::Ignore`]).
    pub level: Level,
}

/// The model of a [`Reported`] finding.
pub struct ReportedView {
    pub finding: FindingView,
    pub level: Level,
}

impl View for Reported {
    type V = ReportedView;

    open spec fn view(&self) -> ReportedView {
        ReportedView { finding: self.finding@, level: self.level }
    }
}

/// The severity of a finding: what is missing always fails the check.
pub open spec fn level_of(finding: FindingView, cfg: CheckConfig) -> Level {
    match finding {
        FindingView::Missing { .. } => Level::Error,
        FindingView::Extra { .. } => cfg.extra,
        FindingView::OutOfOrder { .. } => cfg.order,
        FindingView::Unsupported { .. } => cfg.unsupported,
        FindingView::Todo { .. } => cfg.todo,
    }
}

/// The findings whose severity is not to ignore them, with their severity.
pub open spec fn reported(findings: Seq<FindingView>, cfg: CheckConfig) -> Seq<ReportedView>
    decreases findings.len(),
{
    if findings.len() == 0 {
        Seq::empty()
    } else {
        let before = reported(findings.drop_last(), cfg);
        let level = level_of(findings.last(), cfg);
        if level == Level::Ignore {
            before
        } else {
            before.push(ReportedView { finding: findings.last(), level })
        }
    }
}

/// The findings whose severity is not to ignore them, with their severity.
pub fn report(findings: Vec<Finding>, cfg: &CheckConfig) -> (out: Vec<Reported>)
    ensures
        views(out@) == reported(views(findings@), *cfg),
{
    let ghost all = views(findings@);
    let mut out: Vec<Reported> = Vec::new();
    assert(all.take(0) =~= Seq::empty());
    assert(views(out@) =~= Seq::empty());
    for finding in it: findings
        invariant
            it.seq() == findings@,
            all == views(findings@),
            views(out@) == reported(all.take(it.index() as int), *cfg),
    {
        let ghost k = it.index() as int;
        let ghost before = views(out@);
        proof {
            assert(all.take(k + 1).drop_last() =~= all.take(k));
            assert(all.take(k + 1).last() == finding@);
        }
        let level = match &finding {
            Finding::Missing { .. } => Level::Error,
            Finding::Extra { .. } => cfg.extra,
            Finding::OutOfOrder { .. } => cfg.order,
            Finding::Unsupported { .. } => cfg.unsupported,
            Finding::Todo { .. } => cfg.todo,
        };
        if level != Level::Ignore {
            let entry = Reported { finding, level };
            out.push(entry);
            assert(views(out@) =~= before.push(entry@));
        }
    }
    assert(all.take(all.len() as int) =~= all);
    out
}

/// The text of a file, or why it could not be read.
pub type FileText = Result<String, String>;

/// The model of a [`FileText`].
pub open spec fn text_view(text: FileText) -> Result<Seq<char>, Seq<char>> {
    match text {
        Ok(text) => Ok(text@),
        Err(message) => Err(message@),
    }
}

/// Unsupported constructs as findings.
pub open spec fn unsupported_findings(found: Seq<UnsupportedView>) -> Seq<FindingView> {
    found.map_values(|u: UnsupportedView| FindingView::Unsupported { target_line: u.line })
}

/// Everything there is to find between a spec and a source, before
/// severities: where the structures differ, what no tree can represent, and
/// the scaffold markers.
pub open spec fn all_findings(
    pack: PackView,
    spec: Seq<crate::tree::SpecTreeView>,
    source: Seq<char>,
    found: crate::extract::ExtractionView,
) -> Seq<FindingView> {
    let mapping = pack.manifest.mapping;
    findings_of(expected_of(spec, mapping), unwrapped(found.nodes, mapping.wrappers))
        + unsupported_findings(found.unsupported) + todos_of(source, found.source_nodes)
}

/// The findings of checking a tree file against its target, or the first
/// thing that kept it from being checked.
pub open spec fn checked(
    pack: PackView,
    tree_path: Seq<char>,
    spec: Result<Seq<char>, Seq<char>>,
    target: Seq<char>,
    source: Result<Seq<char>, Seq<char>>,
    cfg: CheckConfig,
) -> Result<Seq<ReportedView>, ErrorView> {
    match spec {
        Err(message) => Err(ErrorView::Io { path: tree_path, message }),
        Ok(spec) => match parsed(spec) {
            Err(source) => Err(ErrorView::Parse { path: tree_path, source }),
            Ok(trees) => match source {
                Err(message) => Err(ErrorView::Io { path: target, message }),
                Ok(source) => match extracted(pack, target, source) {
                    Err(e) => Err(e),
                    Ok(found) => Ok(reported(all_findings(pack, trees, source, found), cfg)),
                },
            },
        },
    }
}

fn add_unsupported(found: &Vec<Unsupported>, out: &mut Vec<Finding>)
    ensures
        views(final(out)@) == views(old(out)@) + unsupported_findings(views(found@)),
{
    let ghost start = views(out@);
    let ghost all = unsupported_findings(views(found@));
    let mut i: usize = 0;
    assert(views(out@) =~= start + all.take(0));
    while i < found.len()
        invariant
            i <= found@.len(),
            all == unsupported_findings(views(found@)),
            views(out@) == start + all.take(i as int),
        decreases found@.len() - i,
    {
        let ghost before = views(out@);
        let finding = Finding::Unsupported { target_line: found[i].line };
        out.push(finding);
        proof {
            assert(all[i as int] == finding@);
            assert(views(out@) =~= before.push(finding@));
            assert(views(out@) =~= start + all.take(i + 1));
        }
        i += 1;
    }
    assert(all.take(i as int) =~= all);
}

/// Check one tree file against its target. Returns findings whose configured
/// level is not `ignore`.
///
/// # Errors
///
/// Fails if either file could not be read, the spec does not parse, or the
/// pack cannot extract structure from the target.
pub fn check_file(
    pack: &Pack,
    tree_path: &str,
    spec: &FileText,
    target: &str,
    source: &FileText,
    cfg: &CheckConfig,
) -> (out: Result<Vec<Reported>, Error>)
    ensures
        ({
            let result = checked(
                pack@,
                tree_path@,
                text_view(*spec),
                target@,
                text_view(*source),
                *cfg,
            );
            match out {
                Ok(findings) => result == Ok::<Seq<ReportedView>, ErrorView>(views(findings@)),
                Err(e) => result == Err::<Seq<ReportedView>, ErrorView>(e@),
            }
        }),
{
    let spec = match spec {
        Ok(spec) => spec,
        Err(message) => {
            return Err(Error::Io { path: owned(tree_path), message: message.clone() });
        },
    };
    let trees = match parse(spec.as_str()) {
        Ok(trees) => trees,
        Err(source) => {
            return Err(Error::Parse { path: owned(tree_path), source });
        },
    };
    let source = match source {
        Ok(source) => source,
        Err(message) => {
            return Err(Error::Io { path: owned(target), message: message.clone() });
        },
    };
    let mapping = &pack.manifest.mapping;
    let expected = expected_from_spec(trees.as_slice(), mapping);
    let found = extract_with_findings(pack, target, source.as_str())?;
    let actual = unwrap_wrappers(found.nodes, mapping.wrappers.as_slice());
    let mut findings = diff(expected.as_slice(), actual.as_slice());
    add_unsupported(&found.unsupported, &mut findings);
    let ghost before = views(findings@);
    let mut todos = find_todos(source.as_str(), &found.source_nodes);
    let ghost marked = views(todos@);
    findings.append(&mut todos);
    assert(views(findings@) =~= before + marked);
    Ok(report(findings, cfg))
}

/// Every reported finding counts: none has the severity to ignore it, and what
/// is missing fails the check whatever the config says.
pub proof fn law_reported_findings_count(findings: Seq<FindingView>, cfg: CheckConfig, i: int)
    requires
        0 <= i < reported(findings, cfg).len(),
    ensures
        reported(findings, cfg)[i].level != Level::Ignore,
        reported(findings, cfg)[i].finding is Missing ==> reported(findings, cfg)[i].level
            == Level::Error,
    decreases findings.len(),
{
    if findings.len() > 0 && i < reported(findings.drop_last(), cfg).len() {
        law_reported_findings_count(findings.drop_last(), cfg, i);
    }
}

proof fn lemma_reported_concat(a: Seq<FindingView>, b: Seq<FindingView>, cfg: CheckConfig)
    ensures
        reported(a + b, cfg) == reported(a, cfg) + reported(b, cfg),
    decreases b.len(),
{
    if b.len() == 0 {
        assert(a + b =~= a);
        assert(reported(a, cfg) + reported(b, cfg) =~= reported(a, cfg));
    } else {
        lemma_reported_concat(a, b.drop_last(), cfg);
        assert((a + b).drop_last() =~= a + b.drop_last());
        assert(reported(a + b, cfg) =~= reported(a, cfg) + reported(b, cfg));
    }
}

/// Every finding has its own setting, and no other: what is extra that of
/// `extra`, an order that differs that of `order`, what no tree can represent
/// that of `unsupported`, a marker that of `todo`; what is missing is an error
/// whatever is set. A finding whose setting is to ignore it goes, and it alone:
/// all the others are reported in their order, each with its setting.
pub proof fn law_findings_have_their_own_severity(
    before: Seq<FindingView>,
    f: FindingView,
    after: Seq<FindingView>,
    cfg: CheckConfig,
)
    ensures
        ({
            let all = reported(before + seq![f] + after, cfg);
            let with = |level: Level|
                if level == Level::Ignore {
                    reported(before, cfg) + reported(after, cfg)
                } else {
                    reported(before, cfg) + seq![ReportedView { finding: f, level }] + reported(
                        after,
                        cfg,
                    )
                };
            &&& f is Missing ==> all == with(Level::Error)
            &&& f is Extra ==> all == with(cfg.extra)
            &&& f is OutOfOrder ==> all == with(cfg.order)
            &&& f is Unsupported ==> all == with(cfg.unsupported)
            &&& f is Todo ==> all == with(cfg.todo)
        }),
        reported(Seq::empty(), cfg) == Seq::<ReportedView>::empty(),
{
    lemma_reported_concat(before + seq![f], after, cfg);
    lemma_reported_concat(before, seq![f], cfg);
    assert(seq![f].drop_last() =~= Seq::empty());
    assert(reported(seq![f].drop_last(), cfg) =~= Seq::empty());
    let level = level_of(f, cfg);
    if level == Level::Ignore {
        assert(reported(before, cfg) + Seq::<ReportedView>::empty() =~= reported(before, cfg));
    } else {
        assert(Seq::<ReportedView>::empty().push(ReportedView { finding: f, level }) =~= seq![
            ReportedView { finding: f, level },
        ]);
    }
}

/// A finding whose own setting is not to ignore it is reported, with that
/// setting.
pub proof fn law_no_finding_is_dropped(findings: Seq<FindingView>, i: int, cfg: CheckConfig)
    requires
        0 <= i < findings.len(),
    ensures
        ({
            let f = findings[i];
            let shown = reported(findings, cfg);
            &&& f is Missing ==> shown.contains(ReportedView { finding: f, level: Level::Error })
            &&& f is Extra && cfg.extra != Level::Ignore ==> shown.contains(
                ReportedView { finding: f, level: cfg.extra },
            )
            &&& f is OutOfOrder && cfg.order != Level::Ignore ==> shown.contains(
                ReportedView { finding: f, level: cfg.order },
            )
            &&& f is Unsupported && cfg.unsupported != Level::Ignore ==> shown.contains(
                ReportedView { finding: f, level: cfg.unsupported },
            )
            &&& f is Todo && Level::Ignore != cfg.todo ==> shown.contains(
                ReportedView { finding: f, level: cfg.todo },
            )
        }),
{
    let f = findings[i];
    let before = findings.take(i);
    let after = findings.skip(i + 1);
    assert(before + seq![f] + after =~= findings);
    law_findings_have_their_own_severity(before, f, after, cfg);
    let shown = reported(findings, cfg);
    let level = level_of(f, cfg);
    if level != Level::Ignore {
        assert(shown[reported(before, cfg).len() as int] == (ReportedView { finding: f, level }));
    }
}

/// What happened when one tree file was checked.
#[derive(Debug)]
pub enum FileResult {
    /// A target was found and checked; `findings` may be empty (a pass).
    Checked {
        /// The test file that was checked.
        target: String,
        /// Findings at their configured severities.
        findings: Vec<Reported>,
    },
    /// No candidate test file exists for this tree.
    NoTarget {
        /// Every candidate path that was tried, in order.
        candidates: Vec<String>,
    },
    /// The file could not be checked (unreadable, spec parse error, …).
    Failed(Error),
}

/// The model of a [`FileResult`].
pub enum FileResultView {
    Checked { target: Seq<char>, findings: Seq<ReportedView> },
    NoTarget { candidates: Seq<Seq<char>> },
    Failed(ErrorView),
}

impl View for FileResult {
    type V = FileResultView;

    open spec fn view(&self) -> FileResultView {
        match *self {
            FileResult::Checked { target, findings } => FileResultView::Checked {
                target: target@,
                findings: views(findings@),
            },
            FileResult::NoTarget { candidates } => FileResultView::NoTarget {
                candidates: views(candidates@),
            },
            FileResult::Failed(e) => FileResultView::Failed(e@),
        }
    }
}

/// Outcome of checking a single tree file within a run.
#[derive(Debug)]
pub struct FileOutcome {
    /// The `.tree` file this outcome belongs to.
    pub tree_path: String,
    /// What happened.
    pub result: FileResult,
}

/// The model of a [`FileOutcome`].
pub struct FileOutcomeView {
    pub tree_path: Seq<char>,
    pub result: FileResultView,
}

impl View for FileOutcome {
    type V = FileOutcomeView;

    open spec fn view(&self) -> FileOutcomeView {
        FileOutcomeView { tree_path: self.tree_path@, result: self.result@ }
    }
}

/// A tree file to check, with what is known of the files around it.
#[derive(Debug)]
pub struct TreeInput {
    /// The `.tree` file.
    pub tree_path: String,
    /// Its text.
    pub spec: FileText,
    /// The candidate test files that exist.
    pub present: Vec<String>,
    /// The text of the test file that routing selects.
    pub source: FileText,
}

/// The model of a [`TreeInput`].
pub struct TreeInputView {
    pub tree_path: Seq<char>,
    pub spec: Result<Seq<char>, Seq<char>>,
    pub present: Seq<Seq<char>>,
    pub source: Result<Seq<char>, Seq<char>>,
}

impl View for TreeInput {
    type V = TreeInputView;

    open spec fn view(&self) -> TreeInputView {
        TreeInputView {
            tree_path: self.tree_path@,
            spec: text_view(self.spec),
            present: views(self.present@),
            source: text_view(self.source),
        }
    }
}

/// The outcome of checking one tree file.
pub open spec fn outcome_of(
    packs: Seq<PackView>,
    input: TreeInputView,
    cfg: CheckConfig,
) -> FileOutcomeView {
    FileOutcomeView {
        tree_path: input.tree_path,
        result: match target_of(input.tree_path, packs, input.present) {
            TargetView::NotFound { candidates } => FileResultView::NoTarget { candidates },
            TargetView::Found { pack, path } => match checked(
                pack,
                input.tree_path,
                input.spec,
                path,
                input.source,
                cfg,
            ) {
                Ok(findings) => FileResultView::Checked { target: path, findings },
                Err(e) => FileResultView::Failed(e),
            },
        },
    }
}

/// Check one tree file: route it to its test file and check it against it.
/// A broken file becomes a [`FileResult::Failed`].
pub fn check_tree(packs: &Vec<Pack>, input: &TreeInput, cfg: &CheckConfig) -> (out: FileOutcome)
    ensures
        out@ == outcome_of(views(packs@), input@, *cfg),
{
    let result = match resolve_target(input.tree_path.as_str(), packs, input.present.as_slice()) {
        Target::NotFound { candidates } => FileResult::NoTarget { candidates },
        Target::Found { pack, path } => match check_file(
            pack,
            input.tree_path.as_str(),
            &input.spec,
            path.as_str(),
            &input.source,
            cfg,
        ) {
            Ok(findings) => FileResult::Checked { target: path, findings },
            Err(e) => FileResult::Failed(e),
        },
    };
    FileOutcome { tree_path: input.tree_path.clone(), result }
}

/// Check many tree files.
///
/// Files are independent: one broken file becomes a [`FileResult::Failed`]
/// without affecting the rest. Outcomes are returned in input order.
#[must_use]
pub fn check_all(packs: &Vec<Pack>, inputs: &Vec<TreeInput>, cfg: CheckConfig) -> (out: Vec<
    FileOutcome,
>)
    ensures
        views(out@) == views(inputs@).map_values(
            |input: TreeInputView| outcome_of(views(packs@), input, cfg),
        ),
{
    let ghost all = views(inputs@).map_values(
        |input: TreeInputView| outcome_of(views(packs@), input, cfg),
    );
    let mut out: Vec<FileOutcome> = Vec::new();
    let mut i: usize = 0;
    assert(views(out@) =~= all.take(0));
    while i < inputs.len()
        invariant
            i <= inputs@.len(),
            all == views(inputs@).map_values(
                |input: TreeInputView| outcome_of(views(packs@), input, cfg),
            ),
            views(out@) == all.take(i as int),
        decreases inputs@.len() - i,
    {
        let ghost before = views(out@);
        let outcome = check_tree(packs, &inputs[i], &cfg);
        out.push(outcome);
        proof {
            assert(views(inputs@)[i as int] == inputs@[i as int]@);
            assert(all[i as int] == outcome@);
            assert(views(out@) =~= before.push(outcome@));
            assert(views(out@) =~= all.take(i + 1));
        }
        i += 1;
    }
    assert(all.take(i as int) =~= all);
    out
}

/// A test-bearing source file that no `.tree` spec covers.
#[derive(Debug)]
pub struct Uncovered {
    /// The source file containing tests.
    pub path: String,
    /// How many tests it contains.
    pub tests: usize,
}

/// A construct that no tree can represent, in a file that no tree covers.
#[derive(Debug)]
pub struct UnsupportedIn {
    /// The source file containing it.
    pub path: String,
    /// 1-based line of the construct.
    pub line: usize,
}

/// Outcome of the uncovered scan: files that need specs, plus files the
/// scan could not verify.
#[derive(Debug)]
pub struct UncoveredScan {
    /// Test-bearing files no tree routes to, in path order.
    pub uncovered: Vec<Uncovered>,
    /// Constructs of such files that no tree can represent.
    pub unsupported: Vec<UnsupportedIn>,
    /// Candidates that could not be scanned (unreadable file or directory,
    /// grammar unavailable, …). Unverifiable coverage is a tool failure,
    /// not an absence of findings — strict projects must not pass because
    /// extraction or the directory walk broke.
    pub failed: Vec<(String, Error)>,
}

impl Default for UncoveredScan {
    fn default() -> (out: Self)
        ensures
            out@ == (ScanView {
                uncovered: Seq::empty(),
                unsupported: Seq::empty(),
                failed: Seq::empty(),
            }),
    {
        let out = UncoveredScan {
            uncovered: Vec::new(),
            unsupported: Vec::new(),
            failed: Vec::new(),
        };
        assert(out@.uncovered =~= Seq::empty());
        assert(out@.unsupported =~= Seq::empty());
        assert(out@.failed =~= Seq::empty());
        out
    }
}

/// The model of an [`UncoveredScan`].
#[verifier::ext_equal]
pub struct ScanView {
    pub uncovered: Seq<(Seq<char>, nat)>,
    pub unsupported: Seq<(Seq<char>, nat)>,
    pub failed: Seq<(Seq<char>, ErrorView)>,
}

impl View for UncoveredScan {
    type V = ScanView;

    open spec fn view(&self) -> ScanView {
        ScanView {
            uncovered: self.uncovered@.map_values(|u: Uncovered| (u.path@, u.tests as nat)),
            unsupported: self.unsupported@.map_values(|u: UnsupportedIn| (u.path@, u.line as nat)),
            failed: failure_views(self.failed@),
        }
    }
}

/// Failures by their models.
pub open spec fn failure_views(failed: Seq<(String, Error)>) -> Seq<(Seq<char>, ErrorView)> {
    failed.map_values(|f: (String, Error)| (f.0@, f.1@))
}

/// Whether some pattern of a pack can name a file.
pub open spec fn names(pack: PackView, name: Seq<char>) -> bool {
    exists|k: int|
        0 <= k < pack.manifest.targets.len() && stem_of(
            #[trigger] pack.manifest.targets[k],
            name,
        ) is Some
}

/// The first pack, from pack `i` on, one of whose patterns can name a file.
pub open spec fn pack_naming(packs: Seq<PackView>, name: Seq<char>, i: int) -> Option<int>
    decreases packs.len() - i,
{
    if i < 0 || i >= packs.len() {
        None
    } else if names(packs[i], name) {
        Some(i)
    } else {
        pack_naming(packs, name, i + 1)
    }
}

fn can_name(pack: &Pack, name: &str) -> (yes: bool)
    ensures
        yes == names(pack@, name@),
{
    let targets = &pack.manifest.detect.targets;
    let mut k: usize = 0;
    while k < targets.len()
        invariant
            k <= targets@.len(),
            views(targets@) == pack@.manifest.targets,
            forall|j: int|
                0 <= j < k ==> stem_of(#[trigger] pack@.manifest.targets[j], name@) is None,
        decreases targets@.len() - k,
    {
        assert(pack@.manifest.targets[k as int] == targets@[k as int]@);
        if stem_for(targets[k].as_str(), name).is_some() {
            return true;
        }
        k += 1;
    }
    false
}

fn find_pack_naming(packs: &Vec<Pack>, name: &str) -> (out: Option<usize>)
    ensures
        match out {
            Some(i) => pack_naming(views(packs@), name@, 0) == Some(i as int) && i < packs@.len(),
            None => pack_naming(views(packs@), name@, 0) is None,
        },
{
    let ghost all = views(packs@);
    let mut i: usize = 0;
    while i < packs.len()
        invariant
            i <= packs@.len(),
            all == views(packs@),
            pack_naming(all, name@, i as int) == pack_naming(all, name@, 0),
        decreases packs@.len() - i,
    {
        assert(all[i as int] == packs@[i as int]@);
        if can_name(&packs[i], name) {
            return Some(i);
        }
        i += 1;
    }
    None
}

/// Whether a path is among the given ones.
pub open spec fn lists_path(paths: Seq<Seq<char>>, path: Seq<char>) -> bool {
    exists|i: int|
        0 <= i < paths.len() && components_of(#[trigger] paths[i]) == components_of(path)
}

fn is_listed(paths: &Vec<String>, path: &str) -> (yes: bool)
    ensures
        yes == lists_path(views(paths@), path@),
{
    let mut i: usize = 0;
    while i < paths.len()
        invariant
            i <= paths@.len(),
            forall|j: int|
                0 <= j < i ==> components_of(#[trigger] views(paths@)[j]) != components_of(path@),
        decreases paths@.len() - i,
    {
        assert(views(paths@)[i as int] == paths@[i as int]@);
        if same_path(paths[i].as_str(), path) {
            return true;
        }
        i += 1;
    }
    false
}

/// Candidates in path order with one more in its place; a path that is already
/// there stays as it is.
pub open spec fn insert_candidate(
    candidates: Seq<(Seq<char>, int)>,
    candidate: (Seq<char>, int),
) -> Seq<(Seq<char>, int)>
    decreases candidates.len(),
{
    if candidates.len() == 0 || path_less(candidates.last().0, candidate.0) {
        candidates.push(candidate)
    } else if components_of(candidates.last().0) == components_of(candidate.0) {
        candidates
    } else {
        insert_candidate(candidates.drop_last(), candidate).push(candidates.last())
    }
}

fn put_candidate(candidates: &mut Vec<Candidate>, candidate: Candidate)
    ensures
        candidate_views(final(candidates)@) == insert_candidate(
            candidate_views(old(candidates)@),
            (candidate.path@, candidate.pack as int),
        ),
        forall|k: int|
            0 <= k < final(candidates)@.len() ==> (#[trigger] final(candidates)@[k]) == candidate
                || old(candidates)@.contains(final(candidates)@[k]),
{
    let ghost before = candidate_views(candidates@);
    let ghost entry = (candidate.path@, candidate.pack as int);
    let mut at: usize = candidates.len();
    assert(before.take(at as int) =~= before);
    assert(insert_candidate(before, entry) + before.skip(at as int) =~= insert_candidate(
        before,
        entry,
    ));
    while at > 0 && !comes_before(candidates[at - 1].path.as_str(), candidate.path.as_str())
        invariant
            at <= candidates@.len(),
            *candidates == *old(candidates),
            before == candidate_views(candidates@),
            entry == (candidate.path@, candidate.pack as int),
            insert_candidate(before, entry) == insert_candidate(before.take(at as int), entry)
                + before.skip(at as int),
        decreases at,
    {
        let ghost head = before.take(at as int);
        assert(head.last() == (candidates@[at - 1].path@, candidates@[at - 1].pack as int));
        if same_path(candidates[at - 1].path.as_str(), candidate.path.as_str()) {
            assert(head + before.skip(at as int) =~= before);
            assert(forall|k: int|
                0 <= k < candidates@.len() ==> old(candidates)@.contains(
                    #[trigger] candidates@[k],
                ));
            return;
        }
        proof {
            assert(head.drop_last() =~= before.take(at - 1));
            assert(insert_candidate(head.drop_last(), entry).push(head.last()) + before.skip(
                at as int,
            ) =~= insert_candidate(before.take(at - 1), entry) + before.skip(at - 1));
        }
        at -= 1;
    }
    proof {
        if at > 0 {
            assert(before.take(at as int).last() == (
                candidates@[at - 1].path@,
                candidates@[at - 1].pack as int,
            ));
        }
    }
    candidates.insert(at, candidate);
    assert forall|k: int| 0 <= k < candidates@.len() implies (#[trigger] candidates@[k])
        == candidate || old(candidates)@.contains(candidates@[k]) by {
        if k < at {
            assert(old(candidates)@[k] == candidates@[k]);
        } else if k > at {
            assert(old(candidates)@[k - 1] == candidates@[k]);
        }
    }
    assert(candidate_views(candidates@) =~= before.take(at as int).push(entry) + before.skip(
        at as int,
    ));
}

/// The files that a pack's patterns can name and that no tree covers, in path
/// order, each once, with the place of the pack.
pub open spec fn uncovered_of(
    packs: Seq<PackView>,
    files: Seq<Seq<char>>,
    covered: Seq<Seq<char>>,
) -> Seq<(Seq<char>, int)>
    decreases files.len(),
{
    if files.len() == 0 {
        Seq::empty()
    } else {
        let before = uncovered_of(packs, files.drop_last(), covered);
        let path = files.last();
        match file_name_of(path) {
            None => before,
            Some(name) => match pack_naming(packs, name, 0) {
                Some(pack) if !lists_path(covered, path) => insert_candidate(before, (path, pack)),
                _ => before,
            },
        }
    }
}

/// The files that may hold tests no tree covers. Coverage is routing-exact:
/// only the files that forward routing actually selects for a tree are
/// `covered` — a same-stem sibling matching a later pattern is not. A file is
/// a candidate when its name matches any pack's target pattern in reverse.
pub fn uncovered_candidates(packs: &Vec<Pack>, files: &Vec<String>, covered: &Vec<String>) -> (out: Vec<
    Candidate,
>)
    ensures
        candidate_views(out@) == uncovered_of(views(packs@), views(files@), views(covered@)),
        forall|i: int| 0 <= i < out@.len() ==> (#[trigger] out@[i]).pack < packs@.len(),
{
    let ghost all = views(files@);
    let mut out: Vec<Candidate> = Vec::new();
    let mut i: usize = 0;
    assert(all.take(0) =~= Seq::empty());
    assert(candidate_views(out@) =~= Seq::empty());
    while i < files.len()
        invariant
            i <= files@.len(),
            all == views(files@),
            candidate_views(out@) == uncovered_of(
                views(packs@),
                all.take(i as int),
                views(covered@),
            ),
            forall|k: int| 0 <= k < out@.len() ==> (#[trigger] out@[k]).pack < packs@.len(),
        decreases files@.len() - i,
    {
        let path = &files[i];
        assert(all.take(i + 1).drop_last() =~= all.take(i as int));
        assert(all.take(i + 1).last() == path@);
        if let Some(name) = file_name(path.as_str()) {
            if let Some(pack) = find_pack_naming(packs, name.as_str()) {
                if !is_listed(covered, path.as_str()) {
                    let candidate = Candidate { path: path.clone(), pack };
                    let ghost before = out@;
                    put_candidate(&mut out, candidate);
                    assert forall|k: int| 0 <= k < out@.len() implies (#[trigger] out@[k]).pack
                        < packs@.len() by {
                        if out@[k] != candidate {
                            let j = choose|j: int| 0 <= j < before.len() && before[j] == out@[k];
                            assert(before[j].pack < packs@.len());
                        }
                    }
                }
            }
        }
        i += 1;
    }
    assert(all.take(i as int) =~= all);
    out
}

/// What scanning a candidate came to: how many tests it holds and which
/// constructs no tree can represent, or why it could not be scanned.
pub open spec fn scanned(pack: PackView, path: Seq<char>, text: Result<Seq<char>, Seq<char>>) -> Result<
    (nat, Seq<UnsupportedView>),
    ErrorView,
> {
    match text {
        Err(message) => Err(ErrorView::Io { path, message }),
        Ok(source) => match extracted(pack, path, source) {
            Err(e) => Err(e),
            Ok(found) => Ok((capped(actual_tests(found.nodes)), found.unsupported)),
        },
    }
}

/// Scan one candidate.
///
/// # Errors
///
/// The candidate could not be read, or its structure not be extracted.
pub fn scan_file(pack: &Pack, path: &str, text: &FileText) -> (out: Result<
    (usize, Vec<Unsupported>),
    Error,
>)
    ensures
        match out {
            Ok((tests, unsupported)) => scanned(pack@, path@, text_view(*text)) == Ok::<
                (nat, Seq<UnsupportedView>),
                ErrorView,
            >((tests as nat, views(unsupported@))),
            Err(e) => scanned(pack@, path@, text_view(*text)) == Err::<
                (nat, Seq<UnsupportedView>),
                ErrorView,
            >(e@),
        },
{
    match text {
        Err(message) => Err(Error::Io { path: owned(path), message: message.clone() }),
        Ok(source) => {
            let found = extract_with_findings(pack, path, source.as_str())?;
            Ok((count_actual_tests(found.nodes.as_slice()), found.unsupported))
        },
    }
}

/// A scan with what scanning one more candidate came to.
pub open spec fn with_scanned(
    scan: ScanView,
    path: Seq<char>,
    result: Result<(nat, Seq<UnsupportedView>), ErrorView>,
) -> ScanView {
    match result {
        Err(e) => ScanView { failed: scan.failed.push((path, e)), ..scan },
        Ok((tests, unsupported)) => ScanView {
            uncovered: if tests > 0 {
                scan.uncovered.push((path, tests))
            } else {
                scan.uncovered
            },
            unsupported: scan.unsupported + unsupported.map_values(
                |u: UnsupportedView| (path, u.line),
            ),
            failed: scan.failed,
        },
    }
}

/// The scan of candidates, after the failures of the walk that found them.
pub open spec fn scan_of(
    packs: Seq<PackView>,
    failures: Seq<(Seq<char>, ErrorView)>,
    candidates: Seq<(Seq<char>, int)>,
    texts: Seq<Result<Seq<char>, Seq<char>>>,
) -> ScanView
    decreases candidates.len(),
{
    if candidates.len() == 0 {
        ScanView { uncovered: Seq::empty(), unsupported: Seq::empty(), failed: failures }
    } else {
        let (path, pack) = candidates.last();
        with_scanned(
            scan_of(packs, failures, candidates.drop_last(), texts),
            path,
            scanned(packs[pack], path, texts[candidates.len() - 1]),
        )
    }
}

/// Texts of files by their models.
pub open spec fn text_views(texts: Seq<FileText>) -> Seq<Result<Seq<char>, Seq<char>>> {
    texts.map_values(|text: FileText| text_view(text))
}

fn add_scanned(
    scan: &mut UncoveredScan,
    path: &String,
    result: Result<(usize, Vec<Unsupported>), Error>,
)
    ensures
        final(scan)@ == with_scanned(
            old(scan)@,
            path@,
            match result {
                Ok((tests, unsupported)) => Ok((tests as nat, views(unsupported@))),
                Err(e) => Err(e@),
            },
        ),
{
    let ghost before = scan@;
    match result {
        Err(e) => {
            scan.failed.push((path.clone(), e));
            assert(scan@.failed =~= before.failed.push((path@, e@)));
        },
        Ok((tests, unsupported)) => {
            if tests > 0 {
                scan.uncovered.push(Uncovered { path: path.clone(), tests });
                assert(scan@.uncovered =~= before.uncovered.push((path@, tests as nat)));
            }
            let ghost added = views(unsupported@).map_values(
                |u: UnsupportedView| (path@, u.line),
            );
            let ghost counted = scan@.uncovered;
            let mut i: usize = 0;
            assert(scan@.unsupported =~= before.unsupported + added.take(0));
            while i < unsupported.len()
                invariant
                    i <= unsupported@.len(),
                    added == views(unsupported@).map_values(|u: UnsupportedView| (path@, u.line)),
                    scan@.uncovered == counted,
                    scan@.failed == before.failed,
                    scan@.unsupported == before.unsupported + added.take(i as int),
                decreases unsupported@.len() - i,
            {
                let ghost listed = scan@.unsupported;
                let line: usize = unsupported[i].line;
                scan.unsupported.push(UnsupportedIn { path: path.clone(), line });
                proof {
                    assert(views(unsupported@)[i as int] == unsupported@[i as int]@);
                    assert(added[i as int] == (path@, line as nat));
                    assert(scan@.unsupported =~= listed.push((path@, line as nat)));
                    assert(scan@.unsupported =~= before.unsupported + added.take(i + 1));
                }
                i += 1;
            }
            assert(added.take(i as int) =~= added);
        },
    }
}

/// Find source files that contain tests but that no `.tree` spec routes to,
/// among the candidates whose texts were read. This is what keeps partial
/// adoption honest: a check reports not just "the covered files match" but
/// "these files are not covered at all". `failures` are the places that could
/// not be walked: they hide an unknown number of candidates.
#[must_use]
pub fn find_uncovered(
    packs: &Vec<Pack>,
    failures: Vec<(String, Error)>,
    candidates: &Vec<Candidate>,
    texts: &Vec<FileText>,
) -> (out: UncoveredScan)
    requires
        candidates@.len() == texts@.len(),
        forall|i: int| 0 <= i < candidates@.len() ==> (#[trigger] candidates@[i]).pack
            < packs@.len(),
    ensures
        out@ == scan_of(
            views(packs@),
            failure_views(failures@),
            candidate_views(candidates@),
            text_views(texts@),
        ),
{
    let ghost all = candidate_views(candidates@);
    let mut scan = UncoveredScan { uncovered: Vec::new(), unsupported: Vec::new(), failed: failures };
    let mut i: usize = 0;
    proof {
        assert(all.take(0) =~= Seq::empty());
        assert(scan@.uncovered =~= Seq::empty());
        assert(scan@.unsupported =~= Seq::empty());
    }
    while i < candidates.len()
        invariant
            i <= candidates@.len(),
            all == candidate_views(candidates@),
            candidates@.len() == texts@.len(),
            forall|k: int|
                0 <= k < candidates@.len() ==> (#[trigger] candidates@[k]).pack < packs@.len(),
            scan@ == scan_of(
                views(packs@),
                failure_views(failures@),
                all.take(i as int),
                text_views(texts@),
            ),
        decreases candidates@.len() - i,
    {
        let candidate = &candidates[i];
        proof {
            assert(all.take(i + 1).drop_last() =~= all.take(i as int));
            assert(all.take(i + 1).last() == (candidate.path@, candidate.pack as int));
            assert(views(packs@)[candidate.pack as int] == packs@[candidate.pack as int]@);
            assert(text_views(texts@)[i as int] == text_view(texts@[i as int]));
        }
        let result = scan_file(&packs[candidate.pack], candidate.path.as_str(), &texts[i]);
        add_scanned(&mut scan, &candidate.path, result);
        i += 1;
    }
    assert(all.take(i as int) =~= all);
    scan
}

proof fn lemma_insert_candidate(
    candidates: Seq<(Seq<char>, int)>,
    candidate: (Seq<char>, int),
    i: int,
)
    requires
        0 <= i < insert_candidate(candidates, candidate).len(),
    ensures
        insert_candidate(candidates, candidate)[i] == candidate || candidates.contains(
            insert_candidate(candidates, candidate)[i],
        ),
    decreases candidates.len(),
{
    let out = insert_candidate(candidates, candidate);
    if candidates.len() == 0 || path_less(candidates.last().0, candidate.0) {
        if i < candidates.len() {
            assert(candidates[i] == out[i]);
        }
    } else if components_of(candidates.last().0) == components_of(candidate.0) {
        assert(candidates[i] == out[i]);
    } else {
        let front = candidates.drop_last();
        if i < insert_candidate(front, candidate).len() {
            lemma_insert_candidate(front, candidate, i);
            if out[i] != candidate {
                let k = choose|k: int| 0 <= k < front.len() && front[k] == out[i];
                assert(candidates[k] == out[i]);
            }
        } else {
            assert(candidates[candidates.len() - 1] == out[i]);
        }
    }
}

proof fn lemma_pack_naming(packs: Seq<PackView>, name: Seq<char>, i: int)
    requires
        0 <= i,
        pack_naming(packs, name, i) is Some,
    ensures
        i <= pack_naming(packs, name, i)->0 < packs.len(),
        names(packs[pack_naming(packs, name, i)->0], name),
    decreases packs.len() - i,
{
    if !names(packs[i], name) {
        lemma_pack_naming(packs, name, i + 1);
    }
}

/// The test files that trees describe, in the order of the trees.
pub open spec fn covered_by(
    trees: Seq<Seq<char>>,
    packs: Seq<PackView>,
    present: Seq<Seq<char>>,
) -> Seq<Seq<char>>
    decreases trees.len(),
{
    if trees.len() == 0 {
        Seq::empty()
    } else {
        let before = covered_by(trees.drop_last(), packs, present);
        match target_of(trees.last(), packs, present) {
            TargetView::Found { path, .. } => before.push(path),
            TargetView::NotFound { .. } => before,
        }
    }
}

/// The test files that trees describe, in the order of the trees. `present` are
/// the files that exist.
pub fn covered_paths(trees: &Vec<String>, packs: &Vec<Pack>, present: &Vec<String>) -> (out: Vec<
    String,
>)
    ensures
        views(out@) == covered_by(views(trees@), views(packs@), views(present@)),
{
    let ghost all = views(trees@);
    let mut out: Vec<String> = Vec::new();
    let mut i: usize = 0;
    assert(all.take(0) =~= Seq::empty());
    assert(views(out@) =~= Seq::empty());
    while i < trees.len()
        invariant
            i <= trees@.len(),
            all == views(trees@),
            views(out@) == covered_by(all.take(i as int), views(packs@), views(present@)),
        decreases trees@.len() - i,
    {
        let ghost before = views(out@);
        assert(all.take(i + 1).drop_last() =~= all.take(i as int));
        assert(all.take(i + 1).last() == trees@[i as int]@);
        match resolve_target(trees[i].as_str(), packs, present) {
            Target::Found { path, .. } => {
                let ghost added = path@;
                out.push(path);
                assert(views(out@) =~= before.push(added));
            },
            Target::NotFound { .. } => {},
        }
        i += 1;
    }
    assert(all.take(i as int) =~= all);
    out
}

/// What is scanned for tests that no tree covers is a given file, one that a
/// pattern of its pack can name, and never one that a tree routes to.
pub proof fn law_covered_files_are_not_scanned(
    packs: Seq<PackView>,
    files: Seq<Seq<char>>,
    covered: Seq<Seq<char>>,
    i: int,
)
    requires
        0 <= i < uncovered_of(packs, files, covered).len(),
    ensures
        ({
            let (path, pack) = uncovered_of(packs, files, covered)[i];
            &&& files.contains(path)
            &&& !lists_path(covered, path)
            &&& 0 <= pack < packs.len()
            &&& file_name_of(path) matches Some(name) && names(packs[pack], name)
        }),
    decreases files.len(),
{
    let found = uncovered_of(packs, files, covered)[i];
    let front = files.drop_last();
    let before = uncovered_of(packs, front, covered);
    let path = files.last();
    let entry = match file_name_of(path) {
        None => None,
        Some(name) => match pack_naming(packs, name, 0) {
            Some(pack) if !lists_path(covered, path) => Some((path, pack)),
            _ => None,
        },
    };
    if entry is Some {
        lemma_insert_candidate(before, entry->0, i);
    }
    if entry == Some(found) {
        assert(files[files.len() - 1] == path);
        lemma_pack_naming(packs, file_name_of(path)->0, 0);
    } else {
        assert(before.contains(found)) by {
            if entry is None {
                assert(before[i] == found);
            }
        }
        let k = choose|k: int| 0 <= k < before.len() && before[k] == found;
        law_covered_files_are_not_scanned(packs, front, covered, k);
        let m = choose|m: int| 0 <= m < front.len() && front[m] == found.0;
        assert(files[m] == found.0);
    }
}

/// A search finds, in their order, the files that were named and the tree files
/// of the directories that were named: those whose name ends in `.tree`.
pub proof fn law_searches_find_trees(
    before: Seq<SearchedView>,
    file: Seq<char>,
    files: Seq<Seq<char>>,
    path: Seq<char>,
)
    ensures
        trees_found(Seq::empty()) == Seq::<Seq<char>>::empty(),
        trees_found(before.push(SearchedView::File(file))) == trees_found(before).push(file),
        trees_found(before.push(SearchedView::Directory(files))) == trees_found(before)
            + only_trees(files),
        only_trees(Seq::empty()) == Seq::<Seq<char>>::empty(),
        only_trees(files.push(path)) == if extension_of(path) == Some("tree"@) {
            only_trees(files).push(path)
        } else {
            only_trees(files)
        },
{
    assert(before.push(SearchedView::File(file)).drop_last() =~= before);
    assert(before.push(SearchedView::Directory(files)).drop_last() =~= before);
    assert(files.push(path).drop_last() =~= files);
    assert(trees_found(before) + seq![file] =~= trees_found(before).push(file));
}

/// The stem of a file name is what stands between the two parts of a target
/// pattern; a name that does not start and end with them, or has nothing
/// between them, has none.
pub proof fn law_stems_stand_between_the_parts_of_a_pattern(
    prefix: Seq<char>,
    suffix: Seq<char>,
    name: Seq<char>,
    stem: Seq<char>,
)
    requires
        cut_once(prefix + "{stem}"@ + suffix, "{stem}"@) == Some((prefix, suffix)),
    ensures
        stem_of(prefix + "{stem}"@ + suffix, name) == Some(stem) <==> stem.len() > 0 && name
            == prefix + stem + suffix,
{
    let rest = name.skip(prefix.len() as int);
    let found = rest.take(rest.len() - suffix.len());
    if prefix.is_prefix_of(name) && suffix.is_suffix_of(rest) {
        assert(rest =~= found + suffix);
        assert(name =~= prefix + found + suffix);
    }
    if name == prefix + stem + suffix {
        assert(name.take(prefix.len() as int) =~= prefix);
        assert(rest =~= stem + suffix);
        assert(rest.skip(rest.len() - suffix.len()) =~= suffix);
        assert(found =~= stem);
    }
}

/// A tree file is looked for pack by pack in their order, and within a pack
/// pattern by pattern: next to the tree, under the name that the pattern makes
/// of the stem.
pub proof fn law_candidates_come_pack_by_pack(
    tree_path: Seq<char>,
    packs: Seq<PackView>,
    pack: PackView,
    k: int,
)
    ensures
        candidates_of(tree_path, Seq::empty()) == Seq::<(Seq<char>, int)>::empty(),
        ({
            let before = candidates_of(tree_path, packs);
            let all = candidates_of(tree_path, packs.push(pack));
            &&& all.len() == before.len() + pack.manifest.targets.len()
            &&& all.take(before.len() as int) == before
            &&& 0 <= k < pack.manifest.targets.len() ==> all[before.len() + k] == (
                joined_path(
                    tree_dir_of(tree_path),
                    replaced(pack.manifest.targets[k], "{stem}"@, stem_in(tree_path)),
                ),
                packs.len() as int,
            )
        }),
{
    let before = candidates_of(tree_path, packs);
    let all = candidates_of(tree_path, packs.push(pack));
    assert(packs.push(pack).drop_last() =~= packs);
    assert(all.take(before.len() as int) =~= before);
}

/// The target of a tree is the first candidate that is there; where none is,
/// all of them were tried.
pub proof fn law_the_first_present_candidate_is_the_target(
    tree_path: Seq<char>,
    packs: Seq<PackView>,
    present: Seq<Seq<char>>,
    k: int,
)
    requires
        k <= candidates_of(tree_path, packs).len(),
        forall|j: int|
            0 <= j < k ==> !present.contains((#[trigger] candidates_of(tree_path, packs)[j]).0),
    ensures
        0 <= k < candidates_of(tree_path, packs).len() && present.contains(
            candidates_of(tree_path, packs)[k].0,
        ) ==> target_of(tree_path, packs, present) == (TargetView::Found {
            pack: packs[candidates_of(tree_path, packs)[k].1],
            path: candidates_of(tree_path, packs)[k].0,
        }),
        k == candidates_of(tree_path, packs).len() ==> target_of(tree_path, packs, present) == (
        TargetView::NotFound {
            candidates: Seq::new(
                candidates_of(tree_path, packs).len(),
                |i: int| candidates_of(tree_path, packs)[i].0,
            ),
        }),
{
    let candidates = candidates_of(tree_path, packs);
    lemma_first_present(candidates, present, k);
    assert(candidates.map_values(|c: (Seq<char>, int)| c.0) =~= Seq::new(
        candidates.len(),
        |i: int| candidates[i].0,
    ));
}

proof fn lemma_first_present(candidates: Seq<(Seq<char>, int)>, present: Seq<Seq<char>>, k: int)
    requires
        k <= candidates.len(),
        forall|j: int| 0 <= j < k ==> !present.contains((#[trigger] candidates[j]).0),
    ensures
        0 <= k < candidates.len() && present.contains(candidates[k].0) ==> first_present(
            candidates,
            present,
        ) == Some(candidates[k]),
        k == candidates.len() ==> first_present(candidates, present) is None,
    decreases candidates.len(),
{
    if candidates.len() > 0 && k > 0 {
        let rest = candidates.drop_first();
        assert(!present.contains(candidates[0].0));
        assert forall|j: int| 0 <= j < k - 1 implies !present.contains((#[trigger] rest[j]).0) by {
            assert(rest[j] == candidates[j + 1]);
        }
        lemma_first_present(rest, present, k - 1);
        if k < candidates.len() {
            assert(rest[k - 1] == candidates[k]);
        }
    }
}

/// What a check reports are, in this order, the differences between the tree and
/// the tests, the constructs that no tree can represent, and the markers that
/// are left in the file, each with the severity that the config sets. A file
/// that cannot be read, parsed or extracted from is an error of its own.
pub proof fn law_a_check_reports_everything_that_is_wrong(
    pack: PackView,
    tree_path: Seq<char>,
    spec: Seq<char>,
    trees: Seq<crate::tree::SpecTreeView>,
    target: Seq<char>,
    source: Seq<char>,
    found: crate::extract::ExtractionView,
    cfg: CheckConfig,
    message: Seq<char>,
)
    requires
        parsed(spec) == Ok::<Seq<crate::tree::SpecTreeView>, crate::tree::ParseErrorView>(trees),
        extracted(pack, target, source) == Ok::<crate::extract::ExtractionView, ErrorView>(found),
    ensures
        checked(pack, tree_path, Ok(spec), target, Ok(source), cfg) == Ok::<
            Seq<ReportedView>,
            ErrorView,
        >(
            reported(
                findings_of(
                    expected_of(trees, pack.manifest.mapping),
                    unwrapped(found.nodes, pack.manifest.mapping.wrappers),
                ),
                cfg,
            ) + reported(
                Seq::new(
                    found.unsupported.len(),
                    |i: int| FindingView::Unsupported { target_line: found.unsupported[i].line },
                ),
                cfg,
            ) + reported(todos_of(source, found.source_nodes), cfg),
        ),
        checked(pack, tree_path, Err(message), target, Ok(source), cfg) == Err::<
            Seq<ReportedView>,
            ErrorView,
        >(ErrorView::Io { path: tree_path, message }),
        checked(pack, tree_path, Ok(spec), target, Err(message), cfg) == Err::<
            Seq<ReportedView>,
            ErrorView,
        >(ErrorView::Io { path: target, message }),
{
    let mapping = pack.manifest.mapping;
    let first = findings_of(expected_of(trees, mapping), unwrapped(found.nodes, mapping.wrappers));
    let second = unsupported_findings(found.unsupported);
    let third = todos_of(source, found.source_nodes);
    lemma_reported_concat(first + second, third, cfg);
    lemma_reported_concat(first, second, cfg);
    assert(second =~= Seq::new(
        found.unsupported.len(),
        |i: int| FindingView::Unsupported { target_line: found.unsupported[i].line },
    ));
}

/// The tests of a file are counted at every depth.
pub proof fn law_tests_are_counted_at_every_depth(nodes: Seq<ActualView>)
    ensures
        actual_tests(nodes) == tests_of(nodes).len(),
    decreases nodes,
{
    if nodes.len() > 0 {
        law_tests_are_counted_at_every_depth(nodes.drop_last());
        law_tests_are_counted_at_every_depth(nodes.last().children);
    }
}

/// The pack of a file name is the first one that has a pattern which can make
/// the name.
pub proof fn law_the_first_pack_that_names_a_file_counts(
    packs: Seq<PackView>,
    name: Seq<char>,
    i: int,
    k: int,
)
    requires
        0 <= i <= k < packs.len(),
        names(packs[k], name),
        forall|j: int| i <= j < k ==> !names(#[trigger] packs[j], name),
    ensures
        pack_naming(packs, name, i) == Some(k),
    decreases k - i,
{
    if i < k {
        law_the_first_pack_that_names_a_file_counts(packs, name, i + 1, k);
    }
}

proof fn lemma_insert_candidate_lists(
    candidates: Seq<(Seq<char>, int)>,
    candidate: (Seq<char>, int),
)
    ensures
        ({
            let out = insert_candidate(candidates, candidate);
            &&& exists|k: int|
                0 <= k < out.len() && components_of((#[trigger] out[k]).0) == components_of(
                    candidate.0,
                )
            &&& forall|i: int|
                0 <= i < candidates.len() ==> exists|k: int|
                    0 <= k < out.len() && #[trigger] out[k] == #[trigger] candidates[i]
        }),
    decreases candidates.len(),
{
    let out = insert_candidate(candidates, candidate);
    if candidates.len() == 0 || path_less(candidates.last().0, candidate.0) {
        assert(out[out.len() - 1] == candidate);
        assert forall|i: int| 0 <= i < candidates.len() implies exists|k: int|
            0 <= k < out.len() && #[trigger] out[k] == #[trigger] candidates[i] by {
            assert(out[i] == candidates[i]);
        }
    } else if components_of(candidates.last().0) == components_of(candidate.0) {
        assert(out[out.len() - 1] == candidates.last());
        assert forall|i: int| 0 <= i < candidates.len() implies exists|k: int|
            0 <= k < out.len() && #[trigger] out[k] == #[trigger] candidates[i] by {
            assert(out[i] == candidates[i]);
        }
    } else {
        let front = candidates.drop_last();
        lemma_insert_candidate_lists(front, candidate);
        let inner = insert_candidate(front, candidate);
        let k = choose|k: int|
            0 <= k < inner.len() && components_of((#[trigger] inner[k]).0) == components_of(
                candidate.0,
            );
        assert(out[k] == inner[k]);
        assert forall|i: int| 0 <= i < candidates.len() implies exists|k: int|
            0 <= k < out.len() && #[trigger] out[k] == #[trigger] candidates[i] by {
            if i < front.len() {
                assert(front[i] == candidates[i]);
                let k = choose|k: int|
                    0 <= k < inner.len() && #[trigger] inner[k] == #[trigger] front[i];
                assert(out[k] == inner[k]);
            } else {
                assert(out[out.len() - 1] == candidates[i]);
            }
        }
    }
}

/// No file with tests escapes the scan: a given file that a pattern of a pack
/// can name and that no tree routes to is scanned.
pub proof fn law_every_uncovered_file_is_scanned(
    packs: Seq<PackView>,
    files: Seq<Seq<char>>,
    covered: Seq<Seq<char>>,
    i: int,
    pack: int,
)
    requires
        0 <= i < files.len(),
        !lists_path(covered, files[i]),
        file_name_of(files[i]) is Some,
        pack_naming(packs, file_name_of(files[i])->0, 0) == Some(pack),
    ensures
        exists|k: int|
            0 <= k < uncovered_of(packs, files, covered).len() && components_of(
                (#[trigger] uncovered_of(packs, files, covered)[k]).0,
            ) == components_of(files[i]),
    decreases files.len(),
{
    let front = files.drop_last();
    let before = uncovered_of(packs, front, covered);
    let path = files.last();
    let all = uncovered_of(packs, files, covered);
    if i < front.len() {
        assert(front[i] == files[i]);
        law_every_uncovered_file_is_scanned(packs, front, covered, i, pack);
        let k = choose|k: int|
            0 <= k < before.len() && components_of((#[trigger] before[k]).0) == components_of(
                files[i],
            );
        match file_name_of(path) {
            Some(name) => match pack_naming(packs, name, 0) {
                Some(p) => {
                    if !lists_path(covered, path) {
                        lemma_insert_candidate_lists(before, (path, p));
                        let l = choose|l: int|
                            0 <= l < all.len() && #[trigger] all[l] == #[trigger] before[k];
                        assert(components_of(all[l].0) == components_of(files[i]));
                    } else {
                        assert(all[k] == before[k]);
                    }
                },
                None => {
                    assert(all[k] == before[k]);
                },
            },
            None => {
                assert(all[k] == before[k]);
            },
        }
    } else {
        assert(path == files[i]);
        lemma_insert_candidate_lists(before, (path, pack));
    }
}

/// A file that was scanned adds what was found in it: itself with the number of
/// its tests where it has any, the lines of what no tree can represent, and
/// nothing else; a file that could not be scanned is listed with the reason.
pub proof fn law_a_scanned_file_adds_what_was_found(
    scan: ScanView,
    path: Seq<char>,
    tests: nat,
    unsupported: Seq<UnsupportedView>,
    e: ErrorView,
    i: int,
)
    ensures
        with_scanned(scan, path, Err(e)) == (ScanView {
            uncovered: scan.uncovered,
            unsupported: scan.unsupported,
            failed: scan.failed.push((path, e)),
        }),
        ({
            let after = with_scanned(scan, path, Ok((tests, unsupported)));
            &&& after.failed == scan.failed
            &&& tests == 0 ==> after.uncovered == scan.uncovered
            &&& tests > 0 ==> after.uncovered == scan.uncovered.push((path, tests))
            &&& after.unsupported.len() == scan.unsupported.len() + unsupported.len()
            &&& 0 <= i < scan.unsupported.len() ==> after.unsupported[i] == scan.unsupported[i]
            &&& 0 <= i < unsupported.len() ==> after.unsupported[scan.unsupported.len() + i] == (
                path,
                unsupported[i].line,
            )
        }),
{
}

/// The files that trees cover are the targets that the trees route to.
pub proof fn law_trees_cover_their_targets(
    trees: Seq<Seq<char>>,
    tree: Seq<char>,
    packs: Seq<PackView>,
    present: Seq<Seq<char>>,
)
    ensures
        covered_by(Seq::empty(), packs, present) == Seq::<Seq<char>>::empty(),
        covered_by(trees.push(tree), packs, present) == match target_of(tree, packs, present) {
            TargetView::Found { path, .. } => covered_by(trees, packs, present).push(path),
            TargetView::NotFound { .. } => covered_by(trees, packs, present),
        },
{
    assert(trees.push(tree).drop_last() =~= trees);
}

/// A tree without a test file has no target; one with a test file is checked
/// against it, and fails where that cannot be done.
pub proof fn law_outcomes_tell_of_the_target(
    packs: Seq<PackView>,
    input: TreeInputView,
    cfg: CheckConfig,
    pack: PackView,
    path: Seq<char>,
    candidates: Seq<Seq<char>>,
)
    ensures
        outcome_of(packs, input, cfg).tree_path == input.tree_path,
        target_of(input.tree_path, packs, input.present) == (TargetView::NotFound { candidates })
            ==> outcome_of(packs, input, cfg).result == (FileResultView::NoTarget { candidates }),
        target_of(input.tree_path, packs, input.present) == (TargetView::Found { pack, path }) ==> {
            let result = outcome_of(packs, input, cfg).result;
            match checked(pack, input.tree_path, input.spec, path, input.source, cfg) {
                Ok(findings) => result == (FileResultView::Checked { target: path, findings }),
                Err(e) => result == FileResultView::Failed(e),
            }
        },
{
}

/// A scanned file counts the tests of its structure, and a file that cannot be
/// read or extracted from fails the scan.
pub proof fn law_scans_count_tests(
    pack: PackView,
    path: Seq<char>,
    source: Seq<char>,
    message: Seq<char>,
    found: crate::extract::ExtractionView,
    e: ErrorView,
)
    ensures
        scanned(pack, path, Err(message)) == Err::<(nat, Seq<UnsupportedView>), ErrorView>(
            ErrorView::Io { path, message },
        ),
        extracted(pack, path, source) == Err::<crate::extract::ExtractionView, ErrorView>(e)
            ==> scanned(pack, path, Ok(source)) == Err::<(nat, Seq<UnsupportedView>), ErrorView>(e),
        extracted(pack, path, source) == Ok::<crate::extract::ExtractionView, ErrorView>(found)
            && tests_of(found.nodes).len() < usize::MAX ==> scanned(pack, path, Ok(source))
            == Ok::<(nat, Seq<UnsupportedView>), ErrorView>(
            (tests_of(found.nodes).len(), found.unsupported),
        ),
{
    law_tests_are_counted_at_every_depth(found.nodes);
}

/// Files are scanned in their order, each with its pack and its text.
pub proof fn law_scans_go_file_by_file(
    packs: Seq<PackView>,
    failures: Seq<(Seq<char>, ErrorView)>,
    candidates: Seq<(Seq<char>, int)>,
    path: Seq<char>,
    pack: int,
    texts: Seq<Result<Seq<char>, Seq<char>>>,
)
    ensures
        scan_of(packs, failures, Seq::empty(), texts) == (ScanView {
            uncovered: Seq::empty(),
            unsupported: Seq::empty(),
            failed: failures,
        }),
        scan_of(packs, failures, candidates.push((path, pack)), texts) == with_scanned(
            scan_of(packs, failures, candidates, texts),
            path,
            scanned(packs[pack], path, texts[candidates.len() as int]),
        ),
{
    let all = candidates.push((path, pack));
    assert(all.drop_last() =~= candidates);
    assert(all.last() == (path, pack));
}

} // verus!
