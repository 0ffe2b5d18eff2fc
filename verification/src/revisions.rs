//! Comparing the behaviors of a repository's tree files between two sides:
//! two revisions, or a revision and the working tree.

use vstd::prelude::*;
use crate::diff::{compare, Changes};
use crate::runner::{add_capped, is_tree_file};
use crate::text::{concat2, contains, count_text, owned, same, sorted_set, split, split_once};
use crate::tree::{parse, SpecTree};

verus! {

use crate::diff::{
    behaviors, changes_between, has_node, law_changes_are_the_paths_of_one_file, ChangesView,
    RenameView,
};
use crate::paths::extension_of;
use crate::runner::{capped, is_skipped, is_tree_path};
use crate::text::{
    ascending, cut_once, decimal_of, has_part, law_texts_are_cut_at_the_first_separator,
    lemma_text_set, occurs_at, opt_view, pieces, text_set, views,
};
use crate::tree::{error_text, parsed, SpecTreeView};

broadcast use vstd::string::group_string_axioms;

/// What a revision argument asks for: the old revision, and the new one or
/// nothing for the working tree. The error says why it asks for nothing.
pub open spec fn range_of(revisions: Seq<char>) -> Result<(Seq<char>, Option<Seq<char>>), Seq<char>> {
    match cut_once(revisions, ".."@) {
        Some((old_rev, new_rev)) => if old_rev.len() > 0 && new_rev.len() > 0 && !has_part(
            new_rev,
            ".."@,
        ) {
            Ok((old_rev, Some(new_rev)))
        } else {
            Err("revision range must be REV..REV"@)
        },
        None => if revisions.len() == 0 {
            Err("revision must not be empty"@)
        } else {
            Ok((revisions, None))
        },
    }
}

/// Read a revision argument: `REV` means `REV` against the working tree.
///
/// # Errors
///
/// An empty argument, or a range that is not `REV..REV`.
pub fn parse_range(revisions: &str) -> (out: Result<(String, Option<String>), String>)
    ensures
        match out {
            Ok((old_rev, new_rev)) => range_of(revisions@) == Ok::<
                (Seq<char>, Option<Seq<char>>),
                Seq<char>,
            >((old_rev@, opt_view(new_rev))),
            Err(message) => range_of(revisions@) == Err::<
                (Seq<char>, Option<Seq<char>>),
                Seq<char>,
            >(message@),
        },
{
    match split_once(revisions, "..") {
        Some((old_rev, new_rev)) => {
            if !old_rev.as_str().is_empty() && !new_rev.as_str().is_empty() && !contains(
                new_rev.as_str(),
                "..",
            ) {
                Ok((old_rev, Some(new_rev)))
            } else {
                Err(owned("revision range must be REV..REV"))
            }
        },
        None => {
            if revisions.is_empty() {
                Err(owned("revision must not be empty"))
            } else {
                Ok((owned(revisions), None))
            }
        },
    }
}

/// Whether a path of a revision is that of a tree file that discovery finds in
/// the working tree.
pub open spec fn is_discovered(path: Seq<char>) -> bool {
    is_tree_path(path) && forall|i: int|
        0 <= i < pieces(path, '/').len() ==> !is_skipped(#[trigger] pieces(path, '/')[i])
}

/// Whether a path of a revision is that of a tree file that discovery finds in
/// the working tree.
pub fn is_discovered_tree(path: &str) -> (yes: bool)
    ensures
        yes == is_discovered(path@),
{
    if !is_tree_file(path) {
        return false;
    }
    let parts = split(path, '/');
    let ghost all = pieces(path@, '/');
    let mut i: usize = 0;
    while i < parts.len()
        invariant
            i <= parts@.len(),
            all == views(parts@),
            all == pieces(path@, '/'),
            forall|j: int| 0 <= j < i ==> !is_skipped(#[trigger] all[j]),
        decreases parts@.len() - i,
    {
        assert(all[i as int] == parts@[i as int]@);
        if crate::runner::skips_directory(parts[i].as_str()) {
            return false;
        }
        i += 1;
    }
    true
}

/// What became of a tree file.
#[derive(Debug, Clone, Copy, PartialEq, Eq, Structural)]
pub enum DiffStatus {
    /// It is only on the new side.
    Added,
    /// It is only on the old side.
    Removed,
    /// Its behaviors changed.
    Changed,
}

/// What changed in one tree file.
#[derive(Debug)]
pub struct DiffResult {
    /// The tree file.
    pub tree: String,
    /// What became of it.
    pub status: DiffStatus,
    /// Its changed behaviors.
    pub changes: Changes,
}

/// The model of a [`DiffResult`].
pub struct DiffResultView {
    pub tree: Seq<char>,
    pub status: DiffStatus,
    pub changes: ChangesView,
}

impl View for DiffResult {
    type V = DiffResultView;

    open spec fn view(&self) -> DiffResultView {
        DiffResultView { tree: self.tree@, status: self.status, changes: self.changes@ }
    }
}

/// The tree files of one side: each path with its text.
pub type Files = Vec<(String, String)>;

/// Files by their models.
pub open spec fn file_views(files: Seq<(String, String)>) -> Seq<(Seq<char>, Seq<char>)> {
    files.map_values(|f: (String, String)| (f.0@, f.1@))
}

/// The text of a file of a side; where a path is listed again, the later text
/// counts.
pub open spec fn text_in(files: Seq<(Seq<char>, Seq<char>)>, path: Seq<char>) -> Option<Seq<char>>
    decreases files.len(),
{
    if files.len() == 0 {
        None
    } else if files.last().0 == path {
        Some(files.last().1)
    } else {
        text_in(files.drop_last(), path)
    }
}

fn find_text<'a>(files: &'a Files, path: &str) -> (out: Option<&'a String>)
    ensures
        match out {
            Some(text) => text_in(file_views(files@), path@) == Some(text@),
            None => text_in(file_views(files@), path@) is None,
        },
{
    let ghost all = file_views(files@);
    let mut n: usize = files.len();
    assert(all.take(n as int) =~= all);
    while n > 0
        invariant
            n <= files@.len(),
            all == file_views(files@),
            text_in(all.take(n as int), path@) == text_in(all, path@),
        decreases n,
    {
        let (name, text) = &files[n - 1];
        assert(all.take(n as int).last() == (name@, text@));
        if same(name.as_str(), path) {
            return Some(text);
        }
        assert(all.take(n as int).drop_last() =~= all.take(n - 1));
        n -= 1;
    }
    None
}

/// The trees of a file of a side, or what is said of a file that does not
/// parse.
pub open spec fn trees_of(path: Seq<char>, side: Seq<char>, text: Seq<char>) -> Result<
    Seq<SpecTreeView>,
    Seq<char>,
> {
    match parsed(text) {
        Ok(trees) => Ok(trees),
        Err(e) => Err("parsing "@ + path + " on "@ + side + " side: "@ + error_text(e)),
    }
}

fn read_side(path: &str, side: &str, text: &str) -> (out: Result<Vec<SpecTree>, String>)
    ensures
        match out {
            Ok(trees) => trees_of(path@, side@, text@) == Ok::<Seq<SpecTreeView>, Seq<char>>(
                views(trees@),
            ),
            Err(message) => trees_of(path@, side@, text@) == Err::<Seq<SpecTreeView>, Seq<char>>(
                message@,
            ),
        },
{
    match parse(text) {
        Ok(trees) => Ok(trees),
        Err(e) => {
            let mut message = concat2("parsing ", path);
            message.append(" on ");
            message.append(side);
            message.append(" side: ");
            message.append(e.to_string().as_str());
            Err(message)
        },
    }
}

/// The behaviors of a file that is on one side only.
pub open spec fn whole_file(trees: Seq<SpecTreeView>) -> Seq<Seq<char>> {
    changes_between(behaviors(Seq::empty()), behaviors(trees)).added
}

/// What changed in one tree file, if anything did.
pub open spec fn change_of(
    path: Seq<char>,
    old_text: Option<Seq<char>>,
    new_text: Option<Seq<char>>,
) -> Result<Option<DiffResultView>, Seq<char>> {
    match (old_text, new_text) {
        (Some(old_text), Some(new_text)) => match (
            trees_of(path, "old"@, old_text),
            trees_of(path, "new"@, new_text),
        ) {
            (Err(message), _) => Err(message),
            (_, Err(message)) => Err(message),
            (Ok(before), Ok(after)) => {
                let changes = changes_between(behaviors(before), behaviors(after));
                if changes.added.len() == 0 && changes.removed.len() == 0 && changes.renamed.len()
                    == 0 {
                    Ok(None)
                } else {
                    Ok(Some(DiffResultView { tree: path, status: DiffStatus::Changed, changes }))
                }
            },
        },
        (None, Some(new_text)) => match trees_of(path, "new"@, new_text) {
            Err(message) => Err(message),
            Ok(trees) => Ok(
                Some(
                    DiffResultView {
                        tree: path,
                        status: DiffStatus::Added,
                        changes: ChangesView {
                            added: whole_file(trees),
                            removed: Seq::empty(),
                            renamed: Seq::empty(),
                        },
                    },
                ),
            ),
        },
        (Some(old_text), None) => match trees_of(path, "old"@, old_text) {
            Err(message) => Err(message),
            Ok(trees) => Ok(
                Some(
                    DiffResultView {
                        tree: path,
                        status: DiffStatus::Removed,
                        changes: ChangesView {
                            added: Seq::empty(),
                            removed: whole_file(trees),
                            renamed: Seq::empty(),
                        },
                    },
                ),
            ),
        },
        (None, None) => Ok(None),
    }
}

fn behavior_paths(trees: &Vec<SpecTree>) -> (out: Vec<String>)
    ensures
        views(out@) == whole_file(views(trees@)),
{
    let none: Vec<SpecTree> = Vec::new();
    assert(views(none@) =~= Seq::empty());
    compare(none.as_slice(), trees.as_slice()).added
}

/// What changed in one tree file, if anything did, given its text on each side
/// that has it.
///
/// # Errors
///
/// A text that does not parse.
pub fn compare_file(path: &str, old_text: Option<&String>, new_text: Option<&String>) -> (out: Result<
    Option<DiffResult>,
    String,
>)
    ensures
        ({
            let change = change_of(
                path@,
                match old_text {
                    Some(text) => Some(text@),
                    None => None,
                },
                match new_text {
                    Some(text) => Some(text@),
                    None => None,
                },
            );
            match out {
                Ok(Some(result)) => change == Ok::<Option<DiffResultView>, Seq<char>>(
                    Some(result@),
                ),
                Ok(None) => change == Ok::<Option<DiffResultView>, Seq<char>>(None),
                Err(message) => change == Err::<Option<DiffResultView>, Seq<char>>(message@),
            }
        }),
{
    match (old_text, new_text) {
        (Some(old_text), Some(new_text)) => {
            let before = read_side(path, "old", old_text.as_str())?;
            let after = read_side(path, "new", new_text.as_str())?;
            let changes = compare(before.as_slice(), after.as_slice());
            if changes.is_empty() {
                Ok(None)
            } else {
                Ok(Some(DiffResult { tree: owned(path), status: DiffStatus::Changed, changes }))
            }
        },
        (None, Some(new_text)) => {
            let trees = read_side(path, "new", new_text.as_str())?;
            let changes = Changes {
                added: behavior_paths(&trees),
                removed: Vec::new(),
                renamed: Vec::new(),
            };
            assert(changes@.removed =~= Seq::empty());
            assert(changes@.renamed =~= Seq::empty());
            Ok(Some(DiffResult { tree: owned(path), status: DiffStatus::Added, changes }))
        },
        (Some(old_text), None) => {
            let trees = read_side(path, "old", old_text.as_str())?;
            let changes = Changes {
                added: Vec::new(),
                removed: behavior_paths(&trees),
                renamed: Vec::new(),
            };
            assert(changes@.added =~= Seq::empty());
            assert(changes@.renamed =~= Seq::empty());
            Ok(Some(DiffResult { tree: owned(path), status: DiffStatus::Removed, changes }))
        },
        (None, None) => Ok(None),
    }
}

/// The paths of both sides, in ascending order, each once.
pub open spec fn all_paths(
    old_files: Seq<(Seq<char>, Seq<char>)>,
    new_files: Seq<(Seq<char>, Seq<char>)>,
) -> Seq<Seq<char>> {
    text_set(
        old_files.map_values(|f: (Seq<char>, Seq<char>)| f.0) + new_files.map_values(
            |f: (Seq<char>, Seq<char>)| f.0,
        ),
    )
}

/// What changed in the tree files of some paths.
pub open spec fn changes_in(
    paths: Seq<Seq<char>>,
    old_files: Seq<(Seq<char>, Seq<char>)>,
    new_files: Seq<(Seq<char>, Seq<char>)>,
) -> Result<Seq<DiffResultView>, Seq<char>>
    decreases paths.len(),
{
    if paths.len() == 0 {
        Ok(Seq::empty())
    } else {
        let path = paths.last();
        match (
            changes_in(paths.drop_last(), old_files, new_files),
            change_of(path, text_in(old_files, path), text_in(new_files, path)),
        ) {
            (Err(message), _) => Err(message),
            (_, Err(message)) => Err(message),
            (Ok(before), Ok(None)) => Ok(before),
            (Ok(before), Ok(Some(result))) => Ok(before.push(result)),
        }
    }
}

proof fn lemma_changes_stop(
    paths: Seq<Seq<char>>,
    old_files: Seq<(Seq<char>, Seq<char>)>,
    new_files: Seq<(Seq<char>, Seq<char>)>,
    n: int,
)
    requires
        0 <= n <= paths.len(),
        changes_in(paths.take(n), old_files, new_files) is Err,
    ensures
        changes_in(paths, old_files, new_files) == changes_in(paths.take(n), old_files, new_files),
    decreases paths.len() - n,
{
    if n < paths.len() {
        assert(paths.take(n + 1).drop_last() =~= paths.take(n));
        lemma_changes_stop(paths, old_files, new_files, n + 1);
    } else {
        assert(paths.take(n) =~= paths);
    }
}

fn add_paths(files: &Files, out: &mut Vec<String>)
    ensures
        views(final(out)@) == views(old(out)@) + file_views(files@).map_values(
            |f: (Seq<char>, Seq<char>)| f.0,
        ),
{
    let ghost start = views(out@);
    let ghost all = file_views(files@).map_values(|f: (Seq<char>, Seq<char>)| f.0);
    let mut i: usize = 0;
    assert(views(out@) =~= start + all.take(0));
    while i < files.len()
        invariant
            i <= files@.len(),
            all == file_views(files@).map_values(|f: (Seq<char>, Seq<char>)| f.0),
            views(out@) == start + all.take(i as int),
        decreases files@.len() - i,
    {
        let ghost before = views(out@);
        out.push(files[i].0.clone());
        proof {
            assert(all[i as int] == files@[i as int].0@);
            assert(views(out@) =~= before.push(files@[i as int].0@));
            assert(views(out@) =~= start + all.take(i + 1));
        }
        i += 1;
    }
    assert(all.take(i as int) =~= all);
}

/// What changed between two sides, file by file in path order.
///
/// # Errors
///
/// The first file that does not parse.
pub fn compare_sides(old_files: &Files, new_files: &Files) -> (out: Result<Vec<DiffResult>, String>)
    ensures
        ({
            let paths = all_paths(file_views(old_files@), file_views(new_files@));
            let changes = changes_in(paths, file_views(old_files@), file_views(new_files@));
            match out {
                Ok(results) => changes == Ok::<Seq<DiffResultView>, Seq<char>>(views(results@)),
                Err(message) => changes == Err::<Seq<DiffResultView>, Seq<char>>(message@),
            }
        }),
{
    let mut listed: Vec<String> = Vec::new();
    add_paths(old_files, &mut listed);
    add_paths(new_files, &mut listed);
    let ghost before = file_views(old_files@);
    let ghost after = file_views(new_files@);
    assert(views(listed@) =~= before.map_values(|f: (Seq<char>, Seq<char>)| f.0)
        + after.map_values(|f: (Seq<char>, Seq<char>)| f.0));
    let paths = sorted_set(listed.as_slice());
    let ghost all = views(paths@);
    let mut results: Vec<DiffResult> = Vec::new();
    let mut i: usize = 0;
    assert(all.take(0) =~= Seq::empty());
    assert(views(results@) =~= Seq::empty());
    while i < paths.len()
        invariant
            i <= paths@.len(),
            all == views(paths@),
            all == all_paths(before, after),
            before == file_views(old_files@),
            after == file_views(new_files@),
            changes_in(all.take(i as int), before, after) == Ok::<Seq<DiffResultView>, Seq<char>>(
                views(results@),
            ),
        decreases paths@.len() - i,
    {
        let path = &paths[i];
        let ghost found = views(results@);
        proof {
            assert(all.take(i + 1).drop_last() =~= all.take(i as int));
            assert(all.take(i + 1).last() == path@);
            if changes_in(all.take(i + 1), before, after) is Err {
                lemma_changes_stop(all, before, after, i + 1);
            }
        }
        let old_text = find_text(old_files, path.as_str());
        let new_text = find_text(new_files, path.as_str());
        match compare_file(path.as_str(), old_text, new_text) {
            Ok(Some(result)) => {
                results.push(result);
                assert(views(results@) =~= found.push(result@));
            },
            Ok(None) => {},
            Err(message) => {
                return Err(message);
            },
        }
        i += 1;
    }
    assert(all.take(i as int) =~= all);
    Ok(results)
}

/// Comparing a side with itself finds nothing, unless a file does not parse.
pub proof fn law_identical_sides_do_not_differ(files: Seq<(Seq<char>, Seq<char>)>)
    ensures
        changes_in(all_paths(files, files), files, files) matches Ok(results) ==> results.len()
            == 0,
{
    lemma_identical(all_paths(files, files), files);
}

proof fn lemma_identical(paths: Seq<Seq<char>>, files: Seq<(Seq<char>, Seq<char>)>)
    ensures
        changes_in(paths, files, files) matches Ok(results) ==> results.len() == 0,
    decreases paths.len(),
{
    if paths.len() > 0 {
        lemma_identical(paths.drop_last(), files);
        let text = text_in(files, paths.last());
        if text is Some && parsed(text->0) is Ok {
            let listed = behaviors(parsed(text->0)->Ok_0);
            crate::diff::law_nothing_changes_without_a_difference(listed);
        }
    }
}

/// The summary of a comparison.
#[derive(Debug, Clone, Copy, PartialEq, Eq)]
pub struct DiffSummary {
    /// How many tree files changed.
    pub tree_files: usize,
    /// How many behaviors were added.
    pub added: usize,
    /// How many behaviors were removed.
    pub removed: usize,
    /// How many behaviors were renamed.
    pub renamed: usize,
}

/// How many behaviors results count: added, removed and renamed ones.
pub open spec fn totals(results: Seq<DiffResultView>) -> (nat, nat, nat)
    decreases results.len(),
{
    if results.len() == 0 {
        (0, 0, 0)
    } else {
        let before = totals(results.drop_last());
        let changes = results.last().changes;
        (
            capped(before.0 + changes.added.len()),
            capped(before.1 + changes.removed.len()),
            capped(before.2 + changes.renamed.len()),
        )
    }
}

/// The summary of a comparison.
pub fn summarize(results: &Vec<DiffResult>) -> (out: DiffSummary)
    ensures
        out.tree_files == results@.len(),
        (out.added as nat, out.removed as nat, out.renamed as nat) == totals(views(results@)),
{
    let ghost all = views(results@);
    let mut out = DiffSummary { tree_files: results.len(), added: 0, removed: 0, renamed: 0 };
    let mut i: usize = 0;
    assert(all.take(0) =~= Seq::empty());
    while i < results.len()
        invariant
            i <= results@.len(),
            all == views(results@),
            out.tree_files == results@.len(),
            (out.added as nat, out.removed as nat, out.renamed as nat) == totals(
                all.take(i as int),
            ),
        decreases results@.len() - i,
    {
        let changes = &results[i].changes;
        proof {
            assert(all.take(i + 1).drop_last() =~= all.take(i as int));
            assert(all.take(i + 1).last() == results@[i as int]@);
            assert(changes@.added.len() == changes.added@.len());
            assert(changes@.removed.len() == changes.removed@.len());
            assert(changes@.renamed.len() == changes.renamed@.len());
        }
        out.added = add_capped(out.added, changes.added.len());
        out.removed = add_capped(out.removed, changes.removed.len());
        out.renamed = add_capped(out.renamed, changes.renamed.len());
        i += 1;
    }
    assert(all.take(i as int) =~= all);
    out
}

/// The word for what became of a tree file.
pub open spec fn status_word(status: DiffStatus) -> Seq<char> {
    match status {
        DiffStatus::Added => "ADDED "@,
        DiffStatus::Removed => "REMOVED "@,
        DiffStatus::Changed => "CHANGED "@,
    }
}

/// The lines of one tree file: renamed behaviors, removed ones, added ones.
pub open spec fn result_lines(result: DiffResultView) -> Seq<Seq<char>> {
    seq![status_word(result.status) + result.tree] + result.changes.renamed.map_values(
        |r: RenameView| "  ~ "@ + r.from + " -> "@ + r.to,
    ) + result.changes.removed.map_values(|p: Seq<char>| "  - "@ + p)
        + result.changes.added.map_values(|p: Seq<char>| "  + "@ + p)
}

/// The lines of tree files.
pub open spec fn diff_lines(results: Seq<DiffResultView>) -> Seq<Seq<char>>
    decreases results.len(),
{
    if results.len() == 0 {
        Seq::empty()
    } else {
        diff_lines(results.drop_last()) + result_lines(results.last())
    }
}

/// The last line of a comparison.
pub open spec fn summary_line(summary: DiffSummary) -> Seq<char> {
    "\n"@ + decimal_of(summary.tree_files as nat) + " tree file(s) changed, "@ + decimal_of(
        summary.added as nat,
    ) + " added, "@ + decimal_of(summary.removed as nat) + " removed, "@ + decimal_of(
        summary.renamed as nat,
    ) + " renamed"@
}

fn add_marked(lines: &mut Vec<String>, mark: &str, paths: &Vec<String>)
    ensures
        views(final(lines)@) == views(old(lines)@) + views(paths@).map_values(
            |p: Seq<char>| mark@ + p,
        ),
{
    let ghost start = views(lines@);
    let ghost all = views(paths@).map_values(|p: Seq<char>| mark@ + p);
    let mut i: usize = 0;
    assert(views(lines@) =~= start + all.take(0));
    while i < paths.len()
        invariant
            i <= paths@.len(),
            all == views(paths@).map_values(|p: Seq<char>| mark@ + p),
            views(lines@) == start + all.take(i as int),
        decreases paths@.len() - i,
    {
        let ghost before = views(lines@);
        let line = concat2(mark, paths[i].as_str());
        lines.push(line);
        proof {
            assert(views(paths@)[i as int] == paths@[i as int]@);
            assert(all[i as int] == line@);
            assert(views(lines@) =~= before.push(line@));
            assert(views(lines@) =~= start + all.take(i + 1));
        }
        i += 1;
    }
    assert(all.take(i as int) =~= all);
}

fn add_result(lines: &mut Vec<String>, result: &DiffResult)
    ensures
        views(final(lines)@) == views(old(lines)@) + result_lines(result@),
{
    let ghost start = views(lines@);
    let first = concat2(
        match result.status {
            DiffStatus::Added => "ADDED ",
            DiffStatus::Removed => "REMOVED ",
            DiffStatus::Changed => "CHANGED ",
        },
        result.tree.as_str(),
    );
    lines.push(first);
    let ghost all = result@.changes.renamed.map_values(
        |r: RenameView| "  ~ "@ + r.from + " -> "@ + r.to,
    );
    let renamed = &result.changes.renamed;
    let mut i: usize = 0;
    assert(views(lines@) =~= start.push(first@) + all.take(0));
    while i < renamed.len()
        invariant
            i <= renamed@.len(),
            result@.changes.renamed == views(renamed@),
            all == result@.changes.renamed.map_values(
                |r: RenameView| "  ~ "@ + r.from + " -> "@ + r.to,
            ),
            views(lines@) == start.push(first@) + all.take(i as int),
        decreases renamed@.len() - i,
    {
        let ghost before = views(lines@);
        let mut line = concat2("  ~ ", renamed[i].from.as_str());
        line.append(" -> ");
        line.append(renamed[i].to.as_str());
        lines.push(line);
        proof {
            assert(views(renamed@)[i as int] == renamed@[i as int]@);
            assert(all[i as int] == line@);
            assert(views(lines@) =~= before.push(line@));
            assert(views(lines@) =~= start.push(first@) + all.take(i + 1));
        }
        i += 1;
    }
    assert(all.take(i as int) =~= all);
    add_marked(lines, "  - ", &result.changes.removed);
    add_marked(lines, "  + ", &result.changes.added);
    assert(views(lines@) =~= start + result_lines(result@));
}

/// The lines of a comparison for people, the summary among them.
pub fn render_diff_human(results: &Vec<DiffResult>, summary: DiffSummary) -> (out: Vec<String>)
    ensures
        views(out@) == diff_lines(views(results@)).push(summary_line(summary)),
{
    let ghost all = views(results@);
    let mut lines: Vec<String> = Vec::new();
    let mut i: usize = 0;
    assert(all.take(0) =~= Seq::empty());
    assert(views(lines@) =~= Seq::empty());
    while i < results.len()
        invariant
            i <= results@.len(),
            all == views(results@),
            views(lines@) == diff_lines(all.take(i as int)),
        decreases results@.len() - i,
    {
        assert(all.take(i + 1).drop_last() =~= all.take(i as int));
        assert(all.take(i + 1).last() == results@[i as int]@);
        add_result(&mut lines, &results[i]);
        i += 1;
    }
    assert(all.take(i as int) =~= all);
    let ghost before = views(lines@);
    let mut line = concat2("\n", count_text(summary.tree_files).as_str());
    line.append(" tree file(s) changed, ");
    line.append(count_text(summary.added).as_str());
    line.append(" added, ");
    line.append(count_text(summary.removed).as_str());
    line.append(" removed, ");
    line.append(count_text(summary.renamed).as_str());
    line.append(" renamed");
    lines.push(line);
    assert(views(lines@) =~= before.push(line@));
    lines
}

/// How a comparison with a number of results ends: with 1 where it is to tell of
/// differences and there are any.
pub open spec fn exit_for(exit_code: bool, results: nat) -> u8 {
    if exit_code && results > 0 {
        1
    } else {
        0
    }
}

/// How a comparison ends: with 1 where it is to tell of differences and there
/// are any.
pub fn diff_exit(exit_code: bool, results: &Vec<DiffResult>) -> (code: u8)
    ensures
        code == exit_for(exit_code, results@.len()),
        code == if exit_code && results@.len() > 0 {
            1u8
        } else {
            0u8
        },
{
    if exit_code && results.len() > 0 {
        1
    } else {
        0
    }
}

/// A text with `..` between two revisions is a range of them; a revision alone
/// is compared with what is there now; and neither a range without one of its
/// ends nor nothing is accepted.
pub proof fn law_revision_ranges(a: Seq<char>, b: Seq<char>)
    requires
        !a.contains('.'),
        !b.contains('.'),
    ensures
        a.len() > 0 && b.len() > 0 ==> range_of(a + ".."@ + b) == Ok::<
            (Seq<char>, Option<Seq<char>>),
            Seq<char>,
        >((a, Some(b))),
        a.len() == 0 || b.len() == 0 ==> range_of(a + ".."@ + b) is Err,
        a.len() > 0 ==> range_of(a) == Ok::<(Seq<char>, Option<Seq<char>>), Seq<char>>((a, None)),
        a.len() == 0 ==> range_of(a) is Err,
{
    reveal_strlit("..");
    let dots = ".."@;
    let s = a + dots + b;
    law_texts_are_cut_at_the_first_separator(s, dots);
    assert(s.subrange(a.len() as int, a.len() as int + 2) =~= dots);
    assert(occurs_at(s, dots, a.len() as int));
    assert(has_part(s, dots));
    let (head, tail) = cut_once(s, dots)->0;
    assert(head.len() <= a.len()) by {
        if head.len() > a.len() {
            assert(!occurs_at(s, dots, a.len() as int));
        }
    }
    assert(head.len() == a.len()) by {
        if head.len() < a.len() {
            assert((head + dots + tail)[head.len() as int] == '.');
            assert(s[head.len() as int] == a[head.len() as int]);
            assert(a.contains('.'));
        }
    }
    assert(head =~= a) by {
        assert forall|i: int| 0 <= i < a.len() implies head[i] == a[i] by {
            assert((head + dots + tail)[i] == head[i]);
            assert(s[i] == a[i]);
        }
    }
    assert(tail =~= b) by {
        assert(tail.len() == b.len());
        assert forall|i: int| 0 <= i < b.len() implies tail[i] == b[i] by {
            assert((head + dots + tail)[a.len() + 2 + i] == tail[i]);
            assert(s[a.len() + 2 + i] == b[i]);
        }
    }
    if has_part(b, dots) {
        let k = choose|k: int| occurs_at(b, dots, k);
        assert(b.subrange(k, k + 2)[0] == b[k]);
        assert(b.contains('.'));
    }
    law_texts_are_cut_at_the_first_separator(a, dots);
    if has_part(a, dots) {
        let k = choose|k: int| occurs_at(a, dots, k);
        assert(a.subrange(k, k + 2)[0] == a[k]);
        assert(a.contains('.'));
    }
    if cut_once(a, dots) is Some {
        let (x, y) = cut_once(a, dots)->0;
        assert((x + dots + y)[x.len() as int] == '.');
        assert(a.contains('.'));
    }
}

/// A file that is on the new side alone is added, with all its behaviors, and
/// one that is on the old side alone is removed, with all of them. A file on
/// both sides is changed exactly where a behavior was added, removed or renamed.
pub proof fn law_files_are_added_removed_or_changed(
    path: Seq<char>,
    old_text: Seq<char>,
    new_text: Seq<char>,
    before: Seq<SpecTreeView>,
    after: Seq<SpecTreeView>,
    behavior: Seq<char>,
)
    requires
        parsed(old_text) == Ok::<Seq<SpecTreeView>, crate::tree::ParseErrorView>(before),
        parsed(new_text) == Ok::<Seq<SpecTreeView>, crate::tree::ParseErrorView>(after),
    ensures
        change_of(path, None, Some(new_text)) matches Ok(Some(result)) && result.tree == path
            && result.status == DiffStatus::Added && result.changes.removed.len() == 0
            && result.changes.renamed.len() == 0 && (result.changes.added.contains(behavior)
            <==> has_node(after, behavior)),
        change_of(path, Some(old_text), None) matches Ok(Some(result)) && result.tree == path
            && result.status == DiffStatus::Removed && result.changes.added.len() == 0
            && result.changes.renamed.len() == 0 && (result.changes.removed.contains(behavior)
            <==> has_node(before, behavior)),
        ({
            let changes = changes_between(behaviors(before), behaviors(after));
            let same = changes.added.len() == 0 && changes.removed.len() == 0
                && changes.renamed.len() == 0;
            &&& same ==> change_of(path, Some(old_text), Some(new_text)) == Ok::<
                Option<DiffResultView>,
                Seq<char>,
            >(None)
            &&& !same ==> change_of(path, Some(old_text), Some(new_text)) == Ok::<
                Option<DiffResultView>,
                Seq<char>,
            >(Some(DiffResultView { tree: path, status: DiffStatus::Changed, changes }))
        }),
        change_of(path, None, None) == Ok::<Option<DiffResultView>, Seq<char>>(None),
{
    lemma_whole_file(after, behavior);
    lemma_whole_file(before, behavior);
}

proof fn lemma_whole_file(trees: Seq<SpecTreeView>, behavior: Seq<char>)
    ensures
        whole_file(trees).contains(behavior) <==> has_node(trees, behavior),
{
    let none = Seq::<SpecTreeView>::empty();
    law_changes_are_the_paths_of_one_file(none, trees, behavior);
    let changes = changes_between(behaviors(none), behaviors(trees));
    if changes.renamed.len() > 0 {
        let from = changes.renamed[0].from;
        law_changes_are_the_paths_of_one_file(none, trees, from);
        assert(has_node(none, from));
    }
}

/// The text of a path is the one that was read for it; where more were, the
/// last.
pub proof fn law_the_last_text_of_a_path_counts(
    files: Seq<(Seq<char>, Seq<char>)>,
    path: Seq<char>,
    text: Seq<char>,
    other: Seq<char>,
)
    ensures
        text_in(Seq::empty(), other) is None,
        text_in(files.push((path, text)), other) == if path == other {
            Some(text)
        } else {
            text_in(files, other)
        },
{
    assert(files.push((path, text)).drop_last() =~= files);
}

/// The files of both sides are compared, each once and in the order of their
/// paths.
pub proof fn law_every_file_is_compared_once(
    old_files: Seq<(Seq<char>, Seq<char>)>,
    new_files: Seq<(Seq<char>, Seq<char>)>,
    path: Seq<char>,
)
    ensures
        ascending(all_paths(old_files, new_files)),
        all_paths(old_files, new_files).contains(path) <==> (exists|i: int|
            0 <= i < old_files.len() && (#[trigger] old_files[i]).0 == path) || (exists|i: int|
            0 <= i < new_files.len() && (#[trigger] new_files[i]).0 == path),
{
    let a = old_files.map_values(|f: (Seq<char>, Seq<char>)| f.0);
    let b = new_files.map_values(|f: (Seq<char>, Seq<char>)| f.0);
    lemma_text_set(a + b);
    assert(text_set(a + b).contains(path) <==> (a + b).contains(path));
    if (a + b).contains(path) {
        let k = choose|k: int| 0 <= k < (a + b).len() && (a + b)[k] == path;
        if k < a.len() {
            assert(old_files[k].0 == path);
        } else {
            assert(new_files[k - a.len()].0 == path);
        }
    }
    if exists|i: int| 0 <= i < old_files.len() && (#[trigger] old_files[i]).0 == path {
        let i = choose|i: int| 0 <= i < old_files.len() && (#[trigger] old_files[i]).0 == path;
        assert((a + b)[i] == path);
    }
    if exists|i: int| 0 <= i < new_files.len() && (#[trigger] new_files[i]).0 == path {
        let i = choose|i: int| 0 <= i < new_files.len() && (#[trigger] new_files[i]).0 == path;
        assert((a + b)[a.len() + i] == path);
    }
}

/// The results of a comparison come path by path: a path whose file did not
/// change adds none.
pub proof fn law_results_come_path_by_path(
    paths: Seq<Seq<char>>,
    path: Seq<char>,
    old_files: Seq<(Seq<char>, Seq<char>)>,
    new_files: Seq<(Seq<char>, Seq<char>)>,
    before: Seq<DiffResultView>,
    result: Option<DiffResultView>,
)
    requires
        changes_in(paths, old_files, new_files) == Ok::<Seq<DiffResultView>, Seq<char>>(before),
        change_of(path, text_in(old_files, path), text_in(new_files, path)) == Ok::<
            Option<DiffResultView>,
            Seq<char>,
        >(result),
    ensures
        changes_in(Seq::empty(), old_files, new_files) == Ok::<Seq<DiffResultView>, Seq<char>>(
            Seq::empty(),
        ),
        changes_in(paths.push(path), old_files, new_files) == Ok::<Seq<DiffResultView>, Seq<char>>(
            match result {
                Some(result) => before.push(result),
                None => before,
            },
        ),
{
    assert(paths.push(path).drop_last() =~= paths);
}

/// The totals of a comparison are the numbers of its added, removed and renamed
/// behaviors, as far as a count goes.
pub proof fn law_totals_add_up(results: Seq<DiffResultView>, result: DiffResultView)
    ensures
        totals(Seq::empty()) == (0nat, 0nat, 0nat),
        ({
            let before = totals(results);
            let after = totals(results.push(result));
            &&& before.0 + result.changes.added.len() <= usize::MAX ==> after.0 == before.0
                + result.changes.added.len()
            &&& before.1 + result.changes.removed.len() <= usize::MAX ==> after.1 == before.1
                + result.changes.removed.len()
            &&& before.2 + result.changes.renamed.len() <= usize::MAX ==> after.2 == before.2
                + result.changes.renamed.len()
        }),
{
    assert(results.push(result).drop_last() =~= results);
}

/// A result is shown in this order: the file, its renamed behaviors, its
/// removed ones and its added ones, each on a line with its sign.
pub proof fn law_results_are_shown_by_sign(result: DiffResultView, i: int)
    ensures
        ({
            let lines = result_lines(result);
            let c = result.changes;
            let n = 1 + c.renamed.len() as int;
            let m = n + c.removed.len();
            &&& lines.len() == m + c.added.len()
            &&& lines[0] == (if result.status == DiffStatus::Added {
                "ADDED "@
            } else if result.status == DiffStatus::Removed {
                "REMOVED "@
            } else {
                "CHANGED "@
            }) + result.tree
            &&& 0 <= i < c.renamed.len() ==> lines[1 + i] == "  ~ "@ + c.renamed[i].from + " -> "@
                + c.renamed[i].to
            &&& 0 <= i < c.removed.len() ==> lines[n + i] == "  - "@ + c.removed[i]
            &&& 0 <= i < c.added.len() ==> lines[m + i] == "  + "@ + c.added[i]
        }),
{
}

/// A comparison that is to tell of differences ends with 1 exactly where there
/// is one; any other ends with 0.
pub proof fn law_differences_end_a_comparison(results: nat)
    ensures
        exit_for(true, results) == 1 <==> results >= 1,
        exit_for(true, results) == 0 <==> results == 0,
        exit_for(false, results) == 0,
{
}

/// A path of a revision is a tree to compare where its extension is `tree` and
/// no directory of it is one of version control, build output or installed
/// modules.
pub proof fn law_discovered_trees(path: Seq<char>)
    ensures
        is_discovered(path) <==> extension_of(path) == Some("tree"@) && forall|i: int|
            0 <= i < pieces(path, '/').len() ==> #[trigger] pieces(path, '/')[i] != ".git"@
                && pieces(path, '/')[i] != "target"@ && pieces(path, '/')[i] != "node_modules"@,
{
    if is_discovered(path) {
        assert forall|i: int| 0 <= i < pieces(path, '/').len() implies #[trigger] pieces(
            path,
            '/',
        )[i] != ".git"@ && pieces(path, '/')[i] != "target"@ && pieces(path, '/')[i]
            != "node_modules"@ by {
            assert(!is_skipped(pieces(path, '/')[i]));
        }
    }
}

} // verus!
