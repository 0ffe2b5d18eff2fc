//! Putting a check run together: which subtree a scan speaks for, and the
//! order in which outcomes are shown.

use vstd::prelude::*;
use crate::check::is_among;
use crate::config::{CheckConfig, Level};
use crate::error::Error;
use crate::paths::comes_before;
use crate::report::Scans;
use crate::runner::{FileOutcome, Uncovered, UncoveredScan, UnsupportedIn};

verus! {

use crate::paths::{law_paths_are_ordered, path_less};
use crate::report::scan_views;
use crate::runner::{failure_views, FileOutcomeView, ScanView};
use crate::text::views;

/// Whether a subtree's files are scanned for tests that no tree covers.
pub open spec fn wants_scan(uncovered: Level, unsupported: Level) -> bool {
    !(uncovered is Ignore && unsupported is Ignore)
}

/// Whether a subtree's files are scanned for tests that no tree covers.
pub fn needs_scan(uncovered: Level, unsupported: Level) -> (yes: bool)
    ensures
        yes == wants_scan(uncovered, unsupported),
        yes == !(uncovered is Ignore && unsupported is Ignore),
{
    !(uncovered == Level::Ignore && unsupported == Level::Ignore)
}

/// The entries whose paths are listed.
pub open spec fn only_listed<T>(entries: Seq<(Seq<char>, T)>, paths: Seq<Seq<char>>) -> Seq<
    (Seq<char>, T),
>
    decreases entries.len(),
{
    if entries.len() == 0 {
        Seq::empty()
    } else {
        let before = only_listed(entries.drop_last(), paths);
        if paths.contains(entries.last().0) {
            before.push(entries.last())
        } else {
            before
        }
    }
}

fn keep_uncovered(found: Vec<Uncovered>, paths: &Vec<String>) -> (out: Vec<Uncovered>)
    ensures
        out@.map_values(|u: Uncovered| (u.path@, u.tests as nat)) == only_listed(
            found@.map_values(|u: Uncovered| (u.path@, u.tests as nat)),
            views(paths@),
        ),
{
    let ghost all = found@.map_values(|u: Uncovered| (u.path@, u.tests as nat));
    let mut out: Vec<Uncovered> = Vec::new();
    assert(all.take(0) =~= Seq::empty());
    assert(out@.map_values(|u: Uncovered| (u.path@, u.tests as nat)) =~= Seq::empty());
    for item in it: found
        invariant
            it.seq() == found@,
            all == found@.map_values(|u: Uncovered| (u.path@, u.tests as nat)),
            out@.map_values(|u: Uncovered| (u.path@, u.tests as nat)) == only_listed(
                all.take(it.index() as int),
                views(paths@),
            ),
    {
        let ghost k = it.index() as int;
        let ghost before = out@.map_values(|u: Uncovered| (u.path@, u.tests as nat));
        assert(all.take(k + 1).drop_last() =~= all.take(k));
        assert(all.take(k + 1).last() == (item.path@, item.tests as nat));
        if is_among(paths.as_slice(), item.path.as_str()) {
            let ghost added = (item.path@, item.tests as nat);
            out.push(item);
            assert(out@.map_values(|u: Uncovered| (u.path@, u.tests as nat)) =~= before.push(
                added,
            ));
        }
    }
    assert(all.take(all.len() as int) =~= all);
    out
}

fn keep_unsupported(found: Vec<UnsupportedIn>, paths: &Vec<String>) -> (out: Vec<UnsupportedIn>)
    ensures
        out@.map_values(|u: UnsupportedIn| (u.path@, u.line as nat)) == only_listed(
            found@.map_values(|u: UnsupportedIn| (u.path@, u.line as nat)),
            views(paths@),
        ),
{
    let ghost all = found@.map_values(|u: UnsupportedIn| (u.path@, u.line as nat));
    let mut out: Vec<UnsupportedIn> = Vec::new();
    assert(all.take(0) =~= Seq::empty());
    assert(out@.map_values(|u: UnsupportedIn| (u.path@, u.line as nat)) =~= Seq::empty());
    for item in it: found
        invariant
            it.seq() == found@,
            all == found@.map_values(|u: UnsupportedIn| (u.path@, u.line as nat)),
            out@.map_values(|u: UnsupportedIn| (u.path@, u.line as nat)) == only_listed(
                all.take(it.index() as int),
                views(paths@),
            ),
    {
        let ghost k = it.index() as int;
        let ghost before = out@.map_values(|u: UnsupportedIn| (u.path@, u.line as nat));
        assert(all.take(k + 1).drop_last() =~= all.take(k));
        assert(all.take(k + 1).last() == (item.path@, item.line as nat));
        if is_among(paths.as_slice(), item.path.as_str()) {
            let ghost added = (item.path@, item.line as nat);
            out.push(item);
            assert(out@.map_values(|u: UnsupportedIn| (u.path@, u.line as nat)) =~= before.push(
                added,
            ));
        }
    }
    assert(all.take(all.len() as int) =~= all);
    out
}

fn keep_failed(found: Vec<(String, Error)>, paths: &Vec<String>) -> (out: Vec<(String, Error)>)
    ensures
        failure_views(out@) == only_listed(failure_views(found@), views(paths@)),
{
    let ghost all = failure_views(found@);
    let mut out: Vec<(String, Error)> = Vec::new();
    assert(all.take(0) =~= Seq::empty());
    assert(failure_views(out@) =~= Seq::empty());
    for item in it: found
        invariant
            it.seq() == found@,
            all == failure_views(found@),
            failure_views(out@) == only_listed(all.take(it.index() as int), views(paths@)),
    {
        let ghost k = it.index() as int;
        let ghost before = failure_views(out@);
        assert(all.take(k + 1).drop_last() =~= all.take(k));
        assert(all.take(k + 1).last() == (item.0@, item.1@));
        if is_among(paths.as_slice(), item.0.as_str()) {
            let ghost added = (item.0@, item.1@);
            out.push(item);
            assert(failure_views(out@) =~= before.push(added));
        }
    }
    assert(all.take(all.len() as int) =~= all);
    out
}

/// A scan without what lies outside of a subtree, given the files that the
/// subtree governs.
pub fn keep_governed(scan: UncoveredScan, paths: &Vec<String>) -> (out: UncoveredScan)
    ensures
        out@ == (ScanView {
            uncovered: only_listed(scan@.uncovered, views(paths@)),
            unsupported: only_listed(scan@.unsupported, views(paths@)),
            failed: only_listed(scan@.failed, views(paths@)),
        }),
{
    UncoveredScan {
        uncovered: keep_uncovered(scan.uncovered, paths),
        unsupported: keep_unsupported(scan.unsupported, paths),
        failed: keep_failed(scan.failed, paths),
    }
}

/// Every file that a scan speaks of.
pub fn scanned_paths(scan: &UncoveredScan) -> (out: Vec<String>)
    ensures
        views(out@) == paths_in(scan@.uncovered) + paths_in(scan@.unsupported) + paths_in(
            scan@.failed,
        ),
{
    let mut out: Vec<String> = Vec::new();
    let ghost first = paths_in(scan@.uncovered);
    let ghost second = paths_in(scan@.unsupported);
    let ghost third = paths_in(scan@.failed);
    let mut i: usize = 0;
    assert(views(out@) =~= first.take(0));
    while i < scan.uncovered.len()
        invariant
            i <= scan.uncovered@.len(),
            first == paths_in(scan@.uncovered),
            first.len() == scan.uncovered@.len(),
            views(out@) == first.take(i as int),
        decreases scan.uncovered@.len() - i,
    {
        let ghost before = views(out@);
        out.push(scan.uncovered[i].path.clone());
        proof {
            assert(first[i as int] == scan.uncovered@[i as int].path@);
            assert(views(out@) =~= before.push(first[i as int]));
            assert(views(out@) =~= first.take(i + 1));
        }
        i += 1;
    }
    assert(first.take(i as int) =~= first);
    let mut i: usize = 0;
    assert(views(out@) =~= first + second.take(0));
    while i < scan.unsupported.len()
        invariant
            i <= scan.unsupported@.len(),
            second == paths_in(scan@.unsupported),
            second.len() == scan.unsupported@.len(),
            views(out@) == first + second.take(i as int),
        decreases scan.unsupported@.len() - i,
    {
        let ghost before = views(out@);
        out.push(scan.unsupported[i].path.clone());
        proof {
            assert(second[i as int] == scan.unsupported@[i as int].path@);
            assert(views(out@) =~= before.push(second[i as int]));
            assert(views(out@) =~= first + second.take(i + 1));
        }
        i += 1;
    }
    assert(second.take(i as int) =~= second);
    let mut i: usize = 0;
    assert(views(out@) =~= first + second + third.take(0));
    while i < scan.failed.len()
        invariant
            i <= scan.failed@.len(),
            third == paths_in(scan@.failed),
            third.len() == scan.failed@.len(),
            views(out@) == first + second + third.take(i as int),
        decreases scan.failed@.len() - i,
    {
        let ghost before = views(out@);
        out.push(scan.failed[i].0.clone());
        proof {
            assert(third[i as int] == scan.failed@[i as int].0@);
            assert(views(out@) =~= before.push(third[i as int]));
            assert(views(out@) =~= first + second + third.take(i + 1));
        }
        i += 1;
    }
    assert(third.take(i as int) =~= third);
    out
}

/// The paths of entries.
pub open spec fn paths_in<T>(entries: Seq<(Seq<char>, T)>) -> Seq<Seq<char>> {
    entries.map_values(|e: (Seq<char>, T)| e.0)
}

/// Outcomes with one more in its place, behind those of the same tree file.
pub open spec fn insert_outcome(outcomes: Seq<FileOutcomeView>, x: FileOutcomeView) -> Seq<
    FileOutcomeView,
>
    decreases outcomes.len(),
{
    if outcomes.len() == 0 || !path_less(x.tree_path, outcomes.last().tree_path) {
        outcomes.push(x)
    } else {
        insert_outcome(outcomes.drop_last(), x).push(outcomes.last())
    }
}

/// The outcomes by tree file, in path order.
pub open spec fn by_tree(outcomes: Seq<FileOutcomeView>) -> Seq<FileOutcomeView>
    decreases outcomes.len(),
{
    if outcomes.len() == 0 {
        Seq::empty()
    } else {
        insert_outcome(by_tree(outcomes.drop_last()), outcomes.last())
    }
}

/// The outcomes by tree file, in path order.
pub fn sort_outcomes(outcomes: Vec<FileOutcome>) -> (out: Vec<FileOutcome>)
    ensures
        views(out@) == by_tree(views(outcomes@)),
{
    let ghost all = views(outcomes@);
    let mut sorted: Vec<FileOutcome> = Vec::new();
    assert(all.take(0) =~= Seq::empty());
    assert(views(sorted@) =~= Seq::empty());
    for x in it: outcomes
        invariant
            it.seq() == outcomes@,
            all == views(outcomes@),
            views(sorted@) == by_tree(all.take(it.index() as int)),
    {
        let ghost k = it.index() as int;
        let ghost before = views(sorted@);
        let ghost added = x@;
        assert(all.take(k + 1).drop_last() =~= all.take(k));
        assert(all.take(k + 1).last() == added);
        let mut at: usize = sorted.len();
        assert(before.take(at as int) =~= before);
        assert(insert_outcome(before, added) + before.skip(at as int) =~= insert_outcome(
            before,
            added,
        ));
        while at > 0 && comes_before(x.tree_path.as_str(), sorted[at - 1].tree_path.as_str())
            invariant
                at <= sorted@.len(),
                before == views(sorted@),
                added == x@,
                insert_outcome(before, added) == insert_outcome(before.take(at as int), added)
                    + before.skip(at as int),
            decreases at,
        {
            let ghost head = before.take(at as int);
            proof {
                assert(head.last() == sorted@[at - 1]@);
                assert(head.drop_last() =~= before.take(at - 1));
                assert(insert_outcome(head.drop_last(), added).push(head.last()) + before.skip(
                    at as int,
                ) =~= insert_outcome(before.take(at - 1), added) + before.skip(at - 1));
            }
            at -= 1;
        }
        proof {
            if at > 0 {
                assert(before.take(at as int).last() == sorted@[at - 1]@);
            }
        }
        sorted.insert(at, x);
        assert(views(sorted@) =~= before.take(at as int).push(added) + before.skip(at as int));
    }
    assert(all.take(all.len() as int) =~= all);
    sorted
}

/// Whether a run has nothing to say: no tree file, and nothing from the scans.
pub open spec fn is_empty_run(tree_files: nat, scans: Seq<(Level, Level, ScanView)>) -> bool {
    tree_files == 0 && forall|i: int|
        0 <= i < scans.len() ==> {
            let scan = (#[trigger] scans[i]).2;
            scan.uncovered.len() == 0 && scan.unsupported.len() == 0 && scan.failed.len() == 0
        }
}

/// Whether a run has nothing to say.
pub fn nothing_found(tree_files: usize, scans: &Scans) -> (yes: bool)
    ensures
        yes == is_empty_run(tree_files as nat, scan_views(scans@)),
{
    let ghost all = scan_views(scans@);
    let mut i: usize = 0;
    while i < scans.len()
        invariant
            i <= scans@.len(),
            all == scan_views(scans@),
            forall|j: int|
                0 <= j < i ==> {
                    let scan = (#[trigger] all[j]).2;
                    scan.uncovered.len() == 0 && scan.unsupported.len() == 0 && scan.failed.len()
                        == 0
                },
        decreases scans@.len() - i,
    {
        let scan = &scans[i].2;
        assert(all[i as int].2 == scan@);
        assert(scan@.uncovered.len() == scan.uncovered@.len());
        assert(scan@.unsupported.len() == scan.unsupported@.len());
        assert(scan@.failed.len() == scan.failed@.len());
        if scan.uncovered.len() > 0 || scan.unsupported.len() > 0 || scan.failed.len() > 0 {
            return false;
        }
        i += 1;
    }
    tree_files == 0
}

proof fn lemma_insert_outcome(outcomes: Seq<FileOutcomeView>, x: FileOutcomeView)
    ensures
        insert_outcome(outcomes, x).to_multiset() == outcomes.to_multiset().insert(x),
    decreases outcomes.len(),
{
    broadcast use vstd::seq_lib::group_to_multiset_ensures;

    if outcomes.len() == 0 || !path_less(x.tree_path, outcomes.last().tree_path) {
    } else {
        let rest = outcomes.drop_last();
        lemma_insert_outcome(rest, x);
        assert(outcomes =~= rest.push(outcomes.last()));
        assert(insert_outcome(outcomes, x).to_multiset() =~= outcomes.to_multiset().insert(x));
    }
}

/// Showing outcomes by tree file loses none and makes none up.
pub proof fn law_sorting_keeps_the_outcomes(outcomes: Seq<FileOutcomeView>)
    ensures
        by_tree(outcomes).to_multiset() == outcomes.to_multiset(),
    decreases outcomes.len(),
{
    broadcast use vstd::seq_lib::group_to_multiset_ensures;

    if outcomes.len() > 0 {
        let rest = outcomes.drop_last();
        law_sorting_keeps_the_outcomes(rest);
        lemma_insert_outcome(by_tree(rest), outcomes.last());
        assert(outcomes =~= rest.push(outcomes.last()));
    } else {
        assert(by_tree(outcomes) =~= outcomes);
    }
}

proof fn lemma_insert_in_order(outcomes: Seq<FileOutcomeView>, x: FileOutcomeView)
    requires
        forall|i: int, j: int|
            0 <= i < j < outcomes.len() ==> !path_less(
                (#[trigger] outcomes[j]).tree_path,
                (#[trigger] outcomes[i]).tree_path,
            ),
    ensures
        forall|i: int, j: int|
            0 <= i < j < insert_outcome(outcomes, x).len() ==> !path_less(
                (#[trigger] insert_outcome(outcomes, x)[j]).tree_path,
                (#[trigger] insert_outcome(outcomes, x)[i]).tree_path,
            ),
        forall|i: int|
            0 <= i < insert_outcome(outcomes, x).len() ==> (#[trigger] insert_outcome(
                outcomes,
                x,
            )[i] == x || outcomes.contains(insert_outcome(outcomes, x)[i])),
    decreases outcomes.len(),
{
    let out = insert_outcome(outcomes, x);
    if outcomes.len() == 0 || !path_less(x.tree_path, outcomes.last().tree_path) {
        assert forall|i: int, j: int| 0 <= i < j < out.len() implies !path_less(
            (#[trigger] out[j]).tree_path,
            (#[trigger] out[i]).tree_path,
        ) by {
            if j == outcomes.len() {
                let last = outcomes[outcomes.len() - 1].tree_path;
                let here = outcomes[i].tree_path;
                if path_less(x.tree_path, here) {
                    law_paths_are_ordered(x.tree_path, last, here);
                    law_paths_are_ordered(last, here, here);
                    law_paths_are_ordered(x.tree_path, here, last);
                    law_paths_are_ordered(here, last, x.tree_path);
                    law_paths_are_ordered(last, x.tree_path, here);
                    if i < outcomes.len() - 1 {
                        assert(!path_less(
                            outcomes[outcomes.len() - 1].tree_path,
                            outcomes[i].tree_path,
                        ));
                    }
                }
            }
        }
        assert forall|i: int| 0 <= i < out.len() implies (#[trigger] out[i] == x
            || outcomes.contains(out[i])) by {
            if i < outcomes.len() {
                assert(outcomes[i] == out[i]);
            }
        }
    } else {
        let front = outcomes.drop_last();
        let inner = insert_outcome(front, x);
        lemma_insert_in_order(front, x);
        let last = outcomes.last().tree_path;
        assert forall|i: int| 0 <= i < inner.len() implies (#[trigger] inner[i] == x
            || outcomes.contains(inner[i])) && !path_less(last, inner[i].tree_path) by {
            if inner[i] == x {
                law_paths_are_ordered(x.tree_path, last, last);
            } else {
                let k = choose|k: int| 0 <= k < front.len() && front[k] == inner[i];
                assert(front.contains(inner[i]));
                assert(outcomes[k] == inner[i]);
                assert(!path_less(
                    outcomes[outcomes.len() - 1].tree_path,
                    outcomes[k].tree_path,
                ));
            }
        }
        assert forall|i: int, j: int| 0 <= i < j < out.len() implies !path_less(
            (#[trigger] out[j]).tree_path,
            (#[trigger] out[i]).tree_path,
        ) by {
            assert(inner[i] == out[i]);
            if j < inner.len() {
                assert(inner[j] == out[j]);
            }
        }
        assert forall|i: int| 0 <= i < out.len() implies (#[trigger] out[i] == x
            || outcomes.contains(out[i])) by {
            if i < inner.len() {
                assert(inner[i] == out[i]);
            } else {
                assert(outcomes[outcomes.len() - 1] == out[i]);
            }
        }
    }
}

/// However outcomes arrive, they are shown in path order.
pub proof fn law_outcomes_are_shown_in_order(outcomes: Seq<FileOutcomeView>)
    ensures
        forall|i: int, j: int|
            0 <= i < j < by_tree(outcomes).len() ==> !path_less(
                (#[trigger] by_tree(outcomes)[j]).tree_path,
                (#[trigger] by_tree(outcomes)[i]).tree_path,
            ),
    decreases outcomes.len(),
{
    if outcomes.len() > 0 {
        law_outcomes_are_shown_in_order(outcomes.drop_last());
        lemma_insert_in_order(by_tree(outcomes.drop_last()), outcomes.last());
    }
}

/// What was found in one subtree of a project.
#[derive(Debug)]
pub struct SubtreeRun {
    /// The severities that its config sets.
    pub check: CheckConfig,
    /// The outcomes of its tree files.
    pub outcomes: Vec<FileOutcome>,
    /// The scan for files that no tree covers, which may speak of files of
    /// other subtrees too.
    pub scan: UncoveredScan,
    /// The files of the scan that the subtree governs.
    pub governed: Vec<String>,
}

/// The model of a [`SubtreeRun`].
pub struct SubtreeRunView {
    pub check: CheckConfig,
    pub outcomes: Seq<FileOutcomeView>,
    pub scan: ScanView,
    pub governed: Seq<Seq<char>>,
}

impl View for SubtreeRun {
    type V = SubtreeRunView;

    open spec fn view(&self) -> SubtreeRunView {
        SubtreeRunView {
            check: self.check,
            outcomes: views(self.outcomes@),
            scan: self.scan@,
            governed: views(self.governed@),
        }
    }
}

/// The outcomes of subtrees, one subtree after the other.
pub open spec fn all_outcomes(runs: Seq<SubtreeRunView>) -> Seq<FileOutcomeView>
    decreases runs.len(),
{
    if runs.len() == 0 {
        Seq::empty()
    } else {
        all_outcomes(runs.drop_last()) + runs.last().outcomes
    }
}

/// The scans of the subtrees that are scanned, each with its severities and
/// without what lies in other subtrees.
pub open spec fn all_scans(runs: Seq<SubtreeRunView>) -> Seq<(Level, Level, ScanView)>
    decreases runs.len(),
{
    if runs.len() == 0 {
        Seq::empty()
    } else {
        let before = all_scans(runs.drop_last());
        let run = runs.last();
        if run.check.uncovered is Ignore && run.check.unsupported is Ignore {
            before
        } else {
            before.push(
                (
                    run.check.uncovered,
                    run.check.unsupported,
                    ScanView {
                        uncovered: only_listed(run.scan.uncovered, run.governed),
                        unsupported: only_listed(run.scan.unsupported, run.governed),
                        failed: only_listed(run.scan.failed, run.governed),
                    },
                ),
            )
        }
    }
}

/// Put a run together from its subtrees: the outcomes of all tree files in path
/// order, and the scans with their severities.
pub fn collect_run(runs: Vec<SubtreeRun>) -> (out: (Vec<FileOutcome>, Scans))
    ensures
        views(out.0@) == by_tree(all_outcomes(views(runs@))),
        scan_views(out.1@) == all_scans(views(runs@)),
{
    let ghost all = views(runs@);
    let mut outcomes: Vec<FileOutcome> = Vec::new();
    let mut scans: Scans = Vec::new();
    assert(all.take(0) =~= Seq::empty());
    assert(views(outcomes@) =~= Seq::empty());
    assert(scan_views(scans@) =~= Seq::empty());
    for run in it: runs
        invariant
            it.seq() == runs@,
            all == views(runs@),
            views(outcomes@) == all_outcomes(all.take(it.index() as int)),
            scan_views(scans@) == all_scans(all.take(it.index() as int)),
    {
        let ghost k = it.index() as int;
        let ghost outcomes_before = views(outcomes@);
        let ghost scans_before = scan_views(scans@);
        let ghost whole = run@;
        assert(all.take(k + 1).drop_last() =~= all.take(k));
        assert(all.take(k + 1).last() == whole);
        let SubtreeRun { check, outcomes: found, scan, governed } = run;
        let mut found = found;
        let ghost added = views(found@);
        outcomes.append(&mut found);
        assert(views(outcomes@) =~= outcomes_before + added);
        if needs_scan(check.uncovered, check.unsupported) {
            let kept = keep_governed(scan, &governed);
            let ghost entry = (check.uncovered, check.unsupported, kept@);
            scans.push((check.uncovered, check.unsupported, kept));
            assert(scan_views(scans@) =~= scans_before.push(entry));
        }
    }
    assert(all.take(all.len() as int) =~= all);
    (sort_outcomes(outcomes), scans)
}

/// Of what was found in files, that which lies in the listed files stays, in
/// its order.
pub proof fn law_only_listed_files_count<T>(
    entries: Seq<(Seq<char>, T)>,
    path: Seq<char>,
    what: T,
    paths: Seq<Seq<char>>,
)
    ensures
        only_listed(Seq::<(Seq<char>, T)>::empty(), paths) == Seq::<(Seq<char>, T)>::empty(),
        only_listed(entries.push((path, what)), paths) == if paths.contains(path) {
            only_listed(entries, paths).push((path, what))
        } else {
            only_listed(entries, paths)
        },
{
    assert(entries.push((path, what)).drop_last() =~= entries);
}

/// A run over several configs holds the outcomes of each, in their order, and
/// the scan of each whose config asks for one, with its severities and for the
/// files that it governs alone.
pub proof fn law_every_subtree_counts(runs: Seq<SubtreeRunView>, run: SubtreeRunView)
    ensures
        all_outcomes(Seq::empty()) == Seq::<FileOutcomeView>::empty(),
        all_outcomes(runs.push(run)) == all_outcomes(runs) + run.outcomes,
        all_scans(Seq::empty()) == Seq::<(Level, Level, ScanView)>::empty(),
        run.check.uncovered is Ignore && run.check.unsupported is Ignore ==> all_scans(
            runs.push(run),
        ) == all_scans(runs),
        !(run.check.uncovered is Ignore && run.check.unsupported is Ignore) ==> all_scans(
            runs.push(run),
        ) == all_scans(runs).push(
            (
                run.check.uncovered,
                run.check.unsupported,
                ScanView {
                    uncovered: only_listed(run.scan.uncovered, run.governed),
                    unsupported: only_listed(run.scan.unsupported, run.governed),
                    failed: only_listed(run.scan.failed, run.governed),
                },
            ),
        ),
{
    assert(runs.push(run).drop_last() =~= runs);
}

/// A subtree is scanned exactly where its scan can count: where one of the two
/// severities is not to be ignored.
pub proof fn law_subtrees_are_scanned_where_it_counts(runs: Seq<SubtreeRunView>, run: SubtreeRunView)
    ensures
        wants_scan(run.check.uncovered, run.check.unsupported) <==> run.check.uncovered
            != Level::Ignore || run.check.unsupported != Level::Ignore,
        wants_scan(run.check.uncovered, run.check.unsupported) <==> all_scans(runs.push(run)).len()
            == all_scans(runs).len() + 1,
{
    law_every_subtree_counts(runs, run);
}

/// A run found nothing to check exactly where it has no tree files and its scans
/// found nothing at all.
pub proof fn law_empty_runs_found_nothing(
    tree_files: nat,
    scans: Seq<(Level, Level, ScanView)>,
    uncovered: Level,
    unsupported: Level,
    scan: ScanView,
)
    ensures
        is_empty_run(tree_files, Seq::empty()) <==> tree_files == 0,
        is_empty_run(tree_files, scans.push((uncovered, unsupported, scan))) <==> is_empty_run(
            tree_files,
            scans,
        ) && scan.uncovered.len() == 0 && scan.unsupported.len() == 0 && scan.failed.len() == 0,
{
    let more = scans.push((uncovered, unsupported, scan));
    assert(more[scans.len() as int] == (uncovered, unsupported, scan));
    if is_empty_run(tree_files, more) {
        assert forall|i: int| 0 <= i < scans.len() implies {
            let found = (#[trigger] scans[i]).2;
            found.uncovered.len() == 0 && found.unsupported.len() == 0 && found.failed.len() == 0
        } by {
            assert(more[i] == scans[i]);
        }
    }
    if is_empty_run(tree_files, scans) && scan.uncovered.len() == 0 && scan.unsupported.len() == 0
        && scan.failed.len() == 0 {
        assert forall|i: int| 0 <= i < more.len() implies {
            let found = (#[trigger] more[i]).2;
            found.uncovered.len() == 0 && found.unsupported.len() == 0 && found.failed.len() == 0
        } by {
            if i < scans.len() {
                assert(more[i] == scans[i]);
            }
        }
    }
}

} // verus!
