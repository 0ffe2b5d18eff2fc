//! The report of a run for machines, before it is written down as JSON.

use vstd::prelude::*;
use crate::check::Finding;
use crate::config::Level;
use crate::paths::relative;
use crate::report::{any_failed, describe, exit_code, Scans};
use crate::runner::{add_capped, FileOutcome, FileResult, Reported, UncoveredScan};
use crate::text::{concat2, count_text, owned};

verus! {

use crate::check::FindingView;
use crate::error::{message_of, ErrorView};
use crate::paths::relative_to;
use crate::report::{
    description, error_count, errors_at, exit_of, outcome_report, outcome_reports, scan_reports,
    scan_views, tool_failed, unsupported_text,
};
use crate::runner::{capped, FileOutcomeView, FileResultView, ReportedView, ScanView};
use crate::text::{decimal_of, opt_view, views};

broadcast use vstd::string::group_string_axioms;

/// What a finding is about.
#[derive(Debug, Clone, Copy, PartialEq, Eq, Structural)]
pub enum FindingKind {
    /// A node of the spec is not in the file.
    Missing,
    /// A node of the file is not in the spec.
    Extra,
    /// Siblings stand in another order.
    OutOfOrder,
    /// A construct that no tree can represent.
    Unsupported,
    /// A scaffold marker.
    Todo,
    /// A test-bearing file without a spec.
    Uncovered,
    /// A spec without a test file.
    NoTarget,
    /// A file that could not be checked.
    CheckFailed,
    /// A file that could not be scanned.
    ScanFailed,
}

/// One finding of the report.
#[derive(Debug)]
pub struct JsonFinding {
    /// What it is about.
    pub kind: FindingKind,
    /// How severe it is.
    pub severity: Level,
    /// What is said of it.
    pub message: String,
    /// The path of the node in the tree, if it is about one.
    pub tree_path: Option<String>,
    /// The file it is in.
    pub file: String,
    /// The line it is on, if it is on one.
    pub line: Option<usize>,
}

/// The model of a [`JsonFinding`].
pub struct JsonFindingView {
    pub kind: FindingKind,
    pub severity: Level,
    pub message: Seq<char>,
    pub tree_path: Option<Seq<char>>,
    pub file: Seq<char>,
    pub line: Option<nat>,
}

impl View for JsonFinding {
    type V = JsonFindingView;

    open spec fn view(&self) -> JsonFindingView {
        JsonFindingView {
            kind: self.kind,
            severity: self.severity,
            message: self.message@,
            tree_path: opt_view(self.tree_path),
            file: self.file@,
            line: match self.line {
                Some(line) => Some(line as nat),
                None => None,
            },
        }
    }
}

/// Whether a file passed.
#[derive(Debug, Clone, Copy, PartialEq, Eq, Structural)]
pub enum JsonStatus {
    /// It has no findings.
    Pass,
    /// It has findings.
    Fail,
}

/// One result of the report.
#[derive(Debug)]
pub struct JsonResult {
    /// The tree file, if the result is about one.
    pub tree: Option<String>,
    /// The test file, if there is one.
    pub target: Option<String>,
    /// Whether it passed.
    pub status: JsonStatus,
    /// What was found.
    pub findings: Vec<JsonFinding>,
}

/// The model of a [`JsonResult`].
pub struct JsonResultView {
    pub tree: Option<Seq<char>>,
    pub target: Option<Seq<char>>,
    pub status: JsonStatus,
    pub findings: Seq<JsonFindingView>,
}

impl View for JsonResult {
    type V = JsonResultView;

    open spec fn view(&self) -> JsonResultView {
        JsonResultView {
            tree: opt_view(self.tree),
            target: opt_view(self.target),
            status: self.status,
            findings: views(self.findings@),
        }
    }
}

/// The kind of a finding.
pub open spec fn kind_of(finding: FindingView) -> FindingKind {
    match finding {
        FindingView::Missing { .. } => FindingKind::Missing,
        FindingView::Extra { .. } => FindingKind::Extra,
        FindingView::OutOfOrder { .. } => FindingKind::OutOfOrder,
        FindingView::Unsupported { .. } => FindingKind::Unsupported,
        FindingView::Todo { .. } => FindingKind::Todo,
    }
}

/// A finding of the report, where `tree` is the tree file as it is shown.
pub open spec fn finding_entry(
    reported: ReportedView,
    tree: Seq<char>,
    target: Seq<char>,
    root: Seq<char>,
) -> JsonFindingView {
    let finding = reported.finding;
    JsonFindingView {
        kind: kind_of(finding),
        severity: reported.level,
        message: description(finding, tree, target),
        tree_path: match finding {
            FindingView::Missing { path, .. } => Some(path),
            FindingView::Extra { path, .. } => Some(path),
            FindingView::OutOfOrder { path } => Some(path),
            _ => None,
        },
        file: if finding is Missing {
            tree
        } else {
            relative_to(target, root)
        },
        line: match finding {
            FindingView::Missing { spec_line, .. } => Some(spec_line),
            FindingView::Extra { target_line, .. } => Some(target_line),
            FindingView::OutOfOrder { .. } => None,
            FindingView::Unsupported { target_line } => Some(target_line),
            FindingView::Todo { target_line, .. } => Some(target_line),
        },
    }
}

/// A finding of the report.
pub fn finding_json(reported: &Reported, tree: &str, target: &str, root: &str) -> (out: JsonFinding)
    ensures
        out@ == finding_entry(reported@, tree@, target@, root@),
{
    let message = describe(&reported.finding, tree, target);
    let (kind, tree_path, file, line) = match &reported.finding {
        Finding::Missing { path, spec_line, .. } => (
            FindingKind::Missing,
            Some(path.clone()),
            owned(tree),
            Some(*spec_line),
        ),
        Finding::Extra { path, target_line, .. } => (
            FindingKind::Extra,
            Some(path.clone()),
            relative(target, root),
            Some(*target_line),
        ),
        Finding::OutOfOrder { path } => (
            FindingKind::OutOfOrder,
            Some(path.clone()),
            relative(target, root),
            None,
        ),
        Finding::Unsupported { target_line } => (
            FindingKind::Unsupported,
            None,
            relative(target, root),
            Some(*target_line),
        ),
        Finding::Todo { target_line, .. } => (
            FindingKind::Todo,
            None,
            relative(target, root),
            Some(*target_line),
        ),
    };
    JsonFinding { kind, severity: reported.level, message, tree_path, file, line }
}

/// A finding about a whole file.
pub open spec fn file_finding(
    kind: FindingKind,
    severity: Level,
    message: Seq<char>,
    file: Seq<char>,
    line: Option<nat>,
) -> JsonFindingView {
    JsonFindingView { kind, severity, message, tree_path: None, file, line }
}

/// The first candidates that were tried, each on a line of its own.
pub open spec fn tried_text(candidates: Seq<Seq<char>>, n: int) -> Seq<char>
    decreases n,
{
    if n <= 0 {
        Seq::empty()
    } else {
        tried_text(candidates, n - 1) + "\ntried "@ + candidates[n - 1]
    }
}

/// What is said of a tree file without a test file.
pub open spec fn no_target_text(candidates: Seq<Seq<char>>, tree: Seq<char>) -> Seq<char> {
    "no matching test file"@ + tried_text(
        candidates,
        if candidates.len() < 4 {
            candidates.len() as int
        } else {
            4
        },
    ) + "\nhint: btt scaffold "@ + tree
}

/// The findings of an outcome.
pub open spec fn outcome_findings(outcome: FileOutcomeView, root: Seq<char>) -> Seq<JsonFindingView> {
    let tree = relative_to(outcome.tree_path, root);
    match outcome.result {
        FileResultView::Checked { target, findings } => findings.map_values(
            |r: ReportedView| finding_entry(r, tree, target, root),
        ),
        FileResultView::NoTarget { candidates } => seq![
            file_finding(
                FindingKind::NoTarget,
                Level::Error,
                no_target_text(candidates, tree),
                tree,
                None,
            ),
        ],
        FileResultView::Failed(e) => seq![
            file_finding(FindingKind::CheckFailed, Level::Error, message_of(e), tree, None),
        ],
    }
}

/// The result of an outcome.
pub open spec fn outcome_result(outcome: FileOutcomeView, root: Seq<char>) -> JsonResultView {
    let findings = outcome_findings(outcome, root);
    JsonResultView {
        tree: Some(relative_to(outcome.tree_path, root)),
        target: match outcome.result {
            FileResultView::Checked { target, .. } => Some(relative_to(target, root)),
            _ => None,
        },
        status: if findings.len() == 0 {
            JsonStatus::Pass
        } else {
            JsonStatus::Fail
        },
        findings,
    }
}

fn no_target(candidates: &Vec<String>, tree: &str) -> (out: String)
    ensures
        out@ == no_target_text(views(candidates@), tree@),
{
    let mut out = owned("no matching test file");
    let ghost start = out@;
    let mut i: usize = 0;
    assert(views(candidates@).len() == candidates@.len());
    assert(out@ =~= start + tried_text(views(candidates@), 0));
    while i < candidates.len() && i < 4
        invariant
            i <= candidates@.len(),
            i <= 4,
            out@ == start + tried_text(views(candidates@), i as int),
        decreases candidates@.len() - i,
    {
        let ghost before = out@;
        out.append("\ntried ");
        out.append(candidates[i].as_str());
        assert(views(candidates@)[i as int] == candidates@[i as int]@);
        assert(out@ =~= start + tried_text(views(candidates@), i + 1));
        i += 1;
    }
    out.append("\nhint: btt scaffold ");
    out.append(tree);
    out
}

/// The result of an outcome.
pub fn json_outcome(outcome: &FileOutcome, root: &str) -> (out: JsonResult)
    ensures
        out@ == outcome_result(outcome@, root@),
{
    let tree = relative(outcome.tree_path.as_str(), root);
    let mut found: Vec<JsonFinding> = Vec::new();
    let ghost all = outcome_findings(outcome@, root@);
    let target = match &outcome.result {
        FileResult::Checked { target, findings } => {
            let mut i: usize = 0;
            assert(views(found@) =~= all.take(0));
            while i < findings.len()
                invariant
                    i <= findings@.len(),
                    outcome@.result == (FileResultView::Checked {
                        target: target@,
                        findings: views(findings@),
                    }),
                    tree@ == relative_to(outcome@.tree_path, root@),
                    all == outcome_findings(outcome@, root@),
                    views(found@) == all.take(i as int),
                decreases findings@.len() - i,
            {
                let ghost before = views(found@);
                let entry = finding_json(&findings[i], tree.as_str(), target.as_str(), root);
                found.push(entry);
                proof {
                    assert(views(findings@)[i as int] == findings@[i as int]@);
                    assert(all[i as int] == entry@);
                    assert(views(found@) =~= before.push(entry@));
                    assert(views(found@) =~= all.take(i + 1));
                }
                i += 1;
            }
            assert(all.take(i as int) =~= all);
            Some(relative(target.as_str(), root))
        },
        FileResult::NoTarget { candidates } => {
            let entry = JsonFinding {
                kind: FindingKind::NoTarget,
                severity: Level::Error,
                message: no_target(candidates, tree.as_str()),
                tree_path: None,
                file: tree.clone(),
                line: None,
            };
            found.push(entry);
            assert(views(found@) =~= all);
            None
        },
        FileResult::Failed(e) => {
            let entry = JsonFinding {
                kind: FindingKind::CheckFailed,
                severity: Level::Error,
                message: e.to_string(),
                tree_path: None,
                file: tree.clone(),
                line: None,
            };
            found.push(entry);
            assert(views(found@) =~= all);
            None
        },
    };
    let status = if found.len() == 0 {
        JsonStatus::Pass
    } else {
        JsonStatus::Fail
    };
    assert(views(found@).len() == found@.len());
    JsonResult { tree: Some(tree), target, status, findings: found }
}

/// A result of one finding about a file that is not about a tree file.
pub open spec fn lone_result(finding: JsonFindingView) -> JsonResultView {
    JsonResultView { tree: None, target: None, status: JsonStatus::Fail, findings: seq![finding] }
}

/// The result of an uncovered file.
pub open spec fn uncovered_result(u: (Seq<char>, nat), level: Level, root: Seq<char>) -> JsonResultView {
    lone_result(
        file_finding(
            FindingKind::Uncovered,
            level,
            decimal_of(u.1)
                + " test(s), not covered by any .tree\nhint: write a .tree next to each file mirroring its tests"@,
            relative_to(u.0, root),
            None,
        ),
    )
}

/// The result of an unsupported construct.
pub open spec fn unsupported_result(u: (Seq<char>, nat), level: Level, root: Seq<char>) -> JsonResultView {
    lone_result(
        file_finding(
            FindingKind::Unsupported,
            level,
            unsupported_text(),
            relative_to(u.0, root),
            Some(u.1),
        ),
    )
}

/// The result of a file that could not be scanned.
pub open spec fn failed_result(f: (Seq<char>, ErrorView), root: Seq<char>) -> JsonResultView {
    lone_result(
        file_finding(
            FindingKind::ScanFailed,
            Level::Error,
            "coverage scan failed: "@ + message_of(f.1),
            relative_to(f.0, root),
            None,
        ),
    )
}

/// The results of a scan.
pub open spec fn scan_results(
    scan: ScanView,
    uncovered_level: Level,
    unsupported_level: Level,
    root: Seq<char>,
) -> Seq<JsonResultView> {
    let uncovered = if uncovered_level == Level::Ignore {
        Seq::empty()
    } else {
        scan.uncovered.map_values(
            |u: (Seq<char>, nat)| uncovered_result(u, uncovered_level, root),
        )
    };
    let unsupported = if unsupported_level == Level::Ignore {
        Seq::empty()
    } else {
        scan.unsupported.map_values(
            |u: (Seq<char>, nat)| unsupported_result(u, unsupported_level, root),
        )
    };
    uncovered + unsupported + scan.failed.map_values(
        |f: (Seq<char>, ErrorView)| failed_result(f, root),
    )
}

fn lone(
    kind: FindingKind,
    severity: Level,
    message: String,
    file: String,
    line: Option<usize>,
) -> (out: JsonResult)
    ensures
        out@ == lone_result(
            file_finding(
                kind,
                severity,
                message@,
                file@,
                match line {
                    Some(line) => Some(line as nat),
                    None => None,
                },
            ),
        ),
{
    let mut findings: Vec<JsonFinding> = Vec::new();
    let finding = JsonFinding { kind, severity, message, tree_path: None, file, line };
    findings.push(finding);
    assert(views(findings@) =~= seq![finding@]);
    JsonResult { tree: None, target: None, status: JsonStatus::Fail, findings }
}

/// Append the results of a scan.
fn add_json_scan(
    results: &mut Vec<JsonResult>,
    scan: &UncoveredScan,
    uncovered_level: Level,
    unsupported_level: Level,
    root: &str,
)
    ensures
        views(final(results)@) == views(old(results)@) + scan_results(
            scan@,
            uncovered_level,
            unsupported_level,
            root@,
        ),
{
    let ghost start = views(results@);
    if uncovered_level != Level::Ignore {
        let ghost all = scan@.uncovered.map_values(
            |u: (Seq<char>, nat)| uncovered_result(u, uncovered_level, root@),
        );
        let mut i: usize = 0;
        assert(views(results@) =~= start + all.take(0));
        while i < scan.uncovered.len()
            invariant
                i <= scan.uncovered@.len(),
                all == scan@.uncovered.map_values(
                    |u: (Seq<char>, nat)| uncovered_result(u, uncovered_level, root@),
                ),
                views(results@) == start + all.take(i as int),
            decreases scan.uncovered@.len() - i,
        {
            let ghost before = views(results@);
            let u = &scan.uncovered[i];
            assert(scan@.uncovered[i as int] == (u.path@, u.tests as nat));
            let message = concat2(
                count_text(u.tests).as_str(),
                " test(s), not covered by any .tree\nhint: write a .tree next to each file mirroring its tests",
            );
            let result = lone(
                FindingKind::Uncovered,
                uncovered_level,
                message,
                relative(u.path.as_str(), root),
                None,
            );
            results.push(result);
            proof {
                assert(all[i as int] == result@);
                assert(views(results@) =~= before.push(result@));
                assert(views(results@) =~= start + all.take(i + 1));
            }
            i += 1;
        }
        assert(all.take(i as int) =~= all);
    } else {
        assert(views(results@) =~= start + Seq::<JsonResultView>::empty());
    }
    let ghost middle = views(results@);
    if unsupported_level != Level::Ignore {
        let ghost all = scan@.unsupported.map_values(
            |u: (Seq<char>, nat)| unsupported_result(u, unsupported_level, root@),
        );
        let mut i: usize = 0;
        assert(views(results@) =~= middle + all.take(0));
        while i < scan.unsupported.len()
            invariant
                i <= scan.unsupported@.len(),
                all == scan@.unsupported.map_values(
                    |u: (Seq<char>, nat)| unsupported_result(u, unsupported_level, root@),
                ),
                views(results@) == middle + all.take(i as int),
            decreases scan.unsupported@.len() - i,
        {
            let ghost before = views(results@);
            let u = &scan.unsupported[i];
            assert(scan@.unsupported[i as int] == (u.path@, u.line as nat));
            let result = lone(
                FindingKind::Unsupported,
                unsupported_level,
                owned(
                    "unsupported: parameterized test (test.each) is not representable — expand into explicit leaves (see AGENT-SETUP)",
                ),
                relative(u.path.as_str(), root),
                Some(u.line),
            );
            results.push(result);
            proof {
                assert(all[i as int] == result@);
                assert(views(results@) =~= before.push(result@));
                assert(views(results@) =~= middle + all.take(i + 1));
            }
            i += 1;
        }
        assert(all.take(i as int) =~= all);
    } else {
        assert(views(results@) =~= middle + Seq::<JsonResultView>::empty());
    }
    let ghost last = views(results@);
    let ghost all = scan@.failed.map_values(
        |f: (Seq<char>, ErrorView)| failed_result(f, root@),
    );
    let mut i: usize = 0;
    assert(views(results@) =~= last + all.take(0));
    while i < scan.failed.len()
        invariant
            i <= scan.failed@.len(),
            all == scan@.failed.map_values(|f: (Seq<char>, ErrorView)| failed_result(f, root@)),
            views(results@) == last + all.take(i as int),
        decreases scan.failed@.len() - i,
    {
        let ghost before = views(results@);
        let (path, e) = &scan.failed[i];
        assert(scan@.failed[i as int] == (path@, e@));
        let message = concat2("coverage scan failed: ", e.to_string().as_str());
        let result = lone(
            FindingKind::ScanFailed,
            Level::Error,
            message,
            relative(path.as_str(), root),
            None,
        );
        results.push(result);
        proof {
            assert(all[i as int] == result@);
            assert(views(results@) =~= before.push(result@));
            assert(views(results@) =~= last + all.take(i + 1));
        }
        i += 1;
    }
    assert(all.take(i as int) =~= all);
    assert(views(results@) =~= start + scan_results(
        scan@,
        uncovered_level,
        unsupported_level,
        root@,
    ));
}

/// The results of a run: those of the tree files, then those of the scans.
pub open spec fn run_results(
    outcomes: Seq<FileOutcomeView>,
    scans: Seq<(Level, Level, ScanView)>,
    root: Seq<char>,
) -> Seq<JsonResultView>
    decreases scans.len(),
{
    if scans.len() == 0 {
        outcomes.map_values(|o: FileOutcomeView| outcome_result(o, root))
    } else {
        let (uncovered, unsupported, scan) = scans.last();
        run_results(outcomes, scans.drop_last(), root) + scan_results(
            scan,
            uncovered,
            unsupported,
            root,
        )
    }
}

/// How many findings have a kind and a severity.
pub open spec fn tally_in(
    findings: Seq<JsonFindingView>,
    kind: Option<FindingKind>,
    severity: Level,
) -> nat
    decreases findings.len(),
{
    if findings.len() == 0 {
        0
    } else {
        let last = findings.last();
        tally_in(findings.drop_last(), kind, severity) + if last.severity == severity && (
        kind is None || kind == Some(last.kind)) {
            1nat
        } else {
            0nat
        }
    }
}

/// How many findings of results have a kind, if one is given, and a severity.
pub open spec fn tally(
    results: Seq<JsonResultView>,
    kind: Option<FindingKind>,
    severity: Level,
) -> nat
    decreases results.len(),
{
    if results.len() == 0 {
        0
    } else {
        tally(results.drop_last(), kind, severity) + tally_in(
            results.last().findings,
            kind,
            severity,
        )
    }
}

/// How many findings of results have a kind, if one is given, and a severity.
pub fn count_findings(results: &Vec<JsonResult>, kind: Option<FindingKind>, severity: Level) -> (n: usize)
    ensures
        n == capped(tally(views(results@), kind, severity)),
{
    let ghost all = views(results@);
    let mut total: usize = 0;
    let mut i: usize = 0;
    assert(all.take(0) =~= Seq::empty());
    while i < results.len()
        invariant
            i <= results@.len(),
            all == views(results@),
            total == capped(tally(all.take(i as int), kind, severity)),
        decreases results@.len() - i,
    {
        let findings = &results[i].findings;
        let ghost found = views(findings@);
        proof {
            assert(all.take(i + 1).drop_last() =~= all.take(i as int));
            assert(all.take(i + 1).last() == results@[i as int]@);
        }
        let mut n: usize = 0;
        let mut k: usize = 0;
        assert(found.take(0) =~= Seq::empty());
        while k < findings.len()
            invariant
                k <= findings@.len(),
                found == views(findings@),
                n == tally_in(found.take(k as int), kind, severity),
                n <= k,
            decreases findings@.len() - k,
        {
            let finding = &findings[k];
            proof {
                assert(found.take(k + 1).drop_last() =~= found.take(k as int));
                assert(found.take(k + 1).last() == finding@);
            }
            let wanted = match kind {
                Some(kind) => finding.kind == kind,
                None => true,
            };
            if wanted && finding.severity == severity {
                n += 1;
            }
            k += 1;
        }
        assert(found.take(k as int) =~= found);
        total = add_capped(total, n);
        i += 1;
    }
    assert(all.take(i as int) =~= all);
    total
}

/// The summary of a report.
#[derive(Debug)]
pub struct JsonSummary {
    /// How many tree files were checked.
    pub tree_files: usize,
    /// How many test-bearing files have no spec.
    pub uncovered: usize,
    /// How many findings are errors.
    pub errors: usize,
    /// How many findings are warnings.
    pub warnings: usize,
}

/// The report of a run.
#[derive(Debug)]
pub struct JsonReport {
    /// The summary.
    pub summary: JsonSummary,
    /// The results.
    pub results: Vec<JsonResult>,
    /// Why there is no report, if there is none.
    pub error: Option<String>,
}

impl JsonReport {
    /// A report without results.
    pub fn new(tree_files: usize) -> (out: Self)
        ensures
            out.summary.tree_files == tree_files,
            out.summary.uncovered == 0,
            out.summary.errors == 0,
            out.summary.warnings == 0,
            out.results@.len() == 0,
            out.error is None,
    {
        JsonReport {
            summary: JsonSummary { tree_files, uncovered: 0, errors: 0, warnings: 0 },
            results: Vec::new(),
            error: None,
        }
    }

    /// The report of a run that failed.
    pub fn error(error: String) -> (out: Self)
        ensures
            out.summary.tree_files == 0,
            out.summary.uncovered == 0,
            out.summary.errors == 0,
            out.summary.warnings == 0,
            out.results@.len() == 0,
            out.error == Some(error),
    {
        JsonReport {
            summary: JsonSummary { tree_files: 0, uncovered: 0, errors: 0, warnings: 0 },
            results: Vec::new(),
            error: Some(error),
        }
    }
}

/// The model of the report of a run for machines and of how the run ends.
pub struct MachineRun {
    pub results: Seq<JsonResultView>,
    pub tree_files: nat,
    pub uncovered: nat,
    pub errors: nat,
    pub warnings: nat,
    pub exit: u8,
}

/// The report of a run for machines, and how the run ends.
pub open spec fn machine_run(
    tree_files: nat,
    outcomes: Seq<FileOutcomeView>,
    scans: Seq<(Level, Level, ScanView)>,
    root: Seq<char>,
) -> MachineRun {
    let results = run_results(outcomes, scans, root);
    let errors = capped(tally(results, None, Level::Error));
    MachineRun {
        results,
        tree_files,
        uncovered: crate::report::uncovered_count(scans),
        errors,
        warnings: capped(tally(results, None, Level::Warn)),
        exit: exit_of(tool_failed(outcomes, scans), errors),
    }
}

/// The report of a run for machines, and how the run ends.
pub fn render_json(tree_files: usize, outcomes: &Vec<FileOutcome>, scans: &Scans, root: &str) -> (out: (
    JsonReport,
    u8,
))
    ensures
        ({
            let results = run_results(views(outcomes@), scan_views(scans@), root@);
            let summary = out.0.summary;
            &&& views(out.0.results@) == results
            &&& summary.tree_files == tree_files
            &&& summary.uncovered == crate::report::uncovered_count(scan_views(scans@))
            &&& summary.errors == capped(tally(results, None, Level::Error))
            &&& summary.warnings == capped(tally(results, None, Level::Warn))
            &&& out.0.error is None
            &&& out.1 == exit_of(
                tool_failed(views(outcomes@), scan_views(scans@)),
                summary.errors as nat,
            )
        }),
        ({
            let run = machine_run(
                tree_files as nat,
                views(outcomes@),
                scan_views(scans@),
                root@,
            );
            &&& views(out.0.results@) == run.results
            &&& out.0.summary.tree_files == run.tree_files
            &&& out.0.summary.uncovered == run.uncovered
            &&& out.0.summary.errors == run.errors
            &&& out.0.summary.warnings == run.warnings
            &&& out.1 == run.exit
        }),
{
    let ghost all = views(outcomes@).map_values(|o: FileOutcomeView| outcome_result(o, root@));
    let mut results: Vec<JsonResult> = Vec::new();
    let mut i: usize = 0;
    assert(views(results@) =~= all.take(0));
    while i < outcomes.len()
        invariant
            i <= outcomes@.len(),
            all == views(outcomes@).map_values(|o: FileOutcomeView| outcome_result(o, root@)),
            views(results@) == all.take(i as int),
        decreases outcomes@.len() - i,
    {
        let ghost before = views(results@);
        let result = json_outcome(&outcomes[i], root);
        results.push(result);
        proof {
            assert(views(outcomes@)[i as int] == outcomes@[i as int]@);
            assert(all[i as int] == result@);
            assert(views(results@) =~= before.push(result@));
            assert(views(results@) =~= all.take(i + 1));
        }
        i += 1;
    }
    assert(all.take(i as int) =~= all);
    let ghost seen = scan_views(scans@);
    let mut uncovered: usize = 0;
    let mut k: usize = 0;
    assert(seen.take(0) =~= Seq::empty());
    while k < scans.len()
        invariant
            k <= scans@.len(),
            seen == scan_views(scans@),
            views(results@) == run_results(views(outcomes@), seen.take(k as int), root@),
            uncovered == crate::report::uncovered_count(seen.take(k as int)),
        decreases scans@.len() - k,
    {
        let (uncovered_level, unsupported_level, scan) = &scans[k];
        proof {
            assert(seen.take(k + 1).drop_last() =~= seen.take(k as int));
            assert(seen.take(k + 1).last() == (*uncovered_level, *unsupported_level, scan@));
            assert(scan@.uncovered.len() == scan.uncovered@.len());
        }
        add_json_scan(&mut results, scan, *uncovered_level, *unsupported_level, root);
        uncovered = add_capped(uncovered, scan.uncovered.len());
        k += 1;
    }
    assert(seen.take(k as int) =~= seen);
    let errors: usize = count_findings(&results, None, Level::Error);
    let warnings: usize = count_findings(&results, None, Level::Warn);
    let code: u8 = exit_code(any_failed(outcomes, scans), errors);
    let summary = JsonSummary { tree_files, uncovered, errors, warnings };
    (JsonReport { summary, results, error: None }, code)
}

/// Every kind of finding with every severity, in order.
pub open spec fn all_pairs() -> Seq<(FindingKind, Level)> {
    seq![
        (FindingKind::Missing, Level::Error),
        (FindingKind::Missing, Level::Warn),
        (FindingKind::Extra, Level::Error),
        (FindingKind::Extra, Level::Warn),
        (FindingKind::OutOfOrder, Level::Error),
        (FindingKind::OutOfOrder, Level::Warn),
        (FindingKind::Unsupported, Level::Error),
        (FindingKind::Unsupported, Level::Warn),
        (FindingKind::Todo, Level::Error),
        (FindingKind::Todo, Level::Warn),
        (FindingKind::Uncovered, Level::Error),
        (FindingKind::Uncovered, Level::Warn),
        (FindingKind::NoTarget, Level::Error),
        (FindingKind::NoTarget, Level::Warn),
        (FindingKind::CheckFailed, Level::Error),
        (FindingKind::CheckFailed, Level::Warn),
        (FindingKind::ScanFailed, Level::Error),
        (FindingKind::ScanFailed, Level::Warn),
    ]
}

/// How many findings there are of each kind and severity that has any.
pub open spec fn table_of(results: Seq<JsonResultView>, pairs: Seq<(FindingKind, Level)>) -> Seq<
    (FindingKind, Level, nat),
>
    decreases pairs.len(),
{
    if pairs.len() == 0 {
        Seq::empty()
    } else {
        let before = table_of(results, pairs.drop_last());
        let (kind, level) = pairs.last();
        let n = capped(tally(results, Some(kind), level));
        if n > 0 {
            before.push((kind, level, n))
        } else {
            before
        }
    }
}

/// Rows of the table by their models.
pub open spec fn row_views(rows: Seq<(FindingKind, Level, usize)>) -> Seq<(FindingKind, Level, nat)> {
    rows.map_values(|r: (FindingKind, Level, usize)| (r.0, r.1, r.2 as nat))
}

/// How many findings there are of each kind and severity that has any, in the
/// order of the kinds.
pub fn finding_table(results: &Vec<JsonResult>) -> (out: Vec<(FindingKind, Level, usize)>)
    ensures
        row_views(out@) == table_of(views(results@), all_pairs()),
{
    let pairs = vec![
        (FindingKind::Missing, Level::Error),
        (FindingKind::Missing, Level::Warn),
        (FindingKind::Extra, Level::Error),
        (FindingKind::Extra, Level::Warn),
        (FindingKind::OutOfOrder, Level::Error),
        (FindingKind::OutOfOrder, Level::Warn),
        (FindingKind::Unsupported, Level::Error),
        (FindingKind::Unsupported, Level::Warn),
        (FindingKind::Todo, Level::Error),
        (FindingKind::Todo, Level::Warn),
        (FindingKind::Uncovered, Level::Error),
        (FindingKind::Uncovered, Level::Warn),
        (FindingKind::NoTarget, Level::Error),
        (FindingKind::NoTarget, Level::Warn),
        (FindingKind::CheckFailed, Level::Error),
        (FindingKind::CheckFailed, Level::Warn),
        (FindingKind::ScanFailed, Level::Error),
        (FindingKind::ScanFailed, Level::Warn),
    ];
    assert(pairs@ =~= all_pairs());
    let mut out: Vec<(FindingKind, Level, usize)> = Vec::new();
    let mut i: usize = 0;
    assert(pairs@.take(0) =~= Seq::empty());
    assert(row_views(out@) =~= Seq::empty());
    while i < pairs.len()
        invariant
            i <= pairs@.len(),
            row_views(out@) == table_of(views(results@), pairs@.take(i as int)),
        decreases pairs@.len() - i,
    {
        let ghost before = row_views(out@);
        assert(pairs@.take(i + 1).drop_last() =~= pairs@.take(i as int));
        let (kind, level) = pairs[i];
        let n: usize = count_findings(results, Some(kind), level);
        if n > 0 {
            out.push((kind, level, n));
            assert(row_views(out@) =~= before.push((kind, level, n as nat)));
        }
        i += 1;
    }
    assert(pairs@.take(i as int) =~= pairs@);
    out
}

proof fn lemma_tally_findings(
    findings: Seq<ReportedView>,
    tree: Seq<char>,
    target: Seq<char>,
    root: Seq<char>,
)
    ensures
        tally_in(
            findings.map_values(|r: ReportedView| finding_entry(r, tree, target, root)),
            None,
            Level::Error,
        ) == error_count(findings),
    decreases findings.len(),
{
    if findings.len() > 0 {
        lemma_tally_findings(findings.drop_last(), tree, target, root);
        let all = findings.map_values(|r: ReportedView| finding_entry(r, tree, target, root));
        assert(all.drop_last() =~= findings.drop_last().map_values(
            |r: ReportedView| finding_entry(r, tree, target, root),
        ));
    }
}

proof fn lemma_tally_one(finding: JsonFindingView)
    ensures
        tally_in(seq![finding], None, Level::Error) == if finding.severity == Level::Error {
            1nat
        } else {
            0nat
        },
{
    assert(seq![finding].drop_last() =~= Seq::empty());
    assert(tally_in(Seq::empty(), None, Level::Error) == 0);
}

proof fn lemma_tally_outcome(outcome: FileOutcomeView, root: Seq<char>)
    ensures
        tally_in(outcome_findings(outcome, root), None, Level::Error) == outcome_report(
            outcome,
            root,
        ).errors,
{
    let tree = relative_to(outcome.tree_path, root);
    match outcome.result {
        FileResultView::Checked { target, findings } => {
            lemma_tally_findings(findings, tree, target, root);
            if findings.len() == 0 {
                assert(error_count(findings) == 0);
            }
        },
        FileResultView::NoTarget { candidates } => {
            lemma_tally_one(outcome_findings(outcome, root)[0]);
            assert(outcome_findings(outcome, root) =~= seq![outcome_findings(outcome, root)[0]]);
        },
        FileResultView::Failed(e) => {
            lemma_tally_one(outcome_findings(outcome, root)[0]);
            assert(outcome_findings(outcome, root) =~= seq![outcome_findings(outcome, root)[0]]);
        },
    }
}

proof fn lemma_tally_concat(a: Seq<JsonResultView>, b: Seq<JsonResultView>)
    ensures
        tally(a + b, None, Level::Error) == tally(a, None, Level::Error) + tally(
            b,
            None,
            Level::Error,
        ),
    decreases b.len(),
{
    if b.len() == 0 {
        assert(a + b =~= a);
    } else {
        lemma_tally_concat(a, b.drop_last());
        assert((a + b).drop_last() =~= a + b.drop_last());
    }
}

/// Results that hold one finding each, all of one severity.
proof fn lemma_tally_lone(results: Seq<JsonResultView>, level: Level)
    requires
        forall|i: int|
            0 <= i < results.len() ==> (#[trigger] results[i]).findings.len() == 1
                && results[i].findings[0].severity == level,
    ensures
        tally(results, None, Level::Error) == errors_at(level, results.len()),
    decreases results.len(),
{
    if results.len() > 0 {
        let front = results.drop_last();
        assert forall|i: int| 0 <= i < front.len() implies (#[trigger] front[i]).findings.len() == 1
            && front[i].findings[0].severity == level by {
            assert(front[i] == results[i]);
        }
        lemma_tally_lone(front, level);
        let last = results[results.len() - 1];
        assert(last.findings =~= seq![last.findings[0]]);
        lemma_tally_one(last.findings[0]);
    }
}

proof fn lemma_tally_scan(
    scan: ScanView,
    uncovered_level: Level,
    unsupported_level: Level,
    root: Seq<char>,
)
    ensures
        tally(scan_results(scan, uncovered_level, unsupported_level, root), None, Level::Error)
            == errors_at(uncovered_level, scan.uncovered.len()) + errors_at(
            unsupported_level,
            scan.unsupported.len(),
        ) + scan.failed.len(),
{
    let uncovered = if uncovered_level == Level::Ignore {
        Seq::empty()
    } else {
        scan.uncovered.map_values(
            |u: (Seq<char>, nat)| uncovered_result(u, uncovered_level, root),
        )
    };
    let unsupported = if unsupported_level == Level::Ignore {
        Seq::empty()
    } else {
        scan.unsupported.map_values(
            |u: (Seq<char>, nat)| unsupported_result(u, unsupported_level, root),
        )
    };
    let failed = scan.failed.map_values(|f: (Seq<char>, ErrorView)| failed_result(f, root));
    lemma_tally_lone(uncovered, uncovered_level);
    lemma_tally_lone(unsupported, unsupported_level);
    lemma_tally_lone(failed, Level::Error);
    lemma_tally_concat(uncovered, unsupported);
    lemma_tally_concat(uncovered + unsupported, failed);
}

proof fn lemma_tally_outcomes(outcomes: Seq<FileOutcomeView>, root: Seq<char>)
    ensures
        capped(
            tally(
                outcomes.map_values(|o: FileOutcomeView| outcome_result(o, root)),
                None,
                Level::Error,
            ),
        ) == outcome_reports(outcomes, root).errors,
    decreases outcomes.len(),
{
    let all = outcomes.map_values(|o: FileOutcomeView| outcome_result(o, root));
    if outcomes.len() > 0 {
        lemma_tally_outcomes(outcomes.drop_last(), root);
        lemma_tally_outcome(outcomes.last(), root);
        assert(all.drop_last() =~= outcomes.drop_last().map_values(
            |o: FileOutcomeView| outcome_result(o, root),
        ));
    } else {
        assert(all =~= Seq::empty());
    }
}

/// Both formats of a run count the same errors, and so end with the same exit
/// code.
pub proof fn law_formats_count_the_same_errors(
    outcomes: Seq<FileOutcomeView>,
    scans: Seq<(Level, Level, ScanView)>,
    root: Seq<char>,
)
    ensures
        capped(tally(run_results(outcomes, scans, root), None, Level::Error)) == scan_reports(
            outcome_reports(outcomes, root),
            scans,
            root,
        ).errors,
    decreases scans.len(),
{
    if scans.len() == 0 {
        lemma_tally_outcomes(outcomes, root);
    } else {
        let (uncovered, unsupported, scan) = scans.last();
        law_formats_count_the_same_errors(outcomes, scans.drop_last(), root);
        lemma_tally_scan(scan, uncovered, unsupported, root);
        lemma_tally_concat(
            run_results(outcomes, scans.drop_last(), root),
            scan_results(scan, uncovered, unsupported, root),
        );
    }
}

/// The entry of a finding holds the finding as it is: its kind, its severity,
/// its text, the path of its node where it is about one, and the file and line
/// where it stands. What is missing stands in the tree file, all else in the
/// test file; a difference of order has no line.
pub proof fn law_entries_hold_the_finding(
    r: ReportedView,
    tree: Seq<char>,
    target: Seq<char>,
    root: Seq<char>,
)
    ensures
        ({
            let entry = finding_entry(r, tree, target, root);
            &&& entry.severity == r.level
            &&& entry.message == description(r.finding, tree, target)
            &&& match r.finding {
                FindingView::Missing { path, spec_line, .. } => entry.kind == FindingKind::Missing
                    && entry.tree_path == Some(path) && entry.file == tree && entry.line == Some(
                    spec_line,
                ),
                FindingView::Extra { path, target_line, .. } => entry.kind == FindingKind::Extra
                    && entry.tree_path == Some(path) && entry.file == relative_to(target, root)
                    && entry.line == Some(target_line),
                FindingView::OutOfOrder { path } => entry.kind == FindingKind::OutOfOrder
                    && entry.tree_path == Some(path) && entry.file == relative_to(target, root)
                    && entry.line is None,
                FindingView::Unsupported { target_line } => entry.kind == FindingKind::Unsupported
                    && entry.tree_path is None && entry.file == relative_to(target, root)
                    && entry.line == Some(target_line),
                FindingView::Todo { target_line, .. } => entry.kind == FindingKind::Todo
                    && entry.tree_path is None && entry.file == relative_to(target, root)
                    && entry.line == Some(target_line),
            }
        }),
{
}

/// The result of a tree holds an entry for each of its findings, in their
/// order, and passes exactly where there is none. A tree without a test file
/// and one that could not be checked fail with one error.
pub proof fn law_results_hold_every_finding(
    tree_path: Seq<char>,
    target: Seq<char>,
    findings: Seq<ReportedView>,
    candidates: Seq<Seq<char>>,
    e: ErrorView,
    root: Seq<char>,
    i: int,
)
    ensures
        ({
            let result = outcome_result(
                FileOutcomeView { tree_path, result: FileResultView::Checked { target, findings } },
                root,
            );
            &&& result.tree == Some(relative_to(tree_path, root))
            &&& result.target == Some(relative_to(target, root))
            &&& result.findings.len() == findings.len()
            &&& 0 <= i < findings.len() ==> result.findings[i] == finding_entry(
                findings[i],
                relative_to(tree_path, root),
                target,
                root,
            )
            &&& result.status == JsonStatus::Pass <==> findings.len() == 0
        }),
        ({
            let result = outcome_result(
                FileOutcomeView { tree_path, result: FileResultView::NoTarget { candidates } },
                root,
            );
            &&& result.target is None
            &&& result.status == JsonStatus::Fail
            &&& result.findings.len() == 1
            &&& result.findings[0].kind == FindingKind::NoTarget
            &&& result.findings[0].severity == Level::Error
            &&& result.findings[0].file == relative_to(tree_path, root)
        }),
        ({
            let result = outcome_result(
                FileOutcomeView { tree_path, result: FileResultView::Failed(e) },
                root,
            );
            &&& result.target is None
            &&& result.status == JsonStatus::Fail
            &&& result.findings.len() == 1
            &&& result.findings[0].kind == FindingKind::CheckFailed
            &&& result.findings[0].severity == Level::Error
            &&& result.findings[0].message == message_of(e)
        }),
{
}

/// The results of a run are those of its trees, in their order, and then those
/// of its scans: each uncovered file and each construct that no tree can
/// represent with the severity set for it, unless that is to ignore it, and
/// each file that could not be scanned.
pub proof fn law_runs_hold_every_result(
    outcomes: Seq<FileOutcomeView>,
    scans: Seq<(Level, Level, ScanView)>,
    uncovered: Level,
    unsupported: Level,
    scan: ScanView,
    root: Seq<char>,
)
    ensures
        run_results(outcomes, Seq::empty(), root) == Seq::new(
            outcomes.len(),
            |i: int| outcome_result(outcomes[i], root),
        ),
        run_results(outcomes, scans.push((uncovered, unsupported, scan)), root) == run_results(
            outcomes,
            scans,
            root,
        ) + (if uncovered == Level::Ignore {
            Seq::empty()
        } else {
            Seq::new(
                scan.uncovered.len(),
                |i: int| uncovered_result(scan.uncovered[i], uncovered, root),
            )
        }) + (if unsupported == Level::Ignore {
            Seq::empty()
        } else {
            Seq::new(
                scan.unsupported.len(),
                |i: int| unsupported_result(scan.unsupported[i], unsupported, root),
            )
        }) + Seq::new(scan.failed.len(), |i: int| failed_result(scan.failed[i], root)),
{
    assert(run_results(outcomes, Seq::empty(), root) =~= Seq::new(
        outcomes.len(),
        |i: int| outcome_result(outcomes[i], root),
    ));
    let more = scans.push((uncovered, unsupported, scan));
    assert(more.drop_last() =~= scans);
    assert(more.last() == (uncovered, unsupported, scan));
    assert(run_results(outcomes, more, root) =~= run_results(outcomes, scans, root) + (
    if uncovered == Level::Ignore {
        Seq::empty()
    } else {
        Seq::new(
            scan.uncovered.len(),
            |i: int| uncovered_result(scan.uncovered[i], uncovered, root),
        )
    }) + (if unsupported == Level::Ignore {
        Seq::empty()
    } else {
        Seq::new(
            scan.unsupported.len(),
            |i: int| unsupported_result(scan.unsupported[i], unsupported, root),
        )
    }) + Seq::new(scan.failed.len(), |i: int| failed_result(scan.failed[i], root)));
}

/// The result of one finding of a scan is about the file in which it stands,
/// with its kind, severity and line.
pub proof fn law_scan_results_tell_the_file(
    path: Seq<char>,
    n: nat,
    level: Level,
    e: ErrorView,
    root: Seq<char>,
)
    ensures
        ({
            let a = uncovered_result((path, n), level, root);
            let b = unsupported_result((path, n), level, root);
            let c = failed_result((path, e), root);
            &&& a.findings.len() == 1 && b.findings.len() == 1 && c.findings.len() == 1
            &&& a.status == JsonStatus::Fail && b.status == JsonStatus::Fail && c.status
                == JsonStatus::Fail
            &&& a.findings[0].kind == FindingKind::Uncovered && a.findings[0].severity == level
                && a.findings[0].line is None
            &&& b.findings[0].kind == FindingKind::Unsupported && b.findings[0].severity == level
                && b.findings[0].line == Some(n)
            &&& c.findings[0].kind == FindingKind::ScanFailed && c.findings[0].severity
                == Level::Error && c.findings[0].line is None
            &&& a.findings[0].file == relative_to(path, root)
            &&& b.findings[0].file == relative_to(path, root)
            &&& c.findings[0].file == relative_to(path, root)
        }),
{
}

proof fn lemma_tally_in_concat(
    a: Seq<JsonFindingView>,
    b: Seq<JsonFindingView>,
    kind: Option<FindingKind>,
    severity: Level,
)
    ensures
        tally_in(a + b, kind, severity) == tally_in(a, kind, severity) + tally_in(
            b,
            kind,
            severity,
        ),
    decreases b.len(),
{
    if b.len() == 0 {
        assert(a + b =~= a);
    } else {
        lemma_tally_in_concat(a, b.drop_last(), kind, severity);
        assert((a + b).drop_last() =~= a + b.drop_last());
    }
}

/// A finding is counted in the rows of its severity: in that of its kind and in
/// that of all kinds, and in no other.
pub proof fn law_findings_are_counted_in_their_row(
    before: Seq<JsonFindingView>,
    f: JsonFindingView,
    after: Seq<JsonFindingView>,
    kind: Option<FindingKind>,
    severity: Level,
)
    ensures
        tally_in(Seq::empty(), kind, severity) == 0,
        tally_in(before + seq![f] + after, kind, severity) == tally_in(before, kind, severity) + (
        if f.severity == severity && (kind is None || kind == Some(f.kind)) {
            1nat
        } else {
            0nat
        }) + tally_in(after, kind, severity),
{
    reveal_with_fuel(tally_in, 2);
    lemma_tally_in_concat(before + seq![f], after, kind, severity);
    lemma_tally_in_concat(before, seq![f], kind, severity);
    assert(seq![f].drop_last() =~= Seq::empty());
    assert(seq![f].last() == f);
}

/// The table of a run has a row for each kind and severity that was found, in
/// their order, with how often it was found, and no others.
pub proof fn law_tables_have_a_row_for_what_was_found(
    results: Seq<JsonResultView>,
    pairs: Seq<(FindingKind, Level)>,
    kind: FindingKind,
    level: Level,
)
    requires
        tally(results, Some(kind), level) < usize::MAX,
    ensures
        table_of(results, Seq::empty()) == Seq::<(FindingKind, Level, nat)>::empty(),
        tally(results, Some(kind), level) == 0 ==> table_of(results, pairs.push((kind, level)))
            == table_of(results, pairs),
        tally(results, Some(kind), level) > 0 ==> table_of(results, pairs.push((kind, level)))
            == table_of(results, pairs).push((kind, level, tally(results, Some(kind), level))),
{
    assert(pairs.push((kind, level)).drop_last() =~= pairs);
    assert(pairs.push((kind, level)).last() == (kind, level));
}

/// The findings of all results are counted.
pub proof fn law_every_result_is_counted(
    results: Seq<JsonResultView>,
    result: JsonResultView,
    kind: Option<FindingKind>,
    severity: Level,
)
    ensures
        tally(Seq::empty(), kind, severity) == 0,
        tally(results.push(result), kind, severity) == tally(results, kind, severity) + tally_in(
            result.findings,
            kind,
            severity,
        ),
{
    assert(results.push(result).drop_last() =~= results);
}

/// The report of a run for machines counts what its results hold, as far as a
/// count goes, and the run ends as it does for people.
pub proof fn law_machine_runs_end_like_human_ones(
    tree_files: nat,
    outcomes: Seq<FileOutcomeView>,
    scans: Seq<(Level, Level, ScanView)>,
    root: Seq<char>,
)
    ensures
        ({
            let run = machine_run(tree_files, outcomes, scans, root);
            let results = run_results(outcomes, scans, root);
            &&& run.results == results
            &&& run.tree_files == tree_files
            &&& run.uncovered == crate::report::uncovered_count(scans)
            &&& tally(results, None, Level::Error) < usize::MAX ==> run.errors == tally(
                results,
                None,
                Level::Error,
            )
            &&& tally(results, None, Level::Warn) < usize::MAX ==> run.warnings == tally(
                results,
                None,
                Level::Warn,
            )
            &&& run.exit == crate::report::human_run(tree_files, outcomes, scans, root).1
        }),
{
    law_formats_count_the_same_errors(outcomes, scans, root);
}

} // verus!
