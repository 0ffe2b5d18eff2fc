//! What a run says: the lines and the exit code for people, and the report
//! for machines.

use vstd::prelude::*;
use crate::check::Finding;
use crate::config::Level;
use crate::error::Error;
use crate::extract::ActualKind;
use crate::paths::{file_name, relative};
use crate::runner::{add_capped, FileOutcome, FileResult, UncoveredScan};
use crate::text::{concat2, count_text, owned};

verus! {

use crate::check::FindingView;
use crate::error::{message_of, ErrorView};
use crate::paths::{file_name_of, relative_to};
use crate::runner::{capped, FileOutcomeView, FileResultView, ReportedView, ScanView};
use crate::text::{decimal_of, views};

broadcast use vstd::string::group_string_axioms;

/// The rendered outcome of checking one tree file, assembled off-thread so
/// parallel runs print deterministically, in file order.
#[derive(Debug)]
pub struct FileReport {
    /// The lines to print.
    pub lines: Vec<String>,
    /// How many errors they report.
    pub errors: usize,
    /// How many warnings they report.
    pub warnings: usize,
}

/// The model of a [`FileReport`].
#[verifier::ext_equal]
pub struct ReportView {
    pub lines: Seq<Seq<char>>,
    pub errors: nat,
    pub warnings: nat,
}

impl View for FileReport {
    type V = ReportView;

    open spec fn view(&self) -> ReportView {
        ReportView {
            lines: views(self.lines@),
            errors: self.errors as nat,
            warnings: self.warnings as nat,
        }
    }
}

/// The word for a kind of node, padded to one width.
pub open spec fn noun(kind: ActualKind) -> Seq<char> {
    match kind {
        ActualKind::Block => "block"@,
        ActualKind::Test => "test "@,
    }
}

/// What is said of a construct that no tree can represent.
pub open spec fn unsupported_text() -> Seq<char> {
    "unsupported: parameterized test (test.each) is not representable — expand into explicit leaves (see AGENT-SETUP)"@
}

/// A file and a line of it.
pub open spec fn place_text(file: Seq<char>, line: nat) -> Seq<char> {
    " ("@ + file + ":"@ + decimal_of(line) + ")"@
}

/// What is said of a finding.
pub open spec fn description(finding: FindingView, tree: Seq<char>, target: Seq<char>) -> Seq<char> {
    match finding {
        FindingView::Missing { kind, path, spec_line } => "missing "@ + noun(kind) + " `"@ + path
            + "`"@ + place_text(tree, spec_line),
        FindingView::Extra { kind, path, target_line } => "extra   "@ + noun(kind) + " `"@ + path
            + "`"@ + place_text(target, target_line),
        FindingView::OutOfOrder { path } => "order differs under `"@ + path + "`"@,
        FindingView::Unsupported { target_line } => unsupported_text() + place_text(
            target,
            target_line,
        ),
        FindingView::Todo { target_line, .. } =>
            "todo: test body never filled in — scaffold marker still present"@ + place_text(
            target,
            target_line,
        ),
    }
}

fn add_place(out: &mut String, file: &str, line: usize)
    ensures
        final(out)@ == old(out)@ + place_text(file@, line as nat),
{
    let ghost before = out@;
    out.append(" (");
    out.append(file);
    out.append(":");
    out.append(count_text(line).as_str());
    out.append(")");
    assert(out@ =~= before + place_text(file@, line as nat));
}

fn add_node(out: &mut String, kind: ActualKind, path: &str)
    ensures
        final(out)@ == old(out)@ + noun(kind) + " `"@ + path@ + "`"@,
{
    out.append(
        match kind {
            ActualKind::Block => "block",
            ActualKind::Test => "test ",
        },
    );
    out.append(" `");
    out.append(path);
    out.append("`");
}

/// What is said of a construct that no tree can represent.
fn unsupported_note() -> (out: String)
    ensures
        out@ == unsupported_text(),
{
    owned(
        "unsupported: parameterized test (test.each) is not representable — expand into explicit leaves (see AGENT-SETUP)",
    )
}

/// What is said of a finding. `tree` and `target` are the files as they are
/// shown.
pub fn describe(finding: &Finding, tree: &str, target: &str) -> (out: String)
    ensures
        out@ == description(finding@, tree@, target@),
{
    match finding {
        Finding::Missing { kind, path, spec_line } => {
            let mut out = owned("missing ");
            add_node(&mut out, *kind, path.as_str());
            add_place(&mut out, tree, *spec_line);
            out
        },
        Finding::Extra { kind, path, target_line } => {
            let mut out = owned("extra   ");
            add_node(&mut out, *kind, path.as_str());
            add_place(&mut out, target, *target_line);
            out
        },
        Finding::OutOfOrder { path } => {
            let mut out = owned("order differs under `");
            out.append(path.as_str());
            out.append("`");
            out
        },
        Finding::Unsupported { target_line } => {
            let mut out = unsupported_note();
            add_place(&mut out, target, *target_line);
            out
        },
        Finding::Todo { target_line, .. } => {
            let mut out = owned("todo: test body never filled in — scaffold marker still present");
            add_place(&mut out, target, *target_line);
            out
        },
    }
}

/// The word for a severity, padded to one width.
pub open spec fn severity_word(level: Level) -> Seq<char> {
    if level == Level::Error {
        "error"@
    } else {
        "warn "@
    }
}

/// How many findings have the severity of an error.
pub open spec fn error_count(findings: Seq<ReportedView>) -> nat
    decreases findings.len(),
{
    if findings.len() == 0 {
        0
    } else {
        error_count(findings.drop_last()) + if findings.last().level == Level::Error {
            1nat
        } else {
            0nat
        }
    }
}

/// The lines of findings.
pub open spec fn finding_lines(
    findings: Seq<ReportedView>,
    tree: Seq<char>,
    target: Seq<char>,
) -> Seq<Seq<char>> {
    findings.map_values(
        |r: ReportedView|
            "    "@ + severity_word(r.level) + " "@ + description(r.finding, tree, target),
    )
}

/// The first candidates that were tried, a line each.
pub open spec fn tried_lines(candidates: Seq<Seq<char>>, lead: Seq<char>) -> Seq<Seq<char>> {
    candidates.take(
        if candidates.len() < 4 {
            candidates.len() as int
        } else {
            4
        },
    ).map_values(|c: Seq<char>| lead + c)
}

/// The lines and counts of an outcome.
pub open spec fn outcome_report(outcome: FileOutcomeView, root: Seq<char>) -> ReportView {
    let rel = relative_to(outcome.tree_path, root);
    match outcome.result {
        FileResultView::NoTarget { candidates } => ReportView {
            lines: seq!["✗ "@ + rel + " — no matching test file"@] + tried_lines(
                candidates,
                "    tried "@,
            ) + seq!["    hint: btt scaffold "@ + rel],
            errors: 1,
            warnings: 0,
        },
        FileResultView::Failed(e) => ReportView {
            lines: seq!["✗ "@ + rel, "    error "@ + message_of(e)],
            errors: 1,
            warnings: 0,
        },
        FileResultView::Checked { target, findings } => if findings.len() == 0 {
            let shown = match file_name_of(target) {
                Some(name) => name,
                None => target,
            };
            ReportView {
                lines: seq!["✓ "@ + rel + " ("@ + shown + ")"@],
                errors: 0,
                warnings: 0,
            }
        } else {
            ReportView {
                lines: seq!["✗ "@ + rel + " → "@ + target] + finding_lines(findings, rel, target),
                errors: error_count(findings),
                warnings: (findings.len() - error_count(findings)) as nat,
            }
        },
    }
}

fn add_tried(lines: &mut Vec<String>, candidates: &Vec<String>, lead: &str)
    ensures
        views(final(lines)@) == views(old(lines)@) + tried_lines(views(candidates@), lead@),
{
    let ghost start = views(lines@);
    let ghost all = tried_lines(views(candidates@), lead@);
    let mut i: usize = 0;
    assert(views(candidates@).len() == candidates@.len());
    assert(views(lines@) =~= start + all.take(0));
    while i < candidates.len() && i < 4
        invariant
            i <= candidates@.len(),
            i <= 4,
            all == tried_lines(views(candidates@), lead@),
            all.len() == if candidates@.len() < 4 {
                candidates@.len() as int
            } else {
                4
            },
            views(lines@) == start + all.take(i as int),
        decreases candidates@.len() - i,
    {
        let ghost before = views(lines@);
        let line = concat2(lead, candidates[i].as_str());
        lines.push(line);
        proof {
            assert(views(candidates@)[i as int] == candidates@[i as int]@);
            assert(all[i as int] == line@);
            assert(views(lines@) =~= before.push(line@));
            assert(views(lines@) =~= start + all.take(i + 1));
        }
        i += 1;
    }
    assert(all.take(i as int) =~= all);
}

fn word_for(level: Level) -> (out: &'static str)
    ensures
        out@ == severity_word(level),
{
    if level == Level::Error {
        "error"
    } else {
        "warn "
    }
}

/// The lines and counts of an outcome. A broken file reports and counts as an
/// error, but never keeps the rest of a run from being reported.
pub fn render(outcome: &FileOutcome, root: &str) -> (out: FileReport)
    ensures
        out@ == outcome_report(outcome@, root@),
{
    let rel = relative(outcome.tree_path.as_str(), root);
    let mut lines: Vec<String> = Vec::new();
    match &outcome.result {
        FileResult::NoTarget { candidates } => {
            let mut first = concat2("✗ ", rel.as_str());
            first.append(" — no matching test file");
            lines.push(first);
            assert(views(lines@) =~= seq![first@]);
            add_tried(&mut lines, candidates, "    tried ");
            let ghost before = views(lines@);
            let hint = concat2("    hint: btt scaffold ", rel.as_str());
            lines.push(hint);
            assert(views(lines@) =~= before + seq![hint@]);
            FileReport { lines, errors: 1, warnings: 0 }
        },
        FileResult::Failed(e) => {
            let first = concat2("✗ ", rel.as_str());
            let second = concat2("    error ", e.to_string().as_str());
            lines.push(first);
            lines.push(second);
            assert(views(lines@) =~= seq![first@, second@]);
            FileReport { lines, errors: 1, warnings: 0 }
        },
        FileResult::Checked { target, findings } => {
            let ghost all = views(findings@);
            assert(all.len() == findings@.len());
            if findings.len() == 0 {
                let shown = match file_name(target.as_str()) {
                    Some(name) => name,
                    None => target.clone(),
                };
                let mut line = concat2("✓ ", rel.as_str());
                line.append(" (");
                line.append(shown.as_str());
                line.append(")");
                lines.push(line);
                assert(views(lines@) =~= seq![line@]);
                return FileReport { lines, errors: 0, warnings: 0 };
            }
            let mut first = concat2("✗ ", rel.as_str());
            first.append(" → ");
            first.append(target.as_str());
            lines.push(first);
            let ghost shown = finding_lines(all, rel@, target@);
            let mut errors: usize = 0;
            let mut i: usize = 0;
            assert(all.take(0) =~= Seq::empty());
            assert(views(lines@) =~= seq![first@] + shown.take(0));
            while i < findings.len()
                invariant
                    i <= findings@.len(),
                    all == views(findings@),
                    shown == finding_lines(all, rel@, target@),
                    errors == error_count(all.take(i as int)),
                    errors <= i,
                    views(lines@) == seq![first@] + shown.take(i as int),
                decreases findings@.len() - i,
            {
                let r = &findings[i];
                let ghost before = views(lines@);
                proof {
                    assert(all.take(i + 1).drop_last() =~= all.take(i as int));
                    assert(all.take(i + 1).last() == r@);
                    assert(all[i as int] == r@);
                }
                if r.level == Level::Error {
                    errors += 1;
                }
                let mut line = concat2("    ", word_for(r.level));
                line.append(" ");
                line.append(describe(&r.finding, rel.as_str(), target.as_str()).as_str());
                lines.push(line);
                proof {
                    assert(shown[i as int] == line@);
                    assert(views(lines@) =~= before.push(line@));
                    assert(views(lines@) =~= seq![first@] + shown.take(i + 1));
                }
                i += 1;
            }
            assert(all.take(i as int) =~= all);
            assert(shown.take(i as int) =~= shown);
            let warnings: usize = findings.len() - errors;
            FileReport { lines, errors, warnings }
        },
    }
}

/// The lines of the files that need a spec.
pub open spec fn uncovered_lines(
    uncovered: Seq<(Seq<char>, nat)>,
    level: Level,
    root: Seq<char>,
) -> Seq<Seq<char>> {
    let mark = if level == Level::Error {
        "✗ "@
    } else {
        "! "@
    };
    uncovered.map_values(
        |u: (Seq<char>, nat)|
            mark + relative_to(u.0, root) + " — "@ + decimal_of(u.1)
                + " test(s), not covered by any .tree"@,
    )
}

/// The lines of the constructs that no tree can represent.
pub open spec fn unsupported_lines(
    unsupported: Seq<(Seq<char>, nat)>,
    level: Level,
    root: Seq<char>,
) -> Seq<Seq<char>> {
    unsupported.map_values(
        |u: (Seq<char>, nat)|
            "    "@ + severity_word(level) + " "@ + unsupported_text() + place_text(
                relative_to(u.0, root),
                u.1,
            ),
    )
}

/// The lines of the first files that could not be scanned, and how many more
/// there are.
pub open spec fn failed_lines(failed: Seq<(Seq<char>, ErrorView)>, root: Seq<char>) -> Seq<Seq<char>> {
    let shown = failed.take(
        if failed.len() < 5 {
            failed.len() as int
        } else {
            5
        },
    ).map_values(
        |f: (Seq<char>, ErrorView)|
            "✗ "@ + relative_to(f.0, root) + " — coverage scan failed: "@ + message_of(f.1),
    );
    if failed.len() > 5 {
        shown.push(
            "    …and "@ + decimal_of((failed.len() - 5) as nat)
                + " more files could not be scanned"@,
        )
    } else {
        shown
    }
}

/// How many of `n` findings at a level are errors.
pub open spec fn errors_at(level: Level, n: nat) -> nat {
    if level == Level::Error {
        n
    } else {
        0
    }
}

/// How many of `n` findings at a level are warnings.
pub open spec fn warnings_at(level: Level, n: nat) -> nat {
    if level == Level::Warn {
        n
    } else {
        0
    }
}

/// The lines and counts of the uncovered scan: files needing specs at their
/// configured severity, then scan failures.
pub open spec fn scan_report(
    scan: ScanView,
    uncovered_level: Level,
    unsupported_level: Level,
    root: Seq<char>,
) -> ReportView {
    let uncovered = if uncovered_level == Level::Ignore || scan.uncovered.len() == 0 {
        Seq::empty()
    } else {
        uncovered_lines(scan.uncovered, uncovered_level, root).push(
            "    hint: write a .tree next to each file mirroring its tests"@,
        )
    };
    let unsupported = if unsupported_level == Level::Ignore {
        Seq::empty()
    } else {
        unsupported_lines(scan.unsupported, unsupported_level, root)
    };
    ReportView {
        lines: uncovered + unsupported + failed_lines(scan.failed, root),
        errors: capped(
            errors_at(uncovered_level, scan.uncovered.len()) + errors_at(
                unsupported_level,
                scan.unsupported.len(),
            ) + scan.failed.len(),
        ),
        warnings: capped(
            warnings_at(uncovered_level, scan.uncovered.len()) + warnings_at(
                unsupported_level,
                scan.unsupported.len(),
            ),
        ),
    }
}

fn add_uncovered(lines: &mut Vec<String>, scan: &UncoveredScan, level: Level, root: &str)
    ensures
        views(final(lines)@) == views(old(lines)@) + uncovered_lines(
            scan@.uncovered,
            level,
            root@,
        ),
{
    let ghost start = views(lines@);
    let ghost all = uncovered_lines(scan@.uncovered, level, root@);
    let mut i: usize = 0;
    assert(views(lines@) =~= start + all.take(0));
    while i < scan.uncovered.len()
        invariant
            i <= scan.uncovered@.len(),
            all == uncovered_lines(scan@.uncovered, level, root@),
            views(lines@) == start + all.take(i as int),
        decreases scan.uncovered@.len() - i,
    {
        let ghost before = views(lines@);
        let u = &scan.uncovered[i];
        assert(scan@.uncovered[i as int] == (u.path@, u.tests as nat));
        let mut line = if level == Level::Error {
            owned("✗ ")
        } else {
            owned("! ")
        };
        line.append(relative(u.path.as_str(), root).as_str());
        line.append(" — ");
        line.append(count_text(u.tests).as_str());
        line.append(" test(s), not covered by any .tree");
        lines.push(line);
        proof {
            assert(all[i as int] == line@);
            assert(views(lines@) =~= before.push(line@));
            assert(views(lines@) =~= start + all.take(i + 1));
        }
        i += 1;
    }
    assert(all.take(i as int) =~= all);
}

fn add_unsupported(lines: &mut Vec<String>, scan: &UncoveredScan, level: Level, root: &str)
    ensures
        views(final(lines)@) == views(old(lines)@) + unsupported_lines(
            scan@.unsupported,
            level,
            root@,
        ),
{
    let ghost start = views(lines@);
    let ghost all = unsupported_lines(scan@.unsupported, level, root@);
    let mut i: usize = 0;
    assert(views(lines@) =~= start + all.take(0));
    while i < scan.unsupported.len()
        invariant
            i <= scan.unsupported@.len(),
            all == unsupported_lines(scan@.unsupported, level, root@),
            views(lines@) == start + all.take(i as int),
        decreases scan.unsupported@.len() - i,
    {
        let ghost before = views(lines@);
        let u = &scan.unsupported[i];
        assert(scan@.unsupported[i as int] == (u.path@, u.line as nat));
        let mut line = concat2("    ", word_for(level));
        line.append(" ");
        line.append(unsupported_note().as_str());
        add_place(&mut line, relative(u.path.as_str(), root).as_str(), u.line);
        lines.push(line);
        proof {
            assert(all[i as int] == line@);
            assert(views(lines@) =~= before.push(line@));
            assert(views(lines@) =~= start + all.take(i + 1));
        }
        i += 1;
    }
    assert(all.take(i as int) =~= all);
}

fn add_failed(lines: &mut Vec<String>, scan: &UncoveredScan, root: &str)
    ensures
        views(final(lines)@) == views(old(lines)@) + failed_lines(scan@.failed, root@),
{
    let ghost start = views(lines@);
    let ghost all = failed_lines(scan@.failed, root@);
    let n: usize = scan.failed.len();
    let mut i: usize = 0;
    assert(scan@.failed.len() == n);
    assert(views(lines@) =~= start + all.take(0));
    while i < n && i < 5
        invariant
            i <= n,
            i <= 5,
            n == scan.failed@.len(),
            n == scan@.failed.len(),
            all == failed_lines(scan@.failed, root@),
            views(lines@) == start + all.take(i as int),
        decreases n - i,
    {
        let ghost before = views(lines@);
        let (path, e) = &scan.failed[i];
        assert(scan@.failed[i as int] == (path@, e@));
        let mut line = concat2("✗ ", relative(path.as_str(), root).as_str());
        line.append(" — coverage scan failed: ");
        line.append(e.to_string().as_str());
        lines.push(line);
        proof {
            assert(all[i as int] == line@);
            assert(views(lines@) =~= before.push(line@));
            assert(views(lines@) =~= start + all.take(i + 1));
        }
        i += 1;
    }
    if n > 5 {
        let ghost before = views(lines@);
        let mut line = concat2("    …and ", count_text(n - 5).as_str());
        line.append(" more files could not be scanned");
        lines.push(line);
        proof {
            assert(all.len() == 6);
            assert(all[5] == line@);
            assert(views(lines@) =~= before.push(line@));
            assert(views(lines@) =~= start + all);
        }
    } else {
        assert(all.take(i as int) =~= all);
    }
}

/// Render the uncovered scan: files needing specs at their configured
/// severity, then scan failures. Unverifiable coverage is a tool failure —
/// strict projects must not go green because extraction broke — so
/// failures are counted in full and printed capped.
pub fn render_scan(
    scan: &UncoveredScan,
    uncovered_level: Level,
    unsupported_level: Level,
    root: &str,
) -> (out: FileReport)
    ensures
        out@ == scan_report(scan@, uncovered_level, unsupported_level, root@),
{
    let mut lines: Vec<String> = Vec::new();
    let mut errors: usize = 0;
    let mut warnings: usize = 0;
    assert(views(lines@) =~= Seq::empty());
    assert(scan@.uncovered.len() == scan.uncovered@.len());
    assert(scan@.unsupported.len() == scan.unsupported@.len());
    assert(scan@.failed.len() == scan.failed@.len());
    if uncovered_level != Level::Ignore && scan.uncovered.len() > 0 {
        add_uncovered(&mut lines, scan, uncovered_level, root);
        let ghost before = views(lines@);
        let hint = owned("    hint: write a .tree next to each file mirroring its tests");
        lines.push(hint);
        assert(views(lines@) =~= before.push(hint@));
    }
    let ghost first = views(lines@);
    match uncovered_level {
        Level::Error => {
            errors = scan.uncovered.len();
        },
        Level::Warn => {
            warnings = scan.uncovered.len();
        },
        Level::Ignore => {},
    }
    if unsupported_level != Level::Ignore {
        add_unsupported(&mut lines, scan, unsupported_level, root);
    }
    match unsupported_level {
        Level::Error => {
            errors = add_capped(errors, scan.unsupported.len());
        },
        Level::Warn => {
            warnings = add_capped(warnings, scan.unsupported.len());
        },
        Level::Ignore => {},
    }
    add_failed(&mut lines, scan, root);
    errors = add_capped(errors, scan.failed.len());
    let out = FileReport { lines, errors, warnings };
    assert(out@.lines =~= scan_report(scan@, uncovered_level, unsupported_level, root@).lines);
    out
}

/// The scans of the subtrees of a project, each with the severity of
/// uncovered files and of unsupported constructs in it.
pub type Scans = Vec<(Level, Level, UncoveredScan)>;

/// Scans by their models.
pub open spec fn scan_views(scans: Seq<(Level, Level, UncoveredScan)>) -> Seq<
    (Level, Level, ScanView),
> {
    scans.map_values(|s: (Level, Level, UncoveredScan)| (s.0, s.1, s.2@))
}

/// One report after another.
pub open spec fn both(a: ReportView, b: ReportView) -> ReportView {
    ReportView {
        lines: a.lines + b.lines,
        errors: capped(a.errors + b.errors),
        warnings: capped(a.warnings + b.warnings),
    }
}

/// A report of nothing.
pub open spec fn silence() -> ReportView {
    ReportView { lines: Seq::empty(), errors: 0, warnings: 0 }
}

/// The reports of outcomes, one after another.
pub open spec fn outcome_reports(outcomes: Seq<FileOutcomeView>, root: Seq<char>) -> ReportView
    decreases outcomes.len(),
{
    if outcomes.len() == 0 {
        silence()
    } else {
        both(
            outcome_reports(outcomes.drop_last(), root),
            outcome_report(outcomes.last(), root),
        )
    }
}

/// The reports of scans, one after another, behind a first one.
pub open spec fn scan_reports(
    first: ReportView,
    scans: Seq<(Level, Level, ScanView)>,
    root: Seq<char>,
) -> ReportView
    decreases scans.len(),
{
    if scans.len() == 0 {
        first
    } else {
        let (uncovered, unsupported, scan) = scans.last();
        both(
            scan_reports(first, scans.drop_last(), root),
            scan_report(scan, uncovered, unsupported, root),
        )
    }
}

/// How many uncovered files scans found.
pub open spec fn uncovered_count(scans: Seq<(Level, Level, ScanView)>) -> nat
    decreases scans.len(),
{
    if scans.len() == 0 {
        0
    } else {
        capped(uncovered_count(scans.drop_last()) + scans.last().2.uncovered.len())
    }
}

/// Whether something could not be checked at all.
pub open spec fn tool_failed(
    outcomes: Seq<FileOutcomeView>,
    scans: Seq<(Level, Level, ScanView)>,
) -> bool {
    ||| exists|i: int| 0 <= i < outcomes.len() && (#[trigger] outcomes[i]).result is Failed
    ||| exists|i: int| 0 <= i < scans.len() && (#[trigger] scans[i]).2.failed.len() > 0
}

/// How a run ends: spec drift exits 1; a file that could not be checked at all
/// is a tool failure and exits 2, like every other tool error.
pub open spec fn exit_of(failed: bool, errors: nat) -> u8 {
    if failed {
        2
    } else if errors > 0 {
        1
    } else {
        0
    }
}

/// The last line of a run.
pub open spec fn closing_text(
    tree_files: nat,
    scans: Seq<(Level, Level, ScanView)>,
    report: ReportView,
) -> Seq<char> {
    let uncovered = if scans.len() == 0 {
        Seq::empty()
    } else {
        decimal_of(uncovered_count(scans)) + " uncovered, "@
    };
    "\n"@ + decimal_of(tree_files) + " tree file(s), "@ + uncovered + decimal_of(report.errors)
        + " error(s), "@ + decimal_of(report.warnings) + " warning(s)"@
}

fn add_report(to: &mut FileReport, report: FileReport)
    ensures
        final(to)@ == both(old(to)@, report@),
{
    let ghost before = to@;
    let ghost more = report@;
    let mut report = report;
    to.lines.append(&mut report.lines);
    to.errors = add_capped(to.errors, report.errors);
    to.warnings = add_capped(to.warnings, report.warnings);
    assert(to@.lines =~= before.lines + more.lines);
}

/// Whether something could not be checked at all.
pub fn any_failed(outcomes: &Vec<FileOutcome>, scans: &Scans) -> (yes: bool)
    ensures
        yes == tool_failed(views(outcomes@), scan_views(scans@)),
{
    let mut i: usize = 0;
    while i < outcomes.len()
        invariant
            i <= outcomes@.len(),
            forall|j: int|
                0 <= j < i ==> !((#[trigger] views(outcomes@)[j]).result is Failed),
        decreases outcomes@.len() - i,
    {
        assert(views(outcomes@)[i as int] == outcomes@[i as int]@);
        if let FileResult::Failed(_) = &outcomes[i].result {
            return true;
        }
        i += 1;
    }
    let mut k: usize = 0;
    while k < scans.len()
        invariant
            k <= scans@.len(),
            i == outcomes@.len(),
            forall|j: int|
                0 <= j < i ==> !((#[trigger] views(outcomes@)[j]).result is Failed),
            forall|j: int|
                0 <= j < k ==> (#[trigger] scan_views(scans@)[j]).2.failed.len() == 0,
        decreases scans@.len() - k,
    {
        assert(scan_views(scans@)[k as int] == (
            scans@[k as int].0,
            scans@[k as int].1,
            scans@[k as int].2@,
        ));
        assert(scans@[k as int].2@.failed.len() == scans@[k as int].2.failed@.len());
        if scans[k].2.failed.len() > 0 {
            return true;
        }
        k += 1;
    }
    false
}

/// How a run ends.
pub fn exit_code(failed: bool, errors: usize) -> (code: u8)
    ensures
        code == exit_of(failed, errors as nat),
{
    if failed {
        2
    } else if errors > 0 {
        1
    } else {
        0
    }
}

/// The lines of a run for people, the closing line among them, and how the run
/// ends.
pub open spec fn human_run(
    tree_files: nat,
    outcomes: Seq<FileOutcomeView>,
    scans: Seq<(Level, Level, ScanView)>,
    root: Seq<char>,
) -> (Seq<Seq<char>>, u8) {
    let report = scan_reports(outcome_reports(outcomes, root), scans, root);
    (
        report.lines.push(closing_text(tree_files, scans, report)),
        exit_of(tool_failed(outcomes, scans), report.errors),
    )
}

/// The lines of a run for people, the closing line among them, and how the run
/// ends.
pub fn render_human(tree_files: usize, outcomes: &Vec<FileOutcome>, scans: &Scans, root: &str) -> (out: (
    Vec<String>,
    u8,
))
    ensures
        ({
            let report = scan_reports(
                outcome_reports(views(outcomes@), root@),
                scan_views(scans@),
                root@,
            );
            &&& views(out.0@) == report.lines.push(
                closing_text(tree_files as nat, scan_views(scans@), report),
            )
            &&& out.1 == exit_of(
                tool_failed(views(outcomes@), scan_views(scans@)),
                report.errors,
            )
        }),
        (views(out.0@), out.1) == human_run(
            tree_files as nat,
            views(outcomes@),
            scan_views(scans@),
            root@,
        ),
{
    let ghost all = views(outcomes@);
    let ghost seen = scan_views(scans@);
    let mut report = FileReport { lines: Vec::new(), errors: 0, warnings: 0 };
    let mut i: usize = 0;
    assert(all.take(0) =~= Seq::empty());
    assert(report@ =~= silence());
    while i < outcomes.len()
        invariant
            i <= outcomes@.len(),
            all == views(outcomes@),
            report@ == outcome_reports(all.take(i as int), root@),
        decreases outcomes@.len() - i,
    {
        assert(all.take(i + 1).drop_last() =~= all.take(i as int));
        assert(all.take(i + 1).last() == outcomes@[i as int]@);
        add_report(&mut report, render(&outcomes[i], root));
        i += 1;
    }
    assert(all.take(i as int) =~= all);
    let ghost first = report@;
    let mut uncovered: usize = 0;
    let mut k: usize = 0;
    assert(seen.take(0) =~= Seq::empty());
    while k < scans.len()
        invariant
            k <= scans@.len(),
            seen == scan_views(scans@),
            report@ == scan_reports(first, seen.take(k as int), root@),
            uncovered == uncovered_count(seen.take(k as int)),
        decreases scans@.len() - k,
    {
        let (uncovered_level, unsupported_level, scan) = &scans[k];
        proof {
            assert(seen.take(k + 1).drop_last() =~= seen.take(k as int));
            assert(seen.take(k + 1).last() == (*uncovered_level, *unsupported_level, scan@));
            assert(scan@.uncovered.len() == scan.uncovered@.len());
        }
        add_report(&mut report, render_scan(scan, *uncovered_level, *unsupported_level, root));
        uncovered = add_capped(uncovered, scan.uncovered.len());
        k += 1;
    }
    assert(seen.take(k as int) =~= seen);
    assert(seen.len() == scans@.len());
    let mut closing = concat2("\n", count_text(tree_files).as_str());
    closing.append(" tree file(s), ");
    // Only claim an uncovered count when the scan actually ran.
    if scans.len() > 0 {
        let ghost before = closing@;
        closing.append(concat2(count_text(uncovered).as_str(), " uncovered, ").as_str());
    } else {
        assert(closing@ =~= closing@ + Seq::<char>::empty());
    }
    closing.append(count_text(report.errors).as_str());
    closing.append(" error(s), ");
    closing.append(count_text(report.warnings).as_str());
    closing.append(" warning(s)");
    let code: u8 = exit_code(any_failed(outcomes, scans), report.errors);
    let ghost total = report@;
    assert(closing@ == closing_text(tree_files as nat, seen, total));
    let mut lines = report.lines;
    lines.push(closing);
    assert(views(lines@) =~= total.lines.push(closing@));
    (lines, code)
}

/// Whether a tree file was checked and nothing found in it is an error.
pub open spec fn is_clean(outcome: FileOutcomeView) -> bool {
    match outcome.result {
        FileResultView::Checked { findings, .. } => forall|j: int|
            0 <= j < findings.len() ==> (#[trigger] findings[j]).level != Level::Error,
        _ => false,
    }
}

/// Whether a scan failed on no file and nothing it found is an error.
pub open spec fn is_clean_scan(uncovered: Level, unsupported: Level, scan: ScanView) -> bool {
    &&& uncovered == Level::Error ==> scan.uncovered.len() == 0
    &&& unsupported == Level::Error ==> scan.unsupported.len() == 0
    &&& scan.failed.len() == 0
}

proof fn lemma_error_count(findings: Seq<ReportedView>)
    ensures
        error_count(findings) == 0 <==> forall|j: int|
            0 <= j < findings.len() ==> (#[trigger] findings[j]).level != Level::Error,
    decreases findings.len(),
{
    if findings.len() > 0 {
        let front = findings.drop_last();
        lemma_error_count(front);
        assert forall|j: int| 0 <= j < front.len() implies front[j] == findings[j] by {}
        if error_count(findings) == 0 {
            assert forall|j: int| 0 <= j < findings.len() implies (#[trigger] findings[j]).level
                != Level::Error by {
                if j < front.len() {
                    assert(front[j].level != Level::Error);
                }
            }
        } else if findings.last().level == Level::Error {
            assert(findings[findings.len() - 1].level == Level::Error);
        } else {
            let j = choose|j: int| 0 <= j < front.len() && (#[trigger] front[j]).level == Level::Error;
            assert(findings[j].level == Level::Error);
        }
    }
}

proof fn lemma_outcomes_clean(outcomes: Seq<FileOutcomeView>, root: Seq<char>)
    ensures
        outcome_reports(outcomes, root).errors == 0 <==> forall|i: int|
            0 <= i < outcomes.len() ==> is_clean(#[trigger] outcomes[i]),
    decreases outcomes.len(),
{
    if outcomes.len() > 0 {
        let front = outcomes.drop_last();
        let last = outcomes.last();
        lemma_outcomes_clean(front, root);
        if let FileResultView::Checked { findings, .. } = last.result {
            lemma_error_count(findings);
        }
        assert(outcome_report(last, root).errors == 0 <==> is_clean(last));
        assert(last == outcomes[outcomes.len() - 1]);
        assert forall|i: int| 0 <= i < front.len() implies front[i] == outcomes[i] by {}
        if outcome_reports(front, root).errors == 0 {
            assert forall|i: int| 0 <= i < front.len() implies is_clean(#[trigger] outcomes[i]) by {
                assert(is_clean(front[i]));
            }
        } else {
            let i = choose|i: int| 0 <= i < front.len() && !is_clean(#[trigger] front[i]);
            assert(!is_clean(outcomes[i]));
        }
    }
}

proof fn lemma_scans_clean(
    first: ReportView,
    scans: Seq<(Level, Level, ScanView)>,
    root: Seq<char>,
)
    ensures
        scan_reports(first, scans, root).errors == 0 <==> first.errors == 0 && forall|k: int|
            0 <= k < scans.len() ==> {
                let s = #[trigger] scans[k];
                is_clean_scan(s.0, s.1, s.2)
            },
    decreases scans.len(),
{
    if scans.len() > 0 {
        let front = scans.drop_last();
        let last = scans.last();
        lemma_scans_clean(first, front, root);
        assert(scan_report(last.2, last.0, last.1, root).errors == 0 <==> is_clean_scan(
            last.0,
            last.1,
            last.2,
        ));
        assert(last == scans[scans.len() - 1]);
        assert forall|k: int| 0 <= k < front.len() implies front[k] == scans[k] by {}
        if scan_reports(first, front, root).errors == 0 {
            assert forall|k: int| 0 <= k < front.len() implies {
                let s = #[trigger] scans[k];
                is_clean_scan(s.0, s.1, s.2)
            } by {
                assert(is_clean_scan(front[k].0, front[k].1, front[k].2));
            }
        } else if first.errors == 0 {
            let k = choose|k: int|
                0 <= k < front.len() && {
                    let s = #[trigger] front[k];
                    !is_clean_scan(s.0, s.1, s.2)
                };
            assert(!is_clean_scan(scans[k].0, scans[k].1, scans[k].2));
        }
    }
}

/// A run exits 0 exactly when every tree file was checked, every scanned file
/// could be read, and nothing found has the severity of an error: one missing
/// test, one tree without a test file or one file that could not be checked
/// fails it.
pub proof fn law_only_a_clean_run_succeeds(
    outcomes: Seq<FileOutcomeView>,
    scans: Seq<(Level, Level, ScanView)>,
    root: Seq<char>,
)
    ensures
        exit_of(
            tool_failed(outcomes, scans),
            scan_reports(outcome_reports(outcomes, root), scans, root).errors,
        ) == 0 <==> {
            &&& forall|i: int| 0 <= i < outcomes.len() ==> is_clean(#[trigger] outcomes[i])
            &&& forall|k: int|
                0 <= k < scans.len() ==> {
                    let s = #[trigger] scans[k];
                    is_clean_scan(s.0, s.1, s.2)
                }
        },
{
    lemma_outcomes_clean(outcomes, root);
    lemma_scans_clean(outcome_reports(outcomes, root), scans, root);
    if tool_failed(outcomes, scans) {
        if exists|i: int| 0 <= i < outcomes.len() && (#[trigger] outcomes[i]).result is Failed {
            let i = choose|i: int|
                0 <= i < outcomes.len() && (#[trigger] outcomes[i]).result is Failed;
            assert(!is_clean(outcomes[i]));
        } else {
            let k = choose|k: int| 0 <= k < scans.len() && (#[trigger] scans[k]).2.failed.len() > 0;
            assert(!is_clean_scan(scans[k].0, scans[k].1, scans[k].2));
        }
    }
}

/// The exit code tells what happened: 2 where a file could not be checked or
/// scanned, whatever else was found; 1 where none failed so and something found
/// is an error; 0 otherwise.
pub proof fn law_exit_codes_tell_what_happened(
    outcomes: Seq<FileOutcomeView>,
    scans: Seq<(Level, Level, ScanView)>,
    errors: nat,
)
    ensures
        ({
            let broken = (exists|i: int|
                0 <= i < outcomes.len() && (#[trigger] outcomes[i]).result is Failed) || (exists|
                i: int,
            |
                0 <= i < scans.len() && (#[trigger] scans[i]).2.failed.len() > 0);
            let exit = exit_of(tool_failed(outcomes, scans), errors);
            &&& exit == 2 <==> broken
            &&& exit == 1 <==> !broken && errors > 0
            &&& exit == 0 <==> !broken && errors == 0
        }),
{
}

proof fn lemma_error_count_concat(a: Seq<ReportedView>, b: Seq<ReportedView>)
    ensures
        error_count(a + b) == error_count(a) + error_count(b),
        error_count(b) <= b.len(),
    decreases b.len(),
{
    if b.len() == 0 {
        assert(a + b =~= a);
    } else {
        lemma_error_count_concat(a, b.drop_last());
        assert((a + b).drop_last() =~= a + b.drop_last());
    }
}

/// Every reported finding is counted once: as an error where its severity is
/// that, and as a warning otherwise.
pub proof fn law_every_finding_is_counted_once(
    before: Seq<ReportedView>,
    r: ReportedView,
    after: Seq<ReportedView>,
)
    ensures
        error_count(Seq::empty()) == 0,
        r.level == Level::Error ==> error_count(before + seq![r] + after) == error_count(before) + 1
            + error_count(after),
        r.level != Level::Error ==> error_count(before + seq![r] + after) == error_count(before)
            + error_count(after),
        error_count(after) <= after.len(),
{
    lemma_error_count_concat(before + seq![r], after);
    lemma_error_count_concat(before, seq![r]);
    reveal_with_fuel(error_count, 2);
    assert(seq![r].drop_last() =~= Seq::empty());
    assert(seq![r].last() == r);
}

/// A checked file counts its errors, and the rest of its findings as warnings;
/// a tree without a test file and a file that could not be checked count as
/// one error each.
pub proof fn law_outcomes_count_their_findings(
    tree_path: Seq<char>,
    root: Seq<char>,
    target: Seq<char>,
    findings: Seq<ReportedView>,
    candidates: Seq<Seq<char>>,
    e: ErrorView,
)
    ensures
        ({
            let report = outcome_report(
                FileOutcomeView { tree_path, result: FileResultView::Checked { target, findings } },
                root,
            );
            &&& report.errors == error_count(findings)
            &&& report.errors + report.warnings == findings.len()
            &&& report.lines.len() == findings.len() + 1
        }),
        ({
            let report = outcome_report(
                FileOutcomeView { tree_path, result: FileResultView::NoTarget { candidates } },
                root,
            );
            report.errors == 1 && report.warnings == 0
        }),
        ({
            let report = outcome_report(
                FileOutcomeView { tree_path, result: FileResultView::Failed(e) },
                root,
            );
            report.errors == 1 && report.warnings == 0
        }),
{
    lemma_error_count_concat(Seq::empty(), findings);
}

/// A finding tells what it is, of what, and where: what is missing in the tree
/// file and all else in the test file.
pub proof fn law_findings_tell_what_and_where(
    kind: ActualKind,
    path: Seq<char>,
    line: nat,
    test: Option<nat>,
    tree: Seq<char>,
    target: Seq<char>,
)
    ensures
        description(FindingView::Missing { kind, path, spec_line: line }, tree, target)
            == (if kind == ActualKind::Test {
            "missing "@ + "test "@
        } else {
            "missing "@ + "block"@
        }) + " `"@ + path + "`"@ + (" ("@ + tree + ":"@ + decimal_of(line) + ")"@),
        description(FindingView::Extra { kind, path, target_line: line }, tree, target) == (if kind
            == ActualKind::Test {
            "extra   "@ + "test "@
        } else {
            "extra   "@ + "block"@
        }) + " `"@ + path + "`"@ + (" ("@ + target + ":"@ + decimal_of(line) + ")"@),
        description(FindingView::OutOfOrder { path }, tree, target) == "order differs under `"@
            + path + "`"@,
        (" ("@ + target + ":"@ + decimal_of(line) + ")"@).is_suffix_of(
            description(FindingView::Unsupported { target_line: line }, tree, target),
        ),
        (" ("@ + target + ":"@ + decimal_of(line) + ")"@).is_suffix_of(
            description(FindingView::Todo { target_line: line, test_line: test }, tree, target),
        ),
{
    let place = place_text(target, line);
    let a = unsupported_text() + place;
    assert(a.skip(a.len() - place.len()) =~= place);
    let b = "todo: test body never filled in — scaffold marker still present"@ + place;
    assert(b.skip(b.len() - place.len()) =~= place);
}

/// The reports of two runs on end are the lines of the one and then those of
/// the other, and their counts add up, as far as a count goes.
pub proof fn law_reports_add_up(
    outcomes: Seq<FileOutcomeView>,
    outcome: FileOutcomeView,
    scans: Seq<(Level, Level, ScanView)>,
    uncovered: Level,
    unsupported: Level,
    scan: ScanView,
    first: ReportView,
    root: Seq<char>,
)
    ensures
        ({
            let before = outcome_reports(outcomes, root);
            let one = outcome_report(outcome, root);
            let all = outcome_reports(outcomes.push(outcome), root);
            &&& all.lines == before.lines + one.lines
            &&& before.errors + one.errors <= usize::MAX ==> all.errors == before.errors
                + one.errors
            &&& before.warnings + one.warnings <= usize::MAX ==> all.warnings == before.warnings
                + one.warnings
        }),
        ({
            let before = scan_reports(first, scans, root);
            let one = scan_report(scan, uncovered, unsupported, root);
            let all = scan_reports(first, scans.push((uncovered, unsupported, scan)), root);
            &&& all.lines == before.lines + one.lines
            &&& before.errors + one.errors <= usize::MAX ==> all.errors == before.errors
                + one.errors
            &&& before.warnings + one.warnings <= usize::MAX ==> all.warnings == before.warnings
                + one.warnings
        }),
        outcome_reports(Seq::empty(), root) == (ReportView {
            lines: Seq::empty(),
            errors: 0,
            warnings: 0,
        }),
        scan_reports(first, Seq::empty(), root) == first,
{
    assert(outcomes.push(outcome).drop_last() =~= outcomes);
    let more = scans.push((uncovered, unsupported, scan));
    assert(more.drop_last() =~= scans);
    assert(more.last() == (uncovered, unsupported, scan));
}

/// A scan counts each uncovered file and each construct that no tree can
/// represent with the severity that is set for it, or not at all where it is to
/// be ignored, and each file that could not be scanned as an error.
pub proof fn law_scans_count_by_severity(
    scan: ScanView,
    uncovered: Level,
    unsupported: Level,
    root: Seq<char>,
)
    requires
        scan.uncovered.len() + scan.unsupported.len() + scan.failed.len() <= usize::MAX,
    ensures
        ({
            let report = scan_report(scan, uncovered, unsupported, root);
            let weigh = |level: Level, own: Level, n: nat|
                if own == level {
                    n
                } else {
                    0nat
                };
            &&& report.errors == weigh(Level::Error, uncovered, scan.uncovered.len()) + weigh(
                Level::Error,
                unsupported,
                scan.unsupported.len(),
            ) + scan.failed.len()
            &&& report.warnings == weigh(Level::Warn, uncovered, scan.uncovered.len()) + weigh(
                Level::Warn,
                unsupported,
                scan.unsupported.len(),
            )
        }),
{
}

/// A checked file without findings is one line that names the tree and the test
/// file; one with findings is a line that names both and then a line for each
/// finding, with its severity and its text.
pub proof fn law_checked_files_are_shown(
    tree_path: Seq<char>,
    root: Seq<char>,
    target: Seq<char>,
    findings: Seq<ReportedView>,
    name: Seq<char>,
    i: int,
)
    requires
        0 <= i < findings.len(),
        file_name_of(target) == Some(name),
    ensures
        ({
            let rel = relative_to(tree_path, root);
            let clean = outcome_report(
                FileOutcomeView {
                    tree_path,
                    result: FileResultView::Checked { target, findings: Seq::empty() },
                },
                root,
            );
            let lines = outcome_report(
                FileOutcomeView { tree_path, result: FileResultView::Checked { target, findings } },
                root,
            ).lines;
            &&& clean.lines == seq!["✓ "@ + rel + " ("@ + name + ")"@]
            &&& clean.errors == 0 && clean.warnings == 0
            &&& lines[0] == "✗ "@ + rel + " → "@ + target
            &&& lines[i + 1] == "    "@ + (if findings[i].level == Level::Error {
                "error"@
            } else {
                "warn "@
            }) + " "@ + description(findings[i].finding, rel, target)
        }),
{
}

/// A tree without a test file is shown with the first four names that were
/// tried, in their order, and with what would make the file; a tree that could
/// not be checked with the reason.
pub proof fn law_unchecked_trees_are_shown(
    tree_path: Seq<char>,
    root: Seq<char>,
    candidates: Seq<Seq<char>>,
    e: ErrorView,
    i: int,
)
    ensures
        ({
            let rel = relative_to(tree_path, root);
            let lines = outcome_report(
                FileOutcomeView { tree_path, result: FileResultView::NoTarget { candidates } },
                root,
            ).lines;
            let shown = if candidates.len() < 4 {
                candidates.len() as int
            } else {
                4
            };
            &&& lines.len() == shown + 2
            &&& lines[0] == "✗ "@ + rel + " — no matching test file"@
            &&& 0 <= i < shown ==> lines[i + 1] == "    tried "@ + candidates[i]
            &&& lines[shown + 1] == "    hint: btt scaffold "@ + rel
        }),
        outcome_report(
            FileOutcomeView { tree_path, result: FileResultView::Failed(e) },
            root,
        ).lines == seq![
            "✗ "@ + relative_to(tree_path, root),
            "    error "@ + message_of(e),
        ],
{
}

/// A scan shows its uncovered files with the number of their tests, then the
/// constructs that no tree can represent, then the files that could not be
/// scanned, the first five of them and how many more there are; what is to be
/// ignored is not shown.
pub proof fn law_scans_are_shown(
    scan: ScanView,
    uncovered: Level,
    unsupported: Level,
    root: Seq<char>,
    i: int,
)
    ensures
        ({
            let lines = scan_report(scan, uncovered, unsupported, root).lines;
            let a = if uncovered == Level::Ignore || scan.uncovered.len() == 0 {
                0int
            } else {
                scan.uncovered.len() as int + 1
            };
            let b = if unsupported == Level::Ignore {
                0int
            } else {
                scan.unsupported.len() as int
            };
            let c = if scan.failed.len() < 5 {
                scan.failed.len() as int
            } else {
                5
            };
            &&& lines.len() == a + b + c + if scan.failed.len() > 5 {
                1int
            } else {
                0
            }
            &&& 0 <= i < a - 1 ==> lines[i] == (if uncovered == Level::Error {
                "✗ "@
            } else {
                "! "@
            }) + relative_to(scan.uncovered[i].0, root) + " — "@ + decimal_of(scan.uncovered[i].1)
                + " test(s), not covered by any .tree"@
            &&& 0 <= i < b ==> lines[a + i] == "    "@ + (if unsupported == Level::Error {
                "error"@
            } else {
                "warn "@
            }) + " "@ + unsupported_text() + (" ("@ + relative_to(scan.unsupported[i].0, root)
                + ":"@ + decimal_of(scan.unsupported[i].1) + ")"@)
            &&& 0 <= i < c ==> lines[a + b + i] == "✗ "@ + relative_to(scan.failed[i].0, root)
                + " — coverage scan failed: "@ + message_of(scan.failed[i].1)
        }),
{
}

/// A run ends with 0 exactly where every tree file was checked, every scanned
/// file could be read and nothing found is an error; with 2 exactly where a file
/// could not be checked or scanned; and with 1 otherwise. Its last line closes
/// it, and the lines before that are those of its trees and scans.
pub proof fn law_runs_end_by_what_was_found(
    tree_files: nat,
    outcomes: Seq<FileOutcomeView>,
    scans: Seq<(Level, Level, ScanView)>,
    root: Seq<char>,
)
    ensures
        ({
            let (lines, exit) = human_run(tree_files, outcomes, scans, root);
            let report = scan_reports(outcome_reports(outcomes, root), scans, root);
            let clean = (forall|i: int| 0 <= i < outcomes.len() ==> is_clean(
                #[trigger] outcomes[i],
            )) && (forall|k: int|
                0 <= k < scans.len() ==> {
                    let s = #[trigger] scans[k];
                    is_clean_scan(s.0, s.1, s.2)
                });
            let broken = (exists|i: int|
                0 <= i < outcomes.len() && (#[trigger] outcomes[i]).result is Failed) || (exists|
                i: int,
            |
                0 <= i < scans.len() && (#[trigger] scans[i]).2.failed.len() > 0);
            &&& exit == 0 <==> clean
            &&& exit == 2 <==> broken
            &&& exit == 0 || exit == 1 || exit == 2
            &&& lines.len() == report.lines.len() + 1
            &&& lines.take(report.lines.len() as int) == report.lines
            &&& lines.last() == "\n"@ + decimal_of(tree_files) + " tree file(s), "@ + (
            if scans.len() == 0 {
                Seq::empty()
            } else {
                decimal_of(uncovered_count(scans)) + " uncovered, "@
            }) + decimal_of(report.errors) + " error(s), "@ + decimal_of(report.warnings)
                + " warning(s)"@
        }),
{
    law_only_a_clean_run_succeeds(outcomes, scans, root);
    let report = scan_reports(outcome_reports(outcomes, root), scans, root);
    law_exit_codes_tell_what_happened(outcomes, scans, report.errors);
    let (lines, exit) = human_run(tree_files, outcomes, scans, root);
    assert(lines.take(report.lines.len() as int) =~= report.lines);
}

/// The uncovered files of all scans are counted together, as far as a count
/// goes.
pub proof fn law_uncovered_files_add_up(
    scans: Seq<(Level, Level, ScanView)>,
    uncovered: Level,
    unsupported: Level,
    scan: ScanView,
)
    requires
        uncovered_count(scans) + scan.uncovered.len() < usize::MAX,
    ensures
        uncovered_count(Seq::empty()) == 0,
        uncovered_count(scans.push((uncovered, unsupported, scan))) == uncovered_count(scans)
            + scan.uncovered.len(),
{
    let more = scans.push((uncovered, unsupported, scan));
    assert(more.drop_last() =~= scans);
    assert(more.last() == (uncovered, unsupported, scan));
}

} // verus!
