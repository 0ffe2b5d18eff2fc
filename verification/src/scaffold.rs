//! Render a test-file skeleton from a spec tree using a pack's template.
//!
//! The expected structure is flattened into a linear event stream so
//! templates stay simple loops instead of recursive macros:
//!
//! - `open`  — start of a block (`mod x {`, `describe("x", () => {`)
//! - `test`  — a test definition
//! - `close` — end of a block
//!
//! Each event carries `name` (mapped identifier), `text` (original spec
//! text), `depth`, and `indent` (the pack's indent unit repeated `depth`
//! times).

use vstd::prelude::*;
use minijinja::{Environment, Value};
use crate::check::Expected;
use crate::error::Error;
use crate::extract::{extract_with_findings, ActualKind, Extraction, SourceNode};
use crate::literal::{js_string, line_safe, rust_string};
use crate::merging::{
    count_in_chars, cut_snippet, find_match, insertion_point, merge_root, newline_styles,
    observed_indent_unit, splice, with_newlines, Match,
};
use crate::pack::Pack;
use crate::text::{chars_of, concat2, owned, repeat, replace, trim_end};

verus! {

use crate::check::{
    agrees, expected_nodes, expected_of, expected_view, findings_of, has_wrapper,
    law_unwrapping_needs_wrappers, unwrapped, ExpectedView,
};
use crate::error::ErrorView;
use crate::extract::{extracted, source_view, ActualView, ExtractionView, SourceView};
use crate::literal::{js_escaped, line_escaped, rust_escaped};
use crate::mapping::{
    is_trimmed, law_names_are_trimmed, lemma_trimmed, Case, MappingView, NameRuleView, RootMapping,
};
use crate::merging::{
    below_root, edit_views, first_match, has_crlf, has_plain_newline, in_chars, in_style,
    indent_unit, insertion_of, law_splicing_nothing_is_identity, law_splicing_only_inserts,
    lemma_span_in, match_count, merge_error, places_of, root_of, snippet_of, spans_in, spliced,
    stands_in,
};
use crate::pack::PackView;
use crate::text::{
    all_white, is_ascii_text, is_white, lemma_end_off, opt_view, repeated, replaced, trimmed,
    trimmed_end, views,
};
use crate::tree::{NodeKind, SpecNodeView, SpecTreeView};

broadcast use {
    crate::check::lemma_expected_children,
    crate::extract::lemma_source_children,
    vstd::string::group_string_axioms,
};

/// What an event stands for.
#[derive(Debug, Clone, Copy, PartialEq, Eq, Structural)]
pub enum EventKind {
    /// The start of a block.
    Open,
    /// The end of a block.
    Close,
    /// A test.
    Test,
}

/// The word that a template knows an event by.
pub open spec fn event_word(kind: EventKind) -> Seq<char> {
    match kind {
        EventKind::Open => "open"@,
        EventKind::Close => "close"@,
        EventKind::Test => "test"@,
    }
}

impl EventKind {
    /// The word that a template knows this event by.
    pub fn word(self) -> (out: &'static str)
        ensures
            out@ == event_word(self),
    {
        match self {
            EventKind::Open => "open",
            EventKind::Close => "close",
            EventKind::Test => "test",
        }
    }
}

/// One step through the expected structure.
#[derive(Debug)]
pub struct Event {
    /// What it stands for.
    pub kind: EventKind,
    /// The mapped name of the node.
    pub name: String,
    /// The original spec text of the node.
    pub text: String,
    /// How many blocks the node stands in.
    pub depth: usize,
    /// The indent unit, once for each of these blocks.
    pub indent: String,
}

/// The model of an [`Event`].
pub struct EventView {
    pub kind: EventKind,
    pub name: Seq<char>,
    pub text: Seq<char>,
    pub depth: nat,
    pub indent: Seq<char>,
}

impl View for Event {
    type V = EventView;

    open spec fn view(&self) -> EventView {
        EventView {
            kind: self.kind,
            name: self.name@,
            text: self.text@,
            depth: self.depth as nat,
            indent: self.indent@,
        }
    }
}

/// The event of a kind for a node.
pub open spec fn event_of(kind: EventKind, node: ExpectedView, depth: nat, unit: Seq<char>) -> EventView {
    EventView { kind, name: node.name, text: node.text, depth, indent: repeated(unit, depth) }
}

/// The depth of what stands in a block; the largest number that a machine
/// counts has no successor.
pub open spec fn deeper(depth: nat) -> nat {
    if depth < usize::MAX {
        depth + 1
    } else {
        depth
    }
}

/// The events of a node: a test is one event, a block opens, goes on with its
/// children, and closes.
pub open spec fn events_of_node(node: ExpectedView, depth: nat, unit: Seq<char>) -> Seq<EventView>
    decreases node, 0int,
{
    match node.kind {
        ActualKind::Test => seq![event_of(EventKind::Test, node, depth, unit)],
        ActualKind::Block => seq![event_of(EventKind::Open, node, depth, unit)] + events_of(
            node.children,
            deeper(depth),
            unit,
        ) + seq![event_of(EventKind::Close, node, depth, unit)],
    }
}

/// The events of nodes, in their order.
pub open spec fn events_of(nodes: Seq<ExpectedView>, depth: nat, unit: Seq<char>) -> Seq<EventView>
    decreases nodes, 1int,
{
    if nodes.len() == 0 {
        Seq::empty()
    } else {
        events_of(nodes.drop_last(), depth, unit) + events_of_node(nodes.last(), depth, unit)
    }
}

fn event(kind: EventKind, node: &Expected, depth: usize, unit: &str) -> (out: Event)
    ensures
        out@ == event_of(kind, node@, depth as nat, unit@),
{
    Event {
        kind,
        name: node.name.clone(),
        text: node.text.clone(),
        depth,
        indent: repeat(unit, depth),
    }
}

/// Append the events of nodes at a depth.
fn flatten(nodes: &[Expected], depth: usize, unit: &str, out: &mut Vec<Event>)
    ensures
        views(final(out)@) == views(old(out)@) + events_of(views(nodes@), depth as nat, unit@),
    decreases nodes@,
{
    let ghost all = views(nodes@);
    let ghost start = views(out@);
    let mut i: usize = 0;
    assert(all.take(0) =~= Seq::empty());
    assert(start + Seq::<EventView>::empty() =~= start);
    while i < nodes.len()
        invariant
            i <= nodes@.len(),
            all == views(nodes@),
            views(out@) == start + events_of(all.take(i as int), depth as nat, unit@),
        decreases nodes@.len() - i,
    {
        let node = &nodes[i];
        let ghost before = views(out@);
        proof {
            assert(all.take(i + 1).drop_last() =~= all.take(i as int));
            assert(all.take(i + 1).last() == node@);
            assert(node@ == expected_view(*node));
        }
        match node.kind {
            ActualKind::Test => {
                let test = event(EventKind::Test, node, depth, unit);
                out.push(test);
                assert(views(out@) =~= before + seq![test@]);
            },
            ActualKind::Block => {
                let open = event(EventKind::Open, node, depth, unit);
                out.push(open);
                assert(views(out@) =~= before + seq![open@]);
                let inner: usize = if depth < usize::MAX {
                    depth + 1
                } else {
                    depth
                };
                flatten(node.children.as_slice(), inner, unit, out);
                let ghost middle = views(out@);
                let close = event(EventKind::Close, node, depth, unit);
                out.push(close);
                assert(views(out@) =~= middle.push(close@));
                assert(views(out@) =~= before + events_of_node(node@, depth as nat, unit@));
            },
        }
        assert(views(out@) =~= start + events_of(all.take(i + 1), depth as nat, unit@));
        i += 1;
    }
    assert(all.take(i as int) =~= all);
}

/// The events of an expected structure, in document order.
pub fn events_for(expected: &[Expected], unit: &str) -> (out: Vec<Event>)
    ensures
        views(out@) == events_of(views(expected@), 0, unit@),
{
    let mut events: Vec<Event> = Vec::new();
    assert(views(events@) =~= Seq::empty());
    flatten(expected, 0, unit, &mut events);
    assert(views(events@) =~= events_of(views(expected@), 0, unit@));
    events
}

/// How many more blocks events open than they close.
pub open spec fn open_blocks(events: Seq<EventView>) -> int
    decreases events.len(),
{
    if events.len() == 0 {
        0
    } else {
        open_blocks(events.drop_last()) + match events.last().kind {
            EventKind::Open => 1int,
            EventKind::Close => -1int,
            EventKind::Test => 0int,
        }
    }
}

/// How many events are tests.
pub open spec fn test_events(events: Seq<EventView>) -> nat
    decreases events.len(),
{
    if events.len() == 0 {
        0
    } else {
        test_events(events.drop_last()) + if events.last().kind == EventKind::Test {
            1nat
        } else {
            0nat
        }
    }
}

/// How many tests an expected structure has.
pub open spec fn test_count(nodes: Seq<ExpectedView>) -> nat
    decreases nodes,
{
    if nodes.len() == 0 {
        0
    } else {
        test_count(nodes.drop_last()) + match nodes.last().kind {
            ActualKind::Test => 1nat,
            ActualKind::Block => test_count(nodes.last().children),
        }
    }
}

proof fn lemma_counts_concat(a: Seq<EventView>, b: Seq<EventView>)
    ensures
        open_blocks(a + b) == open_blocks(a) + open_blocks(b),
        test_events(a + b) == test_events(a) + test_events(b),
    decreases b.len(),
{
    if b.len() == 0 {
        assert(a + b =~= a);
    } else {
        lemma_counts_concat(a, b.drop_last());
        assert((a + b).drop_last() =~= a + b.drop_last());
    }
}

proof fn lemma_counts_one(e: EventView)
    ensures
        open_blocks(seq![e]) == match e.kind {
            EventKind::Open => 1int,
            EventKind::Close => -1int,
            EventKind::Test => 0int,
        },
        test_events(seq![e]) == if e.kind == EventKind::Test {
            1nat
        } else {
            0nat
        },
{
    assert(seq![e].drop_last() =~= Seq::empty());
    assert(open_blocks(Seq::<EventView>::empty()) == 0);
    assert(test_events(Seq::<EventView>::empty()) == 0);
}

/// A template sees every block closed that it sees opened, and exactly as many
/// tests as the structure has.
pub proof fn law_events_balance(nodes: Seq<ExpectedView>, depth: nat, unit: Seq<char>)
    ensures
        open_blocks(events_of(nodes, depth, unit)) == 0,
        test_events(events_of(nodes, depth, unit)) == test_count(nodes),
    decreases nodes,
{
    if nodes.len() > 0 {
        let node = nodes.last();
        law_events_balance(nodes.drop_last(), depth, unit);
        law_events_balance(node.children, deeper(depth), unit);
        let before = events_of(nodes.drop_last(), depth, unit);
        lemma_counts_concat(before, events_of_node(node, depth, unit));
        let inner = events_of(node.children, deeper(depth), unit);
        let open = event_of(EventKind::Open, node, depth, unit);
        let close = event_of(EventKind::Close, node, depth, unit);
        lemma_counts_one(open);
        lemma_counts_one(close);
        lemma_counts_one(event_of(EventKind::Test, node, depth, unit));
        lemma_counts_concat(seq![open], inner);
        lemma_counts_concat(seq![open] + inner, seq![close]);
    }
}

/// The filter for text in a JavaScript string.
fn js_filter(s: String) -> (out: String)
    ensures
        out@ == js_escaped(s@),
{
    js_string(s.as_str())
}

/// The filter for text in a line comment.
fn line_filter(s: String) -> (out: String)
    ensures
        out@ == line_escaped(s@),
{
    line_safe(s.as_str())
}

/// The filter for text in a Rust format string.
fn rust_filter(s: String) -> (out: String)
    ensures
        out@ == rust_escaped(s@),
{
    rust_string(s.as_str())
}

/// What a template sees of an event.
#[derive(Debug)]
pub struct Row {
    /// The word for what the event stands for: `open`, `test` or `close`.
    pub kind: String,
    /// The mapped name of the node.
    pub name: String,
    /// The original spec text of the node.
    pub text: String,
    /// How many blocks the node stands in.
    pub depth: usize,
    /// The indent unit, once for each of these blocks.
    pub indent: String,
}

/// The model of a [`Row`].
pub struct RowView {
    pub kind: Seq<char>,
    pub name: Seq<char>,
    pub text: Seq<char>,
    pub depth: nat,
    pub indent: Seq<char>,
}

impl View for Row {
    type V = RowView;

    open spec fn view(&self) -> RowView {
        RowView {
            kind: self.kind@,
            name: self.name@,
            text: self.text@,
            depth: self.depth as nat,
            indent: self.indent@,
        }
    }
}

/// What a template sees of events.
pub open spec fn rows_of(events: Seq<EventView>) -> Seq<RowView> {
    events.map_values(
        |e: EventView|
            RowView {
                kind: event_word(e.kind),
                name: e.name,
                text: e.text,
                depth: e.depth,
                indent: e.indent,
            },
    )
}

/// What a template sees of events.
pub fn rows_for(events: &Vec<Event>) -> (out: Vec<Row>)
    ensures
        views(out@) == rows_of(views(events@)),
{
    let ghost all = rows_of(views(events@));
    let mut out: Vec<Row> = Vec::new();
    let mut i: usize = 0;
    while i < events.len()
        invariant
            i <= events@.len(),
            all == rows_of(views(events@)),
            views(out@) == all.take(i as int),
        decreases events@.len() - i,
    {
        let ghost before = views(out@);
        let e = &events[i];
        let row = Row {
            kind: owned(e.kind.word()),
            name: e.name.clone(),
            text: e.text.clone(),
            depth: e.depth,
            indent: e.indent.clone(),
        };
        let ghost seen = row@;
        out.push(row);
        proof {
            assert(all[i as int] == seen);
            assert(views(out@) =~= before.push(seen));
            assert(all.take(i + 1) =~= all.take(i as int).push(all[i as int]));
        }
        i += 1;
    }
    assert(all.take(i as int) =~= all);
    out
}

/// What `minijinja::Environment::render_str` makes of a template in an
/// environment with the escaping filters, or the message of its error: the
/// context holds the rows as `events`, the stem and whether the output lands in
/// a directory of tests.
pub uninterp spec fn template_output(
    template: Seq<char>,
    rows: Seq<RowView>,
    stem: Seq<char>,
    in_tests_dir: bool,
) -> Result<Seq<char>, Seq<char>>;

/// `minijinja::Environment::render_str` with the escaping filters `js_string`,
/// `line_safe` and `rust_string`: the text, or the message of the error,
/// depends on the template, the rows, the stem and the flag alone.
#[verifier::external_body]
fn fill_template(template: &str, rows: &Vec<Row>, stem: &str, in_tests_dir: bool) -> (out: Result<
    String,
    String,
>)
    ensures
        match out {
            Ok(text) => template_output(template@, views(rows@), stem@, in_tests_dir) == Ok::<
                Seq<char>,
                Seq<char>,
            >(text@),
            Err(message) => template_output(template@, views(rows@), stem@, in_tests_dir) == Err::<
                Seq<char>,
                Seq<char>,
            >(message@),
        },
{
    let mut env = Environment::new();
    env.add_filter("js_string", js_filter);
    env.add_filter("line_safe", line_filter);
    env.add_filter("rust_string", rust_filter);
    let text = |s: &str| Value::from(s);
    let events: Value = rows.iter().map(|r| Value::from_iter([("kind", text(&r.kind)),
        ("name", text(&r.name)), ("text", text(&r.text)), ("indent", text(&r.indent)),
        ("depth", Value::from(r.depth))])).collect();
    let context = [("events", events), ("stem", text(stem)), ("in_tests_dir", in_tests_dir.into())];
    env.render_str(template, Value::from_iter(context)).map_err(|e| e.to_string())
}

/// A rendered text with exactly one final line feed.
pub open spec fn finished(text: Seq<char>) -> Seq<char> {
    trimmed_end(text) + "\n"@
}

/// Normalize trailing whitespace: exactly one final newline.
pub fn finish(text: &str) -> (out: String)
    ensures
        out@ == finished(text@),
{
    concat2(trim_end(text).as_str(), "\n")
}

/// The scaffold of an expected structure.
pub open spec fn rendered(
    pack: PackView,
    expected: Seq<ExpectedView>,
    stem: Seq<char>,
    in_tests_dir: bool,
) -> Result<Seq<char>, ErrorView> {
    match template_output(
        pack.template,
        rows_of(events_of(expected, 0, pack.manifest.indent)),
        stem,
        in_tests_dir,
    ) {
        Ok(text) => Ok(finished(text)),
        Err(message) => Err(ErrorView::Template { pack: pack.manifest.name, message }),
    }
}

/// Render the pack's scaffold template for the given expected structure.
///
/// `in_tests_dir` tells the template whether the output lands in a
/// dedicated test directory (a Rust `tests/` integration crate) or next
/// to source — languages whose test-file shape differs by location (Rust
/// wraps colocated tests in `#[cfg(test)] mod tests`) branch on it;
/// other templates ignore it.
///
/// # Errors
///
/// Fails if the pack's template does not compile or render.
pub fn render(pack: &Pack, expected: &[Expected], stem: &str, in_tests_dir: bool) -> (out: Result<
    String,
    Error,
>)
    ensures
        match out {
            Ok(text) => rendered(pack@, views(expected@), stem@, in_tests_dir) == Ok::<
                Seq<char>,
                ErrorView,
            >(text@),
            Err(e) => rendered(pack@, views(expected@), stem@, in_tests_dir) == Err::<
                Seq<char>,
                ErrorView,
            >(e@),
        },
{
    let events = events_for(expected, pack.manifest.scaffold.indent.as_str());
    match fill_template(pack.template.as_str(), &rows_for(&events), stem, in_tests_dir) {
        Ok(text) => Ok(finish(text.as_str())),
        Err(message) => Err(Error::Template { pack: pack.manifest.pack.name.clone(), message }),
    }
}

/// What a merge works with.
pub struct MergeView {
    pub pack: PackView,
    pub source: Seq<char>,
    pub stem: Seq<char>,
    pub in_tests_dir: bool,
    pub unit: Option<Seq<char>>,
    pub crlf: bool,
}

/// What a merge works with.
struct Merge<'a> {
    pack: &'a Pack,
    chars: &'a Vec<char>,
    stem: &'a str,
    in_tests_dir: bool,
    unit: Option<String>,
    crlf: bool,
}

impl<'a> View for Merge<'a> {
    type V = MergeView;

    closed spec fn view(&self) -> MergeView {
        MergeView {
            pack: self.pack@,
            source: self.chars@,
            stem: self.stem@,
            in_tests_dir: self.in_tests_dir,
            unit: opt_view(self.unit),
            crlf: self.crlf,
        }
    }
}

/// The message of a definition whose span does not fit the text.
pub open spec fn split_message() -> Seq<char> {
    "a definition's span splits a character"@
}

/// The lines that a node of the expected structure adds: its definition as
/// the template renders it, with the indentation and line ends of its place.
pub open spec fn added_lines(cx: MergeView, wanted: ExpectedView, indent: Seq<char>) -> Result<
    Seq<char>,
    ErrorView,
> {
    let m = cx.pack.manifest;
    match rendered(cx.pack, seq![wanted], cx.stem, cx.in_tests_dir) {
        Err(e) => Err(e),
        Ok(text) => match extracted(cx.pack, replaced(m.output, "{stem}"@, cx.stem), text) {
            Err(e) => Err(e),
            Ok(found) => match in_chars(text, found.source_nodes) {
                None => Err(merge_error(split_message())),
                Some(nodes) => match snippet_of(
                    text,
                    nodes,
                    m.mapping.wrappers,
                    wanted,
                    m.test_requires_marker,
                    indent,
                ) {
                    Err(e) => Err(e),
                    Ok(snippet) => Ok(in_style(snippet, cx.crlf)),
                },
            },
        },
    }
}

fn render_node(cx: &Merge, wanted: &Expected, indent: &str) -> (out: Result<String, Error>)
    ensures
        match out {
            Ok(text) => added_lines(cx@, wanted@, indent@) == Ok::<Seq<char>, ErrorView>(text@),
            Err(e) => added_lines(cx@, wanted@, indent@) == Err::<Seq<char>, ErrorView>(e@),
        },
{
    let one = vec![wanted.clone()];
    assert(views(one@) =~= seq![wanted@]);
    let text = render(cx.pack, one.as_slice(), cx.stem, cx.in_tests_dir)?;
    proof {
        reveal_strlit("{stem}");
    }
    let target = replace(cx.pack.manifest.scaffold.output.as_str(), "{stem}", cx.stem);
    let found = extract_with_findings(cx.pack, target.as_str(), text.as_str())?;
    let chars = chars_of(text.as_str());
    let nodes = match count_in_chars(&chars, &found.source_nodes) {
        Some(nodes) => nodes,
        None => {
            return Err(Error::Merge { message: owned("a definition's span splits a character") });
        },
    };
    let snippet = cut_snippet(
        text.as_str(),
        &nodes,
        &cx.pack.manifest.mapping.wrappers,
        wanted,
        cx.pack.manifest.extract.test_requires_marker,
        indent,
    )?;
    Ok(with_newlines(snippet, cx.crlf))
}

/// The insertions for the expected nodes from node `i` on that are not among
/// the actual definitions. `last` is the place of the definition of the
/// nearest expected node before that has one.
pub open spec fn plan_from(
    cx: MergeView,
    expected: Seq<ExpectedView>,
    i: int,
    actual: Seq<SourceView>,
    parent: Option<(int, int)>,
    last: Option<int>,
) -> Result<Seq<(int, Seq<char>)>, ErrorView>
    decreases expected, expected.len() - i,
{
    if i < 0 || i >= expected.len() {
        Ok(Seq::empty())
    } else {
        let wanted = expected[i];
        let count = match_count(actual, wanted.kind, wanted.name);
        if count > 1 {
            Err(
                merge_error(
                    "duplicate `"@ + wanted.name
                        + "` definitions make its insertion position ambiguous"@,
                ),
            )
        } else if count == 1 {
            let at = first_match(actual, wanted.kind, wanted.name, 0)->0;
            let found = actual[at];
            if last matches Some(last) && at <= last {
                Err(
                    merge_error(
                        "existing siblings around `"@ + wanted.name + "` are out of tree order"@,
                    ),
                )
            } else {
                let inner = if wanted.kind == ActualKind::Block {
                    plan_from(
                        cx,
                        wanted.children,
                        0,
                        found.children,
                        Some((found.start as int, found.end as int)),
                        None,
                    )
                } else {
                    Ok(Seq::empty())
                };
                followed(inner, plan_from(cx, expected, i + 1, actual, parent, Some(at)))
            }
        } else {
            match insertion_of(cx.source, actual, last, parent, cx.unit) {
                Err(e) => Err(e),
                Ok((pos, indent)) => match added_lines(cx, wanted, indent) {
                    Err(e) => Err(e),
                    Ok(text) => followed(
                        Ok(seq![(pos, text)]),
                        plan_from(cx, expected, i + 1, actual, parent, last),
                    ),
                },
            }
        }
    }
}

/// Insertions and those that come after them; the first error counts.
pub open spec fn followed(
    first: Result<Seq<(int, Seq<char>)>, ErrorView>,
    rest: Result<Seq<(int, Seq<char>)>, ErrorView>,
) -> Result<Seq<(int, Seq<char>)>, ErrorView> {
    match (first, rest) {
        (Err(e), _) => Err(e),
        (_, Err(e)) => Err(e),
        (Ok(first), Ok(rest)) => Ok(first + rest),
    }
}

/// A place as a number.
pub open spec fn place_view(at: Option<usize>) -> Option<int> {
    match at {
        Some(at) => Some(at as int),
        None => None,
    }
}

/// A span as numbers.
pub open spec fn span_view(span: Option<(usize, usize)>) -> Option<(int, int)> {
    match span {
        Some((start, end)) => Some((start as int, end as int)),
        None => None,
    }
}

/// Plan the insertions for what is missing among the actual definitions.
fn plan_children(
    cx: &Merge,
    expected: &[Expected],
    actual: &Vec<SourceNode>,
    parent: Option<(usize, usize)>,
    edits: &mut Vec<(usize, String)>,
) -> (out: Result<(), Error>)
    requires
        spans_in(views(actual@), cx@.source.len()),
        parent matches Some(span) ==> span.0 <= cx@.source.len() && span.1 <= cx@.source.len(),
    ensures
        ({
            let plan = plan_from(
                cx@,
                views(expected@),
                0,
                views(actual@),
                span_view(parent),
                None,
            );
            match out {
                Ok(_) => plan is Ok && edit_views(final(edits)@) == edit_views(old(edits)@)
                    + plan->Ok_0,
                Err(e) => plan == Err::<Seq<(int, Seq<char>)>, ErrorView>(e@),
            }
        }),
    decreases expected@,
{
    let ghost all = views(expected@);
    let ghost nodes = views(actual@);
    let ghost start = edit_views(edits@);
    let ghost plan = plan_from(cx@, all, 0, nodes, span_view(parent), None);
    let ghost mut done: Seq<(int, Seq<char>)> = Seq::empty();
    let mut last: Option<usize> = None;
    let mut i: usize = 0;
    assert(start + done =~= start);
    proof {
        if plan is Ok {
            assert(done + plan->Ok_0 =~= plan->Ok_0);
        }
    }
    while i < expected.len()
        invariant
            i <= expected@.len(),
            all == views(expected@),
            nodes == views(actual@),
            spans_in(nodes, cx@.source.len()),
            parent matches Some(span) ==> span.0 <= cx@.source.len() && span.1 <= cx@.source.len(),
            last matches Some(at) ==> at < actual@.len(),
            plan == plan_from(cx@, all, 0, nodes, span_view(parent), None),
            edit_views(edits@) == start + done,
            plan == followed(
                Ok(done),
                plan_from(cx@, all, i as int, nodes, span_view(parent), place_view(last)),
            ),
        decreases expected@.len() - i,
    {
        let wanted = &expected[i];
        let ghost before = done;
        proof {
            assert(all[i as int] == wanted@);
            assert(wanted@ == expected_view(*wanted));
        }
        match find_match(actual, wanted.kind, wanted.name.as_str()) {
            Match::Several => {
                let mut message = owned("duplicate `");
                message.append(wanted.name.as_str());
                message.append("` definitions make its insertion position ambiguous");
                return Err(Error::Merge { message });
            },
            Match::One { at } => {
                let found = &actual[at];
                proof {
                    assert(nodes[at as int] == found@);
                    assert(found@ == source_view(*found));
                    lemma_span_in(nodes, cx@.source.len(), at as int);
                }
                let early = match last {
                    Some(last) => at <= last,
                    None => false,
                };
                if early {
                    let mut message = owned("existing siblings around `");
                    message.append(wanted.name.as_str());
                    message.append("` are out of tree order");
                    return Err(Error::Merge { message });
                }
                if let ActualKind::Block = wanted.kind {
                    let span = Some((found.start, found.end));
                    plan_children(
                        cx,
                        wanted.children.as_slice(),
                        &found.children,
                        span,
                        edits,
                    )?;
                    proof {
                        let inner = plan_from(
                            cx@,
                            wanted@.children,
                            0,
                            found@.children,
                            span_view(span),
                            None,
                        )->Ok_0;
                        done = before + inner;
                        assert(edit_views(edits@) =~= start + done);
                        lemma_followed(
                            before,
                            inner,
                            plan_from(
                                cx@,
                                all,
                                i + 1,
                                nodes,
                                span_view(parent),
                                Some(at as int),
                            ),
                        );
                    }
                } else {
                    proof {
                        lemma_followed(
                            before,
                            Seq::empty(),
                            plan_from(
                                cx@,
                                all,
                                i + 1,
                                nodes,
                                span_view(parent),
                                Some(at as int),
                            ),
                        );
                        assert(before + Seq::<(int, Seq<char>)>::empty() =~= before);
                    }
                }
                last = Some(at);
            },
            Match::Absent => {
                let unit = match &cx.unit {
                    Some(unit) => Some(unit.as_str()),
                    None => None,
                };
                let (pos, indent) = insertion_point(
                    cx.chars.as_slice(),
                    actual,
                    last,
                    parent,
                    unit,
                )?;
                let text = render_node(cx, wanted, indent.as_str())?;
                let ghost listed = edit_views(edits@);
                edits.push((pos, text));
                proof {
                    let edit = (pos as int, text@);
                    assert(edit_views(edits@) =~= listed.push(edit));
                    done = before + seq![edit];
                    assert(edit_views(edits@) =~= start + done);
                    lemma_followed(
                        before,
                        seq![edit],
                        plan_from(cx@, all, i + 1, nodes, span_view(parent), place_view(last)),
                    );
                }
            },
        }
        i += 1;
    }
    proof {
        assert(done + Seq::<(int, Seq<char>)>::empty() =~= done);
    }
    Ok(())
}

proof fn lemma_followed(
    a: Seq<(int, Seq<char>)>,
    b: Seq<(int, Seq<char>)>,
    rest: Result<Seq<(int, Seq<char>)>, ErrorView>,
)
    ensures
        followed(Ok(a), followed(Ok(b), rest)) == followed(Ok(a + b), rest),
{
    if rest is Ok {
        assert(a + (b + rest->Ok_0) =~= (a + b) + rest->Ok_0);
    }
}

/// The insertions that bring an existing test file up to the expected
/// structure, given what was extracted from it.
pub open spec fn planned(
    pack: PackView,
    expected: Seq<ExpectedView>,
    target: Seq<char>,
    source: Seq<char>,
    stem: Seq<char>,
    in_tests_dir: bool,
    found: ExtractionView,
) -> Result<Seq<(int, Seq<char>)>, ErrorView> {
    if found.has_parse_errors {
        Err(merge_error(target + " contains syntax errors"@))
    } else if found.unsupported.len() > 0 {
        Err(
            merge_error(
                "the file contains unsupported constructs with unknown insertion spans"@,
            ),
        )
    } else if has_crlf(source) && has_plain_newline(source) {
        Err(merge_error("the file uses mixed CRLF and LF line endings"@))
    } else {
        match in_chars(source, found.source_nodes) {
            None => Err(merge_error(split_message())),
            Some(nodes) => match root_of(nodes, pack.manifest.mapping.wrappers) {
                Err(e) => Err(e),
                Ok(root) => plan_from(
                    MergeView {
                        pack,
                        source,
                        stem,
                        in_tests_dir,
                        unit: indent_unit(source, nodes, 0),
                        crlf: has_crlf(source),
                    },
                    expected,
                    0,
                    below_root(nodes, root),
                    match root {
                        Some(at) => Some((nodes[at].start as int, nodes[at].end as int)),
                        None => None,
                    },
                    None,
                ),
            },
        }
    }
}

/// An existing test file with skeletons for the expected nodes that it lacks.
pub open spec fn merged(
    pack: PackView,
    expected: Seq<ExpectedView>,
    target: Seq<char>,
    source: Seq<char>,
    stem: Seq<char>,
    in_tests_dir: bool,
) -> Result<Seq<char>, ErrorView> {
    match extracted(pack, target, source) {
        Err(e) => Err(e),
        Ok(found) => match planned(pack, expected, target, source, stem, in_tests_dir, found) {
            Err(e) => Err(e),
            Ok(edits) => Ok(spliced(source, edits, has_crlf(source), 0)),
        },
    }
}

/// Add skeletons for expected nodes absent from an existing test file, given
/// what was extracted from it.
///
/// # Errors
///
/// Fails closed when a unique, line-aligned insertion point cannot be proven.
pub fn merge_into(
    pack: &Pack,
    expected: &[Expected],
    target: &str,
    source: &str,
    stem: &str,
    in_tests_dir: bool,
    found: &Extraction,
) -> (out: Result<String, Error>)
    ensures
        ({
            let plan = planned(
                pack@,
                views(expected@),
                target@,
                source@,
                stem@,
                in_tests_dir,
                found@,
            );
            match out {
                Ok(text) => plan is Ok && text@ == spliced(
                    source@,
                    plan->Ok_0,
                    has_crlf(source@),
                    0,
                ),
                Err(e) => plan == Err::<Seq<(int, Seq<char>)>, ErrorView>(e@),
            }
        }),
{
    if found.has_parse_errors {
        return Err(Error::Merge { message: concat2(target, " contains syntax errors") });
    }
    assert(views(found.unsupported@).len() == found.unsupported@.len());
    if found.unsupported.len() > 0 {
        return Err(
            Error::Merge {
                message: owned(
                    "the file contains unsupported constructs with unknown insertion spans",
                ),
            },
        );
    }
    let chars = chars_of(source);
    let (crlf, plain) = newline_styles(&chars);
    if crlf && plain {
        return Err(
            Error::Merge { message: owned("the file uses mixed CRLF and LF line endings") },
        );
    }
    let nodes = match count_in_chars(&chars, &found.source_nodes) {
        Some(nodes) => nodes,
        None => {
            return Err(Error::Merge { message: owned("a definition's span splits a character") });
        },
    };
    let root = merge_root(&nodes, &pack.manifest.mapping.wrappers)?;
    let unit = observed_indent_unit(&chars, &nodes);
    let cx = Merge { pack, chars: &chars, stem, in_tests_dir, unit, crlf };
    let mut edits: Vec<(usize, String)> = Vec::new();
    assert(edit_views(edits@) =~= Seq::empty());
    let (top, parent) = match root {
        Some(at) => {
            proof {
                lemma_span_in(views(nodes@), chars@.len(), at as int);
                assert(views(nodes@)[at as int] == nodes@[at as int]@);
                assert(nodes@[at as int]@ == source_view(nodes@[at as int]));
            }
            (&nodes[at].children, Some((nodes[at].start, nodes[at].end)))
        },
        None => (&nodes, None),
    };
    plan_children(&cx, expected, top, parent, &mut edits)?;
    proof {
        let plan = planned(
            pack@,
            views(expected@),
            target@,
            source@,
            stem@,
            in_tests_dir,
            found@,
        )->Ok_0;
        assert(edit_views(edits@) =~= plan);
    }
    Ok(splice(&chars, &edits, crlf))
}

/// Add skeletons for expected nodes absent from an existing test file.
/// Existing characters are only copied; every edit lands between extracted
/// spans.
///
/// # Errors
///
/// Fails closed when extraction fails or a unique, line-aligned insertion
/// point cannot be proven.
pub fn merge(
    pack: &Pack,
    expected: &[Expected],
    target: &str,
    source: &str,
    stem: &str,
    in_tests_dir: bool,
) -> (out: Result<String, Error>)
    ensures
        ({
            let result = merged(pack@, views(expected@), target@, source@, stem@, in_tests_dir);
            match out {
                Ok(text) => result == Ok::<Seq<char>, ErrorView>(text@),
                Err(e) => result == Err::<Seq<char>, ErrorView>(e@),
            }
        }),
{
    let found = extract_with_findings(pack, target, source)?;
    merge_into(pack, expected, target, source, stem, in_tests_dir, &found)
}

/// Whether definitions hold every expected node from node `i` on, each once
/// and in the expected order, behind the place `last`.
pub open spec fn holds_all(
    expected: Seq<ExpectedView>,
    i: int,
    actual: Seq<SourceView>,
    last: Option<int>,
) -> bool
    decreases expected, expected.len() - i,
{
    i < 0 || i >= expected.len() || {
        let wanted = expected[i];
        let at = first_match(actual, wanted.kind, wanted.name, 0)->0;
        &&& match_count(actual, wanted.kind, wanted.name) == 1
        &&& last matches Some(last) ==> last < at
        &&& wanted.kind == ActualKind::Block ==> holds_all(
            wanted.children,
            0,
            actual[at].children,
            None,
        )
        &&& holds_all(expected, i + 1, actual, Some(at))
    }
}

proof fn lemma_nothing_to_plan(
    cx: MergeView,
    expected: Seq<ExpectedView>,
    i: int,
    actual: Seq<SourceView>,
    parent: Option<(int, int)>,
    last: Option<int>,
)
    requires
        holds_all(expected, i, actual, last),
    ensures
        plan_from(cx, expected, i, actual, parent, last) == Ok::<
            Seq<(int, Seq<char>)>,
            ErrorView,
        >(Seq::empty()),
    decreases expected, expected.len() - i,
{
    if 0 <= i < expected.len() {
        let wanted = expected[i];
        let at = first_match(actual, wanted.kind, wanted.name, 0)->0;
        let found = actual[at];
        if wanted.kind == ActualKind::Block {
            lemma_nothing_to_plan(
                cx,
                wanted.children,
                0,
                found.children,
                Some((found.start as int, found.end as int)),
                None,
            );
        }
        lemma_nothing_to_plan(cx, expected, i + 1, actual, parent, Some(at));
        assert(Seq::<(int, Seq<char>)>::empty() + Seq::<(int, Seq<char>)>::empty() =~= Seq::<
            (int, Seq<char>),
        >::empty());
    }
}

/// Whether extraction finds a file complete: it has no syntax errors, no
/// unsupported constructs and one kind of line end, and below its root it holds
/// every expected node, each once and in the expected order.
pub open spec fn is_complete(
    pack: PackView,
    expected: Seq<ExpectedView>,
    target: Seq<char>,
    source: Seq<char>,
) -> bool {
    &&& !(has_crlf(source) && has_plain_newline(source))
    &&& extracted(pack, target, source) matches Ok(found) && {
        &&& !found.has_parse_errors
        &&& found.unsupported.len() == 0
        &&& in_chars(source, found.source_nodes) matches Some(nodes) && (root_of(
            nodes,
            pack.manifest.mapping.wrappers,
        ) matches Ok(root) && holds_all(expected, 0, below_root(nodes, root), None))
    }
}

/// Merging into a complete file gives the file back as it is.
pub proof fn law_merging_keeps_a_complete_file(
    pack: PackView,
    expected: Seq<ExpectedView>,
    target: Seq<char>,
    source: Seq<char>,
    stem: Seq<char>,
    in_tests_dir: bool,
)
    requires
        is_complete(pack, expected, target, source),
    ensures
        merged(pack, expected, target, source, stem, in_tests_dir) == Ok::<Seq<char>, ErrorView>(
            source,
        ),
{
    let found = extracted(pack, target, source)->Ok_0;
    let nodes = in_chars(source, found.source_nodes)->0;
    let root = root_of(nodes, pack.manifest.mapping.wrappers)->Ok_0;
    let cx = MergeView {
        pack,
        source,
        stem,
        in_tests_dir,
        unit: indent_unit(source, nodes, 0),
        crlf: has_crlf(source),
    };
    let parent = match root {
        Some(at) => Some((nodes[at].start as int, nodes[at].end as int)),
        None => None,
    };
    lemma_nothing_to_plan(cx, expected, 0, below_root(nodes, root), parent, None);
    law_splicing_nothing_is_identity(source, has_crlf(source));
}

/// Merging only inserts: the file that was there stands in the merged one,
/// every character of it and in the old order.
pub proof fn law_merging_only_inserts(
    pack: PackView,
    expected: Seq<ExpectedView>,
    target: Seq<char>,
    source: Seq<char>,
    stem: Seq<char>,
    in_tests_dir: bool,
)
    requires
        merged(pack, expected, target, source, stem, in_tests_dir) is Ok,
    ensures
        exists|places: Seq<int>| #[trigger]
            stands_in(
                source,
                merged(pack, expected, target, source, stem, in_tests_dir)->Ok_0,
                places,
            ),
{
    let found = extracted(pack, target, source)->Ok_0;
    let edits = planned(pack, expected, target, source, stem, in_tests_dir, found)->Ok_0;
    law_splicing_only_inserts(source, edits, has_crlf(source));
    let once = merged(pack, expected, target, source, stem, in_tests_dir)->Ok_0;
    assert(stands_in(source, once, places_of(source, edits, has_crlf(source))));
}

/// Merging is idempotent: where extraction finds the merged file complete,
/// merging into it again changes nothing.
pub proof fn law_merging_is_idempotent(
    pack: PackView,
    expected: Seq<ExpectedView>,
    target: Seq<char>,
    source: Seq<char>,
    stem: Seq<char>,
    in_tests_dir: bool,
)
    requires
        merged(pack, expected, target, source, stem, in_tests_dir) matches Ok(once) && is_complete(
            pack,
            expected,
            target,
            once,
        ),
    ensures
        ({
            let once = merged(pack, expected, target, source, stem, in_tests_dir);
            merged(pack, expected, target, once->Ok_0, stem, in_tests_dir) == once
        }),
{
    let once = merged(pack, expected, target, source, stem, in_tests_dir)->Ok_0;
    law_merging_keeps_a_complete_file(pack, expected, target, once, stem, in_tests_dir);
}

/// What reading events back has built: the blocks that are open, each with the
/// nodes before it, and the nodes of the innermost one.
pub struct Rebuilt {
    pub open: Seq<(Seq<char>, Seq<ActualView>)>,
    pub nodes: Seq<ActualView>,
}

/// What is built once an event is read.
pub open spec fn rebuild_step(state: Rebuilt, e: EventView) -> Rebuilt {
    match e.kind {
        EventKind::Open => Rebuilt { open: state.open.push((e.name, state.nodes)), nodes: Seq::empty() },
        EventKind::Test => Rebuilt {
            open: state.open,
            nodes: state.nodes.push(
                ActualView { kind: ActualKind::Test, name: e.name, line: 0, children: Seq::empty() },
            ),
        },
        EventKind::Close => if state.open.len() == 0 {
            state
        } else {
            let (name, before) = state.open.last();
            Rebuilt {
                open: state.open.drop_last(),
                nodes: before.push(
                    ActualView { kind: ActualKind::Block, name, line: 0, children: state.nodes },
                ),
            }
        },
    }
}

/// What is built once events are read in order.
pub open spec fn rebuild(state: Rebuilt, events: Seq<EventView>) -> Rebuilt
    decreases events.len(),
{
    if events.len() == 0 {
        state
    } else {
        rebuild_step(rebuild(state, events.drop_last()), events.last())
    }
}

/// The blocks and tests that stand in a file once each event has been written
/// out as what it stands for.
pub open spec fn written_out(events: Seq<EventView>) -> Seq<ActualView> {
    rebuild(Rebuilt { open: Seq::empty(), nodes: Seq::empty() }, events).nodes
}

/// The blocks and tests that a structure expects.
pub open spec fn forest_of(nodes: Seq<ExpectedView>) -> Seq<ActualView>
    decreases nodes,
{
    if nodes.len() == 0 {
        Seq::empty()
    } else {
        let node = nodes.last();
        forest_of(nodes.drop_last()).push(
            ActualView {
                kind: node.kind,
                name: node.name,
                line: 0,
                children: match node.kind {
                    ActualKind::Test => Seq::empty(),
                    ActualKind::Block => forest_of(node.children),
                },
            },
        )
    }
}

proof fn lemma_rebuild_concat(state: Rebuilt, a: Seq<EventView>, b: Seq<EventView>)
    ensures
        rebuild(state, a + b) == rebuild(rebuild(state, a), b),
    decreases b.len(),
{
    if b.len() == 0 {
        assert(a + b =~= a);
    } else {
        lemma_rebuild_concat(state, a, b.drop_last());
        assert((a + b).drop_last() =~= a + b.drop_last());
    }
}

proof fn lemma_rebuild_one(state: Rebuilt, e: EventView)
    ensures
        rebuild(state, seq![e]) == rebuild_step(state, e),
{
    assert(seq![e].drop_last() =~= Seq::empty());
    assert(rebuild(state, seq![e].drop_last()) == state);
}

proof fn lemma_rebuild(state: Rebuilt, nodes: Seq<ExpectedView>, depth: nat, unit: Seq<char>)
    ensures
        rebuild(state, events_of(nodes, depth, unit)) == (Rebuilt {
            open: state.open,
            nodes: state.nodes + forest_of(nodes),
        }),
    decreases nodes,
{
    if nodes.len() == 0 {
        assert(state.nodes + forest_of(nodes) =~= state.nodes);
    } else {
        let node = nodes.last();
        let front = events_of(nodes.drop_last(), depth, unit);
        let own = events_of_node(node, depth, unit);
        lemma_rebuild(state, nodes.drop_last(), depth, unit);
        lemma_rebuild_concat(state, front, own);
        let before = rebuild(state, front);
        match node.kind {
            ActualKind::Test => {
                lemma_rebuild_one(before, event_of(EventKind::Test, node, depth, unit));
            },
            ActualKind::Block => {
                let open = event_of(EventKind::Open, node, depth, unit);
                let close = event_of(EventKind::Close, node, depth, unit);
                let inner = events_of(node.children, deeper(depth), unit);
                lemma_rebuild_concat(before, seq![open] + inner, seq![close]);
                lemma_rebuild_concat(before, seq![open], inner);
                lemma_rebuild_one(before, open);
                let opened = rebuild_step(before, open);
                lemma_rebuild(opened, node.children, deeper(depth), unit);
                let filled = rebuild(opened, inner);
                assert(filled.nodes =~= forest_of(node.children));
                lemma_rebuild_one(filled, close);
                assert(filled.open.drop_last() =~= before.open);
            },
        }
        assert(rebuild(state, front + own).nodes =~= state.nodes + forest_of(nodes));
    }
}

/// Whether no name of a structure has white space around it.
pub open spec fn names_are_trimmed(nodes: Seq<ExpectedView>) -> bool
    decreases nodes,
{
    nodes.len() > 0 ==> {
        &&& names_are_trimmed(nodes.drop_last())
        &&& trimmed(nodes.last().name) == nodes.last().name
        &&& nodes.last().kind == ActualKind::Block ==> names_are_trimmed(nodes.last().children)
    }
}

proof fn lemma_forest_agrees(nodes: Seq<ExpectedView>)
    requires
        names_are_trimmed(nodes),
    ensures
        agrees(nodes, forest_of(nodes)),
    decreases nodes,
{
    lemma_forest_len(nodes);
    if nodes.len() > 0 {
        lemma_forest_agrees(nodes.drop_last());
        assert(forest_of(nodes).drop_last() =~= forest_of(nodes.drop_last()));
        if nodes.last().kind == ActualKind::Block {
            lemma_forest_agrees(nodes.last().children);
        }
    }
}

proof fn lemma_forest_len(nodes: Seq<ExpectedView>)
    ensures
        forest_of(nodes).len() == nodes.len(),
    decreases nodes.len(),
{
    if nodes.len() > 0 {
        lemma_forest_len(nodes.drop_last());
    }
}

/// Check and scaffold share their names: a file that holds what the events of
/// a scaffold stand for, each opened block, test and closed block in order, has
/// no findings against the structure that it was scaffolded from. (A check
/// takes white space off the names in a file, so a name that has some around it
/// is never found.)
pub proof fn law_scaffolds_round_trip(expected: Seq<ExpectedView>, unit: Seq<char>)
    requires
        names_are_trimmed(expected),
    ensures
        findings_of(expected, written_out(events_of(expected, 0, unit))).len() == 0,
{
    lemma_written_out(expected, unit);
    lemma_forest_agrees(expected);
    crate::check::law_no_findings_means_agreement(expected, forest_of(expected));
}

/// Whether a rule gives a text a name without white space around it: its prefix
/// has none, and it makes a title, or the text is ASCII.
pub open spec fn names_cleanly(rule: NameRuleView, text: Seq<char>) -> bool {
    (rule.add_prefix matches Some(prefix) ==> is_trimmed(prefix)) && (rule.case == Case::Verbatim
        || is_ascii_text(text))
}

/// Whether a mapping gives every node a name without white space around it.
pub open spec fn nodes_named_cleanly(nodes: Seq<SpecNodeView>, mapping: MappingView) -> bool
    decreases nodes,
{
    nodes.len() > 0 ==> {
        let last = nodes.last();
        &&& nodes_named_cleanly(nodes.drop_last(), mapping)
        &&& names_cleanly(
            match last.kind {
                NodeKind::Condition => mapping.block,
                NodeKind::Action => mapping.test,
            },
            last.text,
        )
        &&& nodes_named_cleanly(last.children, mapping)
    }
}

proof fn lemma_nodes_trimmed(nodes: Seq<SpecNodeView>, mapping: MappingView)
    requires
        nodes_named_cleanly(nodes, mapping),
    ensures
        names_are_trimmed(expected_nodes(nodes, mapping)),
    decreases nodes,
{
    if nodes.len() > 0 {
        let last = nodes.last();
        lemma_nodes_trimmed(nodes.drop_last(), mapping);
        lemma_nodes_trimmed(last.children, mapping);
        law_names_are_trimmed(
            match last.kind {
                NodeKind::Condition => mapping.block,
                NodeKind::Action => mapping.test,
            },
            last.text,
        );
        let all = expected_nodes(nodes, mapping);
        assert(all.drop_last() =~= expected_nodes(nodes.drop_last(), mapping));
    }
}

proof fn lemma_trimmed_concat(a: Seq<ExpectedView>, b: Seq<ExpectedView>)
    requires
        names_are_trimmed(a),
        names_are_trimmed(b),
    ensures
        names_are_trimmed(a + b),
    decreases b.len(),
{
    if b.len() == 0 {
        assert(a + b =~= a);
    } else {
        lemma_trimmed_concat(a, b.drop_last());
        assert((a + b).drop_last() =~= a + b.drop_last());
    }
}

proof fn lemma_trees_trimmed(trees: Seq<SpecTreeView>, mapping: MappingView)
    requires
        forall|i: int|
            0 <= i < trees.len() ==> nodes_named_cleanly((#[trigger] trees[i]).children, mapping),
    ensures
        names_are_trimmed(expected_of(trees, mapping)),
    decreases trees.len(),
{
    if trees.len() > 0 {
        let front = trees.drop_last();
        let last = trees[trees.len() - 1];
        assert forall|i: int| 0 <= i < front.len() implies nodes_named_cleanly(
            (#[trigger] front[i]).children,
            mapping,
        ) by {
            assert(front[i] == trees[i]);
        }
        lemma_trees_trimmed(front, mapping);
        lemma_nodes_trimmed(last.children, mapping);
        let before = expected_of(front, mapping);
        let children = expected_nodes(last.children, mapping);
        match mapping.root {
            RootMapping::Block => {
                lemma_trimmed(last.root);
                lemma_trimmed(trimmed(last.root));
                assert(expected_of(trees, mapping).drop_last() =~= before);
            },
            RootMapping::File => {
                lemma_trimmed_concat(before, children);
            },
        }
    }
}

proof fn lemma_written_out(expected: Seq<ExpectedView>, unit: Seq<char>)
    ensures
        written_out(events_of(expected, 0, unit)) == forest_of(expected),
{
    let start = Rebuilt { open: Seq::empty(), nodes: Seq::empty() };
    lemma_rebuild(start, expected, 0, unit);
    assert(start.nodes + forest_of(expected) =~= forest_of(expected));
}

/// Scaffolded names round-trip through a check: a file that holds what the
/// scaffold of a spec stands for has no findings against that spec, wrapper
/// blocks taken away as a check does. (A block of the spec with the name of a
/// wrapper would be taken away too.)
pub proof fn law_scaffolds_satisfy_their_spec(
    trees: Seq<SpecTreeView>,
    mapping: MappingView,
    unit: Seq<char>,
)
    requires
        forall|i: int|
            0 <= i < trees.len() ==> nodes_named_cleanly((#[trigger] trees[i]).children, mapping),
        !has_wrapper(forest_of(expected_of(trees, mapping)), mapping.wrappers),
    ensures
        ({
            let expected = expected_of(trees, mapping);
            let written = written_out(events_of(expected, 0, unit));
            findings_of(expected, unwrapped(written, mapping.wrappers)).len() == 0
        }),
{
    let expected = expected_of(trees, mapping);
    lemma_trees_trimmed(trees, mapping);
    law_scaffolds_round_trip(expected, unit);
    lemma_written_out(expected, unit);
    law_unwrapping_needs_wrappers(forest_of(expected), mapping.wrappers);
}

/// Whether two files hold the same blocks and tests with the same names, nested
/// and ordered alike; the lines that they stand on do not count.
pub open spec fn alike(a: Seq<ActualView>, b: Seq<ActualView>) -> bool
    decreases a,
{
    &&& a.len() == b.len()
    &&& a.len() > 0 ==> {
        &&& alike(a.drop_last(), b.drop_last())
        &&& a.last().kind == b.last().kind
        &&& a.last().name == b.last().name
        &&& alike(a.last().children, b.last().children)
    }
}

proof fn lemma_alike_agrees(expected: Seq<ExpectedView>, a: Seq<ActualView>, b: Seq<ActualView>)
    requires
        alike(a, b),
        agrees(expected, b),
    ensures
        agrees(expected, a),
    decreases expected,
{
    if expected.len() > 0 {
        lemma_alike_agrees(expected.drop_last(), a.drop_last(), b.drop_last());
        if expected.last().kind == ActualKind::Block {
            lemma_alike_agrees(
                expected.last().children,
                a.last().children,
                b.last().children,
            );
        }
    }
}

/// A freshly scaffolded file has no findings: where extraction gives back of a
/// rendered file, wrapper blocks taken away as a check does, the blocks and
/// tests that its events stand for, the file has nothing missing, nothing extra
/// and nothing out of order against the spec that it was scaffolded from.
pub proof fn law_fresh_scaffolds_have_no_findings(
    pack: PackView,
    trees: Seq<SpecTreeView>,
    target: Seq<char>,
    stem: Seq<char>,
    in_tests_dir: bool,
)
    requires
        forall|i: int|
            0 <= i < trees.len() ==> nodes_named_cleanly(
                (#[trigger] trees[i]).children,
                pack.manifest.mapping,
            ),
        ({
            let m = pack.manifest;
            let expected = expected_of(trees, m.mapping);
            &&& rendered(pack, expected, stem, in_tests_dir) matches Ok(text) && (extracted(
                pack,
                target,
                text,
            ) matches Ok(found) && alike(
                unwrapped(found.nodes, m.mapping.wrappers),
                written_out(events_of(expected, 0, m.indent)),
            ))
        }),
    ensures
        ({
            let m = pack.manifest;
            let expected = expected_of(trees, m.mapping);
            let text = rendered(pack, expected, stem, in_tests_dir)->Ok_0;
            let found = extracted(pack, target, text)->Ok_0;
            findings_of(expected, unwrapped(found.nodes, m.mapping.wrappers)).len() == 0
        }),
{
    let m = pack.manifest;
    let expected = expected_of(trees, m.mapping);
    let text = rendered(pack, expected, stem, in_tests_dir)->Ok_0;
    let nodes = unwrapped(extracted(pack, target, text)->Ok_0.nodes, m.mapping.wrappers);
    lemma_trees_trimmed(trees, m.mapping);
    lemma_written_out(expected, m.indent);
    lemma_forest_agrees(expected);
    lemma_alike_agrees(expected, nodes, forest_of(expected));
    crate::check::law_no_findings_means_agreement(expected, nodes);
}

proof fn lemma_events_concat(
    a: Seq<ExpectedView>,
    b: Seq<ExpectedView>,
    depth: nat,
    unit: Seq<char>,
)
    ensures
        events_of(a + b, depth, unit) == events_of(a, depth, unit) + events_of(b, depth, unit),
    decreases b.len(),
{
    if b.len() == 0 {
        assert(a + b =~= a);
        assert(events_of(a, depth, unit) + events_of(b, depth, unit) =~= events_of(a, depth, unit));
    } else {
        lemma_events_concat(a, b.drop_last(), depth, unit);
        assert((a + b).drop_last() =~= a + b.drop_last());
        assert(events_of(a + b, depth, unit) =~= events_of(a, depth, unit) + events_of(
            b,
            depth,
            unit,
        ));
    }
}

/// The events of a structure come node by node. A test is one event; a block is
/// opened, then comes what it holds, one level deeper, and then it is closed.
/// Each event has the name and the text of its node, its level, and the
/// indentation of as many units.
pub proof fn law_events_come_node_by_node(
    before: Seq<ExpectedView>,
    node: ExpectedView,
    after: Seq<ExpectedView>,
    depth: nat,
    unit: Seq<char>,
)
    requires
        depth < usize::MAX,
    ensures
        events_of(Seq::empty(), depth, unit) == Seq::<EventView>::empty(),
        ({
            let event = |kind: EventKind|
                EventView {
                    kind,
                    name: node.name,
                    text: node.text,
                    depth,
                    indent: repeated(unit, depth),
                };
            events_of(before + seq![node] + after, depth, unit) == events_of(before, depth, unit)
                + (if node.kind == ActualKind::Test {
                seq![event(EventKind::Test)]
            } else {
                seq![event(EventKind::Open)] + events_of(node.children, depth + 1, unit) + seq![
                    event(EventKind::Close),
                ]
            }) + events_of(after, depth, unit)
        }),
{
    let one = seq![node];
    lemma_events_concat(before + one, after, depth, unit);
    lemma_events_concat(before, one, depth, unit);
    assert(one.drop_last() =~= Seq::empty());
    assert(one.last() == node);
    assert(events_of(Seq::empty(), depth, unit) =~= Seq::<EventView>::empty());
    assert(events_of(one, depth, unit) =~= events_of_node(node, depth, unit));
}

/// A template sees the events in their order, each with its word, name, text,
/// level and indentation.
pub proof fn law_templates_see_the_events(events: Seq<EventView>, i: int)
    requires
        0 <= i < events.len(),
    ensures
        rows_of(events).len() == events.len(),
        ({
            let row = rows_of(events)[i];
            let e = events[i];
            &&& e.kind == EventKind::Open ==> row.kind == "open"@
            &&& e.kind == EventKind::Close ==> row.kind == "close"@
            &&& e.kind == EventKind::Test ==> row.kind == "test"@
            &&& row.name == e.name
            &&& row.text == e.text
            &&& row.depth == e.depth
            &&& row.indent == e.indent
        }),
{
}

/// A scaffolded file ends with one line feed, and has no white space before it.
pub proof fn law_scaffolds_end_with_one_line_feed(text: Seq<char>, tail: Seq<char>)
    requires
        text.len() > 0 ==> !is_white(text.last()),
        all_white(tail),
    ensures
        finished(text + tail) == text + seq!['\n'],
{
    reveal_strlit("\n");
    assert("\n"@ =~= seq!['\n']);
    if text.len() > 0 {
        lemma_end_off(text, tail);
    } else {
        assert(text + tail =~= tail);
        lemma_all_white_goes(tail);
        assert(trimmed_end(tail) =~= text);
    }
}

proof fn lemma_all_white_goes(s: Seq<char>)
    requires
        all_white(s),
    ensures
        trimmed_end(s).len() == 0,
    decreases s.len(),
{
    if s.len() > 0 {
        assert(is_white(s[s.len() - 1]));
        assert forall|i: int| 0 <= i < s.drop_last().len() implies is_white(
            #[trigger] s.drop_last()[i],
        ) by {
            assert(s.drop_last()[i] == s[i]);
        }
        lemma_all_white_goes(s.drop_last());
    }
}

/// What a template gives is the file, but for the white space at its end; what
/// it refuses is refused with its message.
pub proof fn law_rendering_keeps_what_the_template_gives(
    pack: PackView,
    expected: Seq<ExpectedView>,
    stem: Seq<char>,
    in_tests_dir: bool,
    text: Seq<char>,
    message: Seq<char>,
)
    ensures
        ({
            let given = template_output(
                pack.template,
                rows_of(events_of(expected, 0, pack.manifest.indent)),
                stem,
                in_tests_dir,
            );
            &&& given == Ok::<Seq<char>, Seq<char>>(text) ==> rendered(
                pack,
                expected,
                stem,
                in_tests_dir,
            ) == Ok::<Seq<char>, ErrorView>(trimmed_end(text) + "\n"@)
            &&& given == Err::<Seq<char>, Seq<char>>(message) ==> rendered(
                pack,
                expected,
                stem,
                in_tests_dir,
            ) == Err::<Seq<char>, ErrorView>(
                ErrorView::Template { pack: pack.manifest.name, message },
            )
        }),
{
}

/// A node that is not there yet is added at its insertion point; one that is
/// there once is left as it is, and where it is a block the same holds of what
/// it holds; one that is there more than once stops the merge. The nodes behind
/// it follow.
pub proof fn law_plans_add_what_is_not_there(
    cx: MergeView,
    expected: Seq<ExpectedView>,
    i: int,
    actual: Seq<SourceView>,
    parent: Option<(int, int)>,
    last: Option<int>,
    at: int,
    pos: int,
    indent: Seq<char>,
    text: Seq<char>,
    inner: Seq<(int, Seq<char>)>,
    rest: Seq<(int, Seq<char>)>,
)
    requires
        0 <= i < expected.len(),
    ensures
        plan_from(cx, expected, expected.len() as int, actual, parent, last) == Ok::<
            Seq<(int, Seq<char>)>,
            ErrorView,
        >(Seq::empty()),
        match_count(actual, expected[i].kind, expected[i].name) > 1 ==> plan_from(
            cx,
            expected,
            i,
            actual,
            parent,
            last,
        ) is Err,
        match_count(actual, expected[i].kind, expected[i].name) == 0 && insertion_of(
            cx.source,
            actual,
            last,
            parent,
            cx.unit,
        ) == Ok::<(int, Seq<char>), ErrorView>((pos, indent)) && added_lines(
            cx,
            expected[i],
            indent,
        ) == Ok::<Seq<char>, ErrorView>(text) && plan_from(
            cx,
            expected,
            i + 1,
            actual,
            parent,
            last,
        ) == Ok::<Seq<(int, Seq<char>)>, ErrorView>(rest) ==> plan_from(
            cx,
            expected,
            i,
            actual,
            parent,
            last,
        ) == Ok::<Seq<(int, Seq<char>)>, ErrorView>(seq![(pos, text)] + rest),
        match_count(actual, expected[i].kind, expected[i].name) == 1 && first_match(
            actual,
            expected[i].kind,
            expected[i].name,
            0,
        ) == Some(at) && (last matches Some(last) ==> last < at) && (if expected[i].kind
            == ActualKind::Block {
            plan_from(
                cx,
                expected[i].children,
                0,
                actual[at].children,
                Some((actual[at].start as int, actual[at].end as int)),
                None,
            ) == Ok::<Seq<(int, Seq<char>)>, ErrorView>(inner)
        } else {
            inner.len() == 0
        }) && plan_from(cx, expected, i + 1, actual, parent, Some(at)) == Ok::<
            Seq<(int, Seq<char>)>,
            ErrorView,
        >(rest) ==> plan_from(cx, expected, i, actual, parent, last) == Ok::<
            Seq<(int, Seq<char>)>,
            ErrorView,
        >(inner + rest),
{
    if inner.len() == 0 {
        assert(inner =~= Seq::empty());
    }
}

/// A file is merged into only where that is safe: not where it has syntax
/// errors or constructs that no tree can represent, nor where its line ends
/// differ from each other.
pub proof fn law_unsafe_files_are_not_merged_into(
    pack: PackView,
    expected: Seq<ExpectedView>,
    target: Seq<char>,
    source: Seq<char>,
    stem: Seq<char>,
    in_tests_dir: bool,
    found: ExtractionView,
)
    requires
        extracted(pack, target, source) == Ok::<ExtractionView, ErrorView>(found),
    ensures
        found.has_parse_errors || found.unsupported.len() > 0 || (has_crlf(source)
            && has_plain_newline(source)) ==> merged(
            pack,
            expected,
            target,
            source,
            stem,
            in_tests_dir,
        ) is Err,
        merged(pack, expected, target, source, stem, in_tests_dir) matches Ok(text) ==> {
            let nodes = in_chars(source, found.source_nodes)->0;
            let root = root_of(nodes, pack.manifest.mapping.wrappers)->Ok_0;
            let plan = plan_from(
                MergeView {
                    pack,
                    source,
                    stem,
                    in_tests_dir,
                    unit: indent_unit(source, nodes, 0),
                    crlf: has_crlf(source),
                },
                expected,
                0,
                match root {
                    Some(at) => nodes[at].children,
                    None => nodes,
                },
                match root {
                    Some(at) => Some((nodes[at].start as int, nodes[at].end as int)),
                    None => None,
                },
                None,
            );
            plan is Ok && text == spliced(source, plan->Ok_0, has_crlf(source), 0)
        },
{
}

} // verus!
